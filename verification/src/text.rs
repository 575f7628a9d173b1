//! The text content of an element.
use quick_xml::Reader;
use vstd::prelude::*;
use vstd::utf8::{decode_utf8, encode_utf8, encode_utf8_decode_utf8};

use crate::error::DecodeError;
use crate::reader::{
    decode, decode_error, next_event, pending, skip, trim, unescape, unescaped, unread, XmlEvent,
    INPUT_LIMIT,
};
use crate::stream::{closing, decoded, lemma_closing_leaves_suffix, Failure, Token};

verus! {

/// The text gathered from an element, and the tokens that follow the element.
pub struct Gathered {
    pub content: Seq<char>,
    pub rest: Seq<Token>,
}

/// The characters that a text token stands for: its bytes decoded, then unescaped; or the
/// error of the step that fails.
pub open spec fn text_piece(raw: Seq<u8>) -> Result<Seq<char>, quick_xml::Error> {
    match decoded(raw) {
        Some(text) => unescaped(text),
        None => Err(decode_error(raw)),
    }
}

/// The characters that a CDATA token stands for: its bytes decoded.
pub open spec fn cdata_piece(raw: Seq<u8>) -> Result<Seq<char>, quick_xml::Error> {
    match decoded(raw) {
        Some(text) => Ok(text),
        None => Err(decode_error(raw)),
    }
}

/// What reading on from a piece of text comes to: where the piece failed, its error with
/// `rest` left to read; else `piece` in front of what `tail` gathered, or the failure of
/// `tail`.
pub open spec fn prepend(
    piece: Result<Seq<char>, quick_xml::Error>,
    rest: Seq<Token>,
    tail: Result<Gathered, Failure>,
) -> Result<Gathered, Failure> {
    match piece {
        Err(error) => Err(Failure { error, rest }),
        Ok(p) => match tail {
            Ok(g) => Ok(Gathered { content: p + g.content, rest: g.rest }),
            Err(f) => Err(f),
        },
    }
}

/// The text of the element that `s` starts inside of: its text and CDATA tokens joined in
/// order, with every child element left out whole. The element ends at its closing tag, or
/// with the input. Reading stops at the first failure: a fault, a token that does not
/// decode, or a child element that is never closed.
pub open spec fn gather(s: Seq<Token>) -> Result<Gathered, Failure>
    decreases s.len(),
{
    if s.len() == 0 {
        Ok(Gathered { content: Seq::empty(), rest: s })
    } else {
        let rest = s.skip(1);
        match s[0] {
            Token::End(_) => Ok(Gathered { content: Seq::empty(), rest }),
            Token::Fault(error) => Err(Failure { error, rest }),
            Token::Start(name) => match closing(rest, name, 0) {
                Ok(after) => {
                    proof {
                        lemma_closing_leaves_suffix(rest, name, 0);
                    }
                    gather(after)
                },
                Err(f) => Err(f),
            },
            Token::Text(raw) => prepend(text_piece(raw), rest, gather(rest)),
            Token::CData(raw) => prepend(cdata_piece(raw), rest, gather(rest)),
            Token::Empty(_) | Token::Other => gather(rest),
        }
    }
}

/// What [`gather`] leaves is the end of what it was given.
pub proof fn lemma_gather_leaves_suffix(s: Seq<Token>)
    ensures
        gather(s) matches Ok(g) ==> g.rest.len() <= s.len() && g.rest == s.skip(
            s.len() - g.rest.len(),
        ),
    decreases s.len(),
{
    if s.len() == 0 {
        assert(s =~= s.skip(0));
    } else {
        let tail = s.skip(1);
        match s[0] {
            Token::Start(name) => {
                lemma_closing_leaves_suffix(tail, name, 0);
                if let Ok(after) = closing(tail, name, 0) {
                    lemma_gather_leaves_suffix(after);
                }
            },
            Token::End(_) | Token::Fault(_) => {},
            _ => {
                lemma_gather_leaves_suffix(tail);
            },
        }
        if let Ok(g) = gather(s) {
            assert(g.rest =~= s.skip(s.len() - g.rest.len()));
        }
    }
}

/// Whether a character is white space: one of those that Unicode lists as `White_Space`.
pub open spec fn is_white_space(c: char) -> bool {
    let code = c as u32;
    ||| 0x09 <= code <= 0x0d
    ||| code == 0x20
    ||| code == 0x85
    ||| code == 0xa0
    ||| code == 0x1680
    ||| 0x2000 <= code <= 0x200a
    ||| code == 0x2028
    ||| code == 0x2029
    ||| code == 0x202f
    ||| code == 0x205f
    ||| code == 0x3000
}

/// A text without the white space at its start and at its end: the part between its first
/// and its last character that is no white space, and empty where it has none.
pub open spec fn trimmed(text: Seq<char>) -> Seq<char>
    decreases text.len(),
{
    if text.len() == 0 {
        text
    } else if is_white_space(text[0]) {
        trimmed(text.skip(1))
    } else if is_white_space(text.last()) {
        trimmed(text.drop_last())
    } else {
        text
    }
}

/// The value of a field whose element holds `content`: the content trimmed, and absent
/// where nothing is left.
pub open spec fn text_value(content: Seq<char>) -> Option<Seq<char>> {
    if trimmed(content).len() == 0 {
        None
    } else {
        Some(trimmed(content))
    }
}

/// The view of an optional string.
pub open spec fn opt_view(text: Option<String>) -> Option<Seq<char>> {
    match text {
        Some(t) => Some(t@),
        None => None,
    }
}

/// Tells whether two texts are the same, by their bytes.
pub fn same_text(a: &str, b: &str) -> (same: bool)
    ensures
        same == (a@ == b@),
{
    let x = a.as_bytes();
    let y = b.as_bytes();
    proof {
        encode_utf8_decode_utf8(a@);
        encode_utf8_decode_utf8(b@);
    }
    if x.len() != y.len() {
        return false;
    }
    let mut i: usize = 0;
    while i < x.len()
        invariant
            i <= x.len(),
            x.len() == y.len(),
            x@ == encode_utf8(a@),
            y@ == encode_utf8(b@),
            decode_utf8(x@) == a@,
            decode_utf8(y@) == b@,
            forall|j: int| 0 <= j < i ==> x@[j] == y@[j],
        decreases x.len() - i,
    {
        if x[i] != y[i] {
            return false;
        }
        i += 1;
    }
    assert(x@ =~= y@);
    true
}

/// Reads the text of the element whose opening tag was just read, through its closing tag.
pub(crate) fn element_text(reader: &mut Reader<&[u8]>) -> (result: Result<
    Option<String>,
    DecodeError,
>)
    requires
        unread(*old(reader)) <= INPUT_LIMIT,
    ensures
        unread(*final(reader)) <= unread(*old(reader)),
        match gather(pending(*old(reader))) {
            Ok(g) => result matches Ok(text) && opt_view(text) == text_value(g.content)
                && pending(*final(reader)) == g.rest,
            Err(f) => result matches Err(DecodeError::Xml(error)) && error == f.error
                && pending(*final(reader)) == f.rest,
        },
{
    let mut content = String::new();
    let mut buf: Vec<u8> = Vec::new();
    loop
        invariant_except_break
            gather(pending(*old(reader))) == prepend(
                Ok(content@),
                pending(*reader),
                gather(pending(*reader)),
            ),
        invariant
            unread(*reader) <= unread(*old(reader)),
            unread(*old(reader)) <= INPUT_LIMIT,
        ensures
            gather(pending(*old(reader))) == Ok::<Gathered, Failure>(
                Gathered { content: content@, rest: pending(*reader) },
            ),
        decreases pending(*reader).len(),
    {
        let ghost before = pending(*reader);
        let event = match next_event(reader, &mut buf) {
            Ok(event) => event,
            Err(e) => {
                return Err(DecodeError::Xml(e));
            },
        };
        match event {
            XmlEvent::Start(name) => {
                proof {
                    lemma_closing_leaves_suffix(before.skip(1), name@, 0);
                }
                match skip(name.as_slice(), reader) {
                    Ok(_) => {},
                    Err(e) => {
                        return Err(DecodeError::Xml(e));
                    },
                }
            },
            XmlEvent::Text(raw) => {
                let escaped = match decode(raw.as_slice(), reader) {
                    Ok(text) => text,
                    Err(e) => {
                        return Err(DecodeError::Xml(e));
                    },
                };
                let plain = match unescape(escaped.as_str()) {
                    Ok(text) => text,
                    Err(e) => {
                        return Err(DecodeError::Xml(e));
                    },
                };
                proof {
                    let tail = gather(pending(*reader));
                    if tail is Ok {
                        assert((content@ + plain@) + tail->Ok_0.content =~= content@ + (plain@
                            + tail->Ok_0.content));
                    }
                }
                content.append(plain.as_str());
            },
            XmlEvent::CData(raw) => {
                let plain = match decode(raw.as_slice(), reader) {
                    Ok(text) => text,
                    Err(e) => {
                        return Err(DecodeError::Xml(e));
                    },
                };
                proof {
                    let tail = gather(pending(*reader));
                    if tail is Ok {
                        assert((content@ + plain@) + tail->Ok_0.content =~= content@ + (plain@
                            + tail->Ok_0.content));
                    }
                }
                content.append(plain.as_str());
            },
            XmlEvent::End(_) | XmlEvent::Eof => {
                assert(content@ + Seq::<char>::empty() =~= content@);
                assert(before.len() == 0 ==> pending(*reader) =~= before);
                break ;
            },
            XmlEvent::Empty(_) | XmlEvent::Other => {},
        }
        buf.clear();
    }
    let kept = trim(content.as_str());
    if kept.is_empty() {
        Ok(None)
    } else {
        Ok(Some(kept.to_owned()))
    }
}

} // verus!
