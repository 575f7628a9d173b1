//! The stream of tokens that a reader delivers, as the contracts of this crate see it.
use vstd::prelude::*;
use vstd::utf8::*;

use crate::reader::unclosed;

verus! {

/// One step of the stream that a reader delivers.
pub enum Token {
    /// An opening tag, with its name as it stands in the input.
    Start(Seq<u8>),
    /// A closing tag, with its name as it stands in the input.
    End(Seq<u8>),
    /// A self-closing tag, with its name as it stands in the input.
    Empty(Seq<u8>),
    /// Character data between tags, still escaped.
    Text(Seq<u8>),
    /// The content of a CDATA section.
    CData(Seq<u8>),
    /// A comment, declaration, processing instruction or doctype.
    Other,
    /// A place where the reader reports the given error instead of an event.
    Fault(quick_xml::Error),
}

/// A failed read: the error, and the tokens that the reader is left with.
pub struct Failure {
    pub error: quick_xml::Error,
    pub rest: Seq<Token>,
}

/// The text that `bytes` encode in UTF-8, or `None` where they are no valid UTF-8.
pub open spec fn decoded(bytes: Seq<u8>) -> Option<Seq<char>> {
    if valid_utf8(bytes) {
        Some(decode_utf8(bytes))
    } else {
        None
    }
}

/// The tokens that follow the closing tag of the element `name`, where `s` starts inside
/// that element, `depth` elements of the same name deep. Only opening and closing tags of
/// that very name count. Where a fault comes before that closing tag, the failure is the
/// fault's error with what follows the fault; where the input ends before it, the failure
/// is the error for an element left open, with nothing left.
pub open spec fn closing(s: Seq<Token>, name: Seq<u8>, depth: nat) -> Result<Seq<Token>, Failure>
    decreases s.len(),
{
    if s.len() == 0 {
        Err(Failure { error: unclosed(name), rest: s })
    } else {
        let rest = s.skip(1);
        match s[0] {
            Token::Fault(error) => Err(Failure { error, rest }),
            Token::Start(n) => closing(
                rest,
                name,
                if n == name {
                    depth + 1
                } else {
                    depth
                },
            ),
            Token::End(n) => if n != name {
                closing(rest, name, depth)
            } else if depth == 0 {
                Ok(rest)
            } else {
                closing(rest, name, (depth - 1) as nat)
            },
            _ => closing(rest, name, depth),
        }
    }
}

/// What [`closing`] leaves behind the closing tag is the end of what it was given, and
/// shorter by the closing tag at least.
pub proof fn lemma_closing_leaves_suffix(s: Seq<Token>, name: Seq<u8>, depth: nat)
    ensures
        closing(s, name, depth) matches Ok(rest) ==> rest.len() < s.len() && rest == s.skip(
            s.len() - rest.len(),
        ),
    decreases s.len(),
{
    if s.len() > 0 {
        let inner = match s[0] {
            Token::Start(n) => if n == name {
                depth + 1
            } else {
                depth
            },
            Token::End(n) => if n == name && depth > 0 {
                (depth - 1) as nat
            } else {
                depth
            },
            _ => depth,
        };
        lemma_closing_leaves_suffix(s.skip(1), name, inner);
        if let Ok(rest) = closing(s, name, depth) {
            assert(rest =~= s.skip(s.len() - rest.len()));
        }
    }
}

} // verus!
