//! The torrent descriptor of a feed item, and its decoder.
use quick_xml::Reader;
use vstd::prelude::*;

use crate::error::DecodeError;
use crate::reader::{
    decode, decode_error, next_event, pending, skip, unread, unread_len, XmlEvent, INPUT_LIMIT,
};
use crate::stream::{closing, decoded, lemma_closing_leaves_suffix, Token};
use crate::text::{
    element_text, gather, lemma_gather_leaves_suffix, opt_view, same_text, text_value,
};

verus! {

/// The fields of a torrent, each named by the child element that fills it.
#[derive(Clone, Copy, Debug, PartialEq, Eq, Structural)]
pub enum Field {
    /// `link`
    Link,
    /// `contentLength`
    ContentLength,
    /// `pubDate`
    PubDate,
}

impl Field {
    /// The field that a child element of the given name fills, if any.
    pub open spec fn named(name: Seq<char>) -> Option<Field> {
        if name == "link"@ {
            Some(Field::Link)
        } else if name == "contentLength"@ {
            Some(Field::ContentLength)
        } else if name == "pubDate"@ {
            Some(Field::PubDate)
        } else {
            None
        }
    }

    /// Finds the field that a child element of the given name fills.
    pub fn from_name(name: &str) -> (field: Option<Field>)
        ensures
            field == Field::named(name@),
    {
        if same_text(name, "link") {
            Some(Field::Link)
        } else if same_text(name, "contentLength") {
            Some(Field::ContentLength)
        } else if same_text(name, "pubDate") {
            Some(Field::PubDate)
        } else {
            None
        }
    }
}

/// A torrent in a feed item.
#[derive(Debug, Clone, PartialEq)]
pub struct Torrent {
    /// The URL of the torrent.
    pub link: Option<String>,
    /// The length of the torrent.
    pub content_length: Option<String>,
    /// The publication date of the torrent.
    pub pub_date: Option<String>,
}

/// A torrent as the contracts see it: each field absent or a sequence of characters.
pub struct TorrentView {
    pub link: Option<Seq<char>>,
    pub content_length: Option<Seq<char>>,
    pub pub_date: Option<Seq<char>>,
}

impl TorrentView {
    /// The torrent with every field absent.
    pub open spec fn empty() -> TorrentView {
        TorrentView { link: None, content_length: None, pub_date: None }
    }

    /// The value of one field.
    pub open spec fn get(self, field: Field) -> Option<Seq<char>> {
        match field {
            Field::Link => self.link,
            Field::ContentLength => self.content_length,
            Field::PubDate => self.pub_date,
        }
    }

    /// This torrent with one field replaced.
    pub open spec fn with(self, field: Field, text: Option<Seq<char>>) -> TorrentView {
        match field {
            Field::Link => TorrentView { link: text, ..self },
            Field::ContentLength => TorrentView { content_length: text, ..self },
            Field::PubDate => TorrentView { pub_date: text, ..self },
        }
    }
}

impl View for Torrent {
    type V = TorrentView;

    open spec fn view(&self) -> TorrentView {
        TorrentView {
            link: opt_view(self.link),
            content_length: opt_view(self.content_length),
            pub_date: opt_view(self.pub_date),
        }
    }
}

impl Default for Torrent {
    fn default() -> (torrent: Torrent)
        ensures
            torrent@ == TorrentView::empty(),
    {
        Torrent { link: None, content_length: None, pub_date: None }
    }
}

/// A child element that fills a field, with the value it gives.
pub struct Child {
    pub field: Field,
    pub text: Option<Seq<char>>,
}

/// What reading one child, or one token that is no element, comes to.
pub enum Step {
    /// The token is the closing tag of the element; the tokens behind it.
    Close { rest: Seq<Token> },
    /// Reading failed: the error, and the tokens that the reader is left with.
    Fail { error: quick_xml::Error, rest: Seq<Token> },
    /// The child was read, or the token passed over: the child, where it fills a field, and
    /// the tokens behind it.
    Pass { child: Option<Child>, rest: Seq<Token> },
}

/// Reads what stands first in `s`, which is not empty, inside an element:
/// - an element with the name of a field is a child with the text it holds;
/// - a self-closing tag with the name of a field is a child without text;
/// - an element of any other name is passed over whole, whatever it holds;
/// - a self-closing tag of any other name, and a token that is no tag, is passed over;
/// - a name that does not decode, a text that cannot be read and an element that is never
///   closed are failures, as is a fault.
pub open spec fn step(s: Seq<Token>) -> Step
    recommends
        s.len() > 0,
{
    let rest = s.skip(1);
    match s[0] {
        Token::End(_) => Step::Close { rest },
        Token::Fault(error) => Step::Fail { error, rest },
        Token::Start(raw) => match decoded(raw) {
            None => Step::Fail { error: decode_error(raw), rest },
            Some(name) => match Field::named(name) {
                Some(field) => match gather(rest) {
                    Ok(g) => Step::Pass {
                        child: Some(Child { field, text: text_value(g.content) }),
                        rest: g.rest,
                    },
                    Err(f) => Step::Fail { error: f.error, rest: f.rest },
                },
                None => match closing(rest, raw, 0) {
                    Ok(after) => Step::Pass { child: None, rest: after },
                    Err(f) => Step::Fail { error: f.error, rest: f.rest },
                },
            },
        },
        Token::Empty(raw) => match decoded(raw) {
            None => Step::Fail { error: decode_error(raw), rest },
            Some(name) => match Field::named(name) {
                Some(field) => Step::Pass { child: Some(Child { field, text: None }), rest },
                None => Step::Pass { child: None, rest },
            },
        },
        Token::Text(_) | Token::CData(_) | Token::Other => Step::Pass { child: None, rest },
    }
}

/// What [`step`] leaves to read is the end of what it was given, and shorter.
pub proof fn lemma_step_leaves_suffix(s: Seq<Token>)
    requires
        s.len() > 0,
    ensures
        step(s) matches Step::Pass { child, rest } ==> rest.len() < s.len() && rest == s.skip(
            s.len() - rest.len(),
        ),
        step(s) matches Step::Close { rest } ==> rest == s.skip(1),
{
    let tail = s.skip(1);
    lemma_gather_leaves_suffix(tail);
    if let Token::Start(raw) = s[0] {
        lemma_closing_leaves_suffix(tail, raw, 0);
    }
    if let Step::Pass { child, rest } = step(s) {
        assert(rest =~= s.skip(s.len() - rest.len()));
    }
}

/// The children that a step yields: one or none.
pub open spec fn one(child: Option<Child>) -> Seq<Child> {
    match child {
        Some(c) => seq![c],
        None => Seq::empty(),
    }
}

/// What reading the children of an element comes to.
pub enum Scan {
    /// The closing tag was reached: the children that fill a field, in order, and the
    /// tokens that follow the closing tag.
    Closed { children: Seq<Child>, rest: Seq<Token> },
    /// The input ended before the closing tag.
    Truncated,
    /// Reading stopped at a failure: the error, and the tokens that the reader is left with.
    Fault { error: quick_xml::Error, rest: Seq<Token> },
}

/// `tail` with the children `done` in front of its own.
pub open spec fn continued(done: Seq<Child>, tail: Scan) -> Scan {
    match tail {
        Scan::Closed { children, rest } => Scan::Closed { children: done + children, rest },
        Scan::Truncated => Scan::Truncated,
        Scan::Fault { error, rest } => Scan::Fault { error, rest },
    }
}

/// Reads the children of the element that `s` starts inside of, [`step`] by step, up to
/// its closing tag, to the end of the input or to the first failure.
pub open spec fn scan(s: Seq<Token>) -> Scan
    decreases s.len(),
{
    if s.len() == 0 {
        Scan::Truncated
    } else {
        match step(s) {
            Step::Close { rest } => Scan::Closed { children: Seq::empty(), rest },
            Step::Fail { error, rest } => Scan::Fault { error, rest },
            Step::Pass { child, rest } => {
                proof {
                    lemma_step_leaves_suffix(s);
                }
                continued(one(child), scan(rest))
            },
        }
    }
}

/// Children read in two runs are the children of the two runs joined.
pub proof fn lemma_continued_twice(done: Seq<Child>, more: Seq<Child>, tail: Scan)
    ensures
        continued(done, continued(more, tail)) == continued(done + more, tail),
{
    if let Scan::Closed { children, rest } = tail {
        assert(done + (more + children) =~= (done + more) + children);
    }
}

/// The value that the last of the children filling `field` gives it; absent where no child
/// fills it.
pub open spec fn last_text(children: Seq<Child>, field: Field) -> Option<Seq<char>>
    decreases children.len(),
{
    if children.len() == 0 {
        None
    } else if children.last().field == field {
        children.last().text
    } else {
        last_text(children.drop_last(), field)
    }
}

/// The torrent that a sequence of children describes.
pub open spec fn record_of(children: Seq<Child>) -> TorrentView {
    TorrentView {
        link: last_text(children, Field::Link),
        content_length: last_text(children, Field::ContentLength),
        pub_date: last_text(children, Field::PubDate),
    }
}

/// Whether `result`, with `after` left pending, is what decoding an element comes to when
/// `before` is pending.
pub open spec fn reads_torrent(
    before: Seq<Token>,
    result: Result<Torrent, DecodeError>,
    after: Seq<Token>,
) -> bool {
    match scan(before) {
        Scan::Closed { children, rest } => result matches Ok(torrent) && torrent@ == record_of(
            children,
        ) && after == rest,
        Scan::Truncated => result matches Err(DecodeError::UnexpectedEndOfInput) && after.len()
            == 0,
        Scan::Fault { error, rest } => result matches Err(DecodeError::Xml(found)) && found
            == error && after == rest,
    }
}

/// One more child changes the one field that it fills.
pub proof fn lemma_record_push(children: Seq<Child>, child: Child)
    ensures
        record_of(children.push(child)) == record_of(children).with(child.field, child.text),
{
    let longer = children.push(child);
    assert(longer.drop_last() =~= children);
    assert(longer.last() == child);
}

impl Torrent {
    /// Gives one field a new value, whatever it held.
    pub fn assign(&mut self, field: Field, text: Option<String>)
        ensures
            final(self)@ == old(self)@.with(field, opt_view(text)),
    {
        match field {
            Field::Link => {
                self.link = text;
            },
            Field::ContentLength => {
                self.content_length = text;
            },
            Field::PubDate => {
                self.pub_date = text;
            },
        }
    }

    /// Builds a torrent from the children of the element whose opening tag was just read.
    ///
    /// Each child named `link`, `contentLength` or `pubDate` gives its text to the field of
    /// that name, a later child replacing what an earlier one gave; a child without text,
    /// a self-closing tag among them, leaves the field absent. A child of any other name is
    /// passed over whole. On success the reader is left behind the closing tag of the
    /// element. Where the input ends first the error is
    /// [`DecodeError::UnexpectedEndOfInput`]; where the reader fails, its error is handed on
    /// as it came and nothing more is read.
    ///
    /// The reader may have no more than [`INPUT_LIMIT`] bytes left to read;
    /// [`Torrent::try_from_xml`] tests that before it decodes.
    pub fn from_xml(reader: &mut Reader<&[u8]>) -> (result: Result<Torrent, DecodeError>)
        requires
            unread(*old(reader)) <= INPUT_LIMIT,
        ensures
            unread(*final(reader)) <= unread(*old(reader)),
            reads_torrent(pending(*old(reader)), result, pending(*final(reader))),
    {
        let mut torrent = Torrent::default();
        let mut buf: Vec<u8> = Vec::new();
        let ghost mut done: Seq<Child> = Seq::empty();
        proof {
            lemma_continued_twice(done, done, scan(pending(*reader)));
            assert(done + done =~= done);
        }
        loop
            invariant_except_break
                scan(pending(*old(reader))) == continued(done, scan(pending(*reader))),
            invariant
                unread(*reader) <= unread(*old(reader)),
                unread(*old(reader)) <= INPUT_LIMIT,
                torrent@ == record_of(done),
            ensures
                scan(pending(*old(reader))) == (Scan::Closed {
                    children: done,
                    rest: pending(*reader),
                }),
            decreases pending(*reader).len(),
        {
            let ghost before = pending(*reader);
            let ghost mut child: Option<Child> = None;
            let event = match next_event(reader, &mut buf) {
                Ok(event) => event,
                Err(e) => {
                    return Err(DecodeError::Xml(e));
                },
            };
            match event {
                XmlEvent::Start(raw) => {
                    let name = match decode(raw.as_slice(), reader) {
                        Ok(name) => name,
                        Err(e) => {
                            return Err(DecodeError::Xml(e));
                        },
                    };
                    match Field::from_name(name.as_str()) {
                        Some(field) => {
                            let text = match element_text(reader) {
                                Ok(text) => text,
                                Err(e) => {
                                    return Err(e);
                                },
                            };
                            proof {
                                child = Some(Child { field, text: opt_view(text) });
                            }
                            torrent.assign(field, text);
                        },
                        None => {
                            match skip(raw.as_slice(), reader) {
                                Ok(_) => {},
                                Err(e) => {
                                    return Err(DecodeError::Xml(e));
                                },
                            }
                        },
                    }
                },
                XmlEvent::Empty(raw) => {
                    let name = match decode(raw.as_slice(), reader) {
                        Ok(name) => name,
                        Err(e) => {
                            return Err(DecodeError::Xml(e));
                        },
                    };
                    match Field::from_name(name.as_str()) {
                        Some(field) => {
                            proof {
                                child = Some(Child { field, text: None });
                            }
                            torrent.assign(field, None);
                        },
                        None => {},
                    }
                },
                XmlEvent::End(_) => {
                    assert(done + Seq::<Child>::empty() =~= done);
                    break ;
                },
                XmlEvent::Eof => {
                    return Err(DecodeError::UnexpectedEndOfInput);
                },
                XmlEvent::Text(_) | XmlEvent::CData(_) | XmlEvent::Other => {},
            }
            proof {
                lemma_step_leaves_suffix(before);
                assert(step(before) == Step::Pass { child, rest: pending(*reader) });
                lemma_continued_twice(done, one(child), scan(pending(*reader)));
                match child {
                    Some(c) => {
                        assert(done + one(child) =~= done.push(c));
                        lemma_record_push(done, c);
                    },
                    None => {
                        assert(done + one(child) =~= done);
                    },
                }
                done = done + one(child);
            }
            buf.clear();
        }
        Ok(torrent)
    }

    /// Builds a torrent as [`Torrent::from_xml`] does where no more than [`INPUT_LIMIT`]
    /// bytes of the input are unread; reads nothing and returns `None` where more are.
    pub fn try_from_xml(reader: &mut Reader<&[u8]>) -> (result: Option<
        Result<Torrent, DecodeError>,
    >)
        ensures
            result is Some <==> unread(*old(reader)) <= INPUT_LIMIT,
            match result {
                Some(outcome) => reads_torrent(
                    pending(*old(reader)),
                    outcome,
                    pending(*final(reader)),
                ) && unread(*final(reader)) <= unread(*old(reader)),
                None => *final(reader) == *old(reader),
            },
    {
        if unread_len(reader) <= INPUT_LIMIT {
            Some(Torrent::from_xml(reader))
        } else {
            None
        }
    }
}

} // verus!
