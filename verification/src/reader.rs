//! The boundary to `quick_xml`: the reader, what it is taken to hold, and the calls into it.
//!
//! Nothing in this file is proved. Each function below makes one call into `quick_xml` (or
//! `std`) and states what that call does; the rest of the crate is verified against these
//! statements.
//!
//! The statements hold of `quick_xml` built without its `encoding` and `escape-html`
//! features. Features are shared by everything built together: a program that turns on
//! `encoding` changes what `Decoder::decode` does, and [`decode`] is then no longer true.
use quick_xml::events::Event;
use quick_xml::name::QName;
use quick_xml::Reader;
use vstd::prelude::*;

use crate::stream::{closing, decoded, Token};
use crate::text::trimmed;

verus! {

#[verifier::external_type_specification]
#[verifier::external_body]
#[verifier::reject_recursive_types(R)]
pub struct ExReader<R>(Reader<R>);

#[verifier::external_type_specification]
#[verifier::external_body]
pub struct ExXmlError(quick_xml::Error);

/// An event as the reader hands it out, with its bytes copied.
pub enum XmlEvent {
    /// An opening tag, with its name.
    Start(Vec<u8>),
    /// A closing tag, with its name.
    End(Vec<u8>),
    /// A self-closing tag, with its name.
    Empty(Vec<u8>),
    /// Character data, still escaped.
    Text(Vec<u8>),
    /// The content of a CDATA section.
    CData(Vec<u8>),
    /// A comment, declaration, processing instruction or doctype.
    Other,
    /// The end of the input.
    Eof,
}

impl XmlEvent {
    /// The token that this event stands for; the end of input is no token.
    pub open spec fn token(self) -> Option<Token> {
        match self {
            XmlEvent::Start(name) => Some(Token::Start(name@)),
            XmlEvent::End(name) => Some(Token::End(name@)),
            XmlEvent::Empty(name) => Some(Token::Empty(name@)),
            XmlEvent::Text(raw) => Some(Token::Text(raw@)),
            XmlEvent::CData(raw) => Some(Token::CData(raw@)),
            XmlEvent::Other => Some(Token::Other),
            XmlEvent::Eof => None,
        }
    }
}

/// The most unread input, in bytes, from which an element is decoded: the largest number
/// that `quick_xml` can count nested markup to.
pub const INPUT_LIMIT: usize = 0x7fff_ffff;

/// What the reader has yet to deliver: what successive reads would return, one token for
/// each event and one for each error, up to the end of the input.
pub uninterp spec fn pending(reader: Reader<&[u8]>) -> Seq<Token>;

/// The number of bytes of the input that the reader has not consumed yet.
pub uninterp spec fn unread(reader: Reader<&[u8]>) -> nat;

/// The error with which `Reader::read_to_end_into` fails where the input ends before the
/// element `name` is closed.
pub uninterp spec fn unclosed(name: Seq<u8>) -> quick_xml::Error;

/// The error with which `Decoder::decode` fails on bytes that are no valid UTF-8.
pub uninterp spec fn decode_error(bytes: Seq<u8>) -> quick_xml::Error;

/// What `quick_xml::escape::unescape` makes of a text: the text with its character and
/// predefined entity references resolved, or the error for a reference that is malformed
/// or unknown.
pub uninterp spec fn unescaped(text: Seq<char>) -> Result<Seq<char>, quick_xml::Error>;

/// `Reader::read_event_into`, with the event's bytes copied out of the buffer.
///
/// Claims that the call takes the first pending token and leaves the others pending: it
/// returns the event that the token stands for, or fails with the error of a fault; and
/// that it reports the end of input exactly when nothing is pending, and stays there. It
/// never gives back input that was consumed. `read_event_into` counts the `<` inside a
/// doctype in an `i32`; each takes a byte of input, so the count stays in range while no
/// more than [`INPUT_LIMIT`] bytes are unread.
#[verifier::external_body]
pub(crate) fn next_event(reader: &mut Reader<&[u8]>, buf: &mut Vec<u8>) -> (result: Result<
    XmlEvent,
    quick_xml::Error,
>)
    requires
        unread(*old(reader)) <= INPUT_LIMIT,
    ensures
        unread(*final(reader)) <= unread(*old(reader)),
        pending(*old(reader)).len() == 0 ==> (result matches Ok(XmlEvent::Eof) && pending(
            *final(reader),
        ).len() == 0),
        pending(*old(reader)).len() > 0 ==> pending(*final(reader)) == pending(
            *old(reader),
        ).skip(1) && match result {
            Ok(event) => event.token() == Some(pending(*old(reader))[0]),
            Err(error) => pending(*old(reader))[0] == Token::Fault(error),
        },
{
    match reader.read_event_into(buf)? {
        Event::Start(e) => Ok(XmlEvent::Start(e.name().as_ref().to_vec())),
        Event::End(e) => Ok(XmlEvent::End(e.name().as_ref().to_vec())),
        Event::Empty(e) => Ok(XmlEvent::Empty(e.name().as_ref().to_vec())),
        Event::Text(e) => Ok(XmlEvent::Text(e.into_inner().into_owned())),
        Event::CData(e) => Ok(XmlEvent::CData(e.into_inner().into_owned())),
        Event::Comment(_) | Event::Decl(_) | Event::PI(_) | Event::DocType(_) => Ok(
            XmlEvent::Other,
        ),
        Event::Eof => Ok(XmlEvent::Eof),
    }
}

/// `Reader::read_to_end_into`: reads on until the element `name`, whose opening tag was
/// just read, is closed.
///
/// Claims that the call succeeds exactly where [`closing`] finds the closing tag, and then
/// leaves pending what follows that tag; that it stops at the first fault, with the
/// fault's error and what follows the fault left pending; and that at the end of input it
/// fails with [`unclosed`] of the name. `read_to_end_into` counts the open elements of the
/// same name in an `i32`; each of them takes at least one byte of input, so the count stays
/// in range while no more than [`INPUT_LIMIT`] bytes are unread.
#[verifier::external_body]
pub(crate) fn skip(name: &[u8], reader: &mut Reader<&[u8]>) -> (result: Result<
    (),
    quick_xml::Error,
>)
    requires
        unread(*old(reader)) <= INPUT_LIMIT,
    ensures
        unread(*final(reader)) <= unread(*old(reader)),
        match result {
            Ok(_) => closing(pending(*old(reader)), name@, 0) matches Ok(rest) && rest
                == pending(*final(reader)),
            Err(error) => closing(pending(*old(reader)), name@, 0) matches Err(f) && f.error
                == error && f.rest == pending(*final(reader)),
        },
        pending(*old(reader)).len() == 0 ==> (result matches Err(error) && error == unclosed(
            name@,
        )),
{
    reader.read_to_end_into(QName(name), &mut Vec::new())?;
    Ok(())
}

/// `Decoder::decode` on the reader's decoder, which is `std::str::from_utf8` as long as
/// `quick_xml` is built without its `encoding` feature.
///
/// Claims that the call succeeds exactly on valid UTF-8 and returns the text that the bytes
/// encode, and that the error depends on the bytes alone.
#[verifier::external_body]
pub(crate) fn decode(bytes: &[u8], reader: &Reader<&[u8]>) -> (result: Result<
    String,
    quick_xml::Error,
>)
    ensures
        match result {
            Ok(text) => decoded(bytes@) == Some(text@),
            Err(error) => decoded(bytes@) is None && error == decode_error(bytes@),
        },
{
    Ok(reader.decoder().decode(bytes)?.into_owned())
}

/// `quick_xml::escape::unescape`. Claims only that the outcome, text or error, depends on
/// the text alone.
#[verifier::external_body]
pub(crate) fn unescape(text: &str) -> (result: Result<String, quick_xml::Error>)
    ensures
        match result {
            Ok(plain) => unescaped(text@) matches Ok(p) && p == plain@,
            Err(error) => unescaped(text@) matches Err(e) && e == error,
        },
{
    Ok(quick_xml::escape::unescape(text)?.into_owned())
}

/// `str::trim`. Claims that the call returns the part of the text between its first and its
/// last character that is no white space, where white space is what Unicode lists as
/// `White_Space`.
#[verifier::external_body]
pub(crate) fn trim(text: &str) -> (result: &str)
    ensures
        result@ == trimmed(text@),
{
    text.trim()
}

/// The length of the slice that `Reader::get_ref` shows: the input not consumed yet.
#[verifier::external_body]
pub(crate) fn unread_len(reader: &Reader<&[u8]>) -> (n: usize)
    ensures
        n == unread(*reader),
{
    reader.get_ref().len()
}

} // verus!
