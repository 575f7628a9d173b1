//! Decoding of the `torrent` element of a feed item from a stream of XML events.
//!
//! The events come from a `quick_xml::Reader` over a document held in memory. What such a
//! reader has yet to deliver is described as a sequence of [`stream::Token`]s, and every
//! contract of this crate is stated over that sequence:
//!
//! - [`stream`] holds the tokens and what it means for an element to be closed;
//! - [`reader`] holds the calls into `quick_xml`, each with the claim that is made of it;
//! - [`text`] gathers the text of one element;
//! - [`torrent`] holds the torrent and its decoder, [`Torrent::from_xml`];
//! - [`laws`] proves what holds of every decoding.
//!
//! The crate is to be built with `quick_xml` as it is without features. Its `encoding`
//! feature makes the reader decode names and text by the encoding that a document declares;
//! the contracts here take them for UTF-8. Features are shared by all that is built
//! together, so a program that turns that feature on turns it on for this crate too, and
//! what [`reader`] claims of decoding is then no longer true.
pub mod error;
pub mod laws;
pub mod reader;
pub mod stream;
pub mod text;
pub mod torrent;

pub use error::DecodeError;
pub use torrent::Torrent;
