use quick_xml::events::Event;
use quick_xml::Reader;
use rss_torrent::torrent::Field;
use rss_torrent::{DecodeError, Torrent};

/// A token of the stream, as the contracts of the library describe it. A fault holds its
/// error as text.
#[derive(Clone, Debug, PartialEq)]
enum Tok {
    Start(Vec<u8>),
    End(Vec<u8>),
    Empty(Vec<u8>),
    Text(Vec<u8>),
    CData(Vec<u8>),
    Other,
    Fault(String),
}

/// What decoding should come to, worked out from the tokens alone: the torrent or the
/// error, and the index of the first token that is left to read.
#[derive(Debug, PartialEq)]
enum Expected {
    Closed(Torrent, usize),
    Truncated,
    Fault(String, usize),
}

fn shown(error: quick_xml::Error) -> String {
    format!("{:?}", error)
}

/// The tokens that a copy of the reader delivers, up to the end of the input.
fn pending(reader: &Reader<&[u8]>) -> Vec<Tok> {
    let mut copy = reader.clone();
    let mut buf = Vec::new();
    let mut tokens = Vec::new();
    loop {
        let token = match copy.read_event_into(&mut buf) {
            Ok(Event::Eof) => return tokens,
            Ok(Event::Start(e)) => Tok::Start(e.name().as_ref().to_vec()),
            Ok(Event::End(e)) => Tok::End(e.name().as_ref().to_vec()),
            Ok(Event::Empty(e)) => Tok::Empty(e.name().as_ref().to_vec()),
            Ok(Event::Text(e)) => Tok::Text(e.to_vec()),
            Ok(Event::CData(e)) => Tok::CData(e.to_vec()),
            Ok(_) => Tok::Other,
            Err(error) => Tok::Fault(shown(error)),
        };
        tokens.push(token);
        buf.clear();
    }
}

/// The error for an element left open.
fn unclosed(name: &[u8]) -> String {
    match std::str::from_utf8(name) {
        Ok(name) => shown(quick_xml::Error::IllFormed(
            quick_xml::errors::IllFormedError::MissingEndTag(name.to_string()),
        )),
        Err(error) => {
            shown(quick_xml::Error::from(quick_xml::encoding::EncodingError::from(error)))
        }
    }
}

/// The index behind the closing tag of `name`, searched from `at`; or the error and the
/// index of what is left to read.
fn closing(tokens: &[Tok], mut at: usize, name: &[u8]) -> Result<usize, (String, usize)> {
    let mut depth = 0usize;
    while at < tokens.len() {
        match &tokens[at] {
            Tok::Fault(error) => return Err((error.clone(), at + 1)),
            Tok::Start(n) if n == name => depth += 1,
            Tok::End(n) if n == name => {
                if depth == 0 {
                    return Ok(at + 1);
                }
                depth -= 1;
            }
            _ => {}
        }
        at += 1;
    }
    Err((unclosed(name), at))
}

fn text_of(bytes: &[u8]) -> Result<String, String> {
    match std::str::from_utf8(bytes) {
        Ok(text) => Ok(text.to_string()),
        Err(error) => Err(shown(quick_xml::Error::from(quick_xml::encoding::EncodingError::from(
            error,
        )))),
    }
}

fn plain(text: &str) -> Result<String, String> {
    match quick_xml::escape::unescape(text) {
        Ok(plain) => Ok(plain.into_owned()),
        Err(error) => Err(shown(quick_xml::Error::from(error))),
    }
}

/// The text gathered from `at` on, and the index behind the element.
fn gather(tokens: &[Tok], mut at: usize) -> Result<(String, usize), (String, usize)> {
    let mut content = String::new();
    while at < tokens.len() {
        match &tokens[at] {
            Tok::End(_) => return Ok((content, at + 1)),
            Tok::Fault(error) => return Err((error.clone(), at + 1)),
            Tok::Start(name) => at = closing(tokens, at + 1, name)?,
            Tok::Text(raw) => {
                let piece = text_of(raw).and_then(|escaped| plain(&escaped));
                content.push_str(&piece.map_err(|error| (error, at + 1))?);
                at += 1;
            }
            Tok::CData(raw) => {
                content.push_str(&text_of(raw).map_err(|error| (error, at + 1))?);
                at += 1;
            }
            Tok::Empty(_) | Tok::Other => at += 1,
        }
    }
    Ok((content, at))
}

fn value(content: &str) -> Option<String> {
    let kept = content.trim();
    if kept.is_empty() {
        None
    } else {
        Some(kept.to_string())
    }
}

fn field_of(name: &str) -> Option<Field> {
    match name {
        "link" => Some(Field::Link),
        "contentLength" => Some(Field::ContentLength),
        "pubDate" => Some(Field::PubDate),
        _ => None,
    }
}

/// What the children come to.
fn scan(tokens: &[Tok]) -> Expected {
    let mut children: Vec<(Field, Option<String>)> = Vec::new();
    let mut at = 0;
    while at < tokens.len() {
        match &tokens[at] {
            Tok::End(_) => {
                let last = |field: Field| {
                    children.iter().rev().find(|c| c.0 == field).and_then(|c| c.1.clone())
                };
                let torrent = Torrent {
                    link: last(Field::Link),
                    content_length: last(Field::ContentLength),
                    pub_date: last(Field::PubDate),
                };
                return Expected::Closed(torrent, at + 1);
            }
            Tok::Fault(error) => return Expected::Fault(error.clone(), at + 1),
            Tok::Start(raw) => {
                let name = match text_of(raw) {
                    Ok(name) => name,
                    Err(error) => return Expected::Fault(error, at + 1),
                };
                match field_of(&name) {
                    Some(field) => match gather(tokens, at + 1) {
                        Ok((content, next)) => {
                            children.push((field, value(&content)));
                            at = next;
                        }
                        Err((error, next)) => return Expected::Fault(error, next),
                    },
                    None => match closing(tokens, at + 1, raw) {
                        Ok(next) => at = next,
                        Err((error, next)) => return Expected::Fault(error, next),
                    },
                }
            }
            Tok::Empty(raw) => {
                let name = match text_of(raw) {
                    Ok(name) => name,
                    Err(error) => return Expected::Fault(error, at + 1),
                };
                if let Some(field) = field_of(&name) {
                    children.push((field, None));
                }
                at += 1;
            }
            Tok::Text(_) | Tok::CData(_) | Tok::Other => at += 1,
        }
    }
    Expected::Truncated
}

/// Decodes from `reader` and holds the outcome against the tokens that were pending.
fn agrees(reader: &mut Reader<&[u8]>, document: &[u8]) {
    let before = pending(reader);
    let unread = reader.get_ref().len();
    let result = Torrent::from_xml(reader);
    let text = String::from_utf8_lossy(document);
    assert!(reader.get_ref().len() <= unread);
    match (scan(&before), result) {
        (Expected::Closed(torrent, used), Ok(found)) => {
            assert_eq!(found, torrent, "{:?}", text);
            assert_eq!(&pending(reader)[..], &before[used..], "{:?}", text);
        }
        (Expected::Truncated, Err(DecodeError::UnexpectedEndOfInput)) => {
            assert_eq!(pending(reader), vec![], "{:?}", text);
        }
        (Expected::Fault(error, used), Err(DecodeError::Xml(found))) => {
            assert_eq!(shown(found), error, "{:?}", text);
            assert_eq!(&pending(reader)[..], &before[used..], "{:?}", text);
        }
        (expected, found) => panic!("{:?}: expected {:?}, found {:?}", text, expected, found),
    }
}

const PIECES: [&[u8]; 22] = [
    b"<link>",
    b"</link>",
    b"<link/>",
    b"<pubDate>",
    b"</pubDate>",
    b"<x>",
    b"</x>",
    b"<x/>",
    b"<pubDate/>",
    b"<\xff/>",
    b"</torrent>",
    b"<torrent>",
    b"a",
    b" ",
    b"&lt;",
    b"&no;",
    b"<![CDATA[ c&d ]]>",
    b"<!-- n -->",
    b"<?p i?>",
    b"\xff",
    b"<",
    b"<\xff>",
];

/// Every document made of up to `len` pieces, each decoded with the given settings.
fn all_documents(len: usize, trim: bool, expand: bool, names: bool, unmatched: bool) {
    let mut choice = vec![0usize; len];
    loop {
        for used in 0..=len {
            if used < len && choice[used..].iter().any(|&c| c != 0) {
                continue;
            }
            let mut document: Vec<u8> = Vec::new();
            for &c in &choice[..used] {
                document.extend_from_slice(PIECES[c]);
            }
            let mut reader = Reader::from_reader(document.as_slice());
            reader.config_mut().trim_text(trim);
            reader.config_mut().expand_empty_elements = expand;
            reader.config_mut().check_end_names = names;
            reader.config_mut().allow_unmatched_ends = unmatched;
            agrees(&mut reader, &document);
        }
        let mut at = 0;
        loop {
            if at == len {
                return;
            }
            choice[at] += 1;
            if choice[at] < PIECES.len() {
                break;
            }
            choice[at] = 0;
            at += 1;
        }
    }
}

#[test]
fn outcome_follows_from_the_pending_tokens() {
    all_documents(4, false, false, true, false);
}

#[test]
fn outcome_follows_from_the_pending_tokens_when_text_is_trimmed() {
    all_documents(4, true, false, true, false);
}

#[test]
fn outcome_follows_from_the_pending_tokens_when_empty_elements_are_expanded() {
    all_documents(4, false, true, true, false);
}

#[test]
fn outcome_follows_from_the_pending_tokens_when_end_names_are_not_held_to_match() {
    all_documents(4, false, false, false, true);
}

#[test]
fn outcome_follows_from_the_pending_tokens_with_every_setting_changed() {
    all_documents(4, true, true, false, true);
}

#[test]
fn outcome_follows_from_the_pending_tokens_inside_an_open_element() {
    let tails: [&[u8]; 10] = [
        b"<x><x><link>a</link></x></x><link>b</link></torrent>rest",
        b"<x><x></x><link>a</link></torrent>",
        b"<link>a<x>b<x>c</x>d</x>e</link><link> </link></torrent><next/>",
        b"<link>a<link>b</link>c</link></torrent>",
        b"<pubDate>one</pubDate><x><pubDate>two</pubDate>",
        b"<contentLength>1</contentLength><contentLength>&#50;</contentLength></torrent></item>",
        b"<link>a</link><link/></torrent>",
        b"<link>a<link/>b</link><x><link/></x><pubDate/><pubDate>d</pubDate></torrent>",
        b"<link>a</link><x><y></z></x><link>b</link></torrent>",
        b"<link>a&bad;</link><link>b</link></torrent>",
    ];
    for tail in tails {
        let mut document = b"<item><torrent>".to_vec();
        document.extend_from_slice(tail);
        let mut reader = Reader::from_reader(document.as_slice());
        assert!(matches!(reader.read_event().unwrap(), Event::Start(_)));
        assert!(matches!(reader.read_event().unwrap(), Event::Start(_)));
        agrees(&mut reader, &document);
    }
}
