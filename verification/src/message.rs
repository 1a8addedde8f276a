//! The messages that clients and the server exchange, and their bytes.

use vstd::prelude::*;
use vstd::slice::{slice_subrange, slice_to_vec};
use crate::format::{
    decode_request, decode_response, encode_id_run, encode_ids, encode_request, encode_response,
    encode_text, ids_fit, lemma_request_round_trip, lemma_response_round_trip, parse_id,
    parse_ids, parse_text, text_fits, word_at, words_of, RequestModel, ResponseModel, TAG_FAILURE,
    TAG_PUBLISH, TAG_RETRIEVE, TAG_SEARCH,
};
use crate::text::string_from_utf8;
use crate::wire::{be_value, get_u64, put_u64};

verus! {

/// A request from a client to the server.
#[derive(Debug, PartialEq)]
pub enum Request {
    /// Add the document `doc` to the archive.
    Publish { doc: String },
    /// Search the archive for the word `word`.
    Search { word: String },
    /// Retrieve the document with the identifier `id`.
    Retrieve { id: usize },
}

/// A response from the server to a client.
#[derive(Debug, PartialEq)]
pub enum Response {
    /// The document was added and has this identifier.
    PublishSuccess(usize),
    /// The identifiers of the documents that contain the word.
    SearchSuccess(Vec<usize>),
    /// The document that was asked for.
    RetrieveSuccess(String),
    /// The request could not be served.
    Failure,
}

impl View for Request {
    type V = RequestModel;

    open spec fn view(&self) -> RequestModel {
        match self {
            Request::Publish { doc } => RequestModel::Publish { doc: doc@ },
            Request::Search { word } => RequestModel::Search { word: word@ },
            Request::Retrieve { id } => RequestModel::Retrieve { id: *id },
        }
    }
}

impl View for Response {
    type V = ResponseModel;

    open spec fn view(&self) -> ResponseModel {
        match self {
            Response::PublishSuccess(id) => ResponseModel::PublishSuccess(*id),
            Response::SearchSuccess(ids) => ResponseModel::SearchSuccess(ids@),
            Response::RetrieveSuccess(doc) => ResponseModel::RetrieveSuccess(doc@),
            Response::Failure => ResponseModel::Failure,
        }
    }
}

/// Appends a text: its length in bytes, then its UTF-8 encoding.
fn put_text(out: &mut Vec<u8>, s: &str)
    ensures
        final(out)@ == old(out)@ + encode_text(s@),
        text_fits(s@),
{
    let ghost before = out@;
    let raw = s.as_bytes();
    put_u64(out, raw.len() as u64);
    out.extend_from_slice(raw);
    assert(out@ =~= before + encode_text(s@));
}

/// Appends a list of identifiers: their count, then each of them.
fn put_ids(out: &mut Vec<u8>, ids: &Vec<usize>)
    ensures
        final(out)@ == old(out)@ + encode_ids(ids@),
        ids_fit(ids@),
{
    let ghost before = out@;
    put_u64(out, ids.len() as u64);
    let ghost counted = out@;
    let mut i: usize = 0;
    while i < ids.len()
        invariant
            0 <= i <= ids.len(),
            out@ == counted + encode_id_run(ids@.take(i as int)),
        decreases ids.len() - i,
    {
        assert(ids@.take(i + 1).drop_last() =~= ids@.take(i as int));
        put_u64(out, ids[i] as u64);
        i += 1;
    }
    assert(ids@.take(ids.len() as int) =~= ids@);
    assert(out@ =~= before + encode_ids(ids@));
}

/// Reads the identifier that starts at `at`.
fn take_id(bytes: &[u8], at: usize) -> (r: Option<usize>)
    requires
        at <= bytes@.len(),
    ensures
        r == parse_id(bytes@.skip(at as int)),
{
    let ghost b = bytes@.skip(at as int);
    if bytes.len() - at < 8 {
        return None;
    }
    let x = get_u64(bytes, at);
    assert(bytes@.subrange(at as int, at + 8) =~= b.take(8));
    assert(be_value(b.take(8)) == be_value(b));
    if x > usize::MAX as u64 {
        None
    } else {
        Some(x as usize)
    }
}

/// Reads the text that starts at `at`.
fn take_text(bytes: &[u8], at: usize) -> (r: Option<String>)
    requires
        at <= bytes@.len(),
    ensures
        match r {
            Some(s) => parse_text(bytes@.skip(at as int)) == Some(s@),
            None => parse_text(bytes@.skip(at as int)) is None,
        },
{
    let ghost b = bytes@.skip(at as int);
    if bytes.len() - at < 8 {
        return None;
    }
    let n = get_u64(bytes, at);
    assert(bytes@.subrange(at as int, at + 8) =~= b.take(8));
    assert(be_value(b.take(8)) == be_value(b));
    if n > (bytes.len() - at - 8) as u64 {
        return None;
    }
    let from = at + 8;
    let raw = slice_to_vec(slice_subrange(bytes, from, from + n as usize));
    assert(raw@ =~= b.subrange(8, 8 + n));
    string_from_utf8(raw)
}

/// Reads the list of identifiers that starts at `at`.
fn take_ids(bytes: &[u8], at: usize) -> (r: Option<Vec<usize>>)
    requires
        at <= bytes@.len(),
    ensures
        match r {
            Some(ids) => parse_ids(bytes@.skip(at as int)) == Some(ids@),
            None => parse_ids(bytes@.skip(at as int)) is None,
        },
{
    let ghost b = bytes@.skip(at as int);
    if bytes.len() - at < 8 {
        return None;
    }
    let n = get_u64(bytes, at);
    assert(bytes@.subrange(at as int, at + 8) =~= b.take(8));
    assert(be_value(b.take(8)) == be_value(b));
    let from = at + 8;
    let ghost run = b.skip(8);
    if n > ((bytes.len() - from) / 8) as u64 {
        return None;
    }
    let count = n as usize;
    let mut ids: Vec<usize> = Vec::new();
    let mut i: usize = 0;
    assert(run =~= bytes@.skip(from as int));
    while i < count
        invariant
            0 <= i <= count,
            from + 8 * count <= bytes@.len() <= usize::MAX,
            b == bytes@.skip(at as int),
            b.len() >= 8,
            be_value(b) == count,
            run == b.skip(8),
            run == bytes@.skip(from as int),
            ids@ == words_of(run, i as nat),
            forall|k: int| 0 <= k < i ==> #[trigger] word_at(run, k) <= usize::MAX,
        decreases count - i,
    {
        let x = get_u64(bytes, from + 8 * i);
        assert(bytes@.subrange(from + 8 * i, from + 8 * i + 8) =~= run.subrange(8 * i, 8 * i + 8));
        if x > usize::MAX as u64 {
            assert(word_at(run, i as int) > usize::MAX);
            return None;
        }
        ids.push(x as usize);
        assert(ids@ =~= words_of(run, (i + 1) as nat));
        i += 1;
    }
    Some(ids)
}

impl Request {
    /// The bytes of this request: its tag, then its field.
    ///
    /// Decoding the bytes gives the request back.
    pub fn to_bytes(&self) -> (bytes: Vec<u8>)
        ensures
            bytes@ == encode_request(self@),
            decode_request(bytes@) == Some(self@),
    {
        let mut bytes: Vec<u8> = Vec::new();
        match self {
            Request::Publish { doc } => {
                bytes.push(TAG_PUBLISH);
                put_text(&mut bytes, doc.as_str());
            },
            Request::Search { word } => {
                bytes.push(TAG_SEARCH);
                put_text(&mut bytes, word.as_str());
            },
            Request::Retrieve { id } => {
                bytes.push(TAG_RETRIEVE);
                put_u64(&mut bytes, *id as u64);
            },
        }
        proof {
            assert(bytes@ =~= encode_request(self@));
            lemma_request_round_trip(self@, Seq::empty());
            assert(encode_request(self@) + Seq::<u8>::empty() =~= encode_request(self@));
        }
        bytes
    }

    /// Reads one request from the front of `bytes`; what follows it is not
    /// looked at.
    ///
    /// Nothing is returned when the bytes end before the request does, when
    /// the tag is unknown, or when a text is not UTF-8.
    pub fn from_bytes(bytes: &[u8]) -> (r: Option<Request>)
        ensures
            match r {
                Some(request) => decode_request(bytes@) == Some(request@),
                None => decode_request(bytes@) is None,
            },
    {
        if bytes.len() == 0 {
            return None;
        }
        let tag = bytes[0];
        if tag == TAG_PUBLISH {
            match take_text(bytes, 1) {
                Some(doc) => Some(Request::Publish { doc }),
                None => None,
            }
        } else if tag == TAG_SEARCH {
            match take_text(bytes, 1) {
                Some(word) => Some(Request::Search { word }),
                None => None,
            }
        } else if tag == TAG_RETRIEVE {
            match take_id(bytes, 1) {
                Some(id) => Some(Request::Retrieve { id }),
                None => None,
            }
        } else {
            None
        }
    }
}

impl Response {
    /// The bytes of this response: its tag, then its field.
    ///
    /// Decoding the bytes gives the response back.
    pub fn to_bytes(&self) -> (bytes: Vec<u8>)
        ensures
            bytes@ == encode_response(self@),
            decode_response(bytes@) == Some(self@),
    {
        let mut bytes: Vec<u8> = Vec::new();
        match self {
            Response::PublishSuccess(id) => {
                bytes.push(TAG_PUBLISH);
                put_u64(&mut bytes, *id as u64);
            },
            Response::SearchSuccess(ids) => {
                bytes.push(TAG_SEARCH);
                put_ids(&mut bytes, ids);
            },
            Response::RetrieveSuccess(doc) => {
                bytes.push(TAG_RETRIEVE);
                put_text(&mut bytes, doc.as_str());
            },
            Response::Failure => {
                bytes.push(TAG_FAILURE);
            },
        }
        proof {
            assert(bytes@ =~= encode_response(self@));
            lemma_response_round_trip(self@, Seq::empty());
            assert(encode_response(self@) + Seq::<u8>::empty() =~= encode_response(self@));
        }
        bytes
    }

    /// Reads one response from the front of `bytes`; what follows it is not
    /// looked at.
    ///
    /// Nothing is returned when the bytes end before the response does, when
    /// the tag is unknown, or when a text is not UTF-8.
    pub fn from_bytes(bytes: &[u8]) -> (r: Option<Response>)
        ensures
            match r {
                Some(response) => decode_response(bytes@) == Some(response@),
                None => decode_response(bytes@) is None,
            },
    {
        if bytes.len() == 0 {
            return None;
        }
        let tag = bytes[0];
        if tag == TAG_PUBLISH {
            match take_id(bytes, 1) {
                Some(id) => Some(Response::PublishSuccess(id)),
                None => None,
            }
        } else if tag == TAG_SEARCH {
            match take_ids(bytes, 1) {
                Some(ids) => Some(Response::SearchSuccess(ids)),
                None => None,
            }
        } else if tag == TAG_RETRIEVE {
            match take_text(bytes, 1) {
                Some(doc) => Some(Response::RetrieveSuccess(doc)),
                None => None,
            }
        } else if tag == TAG_FAILURE {
            Some(Response::Failure)
        } else {
            None
        }
    }
}

} // verus!
