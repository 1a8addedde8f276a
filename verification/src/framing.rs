//! How much of a message is still to come.
//!
//! A message does not say where it ends before its length field was read.
//! A reader on a stream therefore reads in steps: it asks how many bytes
//! are needed after those it has, reads them, and asks again, until none
//! are needed. It then holds a whole message, or bytes that begin none,
//! and has read nothing that follows them.

use vstd::prelude::*;
use crate::format::{
    decode_request, decode_response, encode_id_run, encode_ids, encode_request, encode_response,
    encode_text, ids_fit, lemma_be_value_of_front, lemma_be_value_of_written, lemma_id_run_len,
    parse_ids, text_fits, word_at, RequestModel, ResponseModel, TAG_PUBLISH, TAG_RETRIEVE,
    TAG_SEARCH,
};
use crate::message::{Request, Response};
use crate::wire::{be_bytes, be_value, get_u64};

verus! {

/// The bytes needed after `b` for an integer to be whole.
pub open spec fn id_needs(b: Seq<u8>) -> nat {
    if b.len() < 8 {
        (8 - b.len()) as nat
    } else {
        0
    }
}

/// The bytes needed after `b` for a text: the rest of the length field,
/// or else the rest of what the length field announces.
pub open spec fn text_needs(b: Seq<u8>) -> nat {
    if b.len() < 8 {
        (8 - b.len()) as nat
    } else if b.len() - 8 < be_value(b) {
        (be_value(b) - (b.len() - 8)) as nat
    } else {
        0
    }
}

/// The bytes needed after `b` for a list of identifiers: the rest of the
/// count, or else the rest of the identifiers that the count announces.
pub open spec fn ids_need(b: Seq<u8>) -> nat {
    if b.len() < 8 {
        (8 - b.len()) as nat
    } else if b.len() - 8 < 8 * be_value(b) {
        (8 * be_value(b) - (b.len() - 8)) as nat
    } else {
        0
    }
}

/// The bytes needed after `b` before a request can be decoded, or be known
/// to be none: the tag, then what the fields of a request with this tag
/// need. After an unknown tag nothing is needed.
pub open spec fn request_needs(b: Seq<u8>) -> nat {
    if b.len() == 0 {
        1
    } else if b[0] == TAG_PUBLISH || b[0] == TAG_SEARCH {
        text_needs(b.skip(1))
    } else if b[0] == TAG_RETRIEVE {
        id_needs(b.skip(1))
    } else {
        0
    }
}

/// The bytes needed after `b` before a response can be decoded, or be
/// known to be none.
pub open spec fn response_needs(b: Seq<u8>) -> nat {
    if b.len() == 0 {
        1
    } else if b[0] == TAG_PUBLISH {
        id_needs(b.skip(1))
    } else if b[0] == TAG_SEARCH {
        ids_need(b.skip(1))
    } else if b[0] == TAG_RETRIEVE {
        text_needs(b.skip(1))
    } else {
        0
    }
}

/// The smaller of a number of bytes and the largest number that a buffer
/// can hold.
pub open spec fn capped(n: nat) -> nat {
    if n <= usize::MAX {
        n
    } else {
        usize::MAX as nat
    }
}

/// While bytes are needed, nothing is decoded.
pub proof fn lemma_request_incomplete(b: Seq<u8>)
    requires
        request_needs(b) > 0,
    ensures
        decode_request(b) is None,
{
}

/// While bytes are needed, nothing is decoded.
pub proof fn lemma_response_incomplete(b: Seq<u8>)
    requires
        response_needs(b) > 0,
    ensures
        decode_response(b) is None,
{
}

/// Once no bytes are needed, what follows does not matter: the bytes at
/// hand decide what is decoded.
pub proof fn lemma_request_complete(b: Seq<u8>, rest: Seq<u8>)
    requires
        request_needs(b) == 0,
    ensures
        decode_request(b + rest) == decode_request(b),
        request_needs(b + rest) == 0,
{
    let all = b + rest;
    let (f, g) = (b.skip(1), all.skip(1));
    assert(g =~= f + rest);
    if f.len() >= 8 {
        assert(g.take(8) =~= f.take(8));
        lemma_be_value_of_front(g, f);
        let n = be_value(f) as int;
        if f.len() - 8 >= n {
            assert(g.subrange(8, 8 + n) =~= f.subrange(8, 8 + n));
        }
    }
}

/// The `i`-th group of eight bytes is the same in a run and in a longer one.
proof fn lemma_word_at_of_front(f: Seq<u8>, rest: Seq<u8>, i: int)
    requires
        0 <= i,
        8 * i + 8 <= f.len(),
    ensures
        word_at(f + rest, i) == word_at(f, i),
{
    assert((f + rest).subrange(8 * i, 8 * i + 8) =~= f.subrange(8 * i, 8 * i + 8));
}

/// Once no bytes are needed, what follows does not matter: the bytes at
/// hand decide what is decoded.
pub proof fn lemma_response_complete(b: Seq<u8>, rest: Seq<u8>)
    requires
        response_needs(b) == 0,
    ensures
        decode_response(b + rest) == decode_response(b),
        response_needs(b + rest) == 0,
{
    let all = b + rest;
    let (f, g) = (b.skip(1), all.skip(1));
    assert(g =~= f + rest);
    if f.len() >= 8 {
        assert(g.take(8) =~= f.take(8));
        lemma_be_value_of_front(g, f);
        let n = be_value(f) as int;
        if b[0] == TAG_RETRIEVE && f.len() - 8 >= n {
            assert(g.subrange(8, 8 + n) =~= f.subrange(8, 8 + n));
        }
        if b[0] == TAG_SEARCH && f.len() - 8 >= 8 * n {
            assert(g.skip(8) =~= f.skip(8) + rest);
            assert forall|i: int| 0 <= i < n implies word_at(g.skip(8), i) == word_at(
                f.skip(8),
                i,
            ) by {
                lemma_word_at_of_front(f.skip(8), rest, i);
            }
            assert(parse_ids(g) =~= parse_ids(f));
        }
    }
}

/// Bytes that arrive short of what is needed lower the need by their
/// number.
pub proof fn lemma_request_progress(b: Seq<u8>, more: Seq<u8>)
    requires
        more.len() < request_needs(b),
    ensures
        request_needs(b + more) == request_needs(b) - more.len(),
{
    let all = b + more;
    if b.len() > 0 {
        let (f, g) = (b.skip(1), all.skip(1));
        assert(g =~= f + more);
        if f.len() >= 8 {
            assert(g.take(8) =~= f.take(8));
            lemma_be_value_of_front(g, f);
        }
    } else {
        assert(more.len() == 0);
        assert(all =~= b);
    }
}

/// Bytes that arrive short of what is needed lower the need by their
/// number.
pub proof fn lemma_response_progress(b: Seq<u8>, more: Seq<u8>)
    requires
        more.len() < response_needs(b),
    ensures
        response_needs(b + more) == response_needs(b) - more.len(),
{
    let all = b + more;
    if b.len() > 0 {
        let (f, g) = (b.skip(1), all.skip(1));
        assert(g =~= f + more);
        if f.len() >= 8 {
            assert(g.take(8) =~= f.take(8));
            lemma_be_value_of_front(g, f);
        }
    } else {
        assert(more.len() == 0);
        assert(all =~= b);
    }
}

/// A reader that follows the needs reads a request to its end and no
/// further: part of a request needs bytes, never more than the request
/// still has, and the whole request needs none.
pub proof fn lemma_request_needs_of_encoded(r: RequestModel, n: int)
    requires
        r.fits(),
        0 <= n <= encode_request(r).len(),
    ensures
        n < encode_request(r).len() ==> 0 < request_needs(encode_request(r).take(n))
            <= encode_request(r).len() - n,
        request_needs(encode_request(r)) == 0,
{
    let whole = encode_request(r);
    let cut = whole.take(n);
    match r {
        RequestModel::Publish { doc } => {
            lemma_text_needs_of_encoded(doc, n - 1);
            lemma_text_needs_of_encoded(doc, encode_text(doc).len() as int);
            assert(whole.skip(1) =~= encode_text(doc));
            assert(encode_text(doc).take(encode_text(doc).len() as int) =~= encode_text(doc));
            if n > 0 {
                assert(cut.skip(1) =~= encode_text(doc).take(n - 1));
            }
        },
        RequestModel::Search { word } => {
            lemma_text_needs_of_encoded(word, n - 1);
            lemma_text_needs_of_encoded(word, encode_text(word).len() as int);
            assert(whole.skip(1) =~= encode_text(word));
            assert(encode_text(word).take(encode_text(word).len() as int) =~= encode_text(word));
            if n > 0 {
                assert(cut.skip(1) =~= encode_text(word).take(n - 1));
            }
        },
        RequestModel::Retrieve { id } => {
            assert(whole.skip(1) =~= be_bytes(id as u64));
            if n > 0 {
                assert(cut.skip(1) =~= be_bytes(id as u64).take(n - 1));
            }
        },
    }
}

/// Part of a text needs bytes, never more than the text still has, and
/// the whole text needs none.
proof fn lemma_text_needs_of_encoded(s: Seq<char>, n: int)
    requires
        text_fits(s),
    ensures
        0 <= n < encode_text(s).len() ==> 0 < text_needs(encode_text(s).take(n)) <= encode_text(
            s,
        ).len() - n,
        n == encode_text(s).len() ==> text_needs(encode_text(s).take(n)) == 0,
{
    let whole = encode_text(s);
    let body = vstd::utf8::encode_utf8(s);
    lemma_be_value_of_written(body.len() as u64, body);
    if 8 <= n <= whole.len() {
        let cut = whole.take(n);
        assert(cut.take(8) =~= whole.take(8));
        lemma_be_value_of_front(cut, whole);
    }
}

/// Part of a list of identifiers needs bytes, never more than the list
/// still has, and the whole list needs none.
proof fn lemma_ids_need_of_encoded(ids: Seq<usize>, n: int)
    requires
        ids_fit(ids),
    ensures
        0 <= n < encode_ids(ids).len() ==> 0 < ids_need(encode_ids(ids).take(n)) <= encode_ids(
            ids,
        ).len() - n,
        n == encode_ids(ids).len() ==> ids_need(encode_ids(ids).take(n)) == 0,
{
    let whole = encode_ids(ids);
    lemma_id_run_len(ids);
    lemma_be_value_of_written(ids.len() as u64, encode_id_run(ids));
    if 8 <= n <= whole.len() {
        let cut = whole.take(n);
        assert(cut.take(8) =~= whole.take(8));
        lemma_be_value_of_front(cut, whole);
    }
}

/// A reader that follows the needs reads a response to its end and no
/// further: part of a response needs bytes, never more than the response
/// still has, and the whole response needs none.
pub proof fn lemma_response_needs_of_encoded(r: ResponseModel, n: int)
    requires
        r.fits(),
        0 <= n <= encode_response(r).len(),
    ensures
        n < encode_response(r).len() ==> 0 < response_needs(encode_response(r).take(n))
            <= encode_response(r).len() - n,
        response_needs(encode_response(r)) == 0,
{
    let whole = encode_response(r);
    let cut = whole.take(n);
    match r {
        ResponseModel::PublishSuccess(id) => {
            assert(whole.skip(1) =~= be_bytes(id as u64));
            if n > 0 {
                assert(cut.skip(1) =~= be_bytes(id as u64).take(n - 1));
            }
        },
        ResponseModel::SearchSuccess(ids) => {
            lemma_ids_need_of_encoded(ids, n - 1);
            lemma_ids_need_of_encoded(ids, encode_ids(ids).len() as int);
            assert(whole.skip(1) =~= encode_ids(ids));
            assert(encode_ids(ids).take(encode_ids(ids).len() as int) =~= encode_ids(ids));
            if n > 0 {
                assert(cut.skip(1) =~= encode_ids(ids).take(n - 1));
            }
        },
        ResponseModel::RetrieveSuccess(doc) => {
            lemma_text_needs_of_encoded(doc, n - 1);
            lemma_text_needs_of_encoded(doc, encode_text(doc).len() as int);
            assert(whole.skip(1) =~= encode_text(doc));
            assert(encode_text(doc).take(encode_text(doc).len() as int) =~= encode_text(doc));
            if n > 0 {
                assert(cut.skip(1) =~= encode_text(doc).take(n - 1));
            }
        },
        ResponseModel::Failure => {},
    }
}

/// The bytes needed after those from `at` on for an integer.
fn id_bytes_needed(bytes: &[u8], at: usize) -> (n: usize)
    requires
        at <= bytes@.len(),
    ensures
        n == id_needs(bytes@.skip(at as int)),
{
    let have = bytes.len() - at;
    if have < 8 {
        8 - have
    } else {
        0
    }
}

/// The number `n`, or the largest number that a buffer can hold.
fn cap(n: u128) -> (c: usize)
    ensures
        c == capped(n as nat),
{
    if n > usize::MAX as u128 {
        usize::MAX
    } else {
        n as usize
    }
}

/// The bytes needed after those from `at` on for a text.
fn text_bytes_needed(bytes: &[u8], at: usize) -> (n: usize)
    requires
        at <= bytes@.len(),
    ensures
        n == capped(text_needs(bytes@.skip(at as int))),
{
    let ghost b = bytes@.skip(at as int);
    let have = bytes.len() - at;
    if have < 8 {
        return 8 - have;
    }
    let announced = get_u64(bytes, at);
    assert(bytes@.subrange(at as int, at + 8) =~= b.take(8));
    assert(be_value(b.take(8)) == be_value(b));
    let held = (have - 8) as u64;
    if held < announced {
        cap((announced - held) as u128)
    } else {
        0
    }
}

/// The bytes needed after those from `at` on for a list of identifiers.
fn ids_bytes_needed(bytes: &[u8], at: usize) -> (n: usize)
    requires
        at <= bytes@.len(),
    ensures
        n == capped(ids_need(bytes@.skip(at as int))),
{
    let ghost b = bytes@.skip(at as int);
    let have = bytes.len() - at;
    if have < 8 {
        return 8 - have;
    }
    let announced = get_u64(bytes, at);
    assert(bytes@.subrange(at as int, at + 8) =~= b.take(8));
    assert(be_value(b.take(8)) == be_value(b));
    let held = (have - 8) as u128;
    let run = 8 * (announced as u128);
    if held < run {
        cap(run - held)
    } else {
        0
    }
}

impl Request {
    /// How many bytes a reader needs after `received` before it holds a
    /// whole request, or bytes that begin none; no more than a buffer can
    /// hold.
    pub fn bytes_needed(received: &[u8]) -> (n: usize)
        ensures
            n == capped(request_needs(received@)),
    {
        if received.len() == 0 {
            return 1;
        }
        let tag = received[0];
        if tag == TAG_PUBLISH || tag == TAG_SEARCH {
            text_bytes_needed(received, 1)
        } else if tag == TAG_RETRIEVE {
            id_bytes_needed(received, 1)
        } else {
            0
        }
    }
}

impl Response {
    /// How many bytes a reader needs after `received` before it holds a
    /// whole response, or bytes that begin none; no more than a buffer can
    /// hold.
    pub fn bytes_needed(received: &[u8]) -> (n: usize)
        ensures
            n == capped(response_needs(received@)),
    {
        if received.len() == 0 {
            return 1;
        }
        let tag = received[0];
        if tag == TAG_PUBLISH {
            id_bytes_needed(received, 1)
        } else if tag == TAG_SEARCH {
            ids_bytes_needed(received, 1)
        } else if tag == TAG_RETRIEVE {
            text_bytes_needed(received, 1)
        } else {
            0
        }
    }
}

} // verus!
