//! The wire format, as mathematics.
//!
//! Every message starts with a tag byte. Integers are eight bytes,
//! big-endian. A text is its length in bytes followed by its UTF-8
//! encoding; a list of identifiers is its length followed by the
//! identifiers.
//!
//! Encoding is a function from a message to bytes. Decoding reads one
//! message from the front of a byte sequence and ignores what follows it,
//! as a reader on a stream does.

use vstd::prelude::*;
use vstd::utf8::*;
use crate::wire::{be_bytes, be_value, lemma_be_bytes_of_value, lemma_be_value_of_bytes};

verus! {

/// Tag of a publish request, and of the response to one.
pub const TAG_PUBLISH: u8 = 1;

/// Tag of a search request, and of the response to one.
pub const TAG_SEARCH: u8 = 2;

/// Tag of a retrieve request, and of the response to a successful one.
pub const TAG_RETRIEVE: u8 = 3;

/// Tag of the response that reports a failure.
pub const TAG_FAILURE: u8 = 4;

/// What a request says, apart from how it is stored.
pub enum RequestModel {
    Publish { doc: Seq<char> },
    Search { word: Seq<char> },
    Retrieve { id: usize },
}

/// What a response says, apart from how it is stored.
pub enum ResponseModel {
    PublishSuccess(usize),
    SearchSuccess(Seq<usize>),
    RetrieveSuccess(Seq<char>),
    Failure,
}

/// A text can be sent when its length in bytes fits the length field.
pub open spec fn text_fits(s: Seq<char>) -> bool {
    encode_utf8(s).len() <= u64::MAX
}

/// A list of identifiers can be sent when its length fits the length field.
pub open spec fn ids_fit(ids: Seq<usize>) -> bool {
    ids.len() <= u64::MAX
}

impl RequestModel {
    /// Whether the request can be put on the wire.
    pub open spec fn fits(self) -> bool {
        match self {
            RequestModel::Publish { doc } => text_fits(doc),
            RequestModel::Search { word } => text_fits(word),
            RequestModel::Retrieve { id } => true,
        }
    }
}

impl ResponseModel {
    /// Whether the response can be put on the wire.
    pub open spec fn fits(self) -> bool {
        match self {
            ResponseModel::PublishSuccess(id) => true,
            ResponseModel::SearchSuccess(ids) => ids_fit(ids),
            ResponseModel::RetrieveSuccess(doc) => text_fits(doc),
            ResponseModel::Failure => true,
        }
    }
}

/// A text on the wire: the length of its UTF-8 encoding, then the encoding.
pub open spec fn encode_text(s: Seq<char>) -> Seq<u8> {
    be_bytes(encode_utf8(s).len() as u64) + encode_utf8(s)
}

/// Identifiers on the wire, one after another, without their count.
pub open spec fn encode_id_run(ids: Seq<usize>) -> Seq<u8>
    decreases ids.len(),
{
    if ids.len() == 0 {
        Seq::empty()
    } else {
        encode_id_run(ids.drop_last()) + be_bytes(ids.last() as u64)
    }
}

/// A list of identifiers on the wire: their count, then the identifiers.
pub open spec fn encode_ids(ids: Seq<usize>) -> Seq<u8> {
    be_bytes(ids.len() as u64) + encode_id_run(ids)
}

/// The bytes of a request.
pub open spec fn encode_request(r: RequestModel) -> Seq<u8> {
    match r {
        RequestModel::Publish { doc } => seq![TAG_PUBLISH] + encode_text(doc),
        RequestModel::Search { word } => seq![TAG_SEARCH] + encode_text(word),
        RequestModel::Retrieve { id } => seq![TAG_RETRIEVE] + be_bytes(id as u64),
    }
}

/// The bytes of a response.
pub open spec fn encode_response(r: ResponseModel) -> Seq<u8> {
    match r {
        ResponseModel::PublishSuccess(id) => seq![TAG_PUBLISH] + be_bytes(id as u64),
        ResponseModel::SearchSuccess(ids) => seq![TAG_SEARCH] + encode_ids(ids),
        ResponseModel::RetrieveSuccess(doc) => seq![TAG_RETRIEVE] + encode_text(doc),
        ResponseModel::Failure => seq![TAG_FAILURE],
    }
}

/// The identifier at the front of `b`: present when eight bytes are there
/// and the integer they hold is one this machine can index with.
pub open spec fn parse_id(b: Seq<u8>) -> Option<usize> {
    if b.len() < 8 || be_value(b) > usize::MAX {
        None
    } else {
        Some(be_value(b) as usize)
    }
}

/// The text at the front of `b`: present when the length field is whole,
/// as many bytes as it announces follow, and those bytes are UTF-8.
pub open spec fn parse_text(b: Seq<u8>) -> Option<Seq<char>> {
    if b.len() < 8 {
        None
    } else {
        let n = be_value(b) as int;
        if b.len() - 8 < n || !valid_utf8(b.subrange(8, 8 + n)) {
            None
        } else {
            Some(decode_utf8(b.subrange(8, 8 + n)))
        }
    }
}

/// The integer held by the `i`-th group of eight bytes of `b`.
pub open spec fn word_at(b: Seq<u8>, i: int) -> u64 {
    be_value(b.subrange(8 * i, 8 * i + 8))
}

/// The list of identifiers at the front of `b`: present when the count is
/// whole, as many identifiers as it announces follow, and each is one this
/// machine can index with.
pub open spec fn parse_ids(b: Seq<u8>) -> Option<Seq<usize>> {
    if b.len() < 8 {
        None
    } else {
        let n = be_value(b) as int;
        let run = b.skip(8);
        if run.len() < 8 * n || exists|i: int| 0 <= i < n && #[trigger] word_at(run, i) > usize::MAX {
            None
        } else {
            Some(words_of(run, n as nat))
        }
    }
}

/// The request at the front of `b`, if `b` starts with a whole, well-formed one.
pub open spec fn decode_request(b: Seq<u8>) -> Option<RequestModel> {
    if b.len() == 0 {
        None
    } else if b[0] == TAG_PUBLISH {
        match parse_text(b.skip(1)) {
            Some(doc) => Some(RequestModel::Publish { doc }),
            None => None,
        }
    } else if b[0] == TAG_SEARCH {
        match parse_text(b.skip(1)) {
            Some(word) => Some(RequestModel::Search { word }),
            None => None,
        }
    } else if b[0] == TAG_RETRIEVE {
        match parse_id(b.skip(1)) {
            Some(id) => Some(RequestModel::Retrieve { id }),
            None => None,
        }
    } else {
        None
    }
}

/// The response at the front of `b`, if `b` starts with a whole, well-formed one.
pub open spec fn decode_response(b: Seq<u8>) -> Option<ResponseModel> {
    if b.len() == 0 {
        None
    } else if b[0] == TAG_PUBLISH {
        match parse_id(b.skip(1)) {
            Some(id) => Some(ResponseModel::PublishSuccess(id)),
            None => None,
        }
    } else if b[0] == TAG_SEARCH {
        match parse_ids(b.skip(1)) {
            Some(ids) => Some(ResponseModel::SearchSuccess(ids)),
            None => None,
        }
    } else if b[0] == TAG_RETRIEVE {
        match parse_text(b.skip(1)) {
            Some(doc) => Some(ResponseModel::RetrieveSuccess(doc)),
            None => None,
        }
    } else if b[0] == TAG_FAILURE {
        Some(ResponseModel::Failure)
    } else {
        None
    }
}

/// The integer at the front of `b` depends on the first eight bytes only.
pub proof fn lemma_be_value_of_front(a: Seq<u8>, b: Seq<u8>)
    requires
        a.len() >= 8,
        b.len() >= 8,
        a.take(8) =~= b.take(8),
    ensures
        be_value(a) == be_value(b),
{
    assert forall|i: int| 0 <= i < 8 implies a[i] == b[i] by {
        assert(a[i] == a.take(8)[i]);
        assert(b[i] == b.take(8)[i]);
    }
}

/// An integer written at the front of a byte sequence is read back from it.
pub proof fn lemma_be_value_of_written(x: u64, rest: Seq<u8>)
    ensures
        be_value(be_bytes(x) + rest) == x,
{
    lemma_be_value_of_bytes(x);
    assert((be_bytes(x) + rest).take(8) =~= be_bytes(x).take(8));
    lemma_be_value_of_front(be_bytes(x) + rest, be_bytes(x));
}

/// An identifier is read back from its bytes, whatever follows them.
pub proof fn lemma_parse_id_of_encoded(id: usize, rest: Seq<u8>)
    ensures
        parse_id(be_bytes(id as u64) + rest) == Some(id),
{
    lemma_be_value_of_written(id as u64, rest);
}

/// A text is read back from its bytes, whatever follows them.
pub proof fn lemma_parse_text_of_encoded(s: Seq<char>, rest: Seq<u8>)
    requires
        text_fits(s),
    ensures
        parse_text(encode_text(s) + rest) == Some(s),
{
    let body = encode_utf8(s);
    let b = encode_text(s) + rest;
    assert(b =~= be_bytes(body.len() as u64) + (body + rest));
    lemma_be_value_of_written(body.len() as u64, body + rest);
    assert(b.subrange(8, 8 + body.len() as int) =~= body);
    encode_utf8_valid_utf8(s);
    encode_utf8_decode_utf8(s);
}

/// A run of identifiers takes eight bytes for each.
pub proof fn lemma_id_run_len(ids: Seq<usize>)
    ensures
        encode_id_run(ids).len() == 8 * ids.len(),
    decreases ids.len(),
{
    if ids.len() > 0 {
        lemma_id_run_len(ids.drop_last());
    }
}

/// The `i`-th group of eight bytes of a run holds the `i`-th identifier.
pub proof fn lemma_id_run_word(ids: Seq<usize>, rest: Seq<u8>, i: int)
    requires
        0 <= i < ids.len(),
    ensures
        word_at(encode_id_run(ids) + rest, i) == ids[i] as u64,
    decreases ids.len(),
{
    let front = ids.drop_last();
    let last = be_bytes(ids.last() as u64);
    lemma_id_run_len(front);
    assert(encode_id_run(ids) + rest =~= encode_id_run(front) + (last + rest));
    if i < front.len() {
        lemma_id_run_word(front, last + rest, i);
    } else {
        let b = encode_id_run(front) + (last + rest);
        assert(b.subrange(8 * i, 8 * i + 8) =~= last);
        lemma_be_value_of_bytes(ids.last() as u64);
    }
}

/// A list of identifiers is read back from its bytes, whatever follows them.
pub proof fn lemma_parse_ids_of_encoded(ids: Seq<usize>, rest: Seq<u8>)
    requires
        ids_fit(ids),
    ensures
        parse_ids(encode_ids(ids) + rest) == Some(ids),
{
    let b = encode_ids(ids) + rest;
    let run = b.skip(8);
    assert(b =~= be_bytes(ids.len() as u64) + (encode_id_run(ids) + rest));
    lemma_be_value_of_written(ids.len() as u64, encode_id_run(ids) + rest);
    assert(run =~= encode_id_run(ids) + rest);
    lemma_id_run_len(ids);
    assert forall|i: int| 0 <= i < ids.len() implies #[trigger] word_at(run, i) == ids[i] as u64 by {
        lemma_id_run_word(ids, rest, i);
    }
    assert(Seq::new(ids.len(), |i: int| word_at(run, i) as usize) =~= ids);
}

/// Decoding undoes encoding: a request is read back from its bytes,
/// whatever follows them on the stream.
pub proof fn lemma_request_round_trip(r: RequestModel, rest: Seq<u8>)
    requires
        r.fits(),
    ensures
        decode_request(encode_request(r) + rest) == Some(r),
{
    let b = encode_request(r) + rest;
    match r {
        RequestModel::Publish { doc } => {
            assert(b.skip(1) =~= encode_text(doc) + rest);
            lemma_parse_text_of_encoded(doc, rest);
        },
        RequestModel::Search { word } => {
            assert(b.skip(1) =~= encode_text(word) + rest);
            lemma_parse_text_of_encoded(word, rest);
        },
        RequestModel::Retrieve { id } => {
            assert(b.skip(1) =~= be_bytes(id as u64) + rest);
            lemma_parse_id_of_encoded(id, rest);
        },
    }
}

/// Decoding undoes encoding: a response is read back from its bytes,
/// whatever follows them on the stream.
pub proof fn lemma_response_round_trip(r: ResponseModel, rest: Seq<u8>)
    requires
        r.fits(),
    ensures
        decode_response(encode_response(r) + rest) == Some(r),
{
    let b = encode_response(r) + rest;
    match r {
        ResponseModel::PublishSuccess(id) => {
            assert(b.skip(1) =~= be_bytes(id as u64) + rest);
            lemma_parse_id_of_encoded(id, rest);
        },
        ResponseModel::SearchSuccess(ids) => {
            assert(b.skip(1) =~= encode_ids(ids) + rest);
            lemma_parse_ids_of_encoded(ids, rest);
        },
        ResponseModel::RetrieveSuccess(doc) => {
            assert(b.skip(1) =~= encode_text(doc) + rest);
            lemma_parse_text_of_encoded(doc, rest);
        },
        ResponseModel::Failure => {},
    }
}

/// A text that was read stands, encoded, at the front of what it was read from.
pub proof fn lemma_parse_text_sound(b: Seq<u8>)
    requires
        parse_text(b) is Some,
    ensures
        text_fits(parse_text(b)->0),
        encode_text(parse_text(b)->0).is_prefix_of(b),
{
    let n = be_value(b) as int;
    let body = b.subrange(8, 8 + n);
    decode_utf8_encode_utf8(body);
    lemma_be_bytes_of_value(b.take(8));
    lemma_be_value_of_front(b, b.take(8));
    assert(encode_text(decode_utf8(body)) =~= b.take(8 + n));
}

/// An identifier that was read stands, encoded, at the front of what it was read from.
pub proof fn lemma_parse_id_sound(b: Seq<u8>)
    requires
        parse_id(b) is Some,
    ensures
        be_bytes(parse_id(b)->0 as u64).is_prefix_of(b),
{
    lemma_be_bytes_of_value(b.take(8));
    lemma_be_value_of_front(b, b.take(8));
    assert(be_bytes(be_value(b)) =~= b.take(8));
}

/// The identifiers held by the first `n` groups of eight bytes of `run`.
pub open spec fn words_of(run: Seq<u8>, n: nat) -> Seq<usize> {
    Seq::new(n, |i: int| word_at(run, i) as usize)
}

/// Encoding the identifiers read from a run gives the bytes they were read from.
pub proof fn lemma_id_run_of_words(run: Seq<u8>, n: nat)
    requires
        8 * n <= run.len(),
        forall|i: int| 0 <= i < n ==> #[trigger] word_at(run, i) <= usize::MAX,
    ensures
        encode_id_run(words_of(run, n)) == run.take(8 * n as int),
    decreases n,
{
    if n == 0 {
        assert(run.take(0) =~= Seq::<u8>::empty());
    } else {
        let m = (n - 1) as nat;
        lemma_id_run_of_words(run, m);
        assert(words_of(run, n).drop_last() =~= words_of(run, m));
        let group = run.subrange(8 * m as int, 8 * m as int + 8);
        lemma_be_bytes_of_value(group);
        assert(word_at(run, m as int) == be_value(group));
        assert(words_of(run, n).last() as u64 == word_at(run, m as int));
        assert(run.take(8 * m as int) + group =~= run.take(8 * n as int));
    }
}

/// A list of identifiers that was read stands, encoded, at the front of
/// what it was read from.
pub proof fn lemma_parse_ids_sound(b: Seq<u8>)
    requires
        parse_ids(b) is Some,
    ensures
        ids_fit(parse_ids(b)->0),
        encode_ids(parse_ids(b)->0).is_prefix_of(b),
{
    let n = be_value(b) as nat;
    let run = b.skip(8);
    lemma_id_run_of_words(run, n);
    lemma_be_bytes_of_value(b.take(8));
    lemma_be_value_of_front(b, b.take(8));
    assert(parse_ids(b)->0 == words_of(run, n));
    assert(encode_ids(words_of(run, n)) =~= b.take(8 + 8 * n as int));
}

/// Nothing is made up: a request that was decoded stands, encoded, at the
/// front of the bytes it was decoded from.
pub proof fn lemma_decode_request_sound(b: Seq<u8>)
    requires
        decode_request(b) is Some,
    ensures
        decode_request(b)->0.fits(),
        encode_request(decode_request(b)->0).is_prefix_of(b),
{
    let rest = b.skip(1);
    assert(b =~= seq![b[0]] + rest);
    if b[0] == TAG_PUBLISH || b[0] == TAG_SEARCH {
        lemma_parse_text_sound(rest);
        let body = encode_text(parse_text(rest)->0);
        assert(seq![b[0]] + body =~= (seq![b[0]] + rest).take(1 + body.len() as int));
    } else {
        lemma_parse_id_sound(rest);
        let body = be_bytes(parse_id(rest)->0 as u64);
        assert(seq![b[0]] + body =~= (seq![b[0]] + rest).take(1 + body.len() as int));
    }
}

/// Nothing is made up: a response that was decoded stands, encoded, at the
/// front of the bytes it was decoded from.
pub proof fn lemma_decode_response_sound(b: Seq<u8>)
    requires
        decode_response(b) is Some,
    ensures
        decode_response(b)->0.fits(),
        encode_response(decode_response(b)->0).is_prefix_of(b),
{
    let rest = b.skip(1);
    assert(b =~= seq![b[0]] + rest);
    if b[0] == TAG_PUBLISH {
        lemma_parse_id_sound(rest);
        let body = be_bytes(parse_id(rest)->0 as u64);
        assert(seq![b[0]] + body =~= (seq![b[0]] + rest).take(1 + body.len() as int));
    } else if b[0] == TAG_SEARCH {
        lemma_parse_ids_sound(rest);
        let body = encode_ids(parse_ids(rest)->0);
        assert(seq![b[0]] + body =~= (seq![b[0]] + rest).take(1 + body.len() as int));
    } else if b[0] == TAG_RETRIEVE {
        lemma_parse_text_sound(rest);
        let body = encode_text(parse_text(rest)->0);
        assert(seq![b[0]] + body =~= (seq![b[0]] + rest).take(1 + body.len() as int));
    } else {
        assert(seq![TAG_FAILURE] =~= b.take(1));
    }
}

/// A text cut short is not read.
pub proof fn lemma_parse_text_truncated(s: Seq<char>, n: int)
    requires
        text_fits(s),
        0 <= n < encode_text(s).len(),
    ensures
        parse_text(encode_text(s).take(n)) is None,
{
    let whole = encode_text(s);
    let cut = whole.take(n);
    if n >= 8 {
        lemma_be_value_of_written(encode_utf8(s).len() as u64, encode_utf8(s));
        assert(cut.take(8) =~= whole.take(8));
        lemma_be_value_of_front(cut, whole);
    }
}

/// An identifier cut short is not read.
pub proof fn lemma_parse_id_truncated(id: usize, n: int)
    requires
        0 <= n < 8,
    ensures
        parse_id(be_bytes(id as u64).take(n)) is None,
{
}

/// A list of identifiers cut short is not read.
pub proof fn lemma_parse_ids_truncated(ids: Seq<usize>, n: int)
    requires
        ids_fit(ids),
        0 <= n < encode_ids(ids).len(),
    ensures
        parse_ids(encode_ids(ids).take(n)) is None,
{
    let whole = encode_ids(ids);
    let cut = whole.take(n);
    lemma_id_run_len(ids);
    if n >= 8 {
        lemma_be_value_of_written(ids.len() as u64, encode_id_run(ids));
        assert(cut.take(8) =~= whole.take(8));
        lemma_be_value_of_front(cut, whole);
    }
}

/// A request cut anywhere before its last byte decodes to nothing.
pub proof fn lemma_request_truncated(r: RequestModel, n: int)
    requires
        r.fits(),
        0 <= n < encode_request(r).len(),
    ensures
        decode_request(encode_request(r).take(n)) is None,
{
    let cut = encode_request(r).take(n);
    if n > 0 {
        match r {
            RequestModel::Publish { doc } => {
                assert(cut.skip(1) =~= encode_text(doc).take(n - 1));
                lemma_parse_text_truncated(doc, n - 1);
            },
            RequestModel::Search { word } => {
                assert(cut.skip(1) =~= encode_text(word).take(n - 1));
                lemma_parse_text_truncated(word, n - 1);
            },
            RequestModel::Retrieve { id } => {
                assert(cut.skip(1) =~= be_bytes(id as u64).take(n - 1));
                lemma_parse_id_truncated(id, n - 1);
            },
        }
    }
}

/// A response cut anywhere before its last byte decodes to nothing.
pub proof fn lemma_response_truncated(r: ResponseModel, n: int)
    requires
        r.fits(),
        0 <= n < encode_response(r).len(),
    ensures
        decode_response(encode_response(r).take(n)) is None,
{
    let cut = encode_response(r).take(n);
    if n > 0 {
        match r {
            ResponseModel::PublishSuccess(id) => {
                assert(cut.skip(1) =~= be_bytes(id as u64).take(n - 1));
                lemma_parse_id_truncated(id, n - 1);
            },
            ResponseModel::SearchSuccess(ids) => {
                assert(cut.skip(1) =~= encode_ids(ids).take(n - 1));
                lemma_parse_ids_truncated(ids, n - 1);
            },
            ResponseModel::RetrieveSuccess(doc) => {
                assert(cut.skip(1) =~= encode_text(doc).take(n - 1));
                lemma_parse_text_truncated(doc, n - 1);
            },
            ResponseModel::Failure => {},
        }
    }
}

} // verus!
