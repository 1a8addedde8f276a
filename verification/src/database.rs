//! The document store: the documents in the order in which they were
//! published, and an inverted index from words to the documents that
//! contain them.
//!
//! A document's identifier is its position in that order. The index is a
//! function of the documents, so the whole store is described by the
//! sequence of its documents.

use vstd::prelude::*;
use crate::multimap::{
    lemma_with_value_order, lemma_with_value_other_key, values_in, values_model, with_value,
    ConcurrentMultiMap,
};
use crate::text::{lowercase, split_words, texts, to_lowercase, words};

verus! {

/// The number of shards of the index.
pub const BUCKETS: usize = 128;

/// The index `m` after the words `ws` of the document `id` were entered:
/// each word in lower case, unless its lower case is empty.
pub open spec fn indexed(m: Map<Seq<char>, Seq<usize>>, ws: Seq<Seq<char>>, id: usize) -> Map<
    Seq<char>,
    Seq<usize>,
>
    decreases ws.len(),
{
    if ws.len() == 0 {
        m
    } else if lowercase(ws.last()).len() > 0 {
        with_value(indexed(m, ws.drop_last(), id), lowercase(ws.last()), id)
    } else {
        indexed(m, ws.drop_last(), id)
    }
}

/// The inverted index of the documents `docs`: each document's words,
/// entered under the document's position, in the order of the documents.
pub open spec fn index_of(docs: Seq<Seq<char>>) -> Map<Seq<char>, Seq<usize>>
    decreases docs.len(),
{
    if docs.len() == 0 {
        Map::empty()
    } else {
        indexed(index_of(docs.drop_last()), words(docs.last()), (docs.len() - 1) as usize)
    }
}

/// The identifiers that a search for the key `key` finds among `docs`.
pub open spec fn postings(docs: Seq<Seq<char>>, key: Seq<char>) -> Seq<usize> {
    values_in(index_of(docs), key)
}

/// Whether one of the words `ws`, in lower case, is the key `key`. The
/// empty key is never among them.
pub open spec fn has_key(ws: Seq<Seq<char>>, key: Seq<char>) -> bool {
    key.len() > 0 && exists|j: int| 0 <= j < ws.len() && lowercase(#[trigger] ws[j]) == key
}

/// Whether the document `text` contains a word whose lower case is `key`.
pub open spec fn mentions(text: Seq<char>, key: Seq<char>) -> bool {
    has_key(words(text), key)
}

/// Whether each identifier is smaller than those after it.
pub open spec fn increasing(ids: Seq<usize>) -> bool {
    forall|i: int, j: int| 0 <= i < j < ids.len() ==> ids[i] < ids[j]
}

/// The document with the identifier `id` among `docs`, if there is one.
pub open spec fn document(docs: Seq<Seq<char>>, id: usize) -> Option<Seq<char>> {
    if id < docs.len() {
        Some(docs[id as int])
    } else {
        None
    }
}

/// Entering the words of a document changes a key's values only if the key
/// is among the words, and then as one insertion of the document does.
pub proof fn lemma_indexed_values(
    m: Map<Seq<char>, Seq<usize>>,
    ws: Seq<Seq<char>>,
    id: usize,
    key: Seq<char>,
)
    ensures
        values_in(indexed(m, ws, id), key) == if has_key(ws, key) {
            values_in(with_value(m, key, id), key)
        } else {
            values_in(m, key)
        },
    decreases ws.len(),
{
    if ws.len() > 0 {
        let front = ws.drop_last();
        let w = lowercase(ws.last());
        let prev = indexed(m, front, id);
        lemma_indexed_values(m, front, id, key);
        if has_key(front, key) {
            let j = choose|j: int| 0 <= j < front.len() && lowercase(#[trigger] front[j]) == key;
            assert(lowercase(ws[j]) == key);
            assert(has_key(ws, key));
        }
        if w == key && w.len() > 0 {
            assert(lowercase(ws[ws.len() - 1]) == key);
            assert(has_key(ws, key));
            assert(indexed(m, ws, id) == with_value(prev, key, id));
            if has_key(front, key) {
                lemma_with_value_order(m, key, id);
            }
        } else {
            if has_key(ws, key) {
                let j = choose|j: int| 0 <= j < ws.len() && lowercase(#[trigger] ws[j]) == key;
                assert(lowercase(front[j]) == key);
                assert(has_key(front, key));
            }
            if w.len() > 0 {
                lemma_with_value_other_key(prev, w, id, key);
            }
        }
    }
}

/// What a search finds: the identifiers of exactly the documents that
/// contain the word, each once, in the order in which the documents were
/// published.
pub proof fn lemma_postings(docs: Seq<Seq<char>>, key: Seq<char>)
    requires
        docs.len() <= usize::MAX,
    ensures
        increasing(postings(docs, key)),
        forall|id: usize|
            postings(docs, key).contains(id) <==> id < docs.len() && mentions(
                docs[id as int],
                key,
            ),
    decreases docs.len(),
{
    if docs.len() > 0 {
        let front = docs.drop_last();
        let last = (docs.len() - 1) as usize;
        let earlier = postings(front, key);
        lemma_postings(front, key);
        lemma_indexed_values(index_of(front), words(docs.last()), last, key);
        assert(!earlier.contains(last));
        assert forall|id: usize| id < front.len() implies docs[id as int] == front[id as int] by {}
        if mentions(docs.last(), key) {
            let found = earlier.push(last);
            assert(postings(docs, key) == found);
            assert(found[earlier.len() as int] == last);
            assert forall|i: int, j: int| 0 <= i < j < found.len() implies found[i] < found[j] by {
                if j == earlier.len() {
                    assert(earlier.contains(earlier[i]));
                }
            }
            assert forall|id: usize| found.contains(id) <==> id < docs.len() && mentions(
                docs[id as int],
                key,
            ) by {
                if found.contains(id) {
                    let i = choose|i: int| 0 <= i < found.len() && found[i] == id;
                    if i < earlier.len() {
                        assert(earlier.contains(earlier[i]));
                    }
                }
                if id < front.len() && mentions(docs[id as int], key) {
                    assert(earlier.contains(id));
                    let i = choose|i: int| 0 <= i < earlier.len() && earlier[i] == id;
                    assert(found[i] == id);
                }
            }
        } else {
            assert(postings(docs, key) == earlier);
        }
    }
}

/// A word of a document finds the document: after a document is
/// published, a search for any of its words, in any case, includes the
/// identifier that the publication returned.
pub proof fn lemma_search_finds_published(
    docs: Seq<Seq<char>>,
    doc: Seq<char>,
    j: int,
    query: Seq<char>,
)
    requires
        docs.len() < usize::MAX,
        0 <= j < words(doc).len(),
        lowercase(query) == lowercase(words(doc)[j]),
        lowercase(query).len() > 0,
    ensures
        postings(docs.push(doc), lowercase(query)).contains(docs.len() as usize),
{
    let all = docs.push(doc);
    lemma_postings(all, lowercase(query));
    assert(all[docs.len() as int] == doc);
    assert(mentions(doc, lowercase(query)));
}

/// Identifiers are dense and in order: when the documents `batch` are
/// published one after another, the `i`-th is published onto the archive
/// that holds the `i` before it, and so gets the position that follows
/// them. Onto an empty archive, the identifiers are 0, 1, 2 and so on.
pub proof fn lemma_ids_in_order(docs: Seq<Seq<char>>, batch: Seq<Seq<char>>, i: int)
    requires
        0 <= i < batch.len(),
    ensures
        (docs + batch.take(i)).len() == docs.len() + i,
        (docs + batch.take(i)).push(batch[i]) == docs + batch.take(i + 1),
{
    assert((docs + batch.take(i)).push(batch[i]) =~= docs + batch.take(i + 1));
}

/// A published document is retrieved, unchanged, under the identifier
/// that its publication returned, whatever is published after it; an
/// identifier that no publication has returned yet retrieves nothing.
pub proof fn lemma_retrieve_published(
    docs: Seq<Seq<char>>,
    doc: Seq<char>,
    later: Seq<Seq<char>>,
    id: usize,
)
    requires
        docs.len() <= usize::MAX,
    ensures
        document(docs.push(doc) + later, docs.len() as usize) == Some(doc),
        id >= (docs.push(doc) + later).len() ==> document(docs.push(doc) + later, id) is None,
{
}

/// A document archive: publish documents, search them by word, retrieve
/// them by identifier.
pub struct Database {
    /// From each word to the documents that contain it.
    reverse_index: ConcurrentMultiMap<String, usize>,
    /// The documents, in the order in which they were published.
    blob_store: Vec<String>,
}

impl View for Database {
    type V = Seq<Seq<char>>;

    /// The documents, in the order in which they were published.
    closed spec fn view(&self) -> Seq<Seq<char>> {
        texts(self.blob_store@)
    }
}

impl Database {
    /// The index is the inverted index of the documents.
    pub closed spec fn wf(&self) -> bool {
        &&& self.reverse_index.wf()
        &&& self.reverse_index@ == index_of(self@)
    }

    /// Creates an empty archive.
    pub fn new() -> (db: Self)
        ensures
            db.wf(),
            db@ == Seq::<Seq<char>>::empty(),
    {
        let db = Database { reverse_index: ConcurrentMultiMap::new(BUCKETS), blob_store: Vec::new() };
        assert(db@ =~= Seq::<Seq<char>>::empty());
        db
    }

    /// Publishes a document and returns its identifier: the number of
    /// documents published before it.
    ///
    /// The document's words are entered in the index first; then the
    /// document is stored.
    pub fn publish(&mut self, doc: String) -> (id: usize)
        requires
            old(self).wf(),
        ensures
            final(self).wf(),
            id == old(self)@.len(),
            final(self)@ == old(self)@.push(doc@),
    {
        let next_id = self.blob_store.len();
        let found = split_words(doc.as_str());
        let ghost start = self.reverse_index@;
        let mut i: usize = 0;
        while i < found.len()
            invariant
                0 <= i <= found@.len(),
                self.reverse_index.wf(),
                self.blob_store == old(self).blob_store,
                self.reverse_index@ == indexed(start, texts(found@).take(i as int), next_id),
            decreases found@.len() - i,
        {
            proof {
                assert(texts(found@).take(i + 1).drop_last() =~= texts(found@).take(i as int));
            }
            let cleaned_word = to_lowercase(found[i].as_str());
            if !cleaned_word.as_str().is_empty() {
                self.reverse_index.set(cleaned_word, next_id);
            }
            i += 1;
        }
        proof {
            assert(texts(found@).take(found@.len() as int) =~= texts(found@));
        }
        self.blob_store.push(doc);
        proof {
            assert(self@ =~= old(self)@.push(doc@));
            assert(self@.drop_last() =~= old(self)@);
        }
        next_id
    }

    /// The identifiers of the documents that contain `word`, whatever its
    /// case, in the order in which they were published.
    pub fn search(&self, word: &str) -> (ids: Vec<usize>)
        requires
            self.wf(),
        ensures
            ids@ == postings(self@, lowercase(word@)),
    {
        let cleaned_word = to_lowercase(word);
        let ids = self.reverse_index.get(&cleaned_word);
        assert(values_model(ids@) =~= ids@);
        ids
    }

    /// The document with the identifier `id`, if one was published.
    pub fn retrieve(&self, id: usize) -> (doc: Option<String>)
        ensures
            match doc {
                Some(text) => document(self@, id) == Some(text@),
                None => document(self@, id) is None,
            },
    {
        if id < self.blob_store.len() {
            Some(self.blob_store[id].clone())
        } else {
            None
        }
    }
}

} // verus!
