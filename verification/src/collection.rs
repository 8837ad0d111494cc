//! The synchronization contract with a remote collection.
//!
//! A collection is a named remote container of documents, each addressed by
//! a unique key. This module gives the collection's state a mathematical
//! model — a sequence of (key, payload) pairs, at most one per key — and
//! states what each operation of the binding does to that state: `save` is
//! delete-then-create, `remove` is delete, `fetch_all` returns every
//! document, and `fetch_all_as_map` keys the documents by their unique key.

use vstd::prelude::*;

verus! {

/// One document of a collection: a payload stored under a unique key.
pub struct Document {
    pub key: String,
    pub data: String,
}

impl View for Document {
    type V = (Seq<char>, Seq<char>);

    open spec fn view(&self) -> (Seq<char>, Seq<char>) {
        (self.key@, self.data@)
    }
}

/// The documents of `docs`, abstracted to (key, payload) pairs.
pub open spec fn views_of(docs: Seq<Document>) -> Seq<(Seq<char>, Seq<char>)> {
    docs.map_values(|d: Document| d@)
}

/// The documents of `docs` whose key differs from `k`, in order.
pub open spec fn remove_key(docs: Seq<(Seq<char>, Seq<char>)>, k: Seq<char>) -> Seq<
    (Seq<char>, Seq<char>),
>
    decreases docs.len(),
{
    if docs.len() == 0 {
        Seq::empty()
    } else {
        let rest = remove_key(docs.drop_last(), k);
        if docs.last().0 == k {
            rest
        } else {
            rest.push(docs.last())
        }
    }
}

/// What saving payload `d` under key `k` does to a collection: every
/// document at `k` is deleted, then the new document is created.
pub open spec fn spec_save(
    docs: Seq<(Seq<char>, Seq<char>)>,
    k: Seq<char>,
    d: Seq<char>,
) -> Seq<(Seq<char>, Seq<char>)> {
    remove_key(docs, k).push((k, d))
}

/// How many documents of `docs` carry the key `k`.
pub open spec fn count_key(docs: Seq<(Seq<char>, Seq<char>)>, k: Seq<char>) -> nat
    decreases docs.len(),
{
    if docs.len() == 0 {
        0
    } else {
        count_key(docs.drop_last(), k) + if docs.last().0 == k {
            1nat
        } else {
            0nat
        }
    }
}

/// The set of keys present in `docs`.
pub open spec fn key_set(docs: Seq<(Seq<char>, Seq<char>)>) -> Set<Seq<char>>
    decreases docs.len(),
{
    if docs.len() == 0 {
        Set::empty()
    } else {
        key_set(docs.drop_last()).insert(docs.last().0)
    }
}

/// The documents of `docs` as a mapping from key to payload; of several
/// documents with one key, the later overwrites the earlier.
pub open spec fn contents(docs: Seq<(Seq<char>, Seq<char>)>) -> Map<Seq<char>, Seq<char>>
    decreases docs.len(),
{
    if docs.len() == 0 {
        Map::empty()
    } else {
        contents(docs.drop_last()).insert(docs.last().0, docs.last().1)
    }
}

/// Every key occurs at most once in `docs`: the store's invariant of one
/// document per unique key within a collection.
pub open spec fn unique_keys(docs: Seq<(Seq<char>, Seq<char>)>) -> bool {
    forall|i: int, j: int|
        0 <= i < docs.len() && 0 <= j < docs.len() && i != j ==> docs[i].0 != docs[j].0
}

/// The state of one remote collection, modelled as the sequence of its
/// documents in store order.
pub struct Collection {
    docs: Vec<Document>,
}

impl View for Collection {
    type V = Seq<(Seq<char>, Seq<char>)>;

    closed spec fn view(&self) -> Seq<(Seq<char>, Seq<char>)> {
        views_of(self.docs@)
    }
}

impl Collection {
    /// A collection is implicitly created by the store on first write;
    /// until then it holds no documents.
    pub fn new() -> (c: Collection)
        ensures
            c@ =~= Seq::<(Seq<char>, Seq<char>)>::empty(),
    {
        Collection { docs: Vec::new() }
    }

    /// Save `data` under `key`: any existing document at the key is
    /// deleted, then the current payload is written under it — an upsert
    /// by delete-then-create, in two steps as the store performs them.
    pub fn save(&mut self, key: &String, data: &String)
        ensures
            final(self)@ == spec_save(old(self)@, key@, data@),
            contents(final(self)@) == contents(old(self)@).insert(key@, data@),
            count_key(final(self)@, key@) == 1,
            forall|i: int|
                0 <= i < final(self)@.len() && (#[trigger] final(self)@[i]).0 == key@
                    ==> final(self)@[i].1 == data@,
            unique_keys(old(self)@) ==> unique_keys(final(self)@),
    {
        self.remove(key);
        let doc = Document { key: key.clone(), data: data.clone() };
        let ghost mid = self.docs@;
        self.docs.push(doc);
        proof {
            let out = views_of(self.docs@);
            assert(out =~= views_of(mid).push(doc@));
            lemma_save_exactly_one(old(self)@, key@, data@);
            lemma_contents_save(old(self)@, key@, data@);
            if unique_keys(old(self)@) {
                lemma_spec_save_unique(old(self)@, key@, data@);
            }
        }
    }

    /// Remove every document stored under `key`; a key that is absent is
    /// no error. Models the store's delete-by-id.
    pub fn remove(&mut self, key: &String)
        ensures
            final(self)@ == remove_key(old(self)@, key@),
            count_key(final(self)@, key@) == 0,
            unique_keys(old(self)@) ==> unique_keys(final(self)@),
    {
        let kept = without_key(&self.docs, key);
        proof {
            lemma_remove_key_count(views_of(self.docs@), key@);
            if unique_keys(views_of(self.docs@)) {
                lemma_remove_key_unique(views_of(self.docs@), key@);
            }
        }
        self.docs = kept;
    }

    /// Fetch every document of the collection, in store order. Models the
    /// store's query of all documents in a collection.
    pub fn fetch_all(&self) -> (v: Vec<Document>)
        ensures
            views_of(v@) == self@,
    {
        let n = self.docs.len();
        let mut out: Vec<Document> = Vec::new();
        let mut i: usize = 0;
        while i < n
            invariant
                n == self.docs.len(),
                i <= n,
                out@ == self.docs@.take(i as int),
            decreases n - i,
        {
            let doc = Document { key: self.docs[i].key.clone(), data: self.docs[i].data.clone() };
            out.push(doc);
            proof {
                assert(out@ =~= self.docs@.take(i + 1));
            }
            i += 1;
        }
        proof {
            assert(self.docs@.take(n as int) =~= self.docs@);
        }
        out
    }

    /// Fetch every document of the collection and key it by its unique
    /// key; of several documents under one key, the later overwrites the
    /// earlier in store order.
    pub fn fetch_all_as_map(&self) -> (m: KeyMap)
        ensures
            m@ == contents(self@),
            m.inv(),
    {
        let n = self.docs.len();
        let mut m = KeyMap::new();
        let mut i: usize = 0;
        while i < n
            invariant
                n == self.docs.len(),
                i <= n,
                m@ == contents(views_of(self.docs@).take(i as int)),
                m.inv(),
            decreases n - i,
        {
            proof {
                let whole = views_of(self.docs@);
                assert(whole.take(i + 1).drop_last() =~= whole.take(i as int));
                assert(whole.take(i + 1).last() == self.docs@[i as int]@);
            }
            m.insert(self.docs[i].key.clone(), self.docs[i].data.clone());
            i += 1;
        }
        proof {
            assert(views_of(self.docs@).take(n as int) =~= views_of(self.docs@));
        }
        m
    }
}

/// A mapping from unique key to entity payload, as `fetch_all_as_map`
/// returns it: at most one entry per key.
pub struct KeyMap {
    entries: Vec<Document>,
}

impl View for KeyMap {
    type V = Map<Seq<char>, Seq<char>>;

    closed spec fn view(&self) -> Map<Seq<char>, Seq<char>> {
        contents(views_of(self.entries@))
    }
}

impl KeyMap {
    /// The mapping holds no two entries under one key.
    pub closed spec fn inv(&self) -> bool {
        unique_keys(views_of(self.entries@))
    }

    /// An empty mapping.
    pub fn new() -> (m: KeyMap)
        ensures
            m@ =~= Map::<Seq<char>, Seq<char>>::empty(),
            m.inv(),
    {
        KeyMap { entries: Vec::new() }
    }

    /// Map `key` to `data`; an entry already under the key is overwritten.
    pub fn insert(&mut self, key: String, data: String)
        requires
            old(self).inv(),
        ensures
            final(self)@ == old(self)@.insert(key@, data@),
            final(self).inv(),
    {
        let kept = without_key(&self.entries, &key);
        let ghost before = views_of(self.entries@);
        self.entries = kept;
        let doc = Document { key, data };
        let ghost mid = self.entries@;
        self.entries.push(doc);
        proof {
            let out = views_of(self.entries@);
            assert(out =~= views_of(mid).push(doc@));
            lemma_contents_save(before, doc.key@, doc.data@);
            lemma_spec_save_unique(before, doc.key@, doc.data@);
        }
    }

    /// Look the payload stored under `key` up; `None` exactly when the key
    /// is absent from the mapping.
    pub fn get(&self, key: &String) -> (r: Option<&String>)
        requires
            self.inv(),
        ensures
            r matches Some(d) ==> self@.contains_key(key@) && d@ == self@[key@],
            r is None ==> !self@.contains_key(key@),
    {
        let n = self.entries.len();
        let mut i: usize = 0;
        while i < n
            invariant
                n == self.entries.len(),
                i <= n,
                self.inv(),
                forall|j: int| 0 <= j < i ==> (#[trigger] views_of(self.entries@)[j]).0 != key@,
            decreases n - i,
        {
            if self.entries[i].key == *key {
                proof {
                    lemma_contents_at(views_of(self.entries@), i as int);
                }
                return Some(&self.entries[i].data);
            }
            proof {
                assert(views_of(self.entries@)[i as int].0 != key@);
            }
            i += 1;
        }
        proof {
            lemma_key_set_contains(views_of(self.entries@));
            lemma_contents_dom(views_of(self.entries@));
        }
        None
    }
}

/// The documents of `docs` whose key differs from `key`, in order.
fn without_key(docs: &Vec<Document>, key: &String) -> (kept: Vec<Document>)
    ensures
        views_of(kept@) == remove_key(views_of(docs@), key@),
{
    let n = docs.len();
    let mut kept: Vec<Document> = Vec::new();
    let mut i: usize = 0;
    while i < n
        invariant
            n == docs.len(),
            i <= n,
            views_of(kept@) == remove_key(views_of(docs@).take(i as int), key@),
        decreases n - i,
    {
        proof {
            let whole = views_of(docs@);
            assert(whole.take(i + 1).drop_last() =~= whole.take(i as int));
            assert(whole.take(i + 1).last() == docs@[i as int]@);
        }
        if !(docs[i].key == *key) {
            let doc = Document { key: docs[i].key.clone(), data: docs[i].data.clone() };
            let ghost prev = kept@;
            kept.push(doc);
            proof {
                assert(views_of(kept@) =~= views_of(prev).push(doc@));
            }
        }
        i += 1;
    }
    proof {
        assert(views_of(docs@).take(n as int) =~= views_of(docs@));
    }
    kept
}

/// After deleting a key, no document carries it.
pub proof fn lemma_remove_key_count(docs: Seq<(Seq<char>, Seq<char>)>, k: Seq<char>)
    ensures
        count_key(remove_key(docs, k), k) == 0,
    decreases docs.len(),
{
    if docs.len() > 0 {
        lemma_remove_key_count(docs.drop_last(), k);
        if docs.last().0 != k {
            let rest = remove_key(docs.drop_last(), k);
            assert(rest.push(docs.last()).drop_last() =~= rest);
        }
    }
}

/// Deleting a key keeps exactly the documents under other keys: each
/// surviving document stood in the collection, under a key other than the
/// deleted one.
pub proof fn lemma_remove_key_elements(docs: Seq<(Seq<char>, Seq<char>)>, k: Seq<char>)
    ensures
        forall|j: int|
            0 <= j < remove_key(docs, k).len() ==> (#[trigger] remove_key(docs, k)[j]).0 != k
                && docs.contains(remove_key(docs, k)[j]),
    decreases docs.len(),
{
    if docs.len() > 0 {
        lemma_remove_key_elements(docs.drop_last(), k);
        let rest = remove_key(docs.drop_last(), k);
        assert(forall|x: (Seq<char>, Seq<char>)|
            docs.drop_last().contains(x) ==> docs.contains(x)) by {
            assert(forall|i: int|
                0 <= i < docs.drop_last().len() ==> docs.drop_last()[i] == docs[i]);
        }
        if docs.last().0 != k {
            assert(rest.push(docs.last()).drop_last() =~= rest);
            assert(docs.contains(docs.last())) by {
                assert(docs[docs.len() - 1] == docs.last());
            }
            assert(forall|j: int|
                0 <= j < rest.push(docs.last()).len() ==> (#[trigger] rest.push(docs.last())[j])
                    == if j < rest.len() {
                    rest[j]
                } else {
                    docs.last()
                });
        }
    }
}

/// A key is in the key set exactly when some document carries it.
pub proof fn lemma_key_set_contains(docs: Seq<(Seq<char>, Seq<char>)>)
    ensures
        forall|c: Seq<char>|
            #[trigger] key_set(docs).contains(c) <==> (exists|j: int|
                0 <= j < docs.len() && (#[trigger] docs[j]).0 == c),
    decreases docs.len(),
{
    if docs.len() > 0 {
        lemma_key_set_contains(docs.drop_last());
        assert forall|c: Seq<char>| #[trigger] key_set(docs).contains(c) implies (exists|j: int|
            0 <= j < docs.len() && (#[trigger] docs[j]).0 == c) by {
            if c == docs.last().0 {
                assert(docs[docs.len() - 1].0 == c);
            } else {
                assert(key_set(docs.drop_last()).contains(c));
                let j = choose|j: int|
                    0 <= j < docs.drop_last().len() && (#[trigger] docs.drop_last()[j]).0 == c;
                assert(docs.drop_last()[j] == docs[j]);
                assert(docs[j].0 == c);
            }
        }
        assert forall|c: Seq<char>|
            (exists|j: int| 0 <= j < docs.len() && (#[trigger] docs[j]).0 == c) implies key_set(
            docs,
        ).contains(c) by {
            let j = choose|j: int| 0 <= j < docs.len() && (#[trigger] docs[j]).0 == c;
            if j < docs.len() - 1 {
                assert(docs.drop_last()[j].0 == c);
                assert(key_set(docs.drop_last()).contains(c));
            } else {
                assert(docs.last().0 == c);
            }
            assert(key_set(docs) == key_set(docs.drop_last()).insert(docs.last().0));
        }
    }
}

/// Deleting a key preserves the uniqueness of the remaining keys.
pub proof fn lemma_remove_key_unique(docs: Seq<(Seq<char>, Seq<char>)>, k: Seq<char>)
    requires
        unique_keys(docs),
    ensures
        unique_keys(remove_key(docs, k)),
    decreases docs.len(),
{
    if docs.len() > 0 {
        assert(unique_keys(docs.drop_last())) by {
            assert(forall|i: int|
                0 <= i < docs.drop_last().len() ==> docs.drop_last()[i] == docs[i]);
        }
        lemma_remove_key_unique(docs.drop_last(), k);
        lemma_remove_key_elements(docs.drop_last(), k);
        if docs.last().0 != k {
            let rest = remove_key(docs.drop_last(), k);
            let out = rest.push(docs.last());
            assert forall|i: int, j: int|
                0 <= i < out.len() && 0 <= j < out.len() && i != j implies out[i].0
                != out[j].0 by {
                if i < rest.len() && j < rest.len() {
                } else {
                    let a = if i < rest.len() {
                        i
                    } else {
                        j
                    };
                    assert(docs.drop_last().contains(rest[a]));
                    let w = choose|w: int|
                        0 <= w < docs.drop_last().len() && docs.drop_last()[w] == rest[a];
                    assert(docs[w] == rest[a]);
                    assert(docs[w].0 != docs[docs.len() - 1].0);
                }
            }
        }
    }
}

/// Deleting a key a second time changes nothing.
pub proof fn lemma_remove_key_idempotent(docs: Seq<(Seq<char>, Seq<char>)>, k: Seq<char>)
    ensures
        remove_key(remove_key(docs, k), k) == remove_key(docs, k),
    decreases docs.len(),
{
    if docs.len() > 0 {
        lemma_remove_key_idempotent(docs.drop_last(), k);
        if docs.last().0 != k {
            let rest = remove_key(docs.drop_last(), k);
            assert(rest.push(docs.last()).drop_last() =~= rest);
        }
    }
}

/// After a save, the collection holds exactly one document under the
/// saved key, and that document carries the saved payload.
pub proof fn lemma_save_exactly_one(docs: Seq<(Seq<char>, Seq<char>)>, k: Seq<char>, d: Seq<char>)
    ensures
        count_key(spec_save(docs, k, d), k) == 1,
        forall|i: int|
            0 <= i < spec_save(docs, k, d).len() && (#[trigger] spec_save(docs, k, d)[i]).0 == k
                ==> spec_save(docs, k, d)[i].1 == d,
{
    lemma_remove_key_count(docs, k);
    lemma_remove_key_elements(docs, k);
    let out = spec_save(docs, k, d);
    assert(out.drop_last() =~= remove_key(docs, k));
    assert(out.last() == (k, d));
    assert forall|i: int|
        0 <= i < out.len() && (#[trigger] out[i]).0 == k implies out[i].1 == d by {
        if i < out.len() - 1 {
            assert(out[i] == remove_key(docs, k)[i]);
        }
    }
}

/// A save followed by a removal of the same key leaves what a removal
/// alone would have left: no document carries the key afterwards.
pub proof fn lemma_remove_after_save(docs: Seq<(Seq<char>, Seq<char>)>, k: Seq<char>, d: Seq<char>)
    ensures
        remove_key(spec_save(docs, k, d), k) == remove_key(docs, k),
        count_key(remove_key(spec_save(docs, k, d), k), k) == 0,
{
    lemma_remove_key_idempotent(docs, k);
    lemma_remove_key_count(docs, k);
    let rest = remove_key(docs, k);
    assert(rest.push((k, d)).drop_last() =~= rest);
    assert(rest.push((k, d)).last() == (k, d));
}

/// Saving under one key twice leaves what the second save alone would
/// have left: exactly one document under the key, with the second
/// payload.
pub proof fn lemma_save_twice(
    docs: Seq<(Seq<char>, Seq<char>)>,
    k: Seq<char>,
    d1: Seq<char>,
    d2: Seq<char>,
)
    ensures
        spec_save(spec_save(docs, k, d1), k, d2) == spec_save(docs, k, d2),
        count_key(spec_save(spec_save(docs, k, d1), k, d2), k) == 1,
        forall|i: int|
            0 <= i < spec_save(spec_save(docs, k, d1), k, d2).len() && (#[trigger] spec_save(
                spec_save(docs, k, d1),
                k,
                d2,
            )[i]).0 == k ==> spec_save(spec_save(docs, k, d1), k, d2)[i].1 == d2,
{
    lemma_remove_after_save(docs, k, d1);
    lemma_save_exactly_one(docs, k, d2);
}

/// A save preserves the store's invariant of one document per key.
pub proof fn lemma_spec_save_unique(docs: Seq<(Seq<char>, Seq<char>)>, k: Seq<char>, d: Seq<char>)
    requires
        unique_keys(docs),
    ensures
        unique_keys(spec_save(docs, k, d)),
{
    lemma_remove_key_unique(docs, k);
    lemma_remove_key_elements(docs, k);
    let rest = remove_key(docs, k);
    let out = spec_save(docs, k, d);
    assert forall|i: int, j: int|
        0 <= i < out.len() && 0 <= j < out.len() && i != j implies out[i].0 != out[j].0 by {
        if i < rest.len() && j < rest.len() {
            assert(out[i] == rest[i]);
            assert(out[j] == rest[j]);
        } else {
            let a = if i < rest.len() {
                i
            } else {
                j
            };
            assert(out[a] == rest[a]);
        }
    }
}

/// The mapping built from a collection's documents has exactly the keys
/// present in the collection, in whatever order the store returned the
/// documents.
pub proof fn lemma_contents_dom(docs: Seq<(Seq<char>, Seq<char>)>)
    ensures
        contents(docs).dom() == key_set(docs),
    decreases docs.len(),
{
    if docs.len() == 0 {
        assert(contents(docs).dom() =~= key_set(docs));
    } else {
        lemma_contents_dom(docs.drop_last());
        assert(contents(docs).dom() =~= key_set(docs));
    }
}

/// In a collection with unique keys, the mapping of its contents sends
/// each document's key to that document's payload.
pub proof fn lemma_contents_at(docs: Seq<(Seq<char>, Seq<char>)>, i: int)
    requires
        unique_keys(docs),
        0 <= i < docs.len(),
    ensures
        contents(docs).contains_key(docs[i].0),
        contents(docs)[docs[i].0] == docs[i].1,
    decreases docs.len(),
{
    if i < docs.len() - 1 {
        assert(unique_keys(docs.drop_last())) by {
            assert(forall|j: int|
                0 <= j < docs.drop_last().len() ==> docs.drop_last()[j] == docs[j]);
        }
        lemma_contents_at(docs.drop_last(), i);
        assert(docs.drop_last()[i] == docs[i]);
        assert(docs[docs.len() - 1].0 != docs[i].0);
    }
}

/// The contents after a save are the contents with the saved key mapped
/// to the saved payload.
pub proof fn lemma_contents_save(docs: Seq<(Seq<char>, Seq<char>)>, k: Seq<char>, d: Seq<char>)
    ensures
        contents(spec_save(docs, k, d)) == contents(docs).insert(k, d),
{
    lemma_contents_remove_key(docs, k);
    let rest = remove_key(docs, k);
    assert(rest.push((k, d)).drop_last() =~= rest);
    assert(rest.push((k, d)).last() == (k, d));
    assert(contents(spec_save(docs, k, d)) == contents(rest).insert(k, d));
    assert(contents(docs).remove(k).insert(k, d) =~= contents(docs).insert(k, d));
}

/// The contents after deleting a key are the contents without that key.
pub proof fn lemma_contents_remove_key(docs: Seq<(Seq<char>, Seq<char>)>, k: Seq<char>)
    ensures
        contents(remove_key(docs, k)) == contents(docs).remove(k),
    decreases docs.len(),
{
    if docs.len() == 0 {
        assert(contents(remove_key(docs, k)) =~= contents(docs).remove(k));
    } else {
        lemma_contents_remove_key(docs.drop_last(), k);
        let rest = remove_key(docs.drop_last(), k);
        if docs.last().0 == k {
            assert(contents(docs).remove(k) =~= contents(docs.drop_last()).remove(k));
        } else {
            assert(rest.push(docs.last()).drop_last() =~= rest);
            assert(contents(remove_key(docs, k)) == contents(rest).insert(
                docs.last().0,
                docs.last().1,
            ));
            assert(contents(docs.drop_last()).remove(k).insert(docs.last().0, docs.last().1)
                =~= contents(docs).remove(k));
        }
    }
}

} // verus!

