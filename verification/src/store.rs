//! The document store: named collections of documents, created lazily on
//! first write, each stored document carrying one store-assigned unique
//! identifier. The store owns all persisted state; the gateway holds none.
use vstd::prelude::*;
use crate::doc::Document;
use crate::ident::{counter_of_id, Identifier};

verus! {

/// A stored document: the body as inserted, under the identifier the store
/// assigned at insert time.
pub struct StoredDocument {
    pub id: Identifier,
    pub body: Document,
}

/// One named collection and its documents, in insertion order.
pub struct StoredCollection {
    pub name: String,
    pub docs: Vec<StoredDocument>,
}

/// The documents a collection holds in a store model; a collection that was
/// never written is empty, not an error.
pub open spec fn docs_in(m: Map<Seq<char>, Seq<StoredDocument>>, name: Seq<char>) -> Seq<
    StoredDocument,
> {
    if m.dom().contains(name) {
        m[name]
    } else {
        Seq::empty()
    }
}

/// The store model after an insert: the document appended to its collection,
/// the collection created implicitly on first write.
pub open spec fn model_insert(
    m: Map<Seq<char>, Seq<StoredDocument>>,
    name: Seq<char>,
    sd: StoredDocument,
) -> Map<Seq<char>, Seq<StoredDocument>> {
    m.insert(name, docs_in(m, name).push(sd))
}

/// Whether some document in a collection carries the identifier.
pub open spec fn contains_id(docs: Seq<StoredDocument>, id: Seq<u8>) -> bool {
    exists|i: int| 0 <= i < docs.len() && docs[i].id@ == id
}

/// A collection with the first document carrying the identifier removed;
/// unchanged when no document carries it.
pub open spec fn remove_first_id(docs: Seq<StoredDocument>, id: Seq<u8>) -> Seq<StoredDocument>
    decreases docs.len(),
{
    if docs.len() == 0 {
        Seq::empty()
    } else if docs[0].id@ == id {
        docs.subrange(1, docs.len() as int)
    } else {
        seq![docs[0]] + remove_first_id(docs.subrange(1, docs.len() as int), id)
    }
}

/// The store model after a delete-by-identifier: at most one document
/// removed, and a miss is not an error.
pub open spec fn model_delete(
    m: Map<Seq<char>, Seq<StoredDocument>>,
    name: Seq<char>,
    id: Seq<u8>,
) -> Map<Seq<char>, Seq<StoredDocument>> {
    if m.dom().contains(name) {
        m.insert(name, remove_first_id(m[name], id))
    } else {
        m
    }
}

/// A saturating tally of operations.
pub open spec fn count_bump(c: u64) -> u64 {
    if c < u64::MAX {
        (c + 1) as u64
    } else {
        c
    }
}

/// Whether a collection list holds a collection of the given name.
pub open spec fn has_lookup(s: Seq<StoredCollection>, name: Seq<char>) -> bool
    decreases s.len(),
{
    if s.len() == 0 {
        false
    } else if s[0].name@ == name {
        true
    } else {
        has_lookup(s.subrange(1, s.len() as int), name)
    }
}

/// The documents of the first collection of the given name.
pub open spec fn docs_lookup(s: Seq<StoredCollection>, name: Seq<char>) -> Seq<StoredDocument>
    decreases s.len(),
{
    if s.len() == 0 {
        Seq::empty()
    } else if s[0].name@ == name {
        s[0].docs@
    } else {
        docs_lookup(s.subrange(1, s.len() as int), name)
    }
}

/// Scanning past a prefix without the name leaves the lookup unchanged.
proof fn lemma_lookup_skip(s: Seq<StoredCollection>, name: Seq<char>, i: int)
    requires
        0 <= i <= s.len(),
        forall|j: int| 0 <= j < i ==> (#[trigger] s[j]).name@ != name,
    ensures
        has_lookup(s, name) == has_lookup(s.subrange(i, s.len() as int), name),
        docs_lookup(s, name) == docs_lookup(s.subrange(i, s.len() as int), name),
    decreases i,
{
    if i == 0 {
        assert(s.subrange(0, s.len() as int) =~= s);
    } else {
        let rest = s.subrange(1, s.len() as int);
        lemma_lookup_skip(rest, name, i - 1);
        assert(rest.subrange(i - 1, rest.len() as int) =~= s.subrange(i, s.len() as int));
    }
}

/// A first match at an index settles the lookup.
proof fn lemma_lookup_first(s: Seq<StoredCollection>, name: Seq<char>, i: int)
    requires
        0 <= i < s.len(),
        s[i].name@ == name,
        forall|j: int| 0 <= j < i ==> (#[trigger] s[j]).name@ != name,
    ensures
        has_lookup(s, name),
        docs_lookup(s, name) == s[i].docs@,
{
    lemma_lookup_skip(s, name, i);
    assert(s.subrange(i, s.len() as int)[0] == s[i]);
}

/// No match anywhere settles the lookup as absent and empty.
proof fn lemma_lookup_none(s: Seq<StoredCollection>, name: Seq<char>)
    requires
        forall|j: int| 0 <= j < s.len() ==> (#[trigger] s[j]).name@ != name,
    ensures
        !has_lookup(s, name),
        docs_lookup(s, name) == Seq::<StoredDocument>::empty(),
{
    lemma_lookup_skip(s, name, s.len() as int);
    assert(s.subrange(s.len() as int, s.len() as int) =~= Seq::<StoredCollection>::empty());
}

/// Replacing the first collection of a name, keeping its name, changes that
/// name's lookup alone.
proof fn lemma_lookup_update(
    s: Seq<StoredCollection>,
    name: Seq<char>,
    i: int,
    col2: StoredCollection,
    m: Seq<char>,
)
    requires
        0 <= i < s.len(),
        s[i].name@ == name,
        forall|j: int| 0 <= j < i ==> (#[trigger] s[j]).name@ != name,
        col2.name@ == name,
    ensures
        has_lookup(s.update(i, col2), m) == has_lookup(s, m),
        docs_lookup(s.update(i, col2), m) == if m == name {
            col2.docs@
        } else {
            docs_lookup(s, m)
        },
    decreases i,
{
    let s2 = s.update(i, col2);
    if i == 0 {
        assert(s2[0] == col2);
        assert(s2.subrange(1, s2.len() as int) =~= s.subrange(1, s.len() as int));
    } else {
        let rest = s.subrange(1, s.len() as int);
        lemma_lookup_update(rest, name, i - 1, col2, m);
        assert(s2[0] == s[0]);
        assert(s2.subrange(1, s2.len() as int) =~= rest.update(i - 1, col2));
    }
}

/// Appending a fresh collection changes only its own name's lookup, and only
/// when no earlier collection already bears that name.
proof fn lemma_lookup_push(s: Seq<StoredCollection>, col: StoredCollection, m: Seq<char>)
    ensures
        has_lookup(s.push(col), m) == (has_lookup(s, m) || col.name@ == m),
        docs_lookup(s.push(col), m) == if has_lookup(s, m) {
            docs_lookup(s, m)
        } else if col.name@ == m {
            col.docs@
        } else {
            Seq::<StoredDocument>::empty()
        },
    decreases s.len(),
{
    let s2 = s.push(col);
    if s.len() == 0 {
        assert(s2[0] == col);
        assert(s2.subrange(1, 1) =~= Seq::<StoredCollection>::empty());
        assert(!has_lookup(Seq::<StoredCollection>::empty(), m));
        assert(docs_lookup(Seq::<StoredCollection>::empty(), m) == Seq::<
            StoredDocument,
        >::empty());
    } else {
        assert(s2[0] == s[0]);
        lemma_lookup_push(s.subrange(1, s.len() as int), col, m);
        assert(s2.subrange(1, s2.len() as int) =~= s.subrange(1, s.len() as int).push(col));
    }
}

/// Removing the first document that carries an identifier matches the model.
proof fn lemma_remove_first_at(docs: Seq<StoredDocument>, id: Seq<u8>, j: int)
    requires
        0 <= j < docs.len(),
        docs[j].id@ == id,
        forall|k: int| 0 <= k < j ==> (#[trigger] docs[k]).id@ != id,
    ensures
        contains_id(docs, id),
        remove_first_id(docs, id) == docs.remove(j),
    decreases j,
{
    if j == 0 {
        assert(remove_first_id(docs, id) == docs.subrange(1, docs.len() as int));
        assert(docs.remove(0) =~= docs.subrange(1, docs.len() as int));
    } else {
        let rest = docs.subrange(1, docs.len() as int);
        lemma_remove_first_at(rest, id, j - 1);
        assert(rest.remove(j - 1) =~= docs.remove(j).subrange(1, docs.remove(j).len() as int));
        assert(docs.remove(j)[0] == docs[0]);
        assert(remove_first_id(docs, id) =~= docs.remove(j));
    }
}

/// A collection with no document carrying the identifier is left unchanged.
proof fn lemma_remove_first_none(docs: Seq<StoredDocument>, id: Seq<u8>)
    requires
        forall|k: int| 0 <= k < docs.len() ==> (#[trigger] docs[k]).id@ != id,
    ensures
        !contains_id(docs, id),
        remove_first_id(docs, id) == docs,
    decreases docs.len(),
{
    if docs.len() > 0 {
        let rest = docs.subrange(1, docs.len() as int);
        lemma_remove_first_none(rest, id);
        assert(remove_first_id(docs, id) =~= docs);
    }
}

/// A name the lookup finds is borne by some collection, whose documents the
/// lookup yields.
proof fn lemma_lookup_index(s: Seq<StoredCollection>, name: Seq<char>)
    requires
        has_lookup(s, name),
    ensures
        exists|i: int|
            0 <= i < s.len() && (#[trigger] s[i]).name@ == name && docs_lookup(s, name)
                == s[i].docs@,
    decreases s.len(),
{
    if s[0].name@ == name {
        assert(s[0].name@ == name && docs_lookup(s, name) == s[0].docs@);
    } else {
        let rest = s.subrange(1, s.len() as int);
        lemma_lookup_index(rest, name);
        let i = choose|i: int|
            0 <= i < rest.len() && (#[trigger] rest[i]).name@ == name && docs_lookup(rest, name)
                == rest[i].docs@;
        assert(s[i + 1] == rest[i]);
        assert((s[i + 1]).name@ == name && docs_lookup(s, name) == s[i + 1].docs@);
    }
}

/// The position of the first document carrying an identifier, if any.
fn find_doc_index(docs: &Vec<StoredDocument>, id: &Identifier) -> (r: Option<usize>)
    ensures
        match r {
            Some(j) => j < docs@.len() && docs@[j as int].id@ == id@ && forall|k: int|
                0 <= k < j ==> (#[trigger] docs@[k]).id@ != id@,
            None => forall|k: int| 0 <= k < docs@.len() ==> (#[trigger] docs@[k]).id@ != id@,
        },
{
    let n = docs.len();
    for j in 0..n
        invariant
            n == docs@.len(),
            forall|k: int| 0 <= k < j ==> (#[trigger] docs@[k]).id@ != id@,
    {
        if id.same(&docs[j].id) {
            return Some(j);
        }
    }
    None
}

/// An in-memory document store: the sole owner of persisted state,
/// identifier assignment and collection lifecycle.
pub struct MemStore {
    collections: Vec<StoredCollection>,
    next_counter: u64,
    delete_calls: u64,
}

impl MemStore {
    /// The collection names the store knows, in store order.
    pub closed spec fn names(self) -> Seq<Seq<char>> {
        self.collections@.map(|i: int, c: StoredCollection| c.name@)
    }

    /// The store's contents: each known collection's documents, by name.
    pub closed spec fn contents(self) -> Map<Seq<char>, Seq<StoredDocument>> {
        Map::new(
            |n: Seq<char>| has_lookup(self.collections@, n),
            |n: Seq<char>| docs_lookup(self.collections@, n),
        )
    }

    /// How many delete operations the store has been asked to run.
    pub closed spec fn delete_count(self) -> u64 {
        self.delete_calls
    }

    /// The identifier-assignment counter.
    pub closed spec fn counter(self) -> u64 {
        self.next_counter
    }

    /// Whether the store can still assign a fresh identifier.
    pub open spec fn can_assign(self) -> bool {
        self.counter() < u64::MAX
    }

    spec fn pos_ok(self, i: int, j: int) -> bool {
        0 <= i < self.collections@.len() && 0 <= j < self.collections@[i].docs@.len()
    }

    spec fn id_at(self, i: int, j: int) -> Seq<u8> {
        self.collections@[i].docs@[j].id@
    }

    /// Well-formed: collection names are unique, and every stored document
    /// carries a well-formed identifier assigned from a counter below the
    /// next one — so stored identifiers are pairwise distinct.
    pub closed spec fn wf(self) -> bool {
        &&& forall|i: int, j: int|
            0 <= i < j < self.collections@.len() ==> (#[trigger] self.collections@[i]).name@ != (
            #[trigger] self.collections@[j]).name@
        &&& forall|i: int, j: int|
            self.pos_ok(i, j) ==> (#[trigger] self.id_at(i, j)).len() == 12 && counter_of_id(
                self.id_at(i, j),
            ) < self.next_counter
        &&& forall|i1: int, j1: int, i2: int, j2: int|
            self.pos_ok(i1, j1) && self.pos_ok(i2, j2) && !(i1 == i2 && j1 == j2)
                ==> counter_of_id(#[trigger] self.id_at(i1, j1)) != counter_of_id(
                #[trigger] self.id_at(i2, j2),
            )
    }

    /// A fresh store: no collections, nothing written, nothing counted.
    pub fn new() -> (r: MemStore)
        ensures
            r.wf(),
            r.contents() == Map::<Seq<char>, Seq<StoredDocument>>::empty(),
            r.names() == Seq::<Seq<char>>::empty(),
            r.delete_count() == 0,
            r.can_assign(),
    {
        let r = MemStore { collections: Vec::new(), next_counter: 0, delete_calls: 0 };
        proof {
            assert(r.contents() =~= Map::<Seq<char>, Seq<StoredDocument>>::empty());
            assert(r.names() =~= Seq::<Seq<char>>::empty());
        }
        r
    }

    /// The collection resolver's read path: the position of a named
    /// collection, when the store knows it.
    fn find_index(&self, name: &str) -> (r: Option<usize>)
        ensures
            match r {
                Some(i) => i < self.collections@.len() && self.collections@[i as int].name@
                    == name@ && forall|j: int|
                    0 <= j < i ==> (#[trigger] self.collections@[j]).name@ != name@,
                None => forall|j: int|
                    0 <= j < self.collections@.len() ==> (#[trigger] self.collections@[j]).name@
                        != name@,
            },
    {
        let key: String = name.to_owned();
        let n = self.collections.len();
        for i in 0..n
            invariant
                n == self.collections@.len(),
                key@ == name@,
                forall|j: int| 0 <= j < i ==> (#[trigger] self.collections@[j]).name@ != name@,
        {
            if self.collections[i].name == key {
                return Some(i);
            }
        }
        None
    }

    /// Every collection name the store knows, in store order.
    pub fn list_collection_names(&self) -> (r: Vec<String>)
        ensures
            r@.len() == self.names().len(),
            forall|i: int| 0 <= i < r@.len() ==> (#[trigger] r@[i])@ == self.names()[i],
    {
        let n = self.collections.len();
        let mut r: Vec<String> = Vec::new();
        for i in 0..n
            invariant
                n == self.collections@.len(),
                r@.len() == i,
                forall|j: int| 0 <= j < i ==> (#[trigger] r@[j])@ == self.names()[j],
        {
            r.push(self.collections[i].name.clone());
        }
        r
    }

    /// A full scan of one collection: every stored document, in insertion
    /// order; a collection never written reads as absent.
    pub fn find_all(&self, name: &str) -> (r: Option<&Vec<StoredDocument>>)
        ensures
            match r {
                Some(v) => self.contents().dom().contains(name@) && v@ == docs_in(
                    self.contents(),
                    name@,
                ),
                None => !self.contents().dom().contains(name@),
            },
    {
        match self.find_index(name) {
            Some(i) => {
                proof {
                    lemma_lookup_first(self.collections@, name@, i as int);
                }
                Some(&self.collections[i].docs)
            },
            None => {
                proof {
                    lemma_lookup_none(self.collections@, name@);
                }
                None
            },
        }
    }

    /// Commits one document to a collection, creating the collection on
    /// first write. The store assigns the new document a fresh identifier
    /// that no stored document carries.
    pub fn insert_one(&mut self, name: &str, body: Document)
        requires
            old(self).wf(),
            old(self).can_assign(),
        ensures
            final(self).wf(),
            ({
                let docs0 = docs_in(old(self).contents(), name@);
                let docs1 = docs_in(final(self).contents(), name@);
                &&& docs1.len() == docs0.len() + 1
                &&& docs1 == docs0.push(docs1.last())
                &&& docs1.last().body == body
                &&& docs1.last().id.wf()
                &&& !contains_id(docs0, docs1.last().id@)
                &&& final(self).contents() == model_insert(
                    old(self).contents(),
                    name@,
                    docs1.last(),
                )
            }),
            final(self).names() == if old(self).contents().dom().contains(name@) {
                old(self).names()
            } else {
                old(self).names().push(name@)
            },
            final(self).delete_count() == old(self).delete_count(),
            final(self).counter() == old(self).counter() + 1,
    {
        let ghost s = self.collections@;
        let ghost prev = *self;
        let id = Identifier::from_counter(self.next_counter);
        let sd = StoredDocument { id, body };
        let ghost sd_g = sd;
        self.next_counter = self.next_counter + 1;
        let idx = self.find_index(name);
        match idx {
            Some(i) => {
                let mut col = self.collections.remove(i);
                col.docs.push(sd);
                self.collections.insert(i, col);
                proof {
                    let ghost col2 = self.collections@[i as int];
                    assert(self.collections@ =~= s.update(i as int, col2));
                    assert(col2.name@ == name@);
                    assert(col2.docs@ == s[i as int].docs@.push(sd_g));
                    lemma_lookup_first(s, name@, i as int);
                    assert forall|m: Seq<char>|
                        has_lookup(self.collections@, m) == has_lookup(s, m) && docs_lookup(
                            self.collections@,
                            m,
                        ) == (if m == name@ {
                            col2.docs@
                        } else {
                            docs_lookup(s, m)
                        }) by {
                        lemma_lookup_update(s, name@, i as int, col2, m);
                    }
                    assert(self.contents() =~= model_insert(
                        prev.contents(),
                        name@,
                        docs_in(self.contents(), name@).last(),
                    ));
                    assert(self.names() =~= prev.names());
                    let docs0 = docs_in(prev.contents(), name@);
                    assert(docs0 == s[i as int].docs@);
                    assert forall|k: int| 0 <= k < docs0.len() implies (#[trigger] docs0[k]).id@
                        != sd_g.id@ by {
                        assert(prev.pos_ok(i as int, k));
                        assert(prev.id_at(i as int, k) == docs0[k].id@);
                    }
                    self.lemma_insert_wf(prev, i as int, s[i as int].docs@.len() as int, sd_g);
                }
            },
            None => {
                let mut docs: Vec<StoredDocument> = Vec::new();
                docs.push(sd);
                let key: String = name.to_owned();
                let col = StoredCollection { name: key, docs };
                self.collections.push(col);
                proof {
                    let ghost col2 = self.collections@.last();
                    assert(self.collections@ =~= s.push(col2));
                    assert(col2.docs@ =~= seq![sd_g]);
                    lemma_lookup_none(s, name@);
                    assert forall|m: Seq<char>|
                        has_lookup(self.collections@, m) == (has_lookup(s, m) || m == name@)
                            && docs_lookup(self.collections@, m) == (if has_lookup(s, m) {
                            docs_lookup(s, m)
                        } else if m == name@ {
                            col2.docs@
                        } else {
                            Seq::<StoredDocument>::empty()
                        }) by {
                        lemma_lookup_push(s, col2, m);
                    }
                    assert(docs_in(self.contents(), name@) =~= Seq::<StoredDocument>::empty().push(
                        sd_g,
                    ));
                    assert(self.contents() =~= model_insert(
                        prev.contents(),
                        name@,
                        docs_in(self.contents(), name@).last(),
                    ));
                    assert(self.names() =~= prev.names().push(name@));
                    self.lemma_insert_wf(prev, s.len() as int, 0, sd_g);
                }
            },
        }
    }

    /// Insert preserves well-formedness: the one new position carries the
    /// freshly assigned identifier, every other position is unchanged.
    proof fn lemma_insert_wf(&self, prev: MemStore, ci: int, dj: int, sd: StoredDocument)
        requires
            prev.wf(),
            prev.next_counter < u64::MAX,
            self.next_counter == prev.next_counter + 1,
            sd.id.wf(),
            counter_of_id(sd.id@) == prev.next_counter,
            0 <= ci < self.collections@.len(),
            dj == if ci < prev.collections@.len() {
                prev.collections@[ci].docs@.len() as int
            } else {
                0
            },
            self.collections@.len() == if ci < prev.collections@.len() {
                prev.collections@.len() as int
            } else {
                prev.collections@.len() + 1 as int
            },
            forall|i: int|
                0 <= i < self.collections@.len() ==> (#[trigger] self.collections@[i]).name@ == (
                if i < prev.collections@.len() {
                    prev.collections@[i].name@
                } else {
                    self.collections@[i].name@
                }),
            forall|i: int|
                0 <= i < prev.collections@.len() && i != ci
                    ==> (#[trigger] self.collections@[i]).docs@ == prev.collections@[i].docs@,
            self.collections@[ci].docs@ == if ci < prev.collections@.len() {
                prev.collections@[ci].docs@.push(sd)
            } else {
                seq![sd]
            },
            self.collections@.len() == prev.collections@.len() || ci
                == prev.collections@.len(),
            forall|i: int, j: int|
                0 <= i < j < self.collections@.len() ==> (#[trigger] self.collections@[i]).name@
                    != (#[trigger] self.collections@[j]).name@,
        ensures
            self.wf(),
    {
        assert forall|i: int, j: int| self.pos_ok(i, j) implies (#[trigger] self.id_at(
            i,
            j,
        )).len() == 12 && counter_of_id(self.id_at(i, j)) < self.next_counter by {
            if i == ci && j == dj {
                assert(self.id_at(i, j) == sd.id@);
            } else {
                assert(prev.pos_ok(i, j));
                assert(self.id_at(i, j) == prev.id_at(i, j));
            }
        }
        assert forall|i1: int, j1: int, i2: int, j2: int|
            self.pos_ok(i1, j1) && self.pos_ok(i2, j2) && !(i1 == i2 && j1 == j2)
                implies counter_of_id(#[trigger] self.id_at(i1, j1)) != counter_of_id(
            #[trigger] self.id_at(i2, j2),
        ) by {
            if i1 == ci && j1 == dj {
                assert(prev.pos_ok(i2, j2));
                assert(self.id_at(i2, j2) == prev.id_at(i2, j2));
            } else if i2 == ci && j2 == dj {
                assert(prev.pos_ok(i1, j1));
                assert(self.id_at(i1, j1) == prev.id_at(i1, j1));
            } else {
                assert(prev.pos_ok(i1, j1) && prev.pos_ok(i2, j2));
                assert(self.id_at(i1, j1) == prev.id_at(i1, j1));
                assert(self.id_at(i2, j2) == prev.id_at(i2, j2));
            }
        }
    }

    /// Deletes at most one document: the first of the collection carrying
    /// the identifier. A miss — unknown collection or absent identifier —
    /// is reported as zero deletions, not as an error.
    pub fn delete_one(&mut self, name: &str, id: &Identifier) -> (deleted: usize)
        requires
            old(self).wf(),
        ensures
            final(self).wf(),
            final(self).contents() == model_delete(old(self).contents(), name@, id@),
            final(self).names() == old(self).names(),
            final(self).delete_count() == count_bump(old(self).delete_count()),
            final(self).counter() == old(self).counter(),
            deleted <= 1,
            (deleted == 1) <==> contains_id(docs_in(old(self).contents(), name@), id@),
    {
        let ghost prev = *self;
        if self.delete_calls < u64::MAX {
            self.delete_calls = self.delete_calls + 1;
        }
        proof {
            prev.lemma_wf_collections_unchanged(*self);
        }
        let idx = match self.find_index(name) {
            Some(i) => i,
            None => {
                proof {
                    lemma_lookup_none(self.collections@, name@);
                    assert(self.contents() =~= model_delete(prev.contents(), name@, id@));
                    assert(self.names() =~= prev.names());
                }
                return 0;
            },
        };
        let ghost s = self.collections@;
        proof {
            lemma_lookup_first(s, name@, idx as int);
        }
        let hit = find_doc_index(&self.collections[idx].docs, id);
        match hit {
            Some(j) => {
                let mut col = self.collections.remove(idx);
                let ghost docs0 = col.docs@;
                col.docs.remove(j);
                self.collections.insert(idx, col);
                proof {
                    let ghost col2 = self.collections@[idx as int];
                    assert(self.collections@ =~= s.update(idx as int, col2));
                    assert(col2.docs@ == docs0.remove(j as int));
                    lemma_remove_first_at(docs0, id@, j as int);
                    assert forall|m: Seq<char>|
                        has_lookup(self.collections@, m) == has_lookup(s, m) && docs_lookup(
                            self.collections@,
                            m,
                        ) == (if m == name@ {
                            col2.docs@
                        } else {
                            docs_lookup(s, m)
                        }) by {
                        lemma_lookup_update(s, name@, idx as int, col2, m);
                    }
                    let m0 = prev.contents();
                    let m1 = self.contents();
                    let md = model_delete(m0, name@, id@);
                    assert(m0.dom().contains(name@));
                    assert(md == m0.insert(name@, remove_first_id(m0[name@], id@)));
                    assert(m0[name@] == docs0);
                    assert(remove_first_id(docs0, id@) == col2.docs@);
                    assert(m1.dom() =~= md.dom());
                    assert forall|m: Seq<char>| md.dom().contains(m) implies m1[m] == md[m] by {
                        if m == name@ {
                            assert(m1[m] == col2.docs@);
                        } else {
                            assert(m1[m] == docs_lookup(s, m));
                        }
                    }
                    assert(m1 =~= md);
                    assert(self.names() =~= prev.names());
                    prev.lemma_delete_wf(*self, idx as int, j as int);
                }
                1
            },
            None => {
                proof {
                    let ghost docs0 = s[idx as int].docs@;
                    lemma_remove_first_none(docs0, id@);
                    assert(self.contents() =~= model_delete(prev.contents(), name@, id@)) by {
                        assert(docs_lookup(s, name@) == docs0);
                        assert(model_delete(prev.contents(), name@, id@) =~= prev.contents());
                    }
                }
                0
            },
        }
    }

    /// A change that leaves the collections and the identifier counter
    /// alone preserves well-formedness and every observation but the tally.
    proof fn lemma_wf_collections_unchanged(&self, other: MemStore)
        requires
            self.wf(),
            other.collections@ == self.collections@,
            other.next_counter == self.next_counter,
        ensures
            other.wf(),
            other.names() == self.names(),
            other.contents() == self.contents(),
    {
        assert forall|i: int, j: int| other.pos_ok(i, j) implies (#[trigger] other.id_at(
            i,
            j,
        )).len() == 12 && counter_of_id(other.id_at(i, j)) < other.next_counter by {
            assert(self.pos_ok(i, j));
            assert(other.id_at(i, j) == self.id_at(i, j));
        }
        assert forall|i1: int, j1: int, i2: int, j2: int|
            other.pos_ok(i1, j1) && other.pos_ok(i2, j2) && !(i1 == i2 && j1 == j2)
                implies counter_of_id(#[trigger] other.id_at(i1, j1)) != counter_of_id(
            #[trigger] other.id_at(i2, j2),
        ) by {
            assert(self.pos_ok(i1, j1) && self.pos_ok(i2, j2));
            assert(other.id_at(i1, j1) == self.id_at(i1, j1));
            assert(other.id_at(i2, j2) == self.id_at(i2, j2));
        }
        assert(other.names() =~= self.names());
        assert(other.contents() =~= self.contents());
    }

    /// Delete preserves well-formedness: every remaining position carries
    /// the identifier it carried before.
    proof fn lemma_delete_wf(&self, next: MemStore, ci: int, dj: int)
        requires
            self.wf(),
            next.next_counter == self.next_counter,
            next.collections@.len() == self.collections@.len(),
            0 <= ci < self.collections@.len(),
            0 <= dj < self.collections@[ci].docs@.len(),
            forall|i: int|
                0 <= i < self.collections@.len() && i != ci
                    ==> (#[trigger] next.collections@[i]).docs@ == self.collections@[i].docs@,
            next.collections@[ci].docs@ == self.collections@[ci].docs@.remove(dj),
            forall|i: int|
                0 <= i < next.collections@.len() ==> (#[trigger] next.collections@[i]).name@
                    == self.collections@[i].name@,
        ensures
            next.wf(),
    {
        let oldpos = |i: int, j: int| -> (int, int)
            {
                if i == ci && j >= dj {
                    (i, j + 1)
                } else {
                    (i, j)
                }
            };
        assert forall|i: int, j: int| next.pos_ok(i, j) implies (#[trigger] next.id_at(
            i,
            j,
        )).len() == 12 && counter_of_id(next.id_at(i, j)) < next.next_counter by {
            let (a, b) = oldpos(i, j);
            assert(self.pos_ok(a, b));
            assert(next.id_at(i, j) == self.id_at(a, b));
        }
        assert forall|i1: int, j1: int, i2: int, j2: int|
            next.pos_ok(i1, j1) && next.pos_ok(i2, j2) && !(i1 == i2 && j1 == j2)
                implies counter_of_id(#[trigger] next.id_at(i1, j1)) != counter_of_id(
            #[trigger] next.id_at(i2, j2),
        ) by {
            let (a1, b1) = oldpos(i1, j1);
            let (a2, b2) = oldpos(i2, j2);
            assert(self.pos_ok(a1, b1) && self.pos_ok(a2, b2));
            assert(next.id_at(i1, j1) == self.id_at(a1, b1));
            assert(next.id_at(i2, j2) == self.id_at(a2, b2));
            assert(!(a1 == a2 && b1 == b2));
        }
    }

    /// Every document a well-formed store holds carries a well-formed
    /// identifier, and no two documents of a collection share one.
    pub proof fn lemma_stored_ids(&self, name: Seq<char>)
        requires
            self.wf(),
        ensures
            forall|k: int|
                0 <= k < docs_in(self.contents(), name).len() ==> (#[trigger] docs_in(
                    self.contents(),
                    name,
                )[k]).id.wf(),
            forall|k1: int, k2: int|
                0 <= k1 < k2 < docs_in(self.contents(), name).len() ==> (#[trigger] docs_in(
                    self.contents(),
                    name,
                )[k1]).id@ != (#[trigger] docs_in(self.contents(), name)[k2]).id@,
    {
        if self.contents().dom().contains(name) {
            lemma_lookup_index(self.collections@, name);
            let i = choose|i: int|
                0 <= i < self.collections@.len() && (#[trigger] self.collections@[i]).name@
                    == name && docs_lookup(self.collections@, name)
                    == self.collections@[i].docs@;
            let docs = docs_in(self.contents(), name);
            assert(docs == self.collections@[i].docs@);
            assert forall|k: int| 0 <= k < docs.len() implies (#[trigger] docs[k]).id.wf() by {
                assert(self.pos_ok(i, k));
                assert(self.id_at(i, k) == docs[k].id@);
            }
            assert forall|k1: int, k2: int| 0 <= k1 < k2 < docs.len() implies (
            #[trigger] docs[k1]).id@ != (#[trigger] docs[k2]).id@ by {
                assert(self.pos_ok(i, k1) && self.pos_ok(i, k2));
                assert(self.id_at(i, k1) == docs[k1].id@);
                assert(self.id_at(i, k2) == docs[k2].id@);
                assert(counter_of_id(self.id_at(i, k1)) != counter_of_id(self.id_at(i, k2)));
            }
        }
    }

    /// How many delete operations the store has been asked to run.
    pub fn delete_calls_made(&self) -> (r: u64)
        ensures
            r == self.delete_count(),
    {
        self.delete_calls
    }
}

} // verus!
