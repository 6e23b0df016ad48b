use vstd::prelude::*;
use crossbeam_skiplist::SkipMap;
use crate::errors::Errors;
use crate::log_record::LogRecordPos;
use crate::options::{IndexType, IteratorOptions};

verus! {

#[verifier::external_type_specification]
#[verifier::external_body]
#[verifier::reject_recursive_types(K)]
#[verifier::reject_recursive_types(V)]
pub struct ExSkipMap<K, V>(SkipMap<K, V>);

/// The skip map that holds the index: key bytes to record position.
pub type KeyMap = SkipMap<Vec<u8>, LogRecordPos>;

/// What a skip map of the index holds, key by key.
pub uninterp spec fn skl_contents(m: KeyMap) -> Map<Seq<u8>, LogRecordPos>;

/// Byte-wise lexicographic order, as `Ord` on `Vec<u8>` compares: at the
/// first difference the smaller byte wins, and a proper prefix comes first.
pub open spec fn lex_lt(a: Seq<u8>, b: Seq<u8>) -> bool {
    exists|i: int|
        0 <= i <= a.len() && i <= b.len() && #[trigger] a.subrange(0, i) == b.subrange(0, i) && (
        (i == a.len() && i < b.len()) || (i < a.len() && i < b.len() && a[i] < b[i]))
}

/// The index that holds no key.
pub open spec fn empty_index() -> Map<Seq<u8>, LogRecordPos> {
    Map::empty()
}

/// No sequence comes before itself.
pub proof fn lemma_lex_lt_irreflexive(a: Seq<u8>)
    ensures
        !lex_lt(a, a),
{
}

/// `s` starts with `p`.
pub open spec fn has_prefix(s: Seq<u8>, p: Seq<u8>) -> bool {
    p.len() <= s.len() && s.subrange(0, p.len() as int) == p
}

/// Whether `s` starts with `p`.
pub fn starts_with(s: &Vec<u8>, p: &Vec<u8>) -> (r: bool)
    ensures
        r == has_prefix(s@, p@),
{
    if p.len() > s.len() {
        return false;
    }
    let mut i: usize = 0;
    while i < p.len()
        invariant
            p@.len() <= s@.len(),
            i <= p@.len(),
            forall|j: int| 0 <= j < i ==> s@[j] == p@[j],
        decreases p@.len() - i,
    {
        if s[i] != p[i] {
            assert(s@.subrange(0, p@.len() as int)[i as int] != p@[i as int]);
            return false;
        }
        i = i + 1;
    }
    assert(s@.subrange(0, p@.len() as int) =~= p@);
    true
}

/// Whether `a` comes before `b` in byte-wise lexicographic order.
pub fn bytes_lt(a: &Vec<u8>, b: &Vec<u8>) -> (r: bool)
    ensures
        r == lex_lt(a@, b@),
{
    let mut i: usize = 0;
    while i < a.len() && i < b.len() && a[i] == b[i]
        invariant
            i <= a@.len(),
            i <= b@.len(),
            forall|j: int| 0 <= j < i ==> a@[j] == b@[j],
        decreases a@.len() - i,
    {
        i = i + 1;
    }
    let r = (i == a.len() && i < b.len()) || (i < a.len() && i < b.len() && a[i] < b[i]);
    proof {
        if r {
            assert(a@.subrange(0, i as int) =~= b@.subrange(0, i as int));
        } else {
            assert forall|j: int|
                !(0 <= j <= a@.len() && j <= b@.len() && #[trigger] a@.subrange(0, j) == b@.subrange(0, j) && (
                (j == a@.len() && j < b@.len()) || (j < a@.len() && j < b@.len() && a@[j] < b@[j]))) by {
                if 0 <= j <= a@.len() && j <= b@.len() && a@.subrange(0, j) == b@.subrange(0, j) {
                    if j > i {
                        assert(a@.subrange(0, j)[i as int] == b@.subrange(0, j)[i as int]);
                    } else if j < i {
                        assert(a@[j] == b@[j]);
                    }
                }
            }
        }
    }
    r
}

/// Relies on SkipMap::new: a map with no entry.
#[verifier::external_body]
fn skl_new() -> (r: KeyMap)
    ensures
        skl_contents(r) == empty_index(),
{
    SkipMap::new()
}

/// Relies on SkipMap::insert: the key then maps to the value, and an earlier
/// entry of the key is removed.
#[verifier::external_body]
fn skl_insert(m: &mut KeyMap, key: Vec<u8>, pos: LogRecordPos)
    ensures
        skl_contents(*final(m)) == skl_contents(*old(m)).insert(key@, pos),
{
    m.insert(key, pos);
}

/// Relies on SkipMap::get: the entry of the key, if there is one.
#[verifier::external_body]
fn skl_get(m: &KeyMap, key: &Vec<u8>) -> (r: Option<LogRecordPos>)
    ensures
        r == (if skl_contents(*m).contains_key(key@) {
            Some(skl_contents(*m)[key@])
        } else {
            None::<LogRecordPos>
        }),
{
    match m.get(key) {
        Some(e) => Some(*e.value()),
        None => None,
    }
}

/// Relies on SkipMap::remove: the entry of the key is gone, and the result
/// tells whether there was one.
#[verifier::external_body]
fn skl_remove(m: &mut KeyMap, key: &Vec<u8>) -> (r: bool)
    ensures
        r == skl_contents(*old(m)).contains_key(key@),
        skl_contents(*final(m)) == skl_contents(*old(m)).remove(key@),
{
    m.remove(key).is_some()
}

/// Relies on SkipMap::iter: every entry once, in ascending key order.
#[verifier::external_body]
fn skl_entries(m: &KeyMap) -> (r: Vec<(Vec<u8>, LogRecordPos)>)
    ensures
        forall|i: int|
            0 <= i < r@.len() ==> skl_contents(*m).contains_key(#[trigger] r@[i].0@)
                && skl_contents(*m)[r@[i].0@] == r@[i].1,
        forall|i: int, j: int| 0 <= i < j < r@.len() ==> lex_lt(#[trigger] r@[i].0@, #[trigger] r@[j].0@),
        forall|k: Seq<u8>|
            skl_contents(*m).contains_key(k) ==> exists|i: int| 0 <= i < r@.len() && #[trigger] r@[i].0@ == k,
{
    m.iter().map(|e| (e.key().clone(), *e.value())).collect()
}

/// An in-memory index from key to record position.
pub trait Indexer {
    /// The key-to-position map that the index holds.
    spec fn index_view(&self) -> Map<Seq<u8>, LogRecordPos>;

    /// Stores the position of `key`, replacing an earlier one.
    fn put(&mut self, key: Vec<u8>, pos: LogRecordPos) -> (r: bool)
        ensures
            r,
            final(self).index_view() == old(self).index_view().insert(key@, pos),
    ;

    /// The position stored for `key`, if any.
    fn get(&self, key: Vec<u8>) -> (r: Option<LogRecordPos>)
        ensures
            r == (if self.index_view().contains_key(key@) {
                Some(self.index_view()[key@])
            } else {
                None::<LogRecordPos>
            }),
    ;

    /// Removes `key`; tells whether it was there.
    fn delete(&mut self, key: Vec<u8>) -> (r: bool)
        ensures
            r == old(self).index_view().contains_key(key@),
            final(self).index_view() == old(self).index_view().remove(key@),
    ;

    /// Every key, in ascending order.
    fn list_keys(&self) -> (r: Result<Vec<Vec<u8>>, Errors>)
        ensures
            r is Ok,
            forall|i: int|
                0 <= i < r->Ok_0@.len() ==> self.index_view().contains_key(#[trigger] r->Ok_0@[i]@),
            forall|i: int, j: int|
                0 <= i < j < r->Ok_0@.len() ==> lex_lt(#[trigger] r->Ok_0@[i]@, #[trigger] r->Ok_0@[j]@),
            forall|k: Seq<u8>|
                self.index_view().contains_key(k) ==> exists|i: int|
                    0 <= i < r->Ok_0@.len() && #[trigger] r->Ok_0@[i]@ == k,
    ;
}

/// Index on a concurrent ordered skip map.
pub struct SkipList {
    skl: KeyMap,
}

impl SkipList {
    /// An empty index.
    pub fn new() -> (r: SkipList)
        ensures
            r.index_view() == empty_index(),
    {
        SkipList { skl: skl_new() }
    }

    /// Every entry, once each.
    pub fn entries(&self) -> (r: Vec<(Vec<u8>, LogRecordPos)>)
        ensures
            forall|i: int, j: int| 0 <= i < j < r@.len() ==> lex_lt(#[trigger] r@[i].0@, #[trigger] r@[j].0@),
            forall|i: int|
                0 <= i < r@.len() ==> self.index_view().contains_key(#[trigger] r@[i].0@)
                    && self.index_view()[r@[i].0@] == r@[i].1,
            forall|k: Seq<u8>|
                self.index_view().contains_key(k) ==> exists|i: int| 0 <= i < r@.len() && #[trigger] r@[i].0@ == k,
    {
        assert(self.index_view() == skl_contents(self.skl));
        skl_entries(&self.skl)
    }

    /// A cursor over a snapshot of the entries, in ascending key order, or in
    /// descending order when `options.reverse` is set.
    pub fn iterator(&self, options: IteratorOptions) -> (r: SkipListIterator)
        ensures
            r.wf(),
            r.curr_index == 0,
            r.options.prefix@ == options.prefix@,
            r.options.reverse == options.reverse,
            forall|i: int|
                0 <= i < r.items@.len() ==> self.index_view().contains_key(#[trigger] r.items@[i].0@)
                    && self.index_view()[r.items@[i].0@] == r.items@[i].1,
            forall|k: Seq<u8>|
                self.index_view().contains_key(k) ==> exists|i: int|
                    0 <= i < r.items@.len() && #[trigger] r.items@[i].0@ == k,
    {
        let entries = skl_entries(&self.skl);
        assert(self.index_view() == skl_contents(self.skl));
        let mut items: Vec<(Vec<u8>, LogRecordPos)> = Vec::new();
        if options.reverse {
            let mut i: usize = entries.len();
            while i > 0
                invariant
                    i <= entries@.len(),
                    items@.len() == entries@.len() - i,
                    forall|j: int|
                        0 <= j < items@.len() ==> #[trigger] items@[j].0@ == entries@[entries@.len() - 1 - j].0@
                            && items@[j].1 == entries@[entries@.len() - 1 - j].1,
                decreases i,
            {
                i = i - 1;
                items.push((entries[i].0.clone(), entries[i].1));
            }
            proof {
                assert forall|a: int| 0 <= a < items@.len() implies self.index_view().contains_key(
                    #[trigger] items@[a].0@,
                ) && self.index_view()[items@[a].0@] == items@[a].1 by {
                    assert(items@[a].0@ == entries@[entries@.len() - 1 - a].0@);
                }
                assert forall|a: int, b: int| 0 <= a < b < items@.len() implies lex_lt(
                    #[trigger] items@[b].0@,
                    #[trigger] items@[a].0@,
                ) by {
                    assert(items@[a].0@ == entries@[entries@.len() - 1 - a].0@);
                    assert(items@[b].0@ == entries@[entries@.len() - 1 - b].0@);
                }
                assert forall|k: Seq<u8>| self.index_view().contains_key(k) implies exists|i: int|
                    0 <= i < items@.len() && #[trigger] items@[i].0@ == k by {
                    let j = choose|j: int| 0 <= j < entries@.len() && #[trigger] entries@[j].0@ == k;
                    let w = entries@.len() - 1 - j;
                    assert(0 <= w < items@.len());
                    assert(items@[w].0@ == entries@[entries@.len() - 1 - w].0@);
                    assert(items@[w].0@ == k);
                }
            }
        } else {
            items = entries;
            proof {
                assert forall|k: Seq<u8>| self.index_view().contains_key(k) implies exists|i: int|
                    0 <= i < items@.len() && #[trigger] items@[i].0@ == k by {
                    let j = choose|j: int| 0 <= j < entries@.len() && #[trigger] entries@[j].0@ == k;
                    assert(items@[j].0@ == k);
                }
            }
        }
        let r = SkipListIterator { items, curr_index: 0, options };
        assert(r.items@ == items@);
        r
    }
}

impl Indexer for SkipList {
    closed spec fn index_view(&self) -> Map<Seq<u8>, LogRecordPos> {
        skl_contents(self.skl)
    }

    fn put(&mut self, key: Vec<u8>, pos: LogRecordPos) -> (r: bool) {
        skl_insert(&mut self.skl, key, pos);
        true
    }

    fn get(&self, key: Vec<u8>) -> (r: Option<LogRecordPos>) {
        skl_get(&self.skl, &key)
    }

    fn delete(&mut self, key: Vec<u8>) -> (r: bool) {
        skl_remove(&mut self.skl, &key)
    }

    fn list_keys(&self) -> (r: Result<Vec<Vec<u8>>, Errors>) {
        let entries = skl_entries(&self.skl);
        let mut keys: Vec<Vec<u8>> = Vec::new();
        let mut i: usize = 0;
        while i < entries.len()
            invariant
                i <= entries@.len(),
                keys@.len() == i,
                forall|j: int| 0 <= j < i ==> #[trigger] keys@[j]@ == entries@[j].0@,
            decreases entries.len() - i,
        {
            let k = entries[i].0.clone();
            keys.push(k);
            i = i + 1;
        }
        proof {
            assert forall|k: Seq<u8>| self.index_view().contains_key(k) implies exists|i: int|
                0 <= i < keys@.len() && #[trigger] keys@[i]@ == k by {
                let j = choose|j: int| 0 <= j < entries@.len() && #[trigger] entries@[j].0@ == k;
                assert(keys@[j]@ == entries@[j].0@);
            }
            assert forall|a: int, b: int| 0 <= a < b < keys@.len() implies lex_lt(
                #[trigger] keys@[a]@,
                #[trigger] keys@[b]@,
            ) by {
                assert(keys@[a]@ == entries@[a].0@);
                assert(keys@[b]@ == entries@[b].0@);
            }
        }
        let r: Result<Vec<Vec<u8>>, Errors> = Ok(keys);
        assert(r->Ok_0@ == keys@);
        r
    }
}

/// Opens the index that `index_type` selects; every kind is served by the
/// skip map.
pub fn new_indexer(index_type: IndexType) -> (r: SkipList)
    ensures
        r.index_view() == empty_index(),
{
    SkipList::new()
}

/// A cursor over a snapshot of an index's entries.
pub struct SkipListIterator {
    pub items: Vec<(Vec<u8>, LogRecordPos)>,
    pub curr_index: usize,
    pub options: IteratorOptions,
}

impl SkipListIterator {
    /// The snapshot is in strictly ascending key order, or strictly descending
    /// when the cursor runs in reverse.
    pub open spec fn wf(&self) -> bool {
        forall|a: int, b: int|
            0 <= a < b < self.items@.len() ==> if self.options.reverse {
                lex_lt(#[trigger] self.items@[b].0@, #[trigger] self.items@[a].0@)
            } else {
                lex_lt(self.items@[a].0@, self.items@[b].0@)
            }
    }

    /// Whether `key` is one that the cursor visits.
    pub open spec fn selects(&self, key: Seq<u8>) -> bool {
        has_prefix(key, self.options.prefix@)
    }

    /// The next entry at or after the cursor whose key has the prefix; the
    /// cursor moves just past it, or to the end when there is none.
    pub fn next(&mut self) -> (r: Option<(Vec<u8>, LogRecordPos)>)
        ensures
            final(self).items == old(self).items,
            final(self).options == old(self).options,
            match r {
                Some((k, p)) => {
                    let i = final(self).curr_index - 1;
                    &&& old(self).curr_index <= i < old(self).items@.len()
                    &&& k@ == old(self).items@[i].0@
                    &&& p == old(self).items@[i].1
                    &&& old(self).selects(k@)
                    &&& forall|j: int|
                        old(self).curr_index <= j < i ==> !old(self).selects(#[trigger] old(self).items@[j].0@)
                },
                None => {
                    &&& final(self).curr_index >= old(self).items@.len()
                    &&& forall|j: int|
                        old(self).curr_index <= j < old(self).items@.len() ==> !old(self).selects(
                            #[trigger] old(self).items@[j].0@,
                        )
                },
            },
    {
        while self.curr_index < self.items.len()
            invariant
                self.items == old(self).items,
                self.options == old(self).options,
                old(self).curr_index <= self.curr_index,
                forall|j: int|
                    old(self).curr_index <= j < self.curr_index ==> !old(self).selects(
                        #[trigger] old(self).items@[j].0@,
                    ),
            decreases self.items@.len() - self.curr_index,
        {
            let i = self.curr_index;
            self.curr_index = i + 1;
            if starts_with(&self.items[i].0, &self.options.prefix) {
                let k = self.items[i].0.clone();
                return Some((k, self.items[i].1));
            }
        }
        None
    }

    /// Whether the cursor's order puts `k` before `key`: smaller keys when
    /// running forward, larger ones in reverse.
    pub open spec fn before(&self, k: Seq<u8>, key: Seq<u8>) -> bool {
        if self.options.reverse {
            lex_lt(key, k)
        } else {
            lex_lt(k, key)
        }
    }

    /// Moves the cursor to the first entry at or after `key` in the cursor's
    /// order: the first key that is not smaller than `key`, or not larger in
    /// reverse.
    pub fn seek(&mut self, key: Vec<u8>)
        ensures
            final(self).items == old(self).items,
            final(self).options == old(self).options,
            final(self).curr_index <= old(self).items@.len(),
            forall|j: int|
                0 <= j < final(self).curr_index ==> old(self).before(#[trigger] old(self).items@[j].0@, key@),
            final(self).curr_index < old(self).items@.len() ==> !old(self).before(
                old(self).items@[final(self).curr_index as int].0@,
                key@,
            ),
    {
        let mut i: usize = 0;
        while i < self.items.len() && self.entry_before(i, &key)
            invariant
                self.items == old(self).items,
                self.options == old(self).options,
                i <= self.items@.len(),
                forall|j: int| 0 <= j < i ==> old(self).before(#[trigger] old(self).items@[j].0@, key@),
            decreases self.items@.len() - i,
        {
            i = i + 1;
        }
        self.curr_index = i;
    }

    fn entry_before(&self, i: usize, key: &Vec<u8>) -> (r: bool)
        requires
            i < self.items@.len(),
        ensures
            r == self.before(self.items@[i as int].0@, key@),
    {
        if self.options.reverse {
            bytes_lt(key, &self.items[i].0)
        } else {
            bytes_lt(&self.items[i].0, key)
        }
    }

    /// Goes back to the first entry.
    pub fn rewind(&mut self)
        ensures
            final(self).curr_index == 0,
            final(self).items == old(self).items,
            final(self).options == old(self).options,
    {
        self.curr_index = 0;
    }
}

} // verus!
