//! The memory index: an ordered map from user key to record locator.
//!
//! The ordered map is kept as a vector of entries sorted strictly by the
//! bytewise key order of [`crate::keys`]; its view is the finite map the
//! entries spell out.

use vstd::prelude::*;

use crate::errors::Errors;
use crate::keys::{
    has_prefix, key_cmp, lemma_lex_asymmetric, lemma_lex_irreflexive, lemma_lex_transitive,
    lex_lt, spec_has_prefix, KeyOrder,
};
use crate::log_record::LogRecordPos;
use crate::options::{IndexType, IteratorOptions};

verus! {

/// The entries as pure pairs of key bytes and locator.
pub open spec fn entry_pairs(s: Seq<(Vec<u8>, LogRecordPos)>) -> Seq<(Seq<u8>, LogRecordPos)> {
    s.map_values(|e: (Vec<u8>, LogRecordPos)| (e.0@, e.1))
}

/// Strictly ascending by key.
pub open spec fn sorted_entries(s: Seq<(Vec<u8>, LogRecordPos)>) -> bool {
    forall|i: int, j: int| 0 <= i < j < s.len() ==> lex_lt(s[i].0@, s[j].0@)
}

/// The finite map the entries stand for.
pub open spec fn entries_map(s: Seq<(Vec<u8>, LogRecordPos)>) -> Map<Seq<u8>, LogRecordPos>
    decreases s.len(),
{
    if s.len() == 0 {
        Map::empty()
    } else {
        entries_map(s.drop_last()).insert(s.last().0@, s.last().1)
    }
}

/// In a strictly sorted vector no key repeats.
pub proof fn lemma_sorted_distinct(s: Seq<(Vec<u8>, LogRecordPos)>)
    requires
        sorted_entries(s),
    ensures
        forall|i: int, j: int| 0 <= i < j < s.len() ==> s[i].0@ != s[j].0@,
{
    assert forall|i: int, j: int| 0 <= i < j < s.len() implies s[i].0@ != s[j].0@ by {
        lemma_lex_irreflexive(s[i].0@);
    }
}

/// What the entry map holds: exactly the listed keys, each at its listed
/// locator.
pub proof fn lemma_entries_map_char(s: Seq<(Vec<u8>, LogRecordPos)>)
    requires
        forall|i: int, j: int| 0 <= i < j < s.len() ==> s[i].0@ != s[j].0@,
    ensures
        forall|k: Seq<u8>|
            #[trigger] entries_map(s).dom().contains(k) <==> exists|i: int|
                0 <= i < s.len() && s[i].0@ == k,
        forall|i: int| 0 <= i < s.len() ==> #[trigger] entries_map(s)[s[i].0@] == s[i].1,
    decreases s.len(),
{
    if s.len() > 0 {
        let dl = s.drop_last();
        lemma_entries_map_char(dl);
        assert forall|k: Seq<u8>| #[trigger]
            entries_map(s).dom().contains(k) <==> exists|i: int|
                0 <= i < s.len() && s[i].0@ == k by {
            if entries_map(s).dom().contains(k) {
                if k == s.last().0@ {
                    assert(s[s.len() - 1].0@ == k);
                } else {
                    assert(entries_map(dl).dom().contains(k));
                    let i = choose|i: int| 0 <= i < dl.len() && dl[i].0@ == k;
                    assert(dl[i] == s[i]);
                    assert(s[i].0@ == k);
                }
            }
            if exists|i: int| 0 <= i < s.len() && s[i].0@ == k {
                let i = choose|i: int| 0 <= i < s.len() && s[i].0@ == k;
                if i < s.len() - 1 {
                    assert(dl[i].0@ == k);
                    assert(entries_map(dl).dom().contains(k));
                }
            }
        }
        assert forall|i: int| 0 <= i < s.len() implies #[trigger] entries_map(s)[s[i].0@]
            == s[i].1 by {
            if i < s.len() - 1 {
                assert(s[i].0@ != s.last().0@);
                assert(dl[i] == s[i]);
                assert(entries_map(dl)[dl[i].0@] == dl[i].1);
            }
        }
    }
}

/// The ordered map index.
pub struct BTree {
    entries: Vec<(Vec<u8>, LogRecordPos)>,
}

impl BTree {
    /// The entries, in key order.
    pub closed spec fn pairs(&self) -> Seq<(Seq<u8>, LogRecordPos)> {
        entry_pairs(self.entries@)
    }

    /// The keys, in ascending order.
    pub open spec fn keys(&self) -> Seq<Seq<u8>> {
        self.pairs().map_values(|p: (Seq<u8>, LogRecordPos)| p.0)
    }

    /// The entries stay strictly sorted.
    pub closed spec fn wf(&self) -> bool {
        sorted_entries(self.entries@)
    }

    /// The map this index holds.
    pub closed spec fn as_map(&self) -> Map<Seq<u8>, LogRecordPos> {
        entries_map(self.entries@)
    }

    /// What the map view holds, spelled over the ordered entries.
    pub proof fn char(&self)
        requires
            self.wf(),
        ensures
            forall|k: Seq<u8>|
                #[trigger] self.as_map().dom().contains(k) <==> exists|i: int|
                    0 <= i < self.pairs().len() && self.pairs()[i].0 == k,
            forall|i: int|
                0 <= i < self.pairs().len() ==> #[trigger] self.as_map()[self.pairs()[i].0]
                    == self.pairs()[i].1,
            forall|i: int, j: int|
                0 <= i < j < self.pairs().len() ==> lex_lt(
                    self.pairs()[i].0,
                    self.pairs()[j].0,
                ),
    {
        lemma_sorted_distinct(self.entries@);
        lemma_entries_map_char(self.entries@);
        assert forall|k: Seq<u8>| #[trigger]
            self.as_map().dom().contains(k) <==> exists|i: int|
                0 <= i < self.pairs().len() && self.pairs()[i].0 == k by {
            if self.as_map().dom().contains(k) {
                let i = choose|i: int| 0 <= i < self.entries@.len() && self.entries@[i].0@ == k;
                assert(self.pairs()[i].0 == k);
            }
            if exists|i: int| 0 <= i < self.pairs().len() && self.pairs()[i].0 == k {
                let i = choose|i: int| 0 <= i < self.pairs().len() && self.pairs()[i].0 == k;
                assert(self.entries@[i].0@ == k);
            }
        }
    }

    /// An empty index.
    pub fn new() -> (bt: BTree)
        ensures
            bt.wf(),
            bt.as_map() == Map::<Seq<u8>, LogRecordPos>::empty(),
            bt.pairs() == Seq::<(Seq<u8>, LogRecordPos)>::empty(),
    {
        let bt = BTree { entries: Vec::new() };
        proof {
            assert(bt.pairs() =~= Seq::<(Seq<u8>, LogRecordPos)>::empty());
        }
        bt
    }

    /// Where `key` sits: `(true, i)` when entry `i` holds it, else
    /// `(false, i)` for the slot it would take.
    fn find_slot(&self, key: &[u8]) -> (r: (bool, usize))
        requires
            self.wf(),
        ensures
            r.1 <= self.pairs().len(),
            forall|j: int| 0 <= j < r.1 ==> lex_lt(#[trigger] self.pairs()[j].0, key@),
            r.0 ==> r.1 < self.pairs().len() && self.pairs()[r.1 as int].0 == key@,
            !r.0 ==> (r.1 == self.pairs().len() || lex_lt(key@, self.pairs()[r.1 as int].0)),
    {
        let n = self.entries.len();
        let mut i: usize = 0;
        while i < n
            invariant
                n == self.entries@.len(),
                i <= n,
                forall|j: int| 0 <= j < i ==> lex_lt(#[trigger] self.entries@[j].0@, key@),
            decreases n - i,
        {
            let e = &self.entries[i];
            match key_cmp(e.0.as_slice(), key) {
                KeyOrder::Less => {
                    i = i + 1;
                },
                KeyOrder::Equal => {
                    return (true, i);
                },
                KeyOrder::Greater => {
                    return (false, i);
                },
            }
        }
        (false, i)
    }

    /// Inserts or overwrites; always succeeds.
    pub fn put(&mut self, key: Vec<u8>, pos: LogRecordPos) -> (r: bool)
        requires
            old(self).wf(),
        ensures
            r,
            final(self).wf(),
            final(self).as_map() == old(self).as_map().insert(key@, pos),
    {
        proof {
            self.char();
        }
        let (found, i) = self.find_slot(key.as_slice());
        let ghost olds = self.entries@;
        if found {
            self.entries.set(i, (key, pos));
            proof {
                let news = self.entries@;
                assert(news =~= olds.update(i as int, (key, pos)));
                assert forall|a: int, b: int| 0 <= a < b < news.len() implies lex_lt(
                    news[a].0@,
                    news[b].0@,
                ) by {
                    assert(olds[a].0@ == entry_pairs(olds)[a].0);
                    assert(olds[b].0@ == entry_pairs(olds)[b].0);
                }
                lemma_sorted_distinct(news);
                lemma_entries_map_char(news);
                assert(final(self).as_map() =~= old(self).as_map().insert(key@, pos)) by {
                    assert forall|k: Seq<u8>| #[trigger]
                        entries_map(news).dom().contains(k) <==> old(self).as_map().insert(
                            key@,
                            pos,
                        ).dom().contains(k) by {
                        if entries_map(news).dom().contains(k) {
                            let a = choose|a: int| 0 <= a < news.len() && news[a].0@ == k;
                            if a == i {
                            } else {
                                assert(olds[a].0@ == k);
                                assert(entry_pairs(olds)[a].0 == k);
                            }
                        }
                        if old(self).as_map().insert(key@, pos).dom().contains(k) {
                            if k == key@ {
                                assert(news[i as int].0@ == k);
                            } else {
                                let a = choose|a: int|
                                    0 <= a < entry_pairs(olds).len() && entry_pairs(olds)[a].0
                                        == k;
                                assert(news[a].0@ == k);
                            }
                        }
                    }
                    assert forall|k: Seq<u8>|
                        entries_map(news).dom().contains(k) implies #[trigger] entries_map(
                        news,
                    )[k] == old(self).as_map().insert(key@, pos)[k] by {
                        let a = choose|a: int| 0 <= a < news.len() && news[a].0@ == k;
                        assert(entries_map(news)[news[a].0@] == news[a].1);
                        if a == i {
                        } else {
                            assert(olds[a].0@ == k);
                            assert(entry_pairs(olds)[a].0 == k);
                            assert(old(self).as_map()[entry_pairs(olds)[a].0]
                                == entry_pairs(olds)[a].1);
                            assert(k != key@) by {
                                assert(entry_pairs(olds)[i as int].0 == key@);
                                lemma_sorted_distinct(olds);
                            }
                        }
                    }
                }
            }
        } else {
            self.entries.insert(i, (key, pos));
            proof {
                let news = self.entries@;
                assert(news =~= olds.insert(i as int, (key, pos)));
                assert forall|a: int| 0 <= a < news.len() implies news[a] == (if a < i {
                    olds[a]
                } else if a == i {
                    (key, pos)
                } else {
                    olds[a - 1]
                }) by {}
                assert forall|a: int, b: int| 0 <= a < b < news.len() implies lex_lt(
                    news[a].0@,
                    news[b].0@,
                ) by {
                    let n1 = news[a].0@;
                    let n2 = news[b].0@;
                    if a < i && b == i {
                        assert(entry_pairs(olds)[a].0 == olds[a].0@);
                    } else if a == i && b > i {
                        assert(entry_pairs(olds)[b - 1].0 == olds[b - 1].0@);
                        if i < olds.len() {
                            assert(entry_pairs(olds)[i as int].0 == olds[i as int].0@);
                            if b - 1 > i {
                                lemma_lex_transitive(key@, olds[i as int].0@, olds[b - 1].0@);
                            }
                        }
                    } else if a < i && b > i {
                        assert(entry_pairs(olds)[a].0 == olds[a].0@);
                        assert(entry_pairs(olds)[b - 1].0 == olds[b - 1].0@);
                        if b - 1 == a {
                            assert(false);
                        } else if i < olds.len() && b - 1 == i {
                            assert(lex_lt(olds[a].0@, key@));
                        } else {
                        }
                        if b - 1 > a {
                        }
                    }
                }
                lemma_sorted_distinct(news);
                lemma_entries_map_char(news);
                assert(!old(self).as_map().dom().contains(key@)) by {
                    if old(self).as_map().dom().contains(key@) {
                        let a = choose|a: int|
                            0 <= a < entry_pairs(olds).len() && entry_pairs(olds)[a].0 == key@;
                        if a < i {
                            lemma_lex_irreflexive(key@);
                        } else {
                            assert(i < olds.len());
                            if a == i {
                                lemma_lex_irreflexive(key@);
                            } else {
                                assert(lex_lt(olds[i as int].0@, olds[a].0@));
                                assert(entry_pairs(olds)[i as int].0 == olds[i as int].0@);
                                lemma_lex_asymmetric(key@, olds[i as int].0@);
                                lemma_lex_transitive(key@, olds[a].0@, olds[i as int].0@);
                                lemma_lex_irreflexive(key@);
                            }
                        }
                    }
                }
                assert(final(self).as_map() =~= old(self).as_map().insert(key@, pos)) by {
                    assert forall|k: Seq<u8>| #[trigger]
                        entries_map(news).dom().contains(k) <==> old(self).as_map().insert(
                            key@,
                            pos,
                        ).dom().contains(k) by {
                        if entries_map(news).dom().contains(k) {
                            let a = choose|a: int| 0 <= a < news.len() && news[a].0@ == k;
                            if a == i {
                            } else if a < i {
                                assert(olds[a].0@ == k);
                                assert(entry_pairs(olds)[a].0 == k);
                            } else {
                                assert(olds[a - 1].0@ == k);
                                assert(entry_pairs(olds)[a - 1].0 == k);
                            }
                        }
                        if old(self).as_map().insert(key@, pos).dom().contains(k) {
                            if k == key@ {
                                assert(news[i as int].0@ == k);
                            } else {
                                let a = choose|a: int|
                                    0 <= a < entry_pairs(olds).len() && entry_pairs(olds)[a].0
                                        == k;
                                if a < i {
                                    assert(news[a].0@ == k);
                                } else {
                                    assert(news[a + 1].0@ == k);
                                }
                            }
                        }
                    }
                    assert forall|k: Seq<u8>|
                        entries_map(news).dom().contains(k) implies #[trigger] entries_map(
                        news,
                    )[k] == old(self).as_map().insert(key@, pos)[k] by {
                        let a = choose|a: int| 0 <= a < news.len() && news[a].0@ == k;
                        assert(entries_map(news)[news[a].0@] == news[a].1);
                        if a == i {
                        } else {
                            let b = if a < i {
                                a
                            } else {
                                a - 1
                            };
                            assert(olds[b].0@ == k);
                            assert(entry_pairs(olds)[b].0 == k);
                            assert(old(self).as_map()[entry_pairs(olds)[b].0]
                                == entry_pairs(olds)[b].1);
                            assert(k != key@) by {
                                lemma_sorted_distinct(news);
                                assert(news[i as int].0@ == key@);
                            }
                        }
                    }
                }
            }
        }
        true
    }

    /// Point lookup.
    pub fn get(&self, key: Vec<u8>) -> (r: Option<LogRecordPos>)
        requires
            self.wf(),
        ensures
            match r {
                Some(p) => self.as_map().dom().contains(key@) && p == self.as_map()[key@],
                None => !self.as_map().dom().contains(key@),
            },
    {
        proof {
            self.char();
        }
        let (found, i) = self.find_slot(key.as_slice());
        if found {
            let e = &self.entries[i];
            assert(self.pairs()[i as int].1 == e.1);
            Some(e.1)
        } else {
            proof {
                if self.as_map().dom().contains(key@) {
                    let a = choose|a: int|
                        0 <= a < self.pairs().len() && self.pairs()[a].0 == key@;
                    if a < i {
                        lemma_lex_irreflexive(key@);
                    } else if a == i {
                        lemma_lex_irreflexive(key@);
                    } else {
                        assert(i < self.pairs().len());
                        assert(lex_lt(self.pairs()[i as int].0, self.pairs()[a].0));
                        lemma_lex_transitive(key@, self.pairs()[i as int].0, self.pairs()[a].0);
                        lemma_lex_irreflexive(key@);
                    }
                }
            }
            None
        }
    }

    /// Removes the key; says whether it was there.
    pub fn delete(&mut self, key: Vec<u8>) -> (r: bool)
        requires
            old(self).wf(),
        ensures
            final(self).wf(),
            r == old(self).as_map().dom().contains(key@),
            final(self).as_map() == old(self).as_map().remove(key@),
    {
        proof {
            self.char();
        }
        let (found, i) = self.find_slot(key.as_slice());
        let ghost olds = self.entries@;
        if found {
            self.entries.remove(i);
            proof {
                let news = self.entries@;
                assert(news =~= olds.remove(i as int));
                assert forall|a: int| 0 <= a < news.len() implies news[a] == (if a < i {
                    olds[a]
                } else {
                    olds[a + 1]
                }) by {}
                assert forall|a: int, b: int| 0 <= a < b < news.len() implies lex_lt(
                    news[a].0@,
                    news[b].0@,
                ) by {}
                lemma_sorted_distinct(news);
                lemma_entries_map_char(news);
                lemma_sorted_distinct(olds);
                assert(entry_pairs(olds)[i as int].0 == key@);
                assert(final(self).as_map() =~= old(self).as_map().remove(key@)) by {
                    assert forall|k: Seq<u8>| #[trigger]
                        entries_map(news).dom().contains(k) <==> old(self).as_map().remove(
                            key@,
                        ).dom().contains(k) by {
                        if entries_map(news).dom().contains(k) {
                            let a = choose|a: int| 0 <= a < news.len() && news[a].0@ == k;
                            let b = if a < i {
                                a
                            } else {
                                a + 1
                            };
                            assert(olds[b].0@ == k);
                            assert(entry_pairs(olds)[b].0 == k);
                            assert(k != key@) by {
                                assert(olds[i as int].0@ == key@);
                            }
                        }
                        if old(self).as_map().remove(key@).dom().contains(k) {
                            let a = choose|a: int|
                                0 <= a < entry_pairs(olds).len() && entry_pairs(olds)[a].0 == k;
                            assert(olds[a].0@ == k);
                            assert(a != i);
                            if a < i {
                                assert(news[a].0@ == k);
                            } else {
                                assert(news[a - 1].0@ == k);
                            }
                        }
                    }
                    assert forall|k: Seq<u8>|
                        entries_map(news).dom().contains(k) implies #[trigger] entries_map(
                        news,
                    )[k] == old(self).as_map().remove(key@)[k] by {
                        let a = choose|a: int| 0 <= a < news.len() && news[a].0@ == k;
                        assert(entries_map(news)[news[a].0@] == news[a].1);
                        let b = if a < i {
                            a
                        } else {
                            a + 1
                        };
                        assert(olds[b].0@ == k);
                        assert(entry_pairs(olds)[b].0 == k);
                        assert(old(self).as_map()[entry_pairs(olds)[b].0]
                            == entry_pairs(olds)[b].1);
                        assert(k != key@);
                    }
                }
            }
            true
        } else {
            proof {
                if old(self).as_map().dom().contains(key@) {
                    let a = choose|a: int|
                        0 <= a < self.pairs().len() && self.pairs()[a].0 == key@;
                    if a < i {
                        lemma_lex_irreflexive(key@);
                    } else if a == i {
                        lemma_lex_irreflexive(key@);
                    } else {
                        assert(i < self.pairs().len());
                        assert(lex_lt(self.pairs()[i as int].0, self.pairs()[a].0));
                        lemma_lex_transitive(key@, self.pairs()[i as int].0, self.pairs()[a].0);
                        lemma_lex_irreflexive(key@);
                    }
                }
                assert(final(self).as_map() =~= old(self).as_map().remove(key@));
            }
            false
        }
    }

    /// Every key the index holds, in ascending order.
    pub fn list_keys(&self) -> (r: Result<Vec<Vec<u8>>, Errors>)
        requires
            self.wf(),
        ensures
            r matches Ok(ks) && ks@.map_values(|k: Vec<u8>| k@) == self.keys(),
    {
        let n = self.entries.len();
        let mut out: Vec<Vec<u8>> = Vec::new();
        let mut i: usize = 0;
        while i < n
            invariant
                n == self.entries@.len(),
                i <= n,
                out@.len() == i,
                forall|j: int| 0 <= j < i ==> #[trigger] out@[j]@ == self.entries@[j].0@,
            decreases n - i,
        {
            let e = &self.entries[i];
            let k = vstd::slice::slice_to_vec(e.0.as_slice());
            out.push(k);
            i = i + 1;
        }
        proof {
            assert(out@.map_values(|k: Vec<u8>| k@) =~= self.keys());
        }
        Ok(out)
    }

    /// A snapshot cursor over the entries: forward in key order, or
    /// backward when `option.reverse`.
    pub fn iterator(&self, option: IteratorOptions) -> (it: BTreeIterator)
        requires
            self.wf(),
        ensures
            it.inv(),
            it.curr() == 0,
            it.prefix() == option.prefix@,
            it.is_reverse() == option.reverse,
            !option.reverse ==> it.pairs() == self.pairs(),
            option.reverse ==> it.pairs() == self.pairs().reverse(),
    {
        let n = self.entries.len();
        let mut items: Vec<(Vec<u8>, LogRecordPos)> = Vec::new();
        if !option.reverse {
            let mut i: usize = 0;
            while i < n
                invariant
                    n == self.entries@.len(),
                    i <= n,
                    items@.len() == i,
                    forall|j: int|
                        0 <= j < i ==> #[trigger] items@[j].0@ == self.entries@[j].0@
                            && items@[j].1 == self.entries@[j].1,
                decreases n - i,
            {
                let e = &self.entries[i];
                let k = vstd::slice::slice_to_vec(e.0.as_slice());
                items.push((k, e.1));
                i = i + 1;
            }
            let it = BTreeIterator { items, curr_index: 0, options: option };
            proof {
                assert(it.pairs() =~= self.pairs());
            }
            it
        } else {
            let mut i: usize = n;
            while i > 0
                invariant
                    n == self.entries@.len(),
                    i <= n,
                    items@.len() == n - i,
                    forall|j: int|
                        0 <= j < n - i ==> #[trigger] items@[j].0@ == self.entries@[n - 1 - j].0@
                            && items@[j].1 == self.entries@[n - 1 - j].1,
                decreases i,
            {
                i = i - 1;
                let e = &self.entries[i];
                let k = vstd::slice::slice_to_vec(e.0.as_slice());
                items.push((k, e.1));
            }
            let it = BTreeIterator { items, curr_index: 0, options: option };
            proof {
                assert(it.pairs() =~= self.pairs().reverse());
                assert forall|a: int, b: int|
                    0 <= a < b < it.pairs().len() implies lex_lt(
                    it.pairs()[b].0,
                    it.pairs()[a].0,
                ) by {
                    assert(it.pairs()[a].0 == self.entries@[n - 1 - a].0@);
                    assert(it.pairs()[b].0 == self.entries@[n - 1 - b].0@);
                }
            }
            it
        }
    }
}


/// The index an engine builds for the given kind; only the ordered map
/// is provided here.
pub fn new_indexer(index_type: IndexType) -> (bt: BTree)
    requires
        index_type == IndexType::BTree,
    ensures
        bt.wf(),
        bt.as_map() == Map::<Seq<u8>, LogRecordPos>::empty(),
        bt.pairs() == Seq::<(Seq<u8>, LogRecordPos)>::empty(),
{
    BTree::new()
}

/// What a cursor still has to yield from position `i` on: the entries at
/// or past `i` whose keys carry the prefix.
pub open spec fn filtered_from(
    p: Seq<(Seq<u8>, LogRecordPos)>,
    pre: Seq<u8>,
    i: int,
) -> Seq<(Seq<u8>, LogRecordPos)>
    decreases p.len() - i,
{
    if i < 0 || i >= p.len() {
        Seq::empty()
    } else if spec_has_prefix(p[i].0, pre) {
        seq![p[i]] + filtered_from(p, pre, i + 1)
    } else {
        filtered_from(p, pre, i + 1)
    }
}

/// A snapshot cursor over the index: the captured entries in iteration
/// order, the position, and the walking options.
pub struct BTreeIterator {
    items: Vec<(Vec<u8>, LogRecordPos)>,
    curr_index: usize,
    options: IteratorOptions,
}

impl BTreeIterator {
    /// The captured entries, in the order this cursor walks them.
    pub closed spec fn pairs(&self) -> Seq<(Seq<u8>, LogRecordPos)> {
        entry_pairs(self.items@)
    }

    /// The cursor's position.
    pub closed spec fn curr(&self) -> int {
        self.curr_index as int
    }

    /// The prefix filter.
    pub closed spec fn prefix(&self) -> Seq<u8> {
        self.options.prefix@
    }

    /// Whether the walk is backward.
    pub closed spec fn is_reverse(&self) -> bool {
        self.options.reverse
    }

    /// Does `a` come strictly before `b` in this cursor's walking order?
    pub open spec fn comes_before(&self, a: Seq<u8>, b: Seq<u8>) -> bool {
        if self.is_reverse() {
            lex_lt(b, a)
        } else {
            lex_lt(a, b)
        }
    }

    /// The position is in range and the captured entries are strictly
    /// ordered by the walking order.
    pub closed spec fn inv(&self) -> bool {
        &&& self.curr_index <= self.items@.len()
        &&& forall|i: int, j: int|
            0 <= i < j < self.items@.len() ==> self.comes_before(
                #[trigger] self.items@[i].0@,
                #[trigger] self.items@[j].0@,
            )
    }

    /// Back before the first captured entry.
    pub fn rewind(&mut self)
        requires
            old(self).inv(),
        ensures
            final(self).inv(),
            final(self).pairs() == old(self).pairs(),
            final(self).prefix() == old(self).prefix(),
            final(self).is_reverse() == old(self).is_reverse(),
            final(self).curr() == 0,
    {
        self.curr_index = 0;
    }

    /// Positions the cursor at the first captured entry not strictly
    /// before `key` in walking order: forward, the smallest key at or
    /// above `key`; backward, the largest at or below it.
    pub fn seek(&mut self, key: Vec<u8>)
        requires
            old(self).inv(),
        ensures
            final(self).inv(),
            final(self).pairs() == old(self).pairs(),
            final(self).prefix() == old(self).prefix(),
            final(self).is_reverse() == old(self).is_reverse(),
            forall|j: int|
                0 <= j < final(self).curr() ==> final(self).comes_before(
                    #[trigger] final(self).pairs()[j].0,
                    key@,
                ),
            final(self).curr() < final(self).pairs().len() ==> !final(self).comes_before(
                final(self).pairs()[final(self).curr()].0,
                key@,
            ),
    {
        let n = self.items.len();
        let rev = self.options.reverse;
        let mut i: usize = 0;
        while i < n
            invariant_except_break
                n == self.items@.len(),
                i <= n,
                rev == self.options.reverse,
                forall|j: int|
                    0 <= j < i ==> self.comes_before(#[trigger] self.items@[j].0@, key@),
            ensures
                n == self.items@.len(),
                i <= n,
                forall|j: int|
                    0 <= j < i ==> self.comes_before(#[trigger] self.items@[j].0@, key@),
                i < n ==> !self.comes_before(self.items@[i as int].0@, key@),
            decreases n - i,
        {
            let e = &self.items[i];
            let c = key_cmp(e.0.as_slice(), key.as_slice());
            let go_on = if rev {
                c == KeyOrder::Greater
            } else {
                c == KeyOrder::Less
            };
            if go_on {
                i = i + 1;
            } else {
                proof {
                    if c == KeyOrder::Equal {
                        lemma_lex_irreflexive(key@);
                    } else if rev {
                        lemma_lex_asymmetric(key@, e.0@);
                    } else {
                        lemma_lex_asymmetric(e.0@, key@);
                    }
                }
                break;
            }
        }
        self.curr_index = i;
        proof {
            assert forall|j: int|
                0 <= j < final(self).curr() implies final(self).comes_before(
                #[trigger] final(self).pairs()[j].0,
                key@,
            ) by {
                assert(final(self).pairs()[j].0 == self.items@[j].0@);
            }
        }
    }

    /// Yields the next captured entry whose key carries the prefix, or
    /// `None` when none is left; the cursor moves past what it yields.
    pub fn next(&mut self) -> (r: Option<(Vec<u8>, LogRecordPos)>)
        requires
            old(self).inv(),
        ensures
            final(self).inv(),
            final(self).pairs() == old(self).pairs(),
            final(self).prefix() == old(self).prefix(),
            final(self).is_reverse() == old(self).is_reverse(),
            match r {
                None => filtered_from(old(self).pairs(), old(self).prefix(), old(self).curr())
                    == Seq::<(Seq<u8>, LogRecordPos)>::empty() && final(self).curr() == final(self).pairs().len(),
                Some(e) => ({
                    let f = filtered_from(
                        old(self).pairs(),
                        old(self).prefix(),
                        old(self).curr(),
                    );
                    &&& f.len() > 0
                    &&& e.0@ == f[0].0
                    &&& e.1 == f[0].1
                    &&& filtered_from(
                        final(self).pairs(),
                        final(self).prefix(),
                        final(self).curr(),
                    ) == f.skip(1)
                    &&& old(self).curr() < final(self).curr() <= final(self).pairs().len()
                }),
            },
    {
        let n = self.items.len();
        let ghost p = self.pairs();
        let ghost pre = self.prefix();
        let ghost c0 = self.curr();
        if self.curr_index >= n {
            return None;
        }
        let mut i: usize = self.curr_index;
        while i < n
            invariant
                old(self).inv(),
                self.items@ == old(self).items@,
                self.options.prefix@ == old(self).options.prefix@,
                self.options.reverse == old(self).options.reverse,
                self.curr_index == old(self).curr_index,
                n == self.items@.len(),
                c0 == old(self).curr(),
                c0 <= i <= n,
                p == entry_pairs(self.items@),
                pre == self.options.prefix@,
                filtered_from(p, pre, c0) == filtered_from(p, pre, i as int),
            decreases n - i,
        {
            let e = &self.items[i];
            if has_prefix(e.0.as_slice(), self.options.prefix.as_slice()) {
                assert(p[i as int].0 == e.0@);
                let k = vstd::slice::slice_to_vec(e.0.as_slice());
                let pos = e.1;
                let ghost f = filtered_from(p, pre, c0);
                proof {
                    assert(filtered_from(p, pre, i as int) == seq![p[i as int]] + filtered_from(
                        p,
                        pre,
                        i as int + 1,
                    ));
                    assert(f[0] == p[i as int]);
                    assert(f.skip(1) =~= filtered_from(p, pre, i as int + 1));
                }
                self.curr_index = i + 1;
                return Some((k, pos));
            }
            assert(!spec_has_prefix(p[i as int].0, pre));
            i = i + 1;
        }
        self.curr_index = i;
        None
    }
}

/// The yield of a whole walk: with an empty prefix a forward cursor
/// yields every captured entry — for a fresh forward iterator, every live
/// key exactly once in ascending order, and for a reverse one in
/// descending order — and with a prefix it yields exactly the live keys
/// that carry it.
pub proof fn lemma_filtered_empty_prefix(p: Seq<(Seq<u8>, LogRecordPos)>, i: int)
    requires
        0 <= i <= p.len(),
    ensures
        filtered_from(p, Seq::<u8>::empty(), i) == p.skip(i),
    decreases p.len() - i,
{
    if i < p.len() {
        assert(p[i].0.subrange(0, 0) =~= Seq::<u8>::empty());
        assert(spec_has_prefix(p[i].0, Seq::<u8>::empty()));
        lemma_filtered_empty_prefix(p, i + 1);
        assert(seq![p[i]] + p.skip(i + 1) =~= p.skip(i));
    } else {
        assert(p.skip(i) =~= Seq::<(Seq<u8>, LogRecordPos)>::empty());
    }
}

/// Does the whole yield of a cursor over `p` with prefix `pre` contain
/// the key `k`?
pub open spec fn yield_contains_key(
    p: Seq<(Seq<u8>, LogRecordPos)>,
    pre: Seq<u8>,
    k: Seq<u8>,
) -> bool {
    exists|a: int| 0 <= a < filtered_from(p, pre, 0).len() && filtered_from(p, pre, 0)[a].0 == k
}

/// A key appears in the remaining yield exactly when some captured entry
/// at or past the position holds it and it carries the prefix.
pub proof fn lemma_filtered_membership(
    p: Seq<(Seq<u8>, LogRecordPos)>,
    pre: Seq<u8>,
    i: int,
    k: Seq<u8>,
)
    requires
        0 <= i <= p.len(),
    ensures
        (exists|a: int|
            0 <= a < filtered_from(p, pre, i).len() && filtered_from(p, pre, i)[a].0 == k)
            <==> (exists|j: int| i <= j < p.len() && p[j].0 == k && spec_has_prefix(k, pre)),
    decreases p.len() - i,
{
    let f = filtered_from(p, pre, i);
    if i < p.len() {
        lemma_filtered_membership(p, pre, i + 1, k);
        let ftail = filtered_from(p, pre, i + 1);
        if spec_has_prefix(p[i].0, pre) {
            assert(f == seq![p[i]] + ftail);
            if exists|a: int| 0 <= a < f.len() && f[a].0 == k {
                let a = choose|a: int| 0 <= a < f.len() && f[a].0 == k;
                if a == 0 {
                    assert(p[i].0 == k);
                } else {
                    assert(ftail[a - 1].0 == k);
                }
            }
            if exists|j: int| i <= j < p.len() && p[j].0 == k && spec_has_prefix(k, pre) {
                let j = choose|j: int| i <= j < p.len() && p[j].0 == k && spec_has_prefix(k, pre);
                if j == i {
                    assert(f[0].0 == k);
                } else {
                    let a = choose|a: int| 0 <= a < ftail.len() && ftail[a].0 == k;
                    assert(f[a + 1].0 == k);
                }
            }
        } else {
            assert(f == ftail);
            if exists|j: int| i <= j < p.len() && p[j].0 == k && spec_has_prefix(k, pre) {
                let j = choose|j: int| i <= j < p.len() && p[j].0 == k && spec_has_prefix(k, pre);
                assert(j != i);
            }
        }
    }
}

/// Iteration law: a fresh forward cursor with an empty prefix yields
/// every entry of the index, in strictly ascending key order; a reverse
/// cursor yields them in strictly descending order; and a prefix cursor
/// yields exactly the live keys carrying the prefix, each once.
pub proof fn lemma_iteration_visits_live_keys(bt: BTree, pre: Seq<u8>)
    requires
        bt.wf(),
    ensures
        filtered_from(bt.pairs(), Seq::<u8>::empty(), 0) == bt.pairs(),
        filtered_from(bt.pairs().reverse(), Seq::<u8>::empty(), 0) == bt.pairs().reverse(),
        forall|i: int, j: int|
            0 <= i < j < bt.pairs().len() ==> lex_lt(
                #[trigger] bt.pairs()[i].0,
                #[trigger] bt.pairs()[j].0,
            ),
        forall|i: int, j: int|
            0 <= i < j < bt.pairs().reverse().len() ==> lex_lt(
                #[trigger] bt.pairs().reverse()[j].0,
                #[trigger] bt.pairs().reverse()[i].0,
            ),
        forall|k: Seq<u8>|
            #[trigger] bt.as_map().dom().contains(k) <==> exists|i: int|
                0 <= i < bt.pairs().len() && bt.pairs()[i].0 == k,
        forall|k: Seq<u8>|
            #[trigger] yield_contains_key(bt.pairs(), pre, k) <==> (bt.as_map().dom().contains(k)
                && spec_has_prefix(k, pre)),
{
    bt.char();
    lemma_filtered_empty_prefix(bt.pairs(), 0);
    assert(bt.pairs().skip(0) =~= bt.pairs());
    lemma_filtered_empty_prefix(bt.pairs().reverse(), 0);
    assert(bt.pairs().reverse().skip(0) =~= bt.pairs().reverse());
    assert forall|k: Seq<u8>| #[trigger]
        yield_contains_key(bt.pairs(), pre, k) <==> (bt.as_map().dom().contains(k)
            && spec_has_prefix(k, pre)) by {
        lemma_filtered_membership(bt.pairs(), pre, 0, k);
    }
}

} // verus!
