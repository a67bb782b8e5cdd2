//! A table from modes to values, such as the entries or the matches of each
//! mode.

use vstd::prelude::*;
use crate::mode::{Mode, ModeView, mode_views};

verus! {

/// The value that `pairs` gives to mode `m`: the one of its last pair with
/// that mode, as when pairs are collected into a map one after another.
pub open spec fn lookup<V>(pairs: Seq<(Mode, V)>, m: ModeView) -> Option<V>
    decreases pairs.len(),
{
    if pairs.len() == 0 {
        None
    } else if pairs.last().0@ == m {
        Some(pairs.last().1)
    } else {
        lookup(pairs.drop_last(), m)
    }
}

/// The map that a list of pairs describes, later pairs winning.
pub open spec fn map_of_pairs<V>(pairs: Seq<(Mode, V)>) -> Map<ModeView, V> {
    Map::new(|m: ModeView| lookup(pairs, m) is Some, |m: ModeView| lookup(pairs, m)->0)
}

/// A table that gives each mode at most one value.
pub struct ModeTable<V> {
    pairs: Vec<(Mode, V)>,
}

impl<V> View for ModeTable<V> {
    type V = Map<ModeView, V>;

    closed spec fn view(&self) -> Map<ModeView, V> {
        map_of_pairs(self.pairs@)
    }
}

/// The last pair of `pairs` for mode `m` is at `i`.
proof fn lemma_lookup_last<V>(pairs: Seq<(Mode, V)>, m: ModeView, i: int)
    requires
        0 <= i < pairs.len(),
        pairs[i].0@ == m,
        forall|j: int| i < j < pairs.len() ==> (#[trigger] pairs[j]).0@ != m,
    ensures
        lookup(pairs, m) == Some(pairs[i].1),
    decreases pairs.len(),
{
    if i < pairs.len() - 1 {
        assert(pairs.last() == pairs[pairs.len() - 1]);
        let shorter = pairs.drop_last();
        assert forall|j: int| i < j < shorter.len() implies (#[trigger] shorter[j]).0@ != m by {
            assert(shorter[j] == pairs[j]);
        }
        lemma_lookup_last(shorter, m, i);
    }
}

/// No pair of `pairs` is for mode `m`.
proof fn lemma_lookup_none<V>(pairs: Seq<(Mode, V)>, m: ModeView)
    requires
        forall|j: int| 0 <= j < pairs.len() ==> (#[trigger] pairs[j]).0@ != m,
    ensures
        lookup(pairs, m) is None,
    decreases pairs.len(),
{
    if pairs.len() > 0 {
        let shorter = pairs.drop_last();
        assert(pairs.last() == pairs[pairs.len() - 1]);
        assert forall|j: int| 0 <= j < shorter.len() implies (#[trigger] shorter[j]).0@ != m by {
            assert(shorter[j] == pairs[j]);
        }
        lemma_lookup_none(shorter, m);
    }
}

/// A pair for mode `m` gives `m` a value.
proof fn lemma_lookup_some<V>(pairs: Seq<(Mode, V)>, m: ModeView, j: int)
    requires
        0 <= j < pairs.len(),
        pairs[j].0@ == m,
    ensures
        lookup(pairs, m) is Some,
    decreases pairs.len(),
{
    if pairs.last().0@ != m {
        assert(j != pairs.len() - 1);
        assert(pairs.drop_last()[j] == pairs[j]);
        lemma_lookup_some(pairs.drop_last(), m, j);
    }
}

/// Replacing the value of a pair, keeping a key of the same mode, changes the
/// value of that mode where that pair is its last, and of no other mode.
proof fn lemma_lookup_update<V>(pairs: Seq<(Mode, V)>, i: int, key: Mode, v: V, m: ModeView)
    requires
        0 <= i < pairs.len(),
        pairs[i].0@ == key@,
        forall|j: int| i < j < pairs.len() ==> (#[trigger] pairs[j]).0@ != key@,
    ensures
        lookup(pairs.update(i, (key, v)), m) == (if m == key@ {
            Some(v)
        } else {
            lookup(pairs, m)
        }),
    decreases pairs.len(),
{
    let updated = pairs.update(i, (key, v));
    if i == pairs.len() - 1 {
        assert(updated.drop_last() =~= pairs.drop_last());
    } else {
        assert(updated.drop_last() =~= pairs.drop_last().update(i, (key, v)));
        let shorter = pairs.drop_last();
        assert forall|j: int| i < j < shorter.len() implies (#[trigger] shorter[j]).0@ != key@ by {
            assert(shorter[j] == pairs[j]);
        }
        assert(pairs.last() == pairs[pairs.len() - 1]);
        lemma_lookup_update(shorter, i, key, v, m);
    }
}

impl<V> ModeTable<V> {
    /// A table without values.
    pub fn new() -> (t: Self)
        ensures
            t@ == Map::<ModeView, V>::empty(),
    {
        let t = ModeTable { pairs: Vec::new() };
        assert(t@ =~= Map::<ModeView, V>::empty());
        t
    }

    /// The table that a list of pairs describes, later pairs winning.
    pub fn from_pairs(pairs: Vec<(Mode, V)>) -> (t: Self)
        ensures
            t@ == map_of_pairs(pairs@),
    {
        ModeTable { pairs }
    }

    /// Where the last pair for `m` stands, if there is one.
    fn find(&self, m: &Mode) -> (r: Option<usize>)
        ensures
            match r {
                Some(i) => {
                    &&& i < self.pairs@.len()
                    &&& self.pairs@[i as int].0@ == m@
                    &&& forall|j: int|
                        i < j < self.pairs@.len() ==> (#[trigger] self.pairs@[j]).0@ != m@
                },
                None => forall|j: int|
                    0 <= j < self.pairs@.len() ==> (#[trigger] self.pairs@[j]).0@ != m@,
            },
    {
        let mut i = self.pairs.len();
        while i > 0
            invariant
                i <= self.pairs@.len(),
                forall|j: int| i <= j < self.pairs@.len() ==> (#[trigger] self.pairs@[j]).0@ != m@,
            decreases i,
        {
            if self.pairs[i - 1].0.same_mode(m) {
                return Some(i - 1);
            }
            i = i - 1;
        }
        None
    }

    /// The modes that have a value, each once.
    pub fn modes(&self) -> (r: Vec<Mode>)
        ensures
            forall|m: ModeView| #[trigger] self@.dom().contains(m) <==> mode_views(r@).contains(m),
            forall|i: int, j: int| 0 <= i < j < r@.len() ==> (#[trigger] r@[i])@ != (#[trigger] r@[j])@,
    {
        let mut r: Vec<Mode> = Vec::new();
        let mut i: usize = 0;
        while i < self.pairs.len()
            invariant
                i <= self.pairs@.len(),
                forall|m: ModeView| #[trigger] mode_views(r@).contains(m) <==> exists|j: int| 0 <= j < i && (#[trigger] self.pairs@[j]).0@ == m,
                forall|a: int, b: int| 0 <= a < b < r@.len() ==> (#[trigger] r@[a])@ != (#[trigger] r@[b])@,
            decreases self.pairs@.len() - i,
        {
            let mut seen = false;
            let mut k: usize = 0;
            while k < r.len()
                invariant
                    i < self.pairs@.len(),
                    k <= r@.len(),
                    seen == exists|q: int| 0 <= q < k && (#[trigger] r@[q])@ == self.pairs@[i as int].0@,
                decreases r@.len() - k,
            {
                if r[k].same_mode(&self.pairs[i].0) {
                    seen = true;
                }
                k = k + 1;
            }
            let ghost mi = self.pairs@[i as int].0@;
            let ghost before = r@;
            if !seen {
                let key = self.pairs[i].0.clone();
                r.push(key);
            }
            proof {
                assert forall|m: ModeView| #[trigger] mode_views(r@).contains(m) <==> exists|j: int| 0 <= j < i + 1 && (#[trigger] self.pairs@[j]).0@ == m by {
                    if mode_views(r@).contains(m) {
                        let q = choose|q: int| 0 <= q < mode_views(r@).len() && mode_views(r@)[q] == m;
                        assert(mode_views(r@)[q] == r@[q]@);
                        if q < before.len() {
                            assert(r@[q] == before[q]);
                            assert(mode_views(before)[q] == m);
                            assert(mode_views(before).contains(m));
                            let j = choose|j: int| 0 <= j < i && (#[trigger] self.pairs@[j]).0@ == m;
                            assert(0 <= j < i + 1 && self.pairs@[j].0@ == m);
                        } else {
                            assert(self.pairs@[i as int].0@ == m);
                        }
                    }
                    if exists|j: int| 0 <= j < i + 1 && (#[trigger] self.pairs@[j]).0@ == m {
                        let j = choose|j: int| 0 <= j < i + 1 && (#[trigger] self.pairs@[j]).0@ == m;
                        if j < i {
                            assert(mode_views(before).contains(m));
                            let q = choose|q: int| 0 <= q < mode_views(before).len() && mode_views(before)[q] == m;
                            assert(mode_views(r@)[q] == m);
                        } else if seen {
                            let q = choose|q: int| 0 <= q < before.len() && (#[trigger] before[q])@ == mi;
                            assert(mode_views(r@)[q] == m);
                        } else {
                            assert(mode_views(r@)[before.len() as int] == m);
                        }
                    }
                }
                if !seen {
                    assert forall|a: int, b: int| 0 <= a < b < r@.len() implies (#[trigger] r@[a])@ != (#[trigger] r@[b])@ by {
                        if b == before.len() {
                            assert(r@[a] == before[a]);
                        } else {
                            assert(r@[a] == before[a]);
                            assert(r@[b] == before[b]);
                        }
                    }
                }
            }
            i = i + 1;
        }
        proof {
            assert forall|m: ModeView| #[trigger] self@.dom().contains(m) <==> mode_views(r@).contains(m) by {
                if exists|j: int| 0 <= j < self.pairs@.len() && (#[trigger] self.pairs@[j]).0@ == m {
                    let j = choose|j: int| 0 <= j < self.pairs@.len() && (#[trigger] self.pairs@[j]).0@ == m;
                    lemma_lookup_some(self.pairs@, m, j);
                } else {
                    lemma_lookup_none(self.pairs@, m);
                }
            }
        }
        r
    }

    /// The value of mode `m`, if it has one.
    pub fn get(&self, m: &Mode) -> (r: Option<&V>)
        ensures
            match r {
                Some(v) => self@.dom().contains(m@) && *v == self@[m@],
                None => !self@.dom().contains(m@),
            },
    {
        match self.find(m) {
            Some(i) => {
                proof {
                    lemma_lookup_last(self.pairs@, m@, i as int);
                }
                Some(&self.pairs[i].1)
            },
            None => {
                proof {
                    lemma_lookup_none(self.pairs@, m@);
                }
                None
            },
        }
    }

    /// Gives mode `m` the value `v`.
    pub fn set(&mut self, m: Mode, v: V)
        ensures
            final(self)@ == old(self)@.insert(m@, v),
    {
        let ghost mv = m@;
        match self.find(&m) {
            Some(i) => {
                let ghost before = self.pairs@;
                let (key, _old) = self.pairs.remove(i);
                self.pairs.insert(i, (key, v));
                proof {
                    assert(self.pairs@ =~= before.update(i as int, (key, v)));
                    assert forall|x: ModeView| #![auto]
                        lookup(self.pairs@, x) == (if x == mv {
                            Some(v)
                        } else {
                            lookup(before, x)
                        }) by {
                        lemma_lookup_update(before, i as int, key, v, x);
                    }
                    assert(self@ =~= old(self)@.insert(mv, v));
                }
            },
            None => {
                let ghost before = self.pairs@;
                self.pairs.push((m, v));
                proof {
                    assert(self.pairs@.drop_last() =~= before);
                    assert(self@ =~= old(self)@.insert(mv, v));
                }
            },
        }
    }

    /// Puts `v` in place of the value of mode `m` and hands back the value it
    /// had; a mode without a value is left without one.
    pub fn replace(&mut self, m: &Mode, v: V) -> (r: Option<V>)
        ensures
            match r {
                Some(previous) => {
                    &&& old(self)@.dom().contains(m@)
                    &&& previous == old(self)@[m@]
                    &&& final(self)@ == old(self)@.insert(m@, v)
                },
                None => {
                    &&& !old(self)@.dom().contains(m@)
                    &&& final(self)@ == old(self)@
                },
            },
    {
        match self.find(m) {
            Some(i) => {
                let ghost before = self.pairs@;
                proof {
                    lemma_lookup_last(before, m@, i as int);
                }
                let (key, previous) = self.pairs.remove(i);
                let ghost kv = key@;
                self.pairs.insert(i, (key, v));
                proof {
                    assert(self.pairs@ =~= before.update(i as int, (self.pairs@[i as int].0, v)));
                    assert forall|x: ModeView| #![auto]
                        lookup(self.pairs@, x) == (if x == kv {
                            Some(v)
                        } else {
                            lookup(before, x)
                        }) by {
                        lemma_lookup_update(before, i as int, self.pairs@[i as int].0, v, x);
                    }
                    assert(self@ =~= old(self)@.insert(m@, v));
                }
                Some(previous)
            },
            None => {
                proof {
                    lemma_lookup_none(self.pairs@, m@);
                }
                None
            },
        }
    }
}

} // verus!
