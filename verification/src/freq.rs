//! The frequency table: how often each face was rolled.

use crate::faces::{count_in, hit, lemma_count_in_all, lemma_count_in_push, top};
use crate::source::{lemma_continues_trans, lemma_scripted_since, window, RollSource};
use vstd::prelude::*;

verus! {

/// Sum of the counts of the entries whose face lies in `lo <= face < hi`.
pub open spec fn entries_in(entries: Seq<(usize, usize)>, lo: int, hi: int) -> nat
    decreases entries.len(),
{
    if entries.len() == 0 {
        0
    } else {
        entries_in(entries.drop_last(), lo, hi) + if lo <= entries.last().0 < hi {
            entries.last().1 as nat
        } else {
            0
        }
    }
}

proof fn lemma_entries_take_le(entries: Seq<(usize, usize)>, k: int, lo: int, hi: int)
    requires
        0 <= k <= entries.len(),
    ensures
        entries_in(entries.take(k), lo, hi) <= entries_in(entries, 0, top()),
    decreases entries.len(),
{
    if k == entries.len() {
        assert(entries.take(k) =~= entries);
        lemma_entries_wider(entries, lo, hi);
    } else {
        assert(entries.take(k) =~= entries.drop_last().take(k));
        lemma_entries_take_le(entries.drop_last(), k, lo, hi);
    }
}

pub proof fn lemma_entries_empty(entries: Seq<(usize, usize)>, lo: int, hi: int)
    requires
        hi <= lo,
    ensures
        entries_in(entries, lo, hi) == 0,
    decreases entries.len(),
{
    if entries.len() > 0 {
        lemma_entries_empty(entries.drop_last(), lo, hi);
    }
}

proof fn lemma_entries_wider(entries: Seq<(usize, usize)>, lo: int, hi: int)
    ensures
        entries_in(entries, lo, hi) <= entries_in(entries, 0, top()),
    decreases entries.len(),
{
    if entries.len() > 0 {
        lemma_entries_wider(entries.drop_last(), lo, hi);
    }
}

proof fn lemma_entries_update(
    entries: Seq<(usize, usize)>,
    k: int,
    count: usize,
    lo: int,
    hi: int,
)
    requires
        0 <= k < entries.len(),
    ensures
        entries_in(entries.update(k, (entries[k].0, count)), lo, hi) + (if lo <= entries[k].0 < hi {
            entries[k].1 as int
        } else {
            0
        }) == entries_in(entries, lo, hi) + (if lo <= entries[k].0 < hi {
            count as int
        } else {
            0
        }),
    decreases entries.len(),
{
    let after = entries.update(k, (entries[k].0, count));
    if k == entries.len() - 1 {
        assert(after.drop_last() =~= entries.drop_last());
    } else {
        lemma_entries_update(entries.drop_last(), k, count, lo, hi);
        assert(after.drop_last() =~= entries.drop_last().update(k, (entries[k].0, count)));
    }
}

/// How often each face was rolled: one entry for each face that occurred.
pub struct RollFrequency {
    entries: Vec<(usize, usize)>,
}

impl View for RollFrequency {
    type V = Seq<(usize, usize)>;

    closed spec fn view(&self) -> Seq<(usize, usize)> {
        self.entries@
    }
}

impl RollFrequency {
    /// The number of tallied dice whose face lies in `lo <= face < hi`.
    pub open spec fn count_in(&self, lo: int, hi: int) -> nat {
        entries_in(self@, lo, hi)
    }

    /// The number of tallied dice that showed `face`.
    pub open spec fn count(&self, face: usize) -> nat {
        self.count_in(face as int, face + 1)
    }

    /// The number of tallied dice.
    pub open spec fn total(&self) -> nat {
        self.count_in(0, top())
    }

    /// No face has two entries, and the number of dice fits the machine.
    pub open spec fn wf(&self) -> bool {
        &&& self.total() <= usize::MAX
        &&& forall|i: int, j: int|
            0 <= i < j < self@.len() ==> (#[trigger] self@[i]).0 != (#[trigger] self@[j]).0
    }

    /// The table of no dice.
    pub fn new() -> (table: Self)
        ensures
            table.wf(),
            table@.len() == 0,
            forall|lo: int, hi: int| #[trigger] table.count_in(lo, hi) == 0,
    {
        RollFrequency { entries: Vec::new() }
    }

    /// Tallies one die that showed `face`.
    pub fn add(&mut self, face: usize)
        requires
            old(self).wf(),
            old(self).total() < usize::MAX,
        ensures
            final(self).wf(),
            forall|lo: int, hi: int| #[trigger]
                final(self).count_in(lo, hi) == old(self).count_in(lo, hi) + hit(face, lo, hi),
    {
        let n: usize = self.entries.len();
        let mut i: usize = 0;
        while i < n
            invariant
                i <= n,
                n == self.entries@.len(),
                *self == *old(self),
                old(self).wf(),
                old(self).total() < usize::MAX,
                forall|k: int| 0 <= k < i ==> (#[trigger] self.entries@[k]).0 != face,
            decreases n - i,
        {
            let (f, c): (usize, usize) = self.entries[i];
            if f == face {
                proof {
                    lemma_entries_take_le(self.entries@, i + 1, 0, top());
                    assert(self.entries@.take(i + 1).drop_last() =~= self.entries@.take(i as int));
                    assert(self.entries@.take(i + 1).last() == (f, c));
                    assert(c <= entries_in(self.entries@.take(i + 1), 0, top()));
                }
                let ghost before = self.entries@;
                self.entries.set(i, (f, c + 1));
                proof {
                    lemma_entries_update(before, i as int, (c + 1) as usize, 0, top());
                    assert(self.total() == old(self).total() + 1);
                    assert forall|a: int, b: int| 0 <= a < b < self@.len() implies (
                    #[trigger] self@[a]).0 != (#[trigger] self@[b]).0 by {
                        assert(self@[a].0 == before[a].0);
                        assert(self@[b].0 == before[b].0);
                    }
                    assert forall|lo: int, hi: int| #[trigger]
                        self.count_in(lo, hi) == old(self).count_in(lo, hi) + hit(
                            face,
                            lo,
                            hi,
                        ) by {
                        lemma_entries_update(before, i as int, (c + 1) as usize, lo, hi);
                    }
                }
                return ;
            }
            i = i + 1;
        }
        let ghost before = self.entries@;
        self.entries.push((face, 1));
        proof {
            assert(self.entries@.drop_last() =~= before);
        }
    }

    /// The number of tallied dice whose face lies in `lo ..= hi`.
    pub fn count_range(&self, lo: usize, hi: usize) -> (n: usize)
        requires
            self.wf(),
        ensures
            n == self.count_in(lo as int, hi + 1),
    {
        let len: usize = self.entries.len();
        let mut n: usize = 0;
        let mut i: usize = 0;
        while i < len
            invariant
                i <= len,
                len == self.entries@.len(),
                self.wf(),
                n == entries_in(self.entries@.take(i as int), lo as int, hi + 1),
            decreases len - i,
        {
            let (f, c): (usize, usize) = self.entries[i];
            proof {
                lemma_entries_take_le(self.entries@, i + 1, lo as int, hi + 1);
                assert(self.entries@.take(i + 1).drop_last() =~= self.entries@.take(i as int));
            }
            if lo <= f && f <= hi {
                n = n + c;
            }
            i = i + 1;
        }
        proof {
            assert(self.entries@.take(len as int) =~= self.entries@);
        }
        n
    }

    /// The number of tallied dice that showed `face`.
    pub fn get(&self, face: usize) -> (n: usize)
        requires
            self.wf(),
        ensures
            n == self.count(face),
    {
        self.count_range(face, face)
    }
}

/// Draws `num` faces from `src` and tallies each in `map`.
pub fn enumerate_rolls(map: &mut RollFrequency, num: usize, src: &mut RollSource)
    requires
        old(map).wf(),
        old(src).wf(),
        old(map).total() + num <= usize::MAX,
    ensures
        final(map).wf(),
        final(src).wf(),
        final(src).continues(old(src)),
        final(src).since(old(src)).len() == num,
        final(map).total() == old(map).total() + num,
        old(src).script() matches Some(s) ==> final(src).since(old(src)) == window(
            s,
            old(src).drawn().len() as int,
            num as nat,
        ),
        forall|lo: int, hi: int| #[trigger]
            final(map).count_in(lo, hi) == old(map).count_in(lo, hi) + count_in(
                final(src).since(old(src)),
                lo,
                hi,
            ),
{
    let mut i: usize = 0;
    proof {
        assert(src.since(old(src)) =~= Seq::<usize>::empty());
        assert(src.drawn() =~= old(src).drawn() + src.since(old(src)));
    }
    while i < num
        invariant
            i <= num,
            map.wf(),
            src.wf(),
            src.continues(old(src)),
            src.since(old(src)).len() == i,
            old(map).total() + num <= usize::MAX,
            forall|lo: int, hi: int| #[trigger]
                map.count_in(lo, hi) == old(map).count_in(lo, hi) + count_in(
                    src.since(old(src)),
                    lo,
                    hi,
                ),
        decreases num - i,
    {
        let ghost prev = *src;
        let ghost table = *map;
        let face: usize = src.roll();
        proof {
            assert(src.since(&prev) =~= seq![face]);
            assert(src.drawn() =~= prev.drawn() + src.since(&prev));
            lemma_continues_trans(old(src), &prev, src);
            assert(src.since(old(src)) =~= prev.since(old(src)).push(face));
            lemma_count_in_all(prev.since(old(src)));
            assert(table.total() == old(map).total() + i);
        }
        map.add(face);
        proof {
            assert forall|lo: int, hi: int| #[trigger]
                map.count_in(lo, hi) == old(map).count_in(lo, hi) + count_in(
                    src.since(old(src)),
                    lo,
                    hi,
                ) by {
                lemma_count_in_push(prev.since(old(src)), face, lo, hi);
                assert(table.count_in(lo, hi) == old(map).count_in(lo, hi) + count_in(
                    prev.since(old(src)),
                    lo,
                    hi,
                ));
            }
        }
        i = i + 1;
    }
    proof {
        lemma_count_in_all(src.since(old(src)));
        if old(src).script().is_some() {
            lemma_scripted_since(old(src), src);
        }
    }
}

} // verus!
