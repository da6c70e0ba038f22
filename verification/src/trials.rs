//! Many trials of one chain, summed link by link.

use crate::check::{DiceRes, SimError};
use crate::sim::{
    chain_run, lemma_run_stable, links_valid, zeros, SimulationChain, SimulationLink,
};
use crate::source::{lemma_continues_trans, RollSource};
use vstd::prelude::*;

verus! {

/// The sums over all trials: for each link its passes and its crits.
pub struct TrialStatistics {
    pub trials: usize,
    pub passes: Vec<usize>,
    pub crits: Vec<usize>,
}

/// The sums after some trials, and the number of faces they drew.
pub struct TrialTotals {
    pub passes: Seq<usize>,
    pub crits: Seq<usize>,
    pub used: nat,
}

/// Every sum of a link's count so far and its count in `results` stays in
/// the machine's range.
pub open spec fn sums_fit(passes: Seq<usize>, crits: Seq<usize>, results: Seq<DiceRes>) -> bool {
    forall|k: int|
        0 <= k < results.len() ==> passes[k] + (#[trigger] results[k]).passes <= usize::MAX
            && crits[k] + results[k].crits <= usize::MAX
}

/// The passes so far and those of `results`, link by link.
pub open spec fn with_passes(passes: Seq<usize>, results: Seq<DiceRes>) -> Seq<usize> {
    Seq::new(results.len(), |k: int| (passes[k] + results[k].passes) as usize)
}

/// The crits so far and those of `results`, link by link.
pub open spec fn with_crits(crits: Seq<usize>, results: Seq<DiceRes>) -> Seq<usize> {
    Seq::new(results.len(), |k: int| (crits[k] + results[k].crits) as usize)
}

/// The sums after `trials` resolutions of the chain, one after the other
/// on `faces`; `None` where a count leaves the machine's range. Each trial
/// starts from the chain as configured: nothing pending is carried over.
pub open spec fn trials_run(links: Seq<SimulationLink>, trials: nat, faces: Seq<usize>) -> Option<
    TrialTotals,
>
    decreases trials,
{
    if trials == 0 {
        Some(
            TrialTotals {
                passes: Seq::new(links.len(), |k: int| 0usize),
                crits: Seq::new(links.len(), |k: int| 0usize),
                used: 0,
            },
        )
    } else {
        match trials_run(links, (trials - 1) as nat, faces) {
            None => None,
            Some(sums) => next_totals(links, sums, faces.skip(sums.used as int)),
        }
    }
}

/// Trials that ended within `a` are the same on any sequence that `a`
/// begins.
proof fn lemma_trials_stable(links: Seq<SimulationLink>, trials: nat, a: Seq<usize>, b: Seq<usize>)
    requires
        trials_run(links, trials, a) matches Some(sums) && sums.used <= a.len(),
    ensures
        trials_run(links, trials, a + b) == trials_run(links, trials, a),
    decreases trials,
{
    if trials > 0 {
        let sums = trials_run(links, (trials - 1) as nat, a).unwrap();
        lemma_trials_stable(links, (trials - 1) as nat, a, b);
        assert((a + b).skip(sums.used as int) =~= a.skip(sums.used as int) + b);
        lemma_run_stable(links, links.len(), a.skip(sums.used as int), b);
    }
}

/// Once a trial has left the machine's range, so have all that follow.
proof fn lemma_trials_fail(links: Seq<SimulationLink>, at: nat, trials: nat, faces: Seq<usize>)
    requires
        at <= trials,
        trials_run(links, at, faces).is_none(),
    ensures
        trials_run(links, trials, faces).is_none(),
    decreases trials,
{
    if at < trials {
        lemma_trials_fail(links, at, (trials - 1) as nat, faces);
    }
}

/// The sums after one more trial, which resolves the chain on `drawn`.
pub open spec fn next_totals(links: Seq<SimulationLink>, sums: TrialTotals, drawn: Seq<usize>) -> Option<
    TrialTotals,
> {
    match chain_run(links, links.len(), drawn) {
        None => None,
        Some(st) => if sums_fit(sums.passes, sums.crits, st.results) {
            Some(
                TrialTotals {
                    passes: with_passes(sums.passes, st.results),
                    crits: with_crits(sums.crits, st.results),
                    used: sums.used + st.used,
                },
            )
        } else {
            None
        },
    }
}

proof fn lemma_trial_step(
    links: Seq<SimulationLink>,
    t: nat,
    before: Seq<usize>,
    drawn: Seq<usize>,
    sums: TrialTotals,
)
    requires
        trials_run(links, t, before) == Some(sums),
        sums.used == before.len(),
    ensures
        trials_run(links, t + 1, before + drawn) == next_totals(links, sums, drawn),
{
    lemma_trials_stable(links, t, before, drawn);
    assert((before + drawn).skip(before.len() as int) =~= drawn);
}

/// Adds the results of one trial to the sums; `false` where a sum would
/// leave the machine's range.
fn add_results(passes: &mut Vec<usize>, crits: &mut Vec<usize>, results: &Vec<DiceRes>) -> (ok:
    bool)
    requires
        old(passes)@.len() == results@.len(),
        old(crits)@.len() == results@.len(),
    ensures
        final(passes)@.len() == results@.len(),
        final(crits)@.len() == results@.len(),
        ok == sums_fit(old(passes)@, old(crits)@, results@),
        ok ==> final(passes)@ == with_passes(old(passes)@, results@),
        ok ==> final(crits)@ == with_crits(old(crits)@, results@),
{
    let n: usize = results.len();
    let mut i: usize = 0;
    while i < n
        invariant
            i <= n,
            n == results@.len(),
            passes@.len() == n,
            crits@.len() == n,
            forall|k: int|
                0 <= k < i ==> old(passes)@[k] + (#[trigger] results@[k]).passes <= usize::MAX
                    && old(crits)@[k] + results@[k].crits <= usize::MAX,
            forall|k: int|
                0 <= k < i ==> #[trigger] passes@[k] == old(passes)@[k] + results@[k].passes,
            forall|k: int| 0 <= k < i ==> #[trigger] crits@[k] == old(crits)@[k] + results@[k].crits,
            forall|k: int| i <= k < n ==> #[trigger] passes@[k] == old(passes)@[k],
            forall|k: int| i <= k < n ==> #[trigger] crits@[k] == old(crits)@[k],
        decreases n - i,
    {
        let p: Option<usize> = passes[i].checked_add(results[i].passes);
        let c: Option<usize> = crits[i].checked_add(results[i].crits);
        if p.is_none() || c.is_none() {
            proof {
                assert(old(passes)@[i as int] + results@[i as int].passes > usize::MAX || old(
                    crits,
                )@[i as int] + results@[i as int].crits > usize::MAX);
            }
            return false;
        }
        passes.set(i, p.unwrap());
        crits.set(i, c.unwrap());
        i = i + 1;
    }
    proof {
        assert(passes@ =~= with_passes(old(passes)@, results@));
        assert(crits@ =~= with_crits(old(crits)@, results@));
    }
    true
}

/// The sum of `counts`.
pub open spec fn sum_of(counts: Seq<usize>) -> nat
    decreases counts.len(),
{
    if counts.len() == 0 {
        0
    } else {
        sum_of(counts.drop_last()) + counts.last() as nat
    }
}

proof fn lemma_sum_take_le(counts: Seq<usize>, k: int)
    requires
        0 <= k <= counts.len(),
    ensures
        sum_of(counts.take(k)) <= sum_of(counts),
    decreases counts.len(),
{
    if k == counts.len() {
        assert(counts.take(k) =~= counts);
    } else {
        assert(counts.take(k) =~= counts.drop_last().take(k));
        lemma_sum_take_le(counts.drop_last(), k);
    }
}

/// The sum of `counts`, or `None` where it leaves the machine's range.
fn sum_counts(counts: &Vec<usize>) -> (res: Option<usize>)
    ensures
        sum_of(counts@) <= usize::MAX ==> res == Some(sum_of(counts@) as usize),
        sum_of(counts@) > usize::MAX ==> res.is_none(),
{
    let n: usize = counts.len();
    let mut sum: usize = 0;
    let mut i: usize = 0;
    while i < n
        invariant
            i <= n,
            n == counts@.len(),
            sum == sum_of(counts@.take(i as int)),
        decreases n - i,
    {
        proof {
            assert(counts@.take(i + 1).drop_last() =~= counts@.take(i as int));
            lemma_sum_take_le(counts@, i + 1);
        }
        match sum.checked_add(counts[i]) {
            Some(s) => {
                sum = s;
            },
            None => {
                return None;
            },
        }
        i = i + 1;
    }
    proof {
        assert(counts@.take(n as int) =~= counts@);
    }
    Some(sum)
}

impl TrialStatistics {
    /// The passes and the crits of all links together, summed over all
    /// trials; `None` exactly where one of the two sums leaves the machine's
    /// range.
    pub fn whole_chain(&self) -> (res: Option<DiceRes>)
        ensures
            sum_of(self.passes@) <= usize::MAX && sum_of(self.crits@) <= usize::MAX ==> res == Some(
                DiceRes {
                    passes: sum_of(self.passes@) as usize,
                    crits: sum_of(self.crits@) as usize,
                },
            ),
            sum_of(self.passes@) > usize::MAX || sum_of(self.crits@) > usize::MAX
                ==> res.is_none(),
    {
        let passes: Option<usize> = sum_counts(&self.passes);
        let crits: Option<usize> = sum_counts(&self.crits);
        match (passes, crits) {
            (Some(p), Some(c)) => Some(DiceRes { passes: p, crits: c }),
            _ => None,
        }
    }
}

impl SimulationChain {
    /// Resolves the chain `trials` times on faces drawn from `src`, one
    /// trial after the other, and sums the results link by link.
    ///
    /// Fails with `InvalidTrialCount`, before any die is rolled, where
    /// `trials` is 0; and with `InvalidDiceCount` exactly where a count
    /// leaves the machine's range.
    pub fn simulate(&self, trials: usize, src: &mut RollSource) -> (res: Result<
        TrialStatistics,
        SimError,
    >)
        requires
            old(src).wf(),
        ensures
            final(src).wf(),
            final(src).continues(old(src)),
            trials == 0 ==> res == Err::<TrialStatistics, SimError>(SimError::InvalidTrialCount)
                && final(src).drawn() == old(src).drawn(),
            trials > 0 && !links_valid(self@) ==> res == Err::<TrialStatistics, SimError>(
                SimError::InvalidThreshold,
            ) && final(src).drawn() == old(src).drawn(),
            trials > 0 && links_valid(self@) ==> match trials_run(self@, trials as nat, final(src).since(old(src))) {
                Some(sums) => {
                    &&& res matches Ok(stats)
                    &&& stats.trials == trials
                    &&& stats.passes@ == sums.passes
                    &&& stats.crits@ == sums.crits
                    &&& sums.used == final(src).since(old(src)).len()
                },
                None => res == Err::<TrialStatistics, SimError>(SimError::InvalidDiceCount),
            },
    {
        proof {
            assert(src.since(old(src)) =~= Seq::<usize>::empty());
            assert(src.drawn() =~= old(src).drawn() + src.since(old(src)));
        }
        if trials < 1 {
            return Err(SimError::InvalidTrialCount);
        }
        if !self.all_valid() {
            return Err(SimError::InvalidThreshold);
        }
        let n: usize = self.len();
        let mut passes: Vec<usize> = zeros(n);
        let mut crits: Vec<usize> = zeros(n);
        let mut t: usize = 0;
        while t < trials
            invariant
                t <= trials,
                n == self@.len(),
                links_valid(self@),
                passes@.len() == n,
                crits@.len() == n,
                src.wf(),
                src.continues(old(src)),
                trials_run(self@, t as nat, src.since(old(src))) == Some(
                    TrialTotals {
                        passes: passes@,
                        crits: crits@,
                        used: src.since(old(src)).len(),
                    },
                ),
            decreases trials - t,
        {
            let ghost mid = *src;
            let ghost before = src.since(old(src));
            let ghost sums = TrialTotals { passes: passes@, crits: crits@, used: before.len() };
            let outcome: Result<Vec<DiceRes>, SimError> = self.resolve(src);
            let ghost drawn = src.since(&mid);
            let ghost faces = src.since(old(src));
            proof {
                lemma_continues_trans(old(src), &mid, src);
                lemma_trial_step(self@, t as nat, before, drawn, sums);
            }
            let ok: bool = match outcome {
                Ok(results) => add_results(&mut passes, &mut crits, &results),
                Err(_) => false,
            };
            if !ok {
                proof {
                    lemma_trials_fail(self@, (t + 1) as nat, trials as nat, faces);
                }
                return Err(SimError::InvalidDiceCount);
            }
            t = t + 1;
        }
        Ok(TrialStatistics { trials, passes, crits })
    }
}

} // verus!
