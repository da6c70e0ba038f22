//! One check: roll the pool, re-roll once what the policy allows, and
//! classify what passed.

use crate::faces::{
    count_in, lemma_count_in_bound, lemma_count_in_concat, lemma_count_in_mono,
    lemma_count_in_split, top,
};
use crate::freq::{enumerate_rolls, lemma_entries_empty, RollFrequency};
use crate::source::{lemma_continues_trans, lemma_scripted_since, window, RollSource};
use vstd::prelude::*;

verus! {

/// Why a configuration or a call is refused.
#[derive(Clone, Copy, Debug, PartialEq, Eq)]
pub enum SimError {
    /// The crit threshold lies below the pass threshold, or a re-roll value
    /// reaches the pass threshold.
    InvalidThreshold,
    /// A number of dice or of passes is beyond what the machine can count.
    InvalidDiceCount,
    /// Fewer than one trial was asked for.
    InvalidTrialCount,
}

/// Which failed dice are rolled again, once.
#[derive(Clone, Copy, Debug, PartialEq, Eq)]
pub enum ReRollCond {
    /// Every failed die whose face is at most this value.
    Thres(usize),
    /// One die, if any die failed.
    One,
}

/// The thresholds of a check and its re-roll policy.
#[derive(Clone, Copy, Debug, PartialEq, Eq)]
pub struct CheckParams {
    pub pass_thres: usize,
    pub reroll_thres: Option<ReRollCond>,
    pub crit_thres: usize,
}

/// What a check yields: the dice that passed without being critical, and
/// the critical ones.
#[derive(Clone, Copy, Debug, PartialEq, Eq)]
pub struct DiceRes {
    pub passes: usize,
    pub crits: usize,
}

/// The thresholds are in order and the re-roll value stays below the pass
/// threshold.
pub open spec fn thresholds_valid(
    pass_thres: usize,
    crit_thres: usize,
    reroll_thres: Option<ReRollCond>,
) -> bool {
    &&& pass_thres <= crit_thres
    &&& match reroll_thres {
        Some(ReRollCond::Thres(v)) => v < pass_thres,
        _ => true,
    }
}

/// How many dice are rolled again after `first` was rolled.
pub open spec fn reroll_count(first: Seq<usize>, params: CheckParams) -> nat {
    match params.reroll_thres {
        None => 0,
        Some(ReRollCond::One) => if count_in(first, 0, params.pass_thres as int) > 0 {
            1
        } else {
            0
        },
        Some(ReRollCond::Thres(v)) => count_in(first, 0, v + 1),
    }
}

/// The dice among `faces` that pass without being critical.
pub open spec fn passes_of(faces: Seq<usize>, params: CheckParams) -> nat {
    count_in(faces, params.pass_thres as int, params.crit_thres as int)
}

/// The critical dice among `faces`.
pub open spec fn crits_of(faces: Seq<usize>, params: CheckParams) -> nat {
    count_in(faces, params.crit_thres as int, top())
}

/// The faces that a check of `num` dice draws from a script that stands at
/// `start`: the pool, then the re-rolled dice.
pub open spec fn check_faces(script: Seq<usize>, start: int, num: nat, params: CheckParams) -> Seq<
    usize,
> {
    window(script, start, num + reroll_count(window(script, start, num), params))
}

/// `res` is what a check of `num` dice yields when it draws `faces`.
pub open spec fn check_yields(res: DiceRes, faces: Seq<usize>, num: usize, params: CheckParams) -> bool {
    &&& faces.len() == num + reroll_count(faces.take(num as int), params)
    &&& res.passes == passes_of(faces, params)
    &&& res.crits == crits_of(faces, params)
}

/// Every face is one of a six-sided die.
pub open spec fn six_sided(faces: Seq<usize>) -> bool {
    forall|i: int| 0 <= i < faces.len() ==> 1 <= #[trigger] faces[i] <= 6
}

impl Default for CheckParams {
    fn default() -> (params: Self)
        ensures
            params == (CheckParams { pass_thres: 3, reroll_thres: None, crit_thres: 6 }),
            params.valid(),
    {
        CheckParams { pass_thres: 3, reroll_thres: None, crit_thres: 6 }
    }
}

impl CheckParams {
    /// These parameters are a valid configuration.
    pub open spec fn valid(&self) -> bool {
        thresholds_valid(self.pass_thres, self.crit_thres, self.reroll_thres)
    }

    /// The parameters of a check, refused where the thresholds are out of
    /// order.
    pub fn new(pass_thres: usize, crit_thres: usize, reroll_thres: Option<ReRollCond>) -> (res:
        Result<Self, SimError>)
        ensures
            thresholds_valid(pass_thres, crit_thres, reroll_thres) ==> res == Ok::<Self, SimError>(
                CheckParams { pass_thres, reroll_thres, crit_thres },
            ),
            !thresholds_valid(pass_thres, crit_thres, reroll_thres) ==> res == Err::<
                Self,
                SimError,
            >(SimError::InvalidThreshold),
    {
        let params = CheckParams { pass_thres, reroll_thres, crit_thres };
        if params.is_valid() {
            Ok(params)
        } else {
            Err(SimError::InvalidThreshold)
        }
    }

    /// Whether these parameters are a valid configuration.
    pub fn is_valid(&self) -> (ok: bool)
        ensures
            ok == self.valid(),
    {
        if self.crit_thres < self.pass_thres {
            return false;
        }
        match self.reroll_thres {
            Some(ReRollCond::Thres(v)) => v < self.pass_thres,
            _ => true,
        }
    }
}

/// How many tallied dice are rolled again.
fn rerolls_due(table: &RollFrequency, params: &CheckParams) -> (n: usize)
    requires
        table.wf(),
    ensures
        n == match params.reroll_thres {
            None => 0,
            Some(ReRollCond::One) => if table.count_in(0, params.pass_thres as int) > 0 {
                1
            } else {
                0
            },
            Some(ReRollCond::Thres(v)) => table.count_in(0, v + 1),
        },
{
    match params.reroll_thres {
        None => 0,
        Some(ReRollCond::One) => {
            if params.pass_thres == 0 {
                proof {
                    lemma_entries_empty(table@, 0, 0);
                }
                return 0;
            }
            let failed: usize = table.count_range(0, params.pass_thres - 1);
            if failed > 0 {
                1
            } else {
                0
            }
        },
        Some(ReRollCond::Thres(val)) => table.count_range(0, val),
    }
}

/// The passes and crits among the tallied dice.
fn classify(table: &RollFrequency, params: &CheckParams) -> (res: DiceRes)
    requires
        table.wf(),
    ensures
        res.passes == table.count_in(params.pass_thres as int, params.crit_thres as int),
        res.crits == table.count_in(params.crit_thres as int, top()),
{
    let crits: usize = table.count_range(params.crit_thres, usize::MAX);
    let passes: usize = if params.pass_thres < params.crit_thres {
        table.count_range(params.pass_thres, params.crit_thres - 1)
    } else {
        proof {
            lemma_entries_empty(table@, params.pass_thres as int, params.crit_thres as int);
        }
        0
    };
    DiceRes { passes, crits }
}

impl DiceRes {
    /// Resolves one check of `num` dice on faces drawn from `src`: the pool
    /// is rolled, the dice that the policy names are rolled again, once, and
    /// every die that passed is counted as a pass or as a crit.
    pub fn dice_check_from(num: usize, params: CheckParams, src: &mut RollSource) -> (res: Self)
        requires
            old(src).wf(),
            params.valid(),
            num <= usize::MAX / 2,
        ensures
            final(src).wf(),
            final(src).continues(old(src)),
            check_yields(res, final(src).since(old(src)), num, params),
            old(src).script() matches Some(s) ==> final(src).since(old(src)) == check_faces(
                s,
                old(src).drawn().len() as int,
                num as nat,
                params,
            ),
    {
        let mut roll_counts = RollFrequency::new();
        enumerate_rolls(&mut roll_counts, num, src);
        let ghost mid = *src;
        let ghost first = mid.since(old(src));

        let reroll_count: usize = rerolls_due(&roll_counts, &params);
        proof {
            lemma_reroll_bound(first, params);
        }

        let mut rerolled_counts = RollFrequency::new();
        enumerate_rolls(&mut rerolled_counts, reroll_count, src);
        let ghost again = src.since(&mid);
        let ghost all = src.since(old(src));

        let passed: DiceRes = classify(&roll_counts, &params);
        let rerolled: DiceRes = classify(&rerolled_counts, &params);
        proof {
            lemma_continues_trans(old(src), &mid, src);
            assert(all == first + again);
            assert(all.take(num as int) =~= first);
            lemma_count_in_concat(first, again, params.pass_thres as int, params.crit_thres as int);
            lemma_count_in_concat(first, again, params.crit_thres as int, top());
            lemma_count_in_bound(first, params.pass_thres as int, params.crit_thres as int);
            lemma_count_in_bound(again, params.pass_thres as int, params.crit_thres as int);
            lemma_count_in_bound(first, params.crit_thres as int, top());
            lemma_count_in_bound(again, params.crit_thres as int, top());
            if old(src).script().is_some() {
                lemma_scripted_since(old(src), src);
                let s = old(src).script().unwrap();
                let start = old(src).drawn().len() as int;
                assert(first =~= window(s, start, num as nat));
            }
        }
        DiceRes {
            passes: passed.passes + rerolled.passes,
            crits: passed.crits + rerolled.crits,
        }
    }

    /// Resolves one check of `num` dice with real dice.
    ///
    /// Which faces come up is left to chance: the result is what the check
    /// yields on some faces of a six-sided die, as many as the check draws.
    pub fn dice_check(num: usize, params: CheckParams) -> (res: Self)
        requires
            params.valid(),
            num <= usize::MAX / 2,
        ensures
            exists|faces: Seq<usize>| six_sided(faces) && #[trigger] check_yields(res, faces, num, params),
    {
        let mut src = RollSource::random();
        let ghost start = src;
        let res = DiceRes::dice_check_from(num, params, &mut src);
        proof {
            let faces = src.since(&start);
            assert(faces =~= src.drawn());
            assert(six_sided(faces));
            assert(check_yields(res, faces, num, params));
        }
        res
    }

    /// All dice that passed, critical or not.
    pub fn total_pass(&self) -> (total: usize)
        requires
            self.passes + self.crits <= usize::MAX,
        ensures
            total == self.passes + self.crits,
    {
        self.crits + self.passes
    }
}

/// No more dice are rolled again than were rolled.
pub proof fn lemma_reroll_bound(first: Seq<usize>, params: CheckParams)
    ensures
        reroll_count(first, params) <= first.len(),
{
    lemma_count_in_bound(first, 0, params.pass_thres as int);
    match params.reroll_thres {
        Some(ReRollCond::Thres(v)) => {
            lemma_count_in_bound(first, 0, v + 1);
        },
        _ => {},
    }
}

/// Passes and crits of a valid configuration together are the dice at or
/// above the pass threshold.
pub proof fn lemma_total_pass(faces: Seq<usize>, params: CheckParams)
    requires
        params.valid(),
    ensures
        passes_of(faces, params) + crits_of(faces, params) == count_in(
            faces,
            params.pass_thres as int,
            top(),
        ),
        passes_of(faces, params) + crits_of(faces, params) <= faces.len(),
{
    lemma_count_in_bound(faces, params.pass_thres as int, top());
    lemma_count_in_split(faces, params.pass_thres as int, params.crit_thres as int, top());
}

/// What a check yields never exceeds the dice it rolled, the pool and the
/// re-rolled ones, and is the number of those at or above the pass
/// threshold; so the two counts together fit the machine.
pub proof fn lemma_conservation(res: DiceRes, faces: Seq<usize>, num: usize, params: CheckParams)
    requires
        params.valid(),
        check_yields(res, faces, num, params),
    ensures
        res.passes + res.crits == count_in(faces, params.pass_thres as int, top()),
        res.passes + res.crits <= num + reroll_count(faces.take(num as int), params),
        res.passes + res.crits <= 2 * num,
{
    lemma_total_pass(faces, params);
    lemma_reroll_bound(faces.take(num as int), params);
}

/// Every critical die of a valid configuration is also a die at or above
/// the pass threshold.
pub proof fn lemma_crit_implies_pass(faces: Seq<usize>, params: CheckParams)
    requires
        params.valid(),
    ensures
        crits_of(faces, params) <= count_in(faces, params.pass_thres as int, top()),
{
    lemma_count_in_mono(
        faces,
        params.crit_thres as int,
        top(),
        params.pass_thres as int,
        top(),
    );
}

/// A check draws its pool and then exactly the re-rolls that the pool
/// calls for; a re-rolled die is never a ground for another re-roll.
pub proof fn lemma_rerolled_once(script: Seq<usize>, start: int, num: nat, params: CheckParams)
    ensures
        check_faces(script, start, num, params).len() == num + reroll_count(
            check_faces(script, start, num, params).take(num as int),
            params,
        ),
        check_faces(script, start, num, params).len() <= 2 * num,
{
    let first = window(script, start, num);
    assert(check_faces(script, start, num, params).take(num as int) =~= first);
    lemma_reroll_bound(first, params);
}

/// On one script, a higher pass threshold never yields more passing dice.
pub proof fn lemma_threshold_monotone(
    script: Seq<usize>,
    start: int,
    num: nat,
    low: CheckParams,
    high: CheckParams,
)
    requires
        low.valid(),
        high.valid(),
        low.pass_thres <= high.pass_thres,
        low.crit_thres == high.crit_thres,
        low.reroll_thres == high.reroll_thres,
    ensures
        passes_of(check_faces(script, start, num, high), high) + crits_of(
            check_faces(script, start, num, high),
            high,
        ) <= passes_of(check_faces(script, start, num, low), low) + crits_of(
            check_faces(script, start, num, low),
            low,
        ),
{
    let low_pass = low.pass_thres as int;
    let high_pass = high.pass_thres as int;
    let first = window(script, start, num);
    let rc1 = reroll_count(first, low);
    let rc2 = reroll_count(first, high);
    let d1 = check_faces(script, start, num, low);
    let d2 = check_faces(script, start, num, high);
    lemma_total_pass(d1, low);
    lemma_total_pass(d2, high);
    // The higher threshold re-rolls at least as many dice, and each further
    // re-roll answers a die of the pool that passed the lower threshold only.
    lemma_count_in_split(first, low_pass, high_pass, top());
    lemma_count_in_split(first, 0, low_pass, high_pass);
    assert(rc1 <= rc2);
    assert(rc2 - rc1 <= count_in(first, low_pass, high_pass));
    let r1 = window(script, start + num, rc1);
    let more = window(script, start + num + rc1, (rc2 - rc1) as nat);
    assert(d1 =~= first + r1);
    assert(d2 =~= (first + r1) + more);
    lemma_count_in_concat(first, r1, low_pass, top());
    lemma_count_in_concat(first + r1, more, high_pass, top());
    lemma_count_in_concat(first, r1, high_pass, top());
    lemma_count_in_mono(r1, high_pass, top(), low_pass, top());
    lemma_count_in_bound(more, high_pass, top());
}

} // verus!
