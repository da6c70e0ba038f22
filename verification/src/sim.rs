//! Chains of checks: the crits of one link add passes or dice to a later
//! link, and the links are resolved once, in order.

use crate::check::{
    check_faces, crits_of, lemma_rerolled_once, lemma_total_pass, passes_of, reroll_count,
    CheckParams, DiceRes, SimError,
};
use crate::source::{lemma_continues_trans, window, RollSource};
use vstd::prelude::*;

verus! {

/// What the crits of a link do to a later link.
#[derive(Clone, Copy, Debug, PartialEq, Eq)]
pub enum CritEffect {
    /// Each crit adds this many passes to the result of the next link.
    Bonus(usize),
    /// Each crit adds one die to the pool of the link this many places on.
    Bypass(usize),
}

/// One check of a chain.
#[derive(Clone, Copy, Debug, PartialEq, Eq)]
pub struct SimulationLink {
    pub check_num: usize,
    pub crit_effect: Option<CritEffect>,
    pub param: CheckParams,
}

impl Default for SimulationLink {
    fn default() -> (link: Self)
        ensures
            link == (SimulationLink {
                check_num: 0,
                crit_effect: None,
                param: CheckParams { pass_thres: 3, reroll_thres: None, crit_thres: 6 },
            }),
    {
        SimulationLink { check_num: 0, crit_effect: None, param: CheckParams::default() }
    }
}

/// An ordered chain of checks.
pub struct SimulationChain {
    links: Vec<SimulationLink>,
}

/// Where the resolution of a chain stands between two links.
pub struct ChainState {
    /// For each link, the dice that crits upstream have added to its pool.
    pub extra: Seq<usize>,
    /// For each link, the passes that crits upstream have added.
    pub bonus: Seq<usize>,
    /// The results of the links resolved so far.
    pub results: Seq<DiceRes>,
    /// The number of faces drawn so far.
    pub used: nat,
}

/// Every link has valid thresholds.
pub open spec fn links_valid(links: Seq<SimulationLink>) -> bool {
    forall|k: int| 0 <= k < links.len() ==> (#[trigger] links[k]).param.valid()
}

/// The state before the first of `n` links.
pub open spec fn chain_start(n: nat) -> ChainState {
    ChainState {
        extra: Seq::new(n, |k: int| 0usize),
        bonus: Seq::new(n, |k: int| 0usize),
        results: Seq::empty(),
        used: 0,
    }
}

/// Hands the `crits` of link `i` on: the pending dice and passes after the
/// effect, or `None` where a count leaves the machine's range. An effect
/// that aims past the end of the chain, or at its own link, does nothing.
pub open spec fn forward(
    effect: Option<CritEffect>,
    crits: usize,
    i: int,
    extra: Seq<usize>,
    bonus: Seq<usize>,
) -> Option<(Seq<usize>, Seq<usize>)> {
    match effect {
        None => Some((extra, bonus)),
        Some(CritEffect::Bonus(each)) => if i + 1 < bonus.len() {
            if bonus[i + 1] + crits * each > usize::MAX {
                None
            } else {
                Some((extra, bonus.update(i + 1, (bonus[i + 1] + crits * each) as usize)))
            }
        } else {
            Some((extra, bonus))
        },
        Some(CritEffect::Bypass(skip)) => if 1 <= skip && i + skip < extra.len() {
            if extra[i + skip] + crits > usize::MAX {
                None
            } else {
                Some((extra.update(i + skip, (extra[i + skip] + crits) as usize), bonus))
            }
        } else {
            Some((extra, bonus))
        },
    }
}

/// Resolves link `i` on the faces that follow those already used: its pool
/// is its own dice and the pending ones, its passes are the rolled ones and
/// the pending bonus, and its crits are handed on. `None` where a count
/// leaves the machine's range.
pub open spec fn link_step(link: SimulationLink, i: int, st: ChainState, faces: Seq<usize>) -> Option<
    ChainState,
> {
    let dice = link.check_num + st.extra[i];
    if dice > usize::MAX / 2 {
        None
    } else {
        let drawn = check_faces(faces, st.used as int, dice as nat, link.param);
        let passes = passes_of(drawn, link.param) + st.bonus[i];
        let crits = crits_of(drawn, link.param);
        if passes > usize::MAX {
            None
        } else {
            match forward(link.crit_effect, crits as usize, i, st.extra, st.bonus) {
                None => None,
                Some((extra, bonus)) => Some(
                    ChainState {
                        extra,
                        bonus,
                        results: st.results.push(
                            DiceRes { passes: passes as usize, crits: crits as usize },
                        ),
                        used: st.used + drawn.len(),
                    },
                ),
            }
        }
    }
}

/// The state after the first `upto` links were resolved, in order, on
/// `faces`.
pub open spec fn chain_run(links: Seq<SimulationLink>, upto: nat, faces: Seq<usize>) -> Option<
    ChainState,
>
    decreases upto,
{
    if upto == 0 {
        Some(chain_start(links.len()))
    } else {
        match chain_run(links, (upto - 1) as nat, faces) {
            None => None,
            Some(st) => link_step(links[upto - 1], upto - 1, st, faces),
        }
    }
}

proof fn lemma_window_stable(a: Seq<usize>, b: Seq<usize>, start: int, len: nat)
    requires
        0 <= start,
        start + len <= a.len(),
    ensures
        window(a + b, start, len) == window(a, start, len),
{
    assert(window(a + b, start, len) =~= window(a, start, len));
}

proof fn lemma_check_faces_stable(
    a: Seq<usize>,
    b: Seq<usize>,
    start: int,
    num: nat,
    params: CheckParams,
)
    requires
        0 <= start,
        start + check_faces(a, start, num, params).len() <= a.len(),
    ensures
        check_faces(a + b, start, num, params) == check_faces(a, start, num, params),
{
    lemma_window_stable(a, b, start, num);
    lemma_window_stable(a, b, start, num + reroll_count(window(a, start, num), params));
}

/// A run that ended within `a` is the same on any sequence that `a` begins.
pub proof fn lemma_run_stable(links: Seq<SimulationLink>, upto: nat, a: Seq<usize>, b: Seq<usize>)
    requires
        chain_run(links, upto, a) matches Some(st) && st.used <= a.len(),
    ensures
        chain_run(links, upto, a + b) == chain_run(links, upto, a),
    decreases upto,
{
    if upto > 0 {
        let before = chain_run(links, (upto - 1) as nat, a).unwrap();
        let link = links[upto - 1];
        let dice = link.check_num + before.extra[upto - 1];
        lemma_run_stable(links, (upto - 1) as nat, a, b);
        lemma_check_faces_stable(a, b, before.used as int, dice as nat, link.param);
    }
}

/// Once a link has left the machine's range, so has the chain.
proof fn lemma_run_fails(links: Seq<SimulationLink>, at: nat, upto: nat, faces: Seq<usize>)
    requires
        at <= upto,
        chain_run(links, at, faces).is_none(),
    ensures
        chain_run(links, upto, faces).is_none(),
    decreases upto,
{
    if at < upto {
        lemma_run_fails(links, at, (upto - 1) as nat, faces);
    }
}

/// The faces that a check drew at the end of `before + drawn` are the ones
/// that it draws from that sequence at the place where `before` ends.
proof fn lemma_check_faces_tail(
    before: Seq<usize>,
    drawn: Seq<usize>,
    num: nat,
    params: CheckParams,
)
    requires
        drawn.len() == num + reroll_count(drawn.take(num as int), params),
    ensures
        check_faces(before + drawn, before.len() as int, num, params) == drawn,
{
    let all = before + drawn;
    assert(window(all, before.len() as int, num) =~= drawn.take(num as int));
    assert(window(all, before.len() as int, drawn.len()) =~= drawn);
}

/// Effects only reach forward: the links resolved later leave the results
/// of the earlier links as they were, and there is one result for each
/// link resolved.
pub proof fn lemma_forward_only(
    links: Seq<SimulationLink>,
    upto: nat,
    later: nat,
    faces: Seq<usize>,
)
    requires
        upto <= later,
        chain_run(links, later, faces).is_some(),
    ensures
        chain_run(links, upto, faces).is_some(),
        chain_run(links, later, faces).unwrap().results.len() == later,
        chain_run(links, upto, faces).unwrap().results == chain_run(
            links,
            later,
            faces,
        ).unwrap().results.take(upto as int),
        chain_run(links, upto, faces).unwrap().used <= chain_run(links, later, faces).unwrap().used,
    decreases later,
{
    let end = chain_run(links, later, faces).unwrap();
    if later == 0 {
        assert(end.results.take(0) =~= end.results);
    } else {
        let before = chain_run(links, (later - 1) as nat, faces).unwrap();
        lemma_forward_only(links, (later - 1) as nat, (later - 1) as nat, faces);
        assert(end.results =~= before.results.push(end.results.last()));
        if upto == later {
            assert(end.results.take(upto as int) =~= end.results);
        } else {
            lemma_forward_only(links, upto, (later - 1) as nat, faces);
            assert(end.results.take(upto as int) =~= before.results.take(upto as int));
        }
    }
}

/// A chain of two links is one step from the start and one step more.
proof fn lemma_two_links(first: SimulationLink, second: SimulationLink, faces: Seq<usize>)
    requires
        first.param.valid(),
        second.param.valid(),
        chain_run(seq![first, second], 2, faces).is_some(),
    ensures
        link_step(first, 0, chain_start(2), faces) matches Some(mid) && chain_run(
            seq![first, second],
            2,
            faces,
        ) == link_step(second, 1, mid, faces) && ({
            let one = check_faces(faces, 0, first.check_num as nat, first.param);
            let two = check_faces(
                faces,
                one.len() as int,
                (second.check_num + mid.extra[1]) as nat,
                second.param,
            );
            &&& passes_of(one, first.param) + crits_of(one, first.param) <= usize::MAX
            &&& passes_of(two, second.param) + crits_of(two, second.param) <= usize::MAX
        }),
{
    reveal_with_fuel(chain_run, 3);
    let links = seq![first, second];
    assert(links[0] == first && links[1] == second);
    assert(chain_run(links, 0, faces) == Some(chain_start(2)));
    let a = chain_run(links, 1, faces).unwrap();
    assert(chain_run(links, 1, faces) == link_step(first, 0, chain_start(2), faces));
    assert(chain_run(links, 2, faces) == link_step(second, 1, a, faces));
    let one = check_faces(faces, 0, first.check_num as nat, first.param);
    lemma_rerolled_once(faces, 0, first.check_num as nat, first.param);
    lemma_total_pass(one, first.param);
    let pool = (second.check_num + a.extra[1]) as nat;
    let two = check_faces(faces, one.len() as int, pool, second.param);
    lemma_rerolled_once(faces, one.len() as int, pool, second.param);
    lemma_total_pass(two, second.param);
}

/// In a chain of two links whose first link hands on a bonus, the second
/// link reports the passes that it rolled on its own dice and, for each
/// crit of the first link, the bonus; both links roll their own pools.
pub proof fn lemma_bonus_reaches_next(
    first: SimulationLink,
    second: SimulationLink,
    each: usize,
    faces: Seq<usize>,
)
    requires
        first.param.valid(),
        second.param.valid(),
        first.crit_effect == Some(CritEffect::Bonus(each)),
        chain_run(seq![first, second], 2, faces).is_some(),
    ensures
        ({
            let st = chain_run(seq![first, second], 2, faces).unwrap();
            let one = check_faces(faces, 0, first.check_num as nat, first.param);
            let two = check_faces(faces, one.len() as int, second.check_num as nat, second.param);
            &&& st.results.len() == 2
            &&& st.results[0].passes == passes_of(one, first.param)
            &&& st.results[0].crits == crits_of(one, first.param)
            &&& st.results[1].passes == passes_of(two, second.param) + st.results[0].crits * each
            &&& st.results[1].crits == crits_of(two, second.param)
            &&& st.used == one.len() + two.len()
        }),
{
    lemma_two_links(first, second, faces);
}

/// In a chain of two links whose first link sends its crits to the next
/// link, the second link rolls its own dice and one more for each crit of
/// the first link, and gains no passes but those it rolled.
pub proof fn lemma_bypass_adds_dice(first: SimulationLink, second: SimulationLink, faces: Seq<usize>)
    requires
        first.param.valid(),
        second.param.valid(),
        first.crit_effect == Some(CritEffect::Bypass(1)),
        chain_run(seq![first, second], 2, faces).is_some(),
    ensures
        ({
            let st = chain_run(seq![first, second], 2, faces).unwrap();
            let one = check_faces(faces, 0, first.check_num as nat, first.param);
            let two = check_faces(
                faces,
                one.len() as int,
                (second.check_num + crits_of(one, first.param)) as nat,
                second.param,
            );
            &&& st.results.len() == 2
            &&& st.results[0].passes == passes_of(one, first.param)
            &&& st.results[0].crits == crits_of(one, first.param)
            &&& st.results[1].passes == passes_of(two, second.param)
            &&& st.results[1].crits == crits_of(two, second.param)
            &&& st.used == one.len() + two.len()
        }),
{
    lemma_two_links(first, second, faces);
}

pub(crate) fn zeros(n: usize) -> (v: Vec<usize>)
    ensures
        v@ == Seq::new(n as nat, |k: int| 0usize),
{
    let mut v: Vec<usize> = Vec::new();
    let mut i: usize = 0;
    while i < n
        invariant
            i <= n,
            v@.len() == i,
            forall|k: int| 0 <= k < i ==> v@[k] == 0,
        decreases n - i,
    {
        v.push(0);
        i = i + 1;
    }
    proof {
        assert(v@ =~= Seq::new(n as nat, |k: int| 0usize));
    }
    v
}

/// Hands the crits of link `i` on; `false` where a count would leave the
/// machine's range.
fn apply_effect(
    effect: Option<CritEffect>,
    crits: usize,
    i: usize,
    extra: &mut Vec<usize>,
    bonus: &mut Vec<usize>,
) -> (ok: bool)
    requires
        i < old(extra)@.len(),
        old(extra)@.len() == old(bonus)@.len(),
    ensures
        final(extra)@.len() == old(extra)@.len(),
        final(bonus)@.len() == old(bonus)@.len(),
        match forward(effect, crits, i as int, old(extra)@, old(bonus)@) {
            Some((e, b)) => ok && final(extra)@ == e && final(bonus)@ == b,
            None => !ok,
        },
{
    let n: usize = extra.len();
    match effect {
        None => true,
        Some(CritEffect::Bonus(each)) => {
            if i + 1 < n {
                let added: Option<usize> = crits.checked_mul(each);
                match added {
                    None => false,
                    Some(a) => {
                        let sum: Option<usize> = bonus[i + 1].checked_add(a);
                        match sum {
                            None => false,
                            Some(s) => {
                                bonus.set(i + 1, s);
                                true
                            },
                        }
                    },
                }
            } else {
                true
            }
        },
        Some(CritEffect::Bypass(skip)) => {
            if 1 <= skip && skip < n - i {
                let sum: Option<usize> = extra[i + skip].checked_add(crits);
                match sum {
                    None => false,
                    Some(s) => {
                        extra.set(i + skip, s);
                        true
                    },
                }
            } else {
                true
            }
        },
    }
}

impl View for SimulationChain {
    type V = Seq<SimulationLink>;

    closed spec fn view(&self) -> Seq<SimulationLink> {
        self.links@
    }
}

impl SimulationChain {
    /// The chain of no links.
    pub fn new() -> (chain: Self)
        ensures
            chain@ == Seq::<SimulationLink>::empty(),
    {
        Self { links: Vec::new() }
    }

    /// The number of links.
    pub fn len(&self) -> (n: usize)
        ensures
            n == self@.len(),
    {
        self.links.len()
    }

    /// Appends `link` to the chain.
    pub fn push(&mut self, link: SimulationLink)
        ensures
            final(self)@ == old(self)@.push(link),
    {
        self.links.push(link);
    }

    /// Appends a check of `num` dice with the given pass threshold, with no
    /// re-roll, no effect of its crits and the crit threshold 6. A pass
    /// threshold above 6 is refused, and the chain stays as it was.
    pub fn _insert_pre_attack(&mut self, num: usize, pass_thres: usize) -> (res: Result<
        (),
        SimError,
    >)
        ensures
            pass_thres <= 6 ==> res.is_ok() && final(self)@ == old(self)@.push(
                SimulationLink {
                    check_num: num,
                    crit_effect: None,
                    param: CheckParams { pass_thres, reroll_thres: None, crit_thres: 6 },
                },
            ),
            pass_thres > 6 ==> res == Err::<(), SimError>(SimError::InvalidThreshold)
                && final(self)@ == old(self)@,
    {
        let defaults = CheckParams::default();
        match CheckParams::new(pass_thres, defaults.crit_thres, defaults.reroll_thres) {
            Ok(param) => {
                self.links.push(SimulationLink { check_num: num, crit_effect: None, param });
                Ok(())
            },
            Err(_) => Err(SimError::InvalidThreshold),
        }
    }

    /// Whether every link has valid thresholds.
    pub fn all_valid(&self) -> (ok: bool)
        ensures
            ok == links_valid(self@),
    {
        let n: usize = self.links.len();
        let mut i: usize = 0;
        while i < n
            invariant
                i <= n,
                n == self.links@.len(),
                forall|k: int| 0 <= k < i ==> (#[trigger] self.links@[k]).param.valid(),
            decreases n - i,
        {
            if !self.links[i].param.is_valid() {
                return false;
            }
            i = i + 1;
        }
        true
    }

    /// Resolves the links in order on faces drawn from `src` and returns
    /// one result for each link, the bonus passes from upstream folded in.
    ///
    /// Fails, with `InvalidDiceCount`, exactly where a pool, a number of
    /// passes or a pending count leaves the machine's range.
    pub fn resolve(&self, src: &mut RollSource) -> (res: Result<Vec<DiceRes>, SimError>)
        requires
            old(src).wf(),
        ensures
            final(src).wf(),
            final(src).continues(old(src)),
            !links_valid(self@) ==> res == Err::<Vec<DiceRes>, SimError>(
                SimError::InvalidThreshold,
            ) && final(src).drawn() == old(src).drawn(),
            links_valid(self@) ==> match chain_run(
                self@,
                self@.len(),
                final(src).since(old(src)),
            ) {
                Some(st) => {
                    &&& res matches Ok(v)
                    &&& v@ == st.results
                    &&& v@.len() == self@.len()
                    &&& st.used == final(src).since(old(src)).len()
                },
                None => res == Err::<Vec<DiceRes>, SimError>(SimError::InvalidDiceCount),
            },
    {
        proof {
            assert(src.since(old(src)) =~= Seq::<usize>::empty());
            assert(src.drawn() =~= old(src).drawn() + src.since(old(src)));
        }
        if !self.all_valid() {
            return Err(SimError::InvalidThreshold);
        }
        let n: usize = self.links.len();
        let mut extra: Vec<usize> = zeros(n);
        let mut bonus: Vec<usize> = zeros(n);
        let mut results: Vec<DiceRes> = Vec::new();
        let mut i: usize = 0;
        proof {
            assert(src.since(old(src)) =~= Seq::<usize>::empty());
            assert(src.drawn() =~= old(src).drawn() + src.since(old(src)));
        }
        while i < n
            invariant
                i <= n,
                n == self.links@.len(),
                results@.len() == i,
                links_valid(self@),
                extra@.len() == n,
                bonus@.len() == n,
                src.wf(),
                src.continues(old(src)),
                chain_run(self@, i as nat, src.since(old(src))) == Some(
                    ChainState {
                        extra: extra@,
                        bonus: bonus@,
                        results: results@,
                        used: src.since(old(src)).len(),
                    },
                ),
            decreases n - i,
        {
            let link: SimulationLink = self.links[i];
            let ghost st = ChainState {
                extra: extra@,
                bonus: bonus@,
                results: results@,
                used: src.since(old(src)).len(),
            };
            let ghost before = src.since(old(src));
            let pool: Option<usize> = link.check_num.checked_add(extra[i]);
            if pool.is_none() || pool.unwrap() > usize::MAX / 2 {
                proof {
                    assert(link_step(link, i as int, st, before).is_none());
                    lemma_run_fails(self@, (i + 1) as nat, n as nat, before);
                }
                return Err(SimError::InvalidDiceCount);
            }
            let dice: usize = pool.unwrap();
            let ghost mid = *src;
            let rolled: DiceRes = DiceRes::dice_check_from(dice, link.param, src);
            let ghost drawn = src.since(&mid);
            let ghost faces = src.since(old(src));
            proof {
                lemma_continues_trans(old(src), &mid, src);
                assert(faces == before + drawn);
                lemma_run_stable(self@, i as nat, before, drawn);
                lemma_check_faces_tail(before, drawn, dice as nat, link.param);
            }
            let passes: usize = match rolled.passes.checked_add(bonus[i]) {
                Some(p) => p,
                None => {
                    proof {
                        assert(link_step(link, i as int, st, faces).is_none());
                        lemma_run_fails(self@, (i + 1) as nat, n as nat, faces);
                    }
                    return Err(SimError::InvalidDiceCount);
                },
            };
            let ok: bool = apply_effect(link.crit_effect, rolled.crits, i, &mut extra, &mut bonus);
            if !ok {
                proof {
                    assert(link_step(link, i as int, st, faces).is_none());
                    lemma_run_fails(self@, (i + 1) as nat, n as nat, faces);
                }
                return Err(SimError::InvalidDiceCount);
            }
            results.push(DiceRes { passes, crits: rolled.crits });
            i = i + 1;
        }
        Ok(results)
    }

    /// Resolves the chain and returns, for each link, all the dice that
    /// passed: its passes, bonus included, and its crits together.
    ///
    /// Fails, with `InvalidDiceCount`, exactly where `resolve` fails or such
    /// a sum leaves the machine's range.
    pub fn attack_sequence(&self, src: &mut RollSource) -> (res: Result<Vec<usize>, SimError>)
        requires
            old(src).wf(),
        ensures
            final(src).wf(),
            final(src).continues(old(src)),
            !links_valid(self@) ==> res == Err::<Vec<usize>, SimError>(SimError::InvalidThreshold)
                && final(src).drawn() == old(src).drawn(),
            links_valid(self@) ==> match chain_run(
                self@,
                self@.len(),
                final(src).since(old(src)),
            ) {
                Some(st) => {
                    &&& st.used == final(src).since(old(src)).len()
                    &&& if totals_fit(st.results) {
                        &&& res matches Ok(v)
                        &&& v@.len() == st.results.len()
                        &&& forall|k: int|
                            0 <= k < v@.len() ==> #[trigger] v@[k] == st.results[k].passes
                                + st.results[k].crits
                    } else {
                        res == Err::<Vec<usize>, SimError>(SimError::InvalidDiceCount)
                    }
                },
                None => res == Err::<Vec<usize>, SimError>(SimError::InvalidDiceCount),
            },
    {
        let results: Vec<DiceRes> = match self.resolve(src) {
            Ok(r) => r,
            Err(e) => {
                return Err(e);
            },
        };
        match sum_each(&results) {
            Some(totals) => Ok(totals),
            None => Err(SimError::InvalidDiceCount),
        }
    }
}

/// Passes and crits together, for each result; `None` where such a sum
/// leaves the machine's range.
fn sum_each(results: &Vec<DiceRes>) -> (res: Option<Vec<usize>>)
    ensures
        totals_fit(results@) ==> {
            &&& res matches Some(v)
            &&& v@.len() == results@.len()
            &&& forall|k: int|
                0 <= k < v@.len() ==> #[trigger] v@[k] == results@[k].passes + results@[k].crits
        },
        !totals_fit(results@) ==> res.is_none(),
{
    let n: usize = results.len();
    let mut totals: Vec<usize> = Vec::new();
    let mut i: usize = 0;
    while i < n
        invariant
            i <= n,
            n == results@.len(),
            totals@.len() == i,
            forall|k: int|
                0 <= k < i ==> (#[trigger] results@[k]).passes + results@[k].crits <= usize::MAX,
            forall|k: int|
                0 <= k < i ==> #[trigger] totals@[k] == results@[k].passes + results@[k].crits,
        decreases n - i,
    {
        let sum: Option<usize> = results[i].passes.checked_add(results[i].crits);
        match sum {
            Some(t) => {
                totals.push(t);
            },
            None => {
                proof {
                    assert(results@[i as int].passes + results@[i as int].crits > usize::MAX);
                }
                return None;
            },
        }
        i = i + 1;
    }
    Some(totals)
}

/// For each result, passes and crits together stay in the machine's range.
pub open spec fn totals_fit(results: Seq<DiceRes>) -> bool {
    forall|k: int|
        0 <= k < results.len() ==> (#[trigger] results[k]).passes + results[k].crits <= usize::MAX
}

} // verus!
