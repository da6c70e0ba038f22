use ww_calc::{
    CheckParams, CritEffect, DiceRes, ReRollCond, RollSource, SimError, SimulationChain,
    SimulationLink,
};

fn link(check_num: usize, crit_effect: Option<CritEffect>) -> SimulationLink {
    SimulationLink { check_num, crit_effect, param: CheckParams::default() }
}

fn chain(links: Vec<SimulationLink>) -> SimulationChain {
    let mut c = SimulationChain::new();
    for l in links {
        c.push(l);
    }
    c
}

#[test]
fn empty_chain() {
    let c = SimulationChain::new();
    assert_eq!(c.len(), 0);
    let mut src = RollSource::scripted(vec![5]);
    assert_eq!(c.resolve(&mut src), Ok(vec![]));
    assert_eq!(src.roll(), 5);
}

#[test]
fn default_link() {
    assert_eq!(SimulationLink::default(), link(0, None));
}

#[test]
fn insert_pre_attack() {
    let mut c = SimulationChain::new();
    assert_eq!(c._insert_pre_attack(3, 4), Ok(()));
    assert_eq!(c.len(), 1);
    let mut src = RollSource::scripted(vec![3, 4, 6, 5]);
    assert_eq!(c.resolve(&mut src), Ok(vec![DiceRes { passes: 1, crits: 1 }]));
    assert_eq!(src.roll(), 5);
}

#[test]
fn insert_pre_attack_refuses_a_threshold_above_the_crits() {
    let mut c = SimulationChain::new();
    assert_eq!(c._insert_pre_attack(3, 6), Ok(()));
    assert_eq!(c._insert_pre_attack(3, 7), Err(SimError::InvalidThreshold));
    assert_eq!(c.len(), 1);
    assert!(c.all_valid());
}

#[test]
fn invalid_links_are_refused_before_any_roll() {
    let mut bad = link(2, None);
    bad.param.crit_thres = 2;
    let c = chain(vec![link(2, None), bad]);
    assert!(!c.all_valid());
    let mut src = RollSource::scripted(vec![4, 5, 6]);
    assert_eq!(c.resolve(&mut src), Err(SimError::InvalidThreshold));
    assert_eq!(c.attack_sequence(&mut src), Err(SimError::InvalidThreshold));
    assert!(matches!(c.simulate(3, &mut src), Err(SimError::InvalidThreshold)));
    assert_eq!(src.roll(), 4);

    let mut bad = link(2, None);
    bad.param.reroll_thres = Some(ReRollCond::Thres(3));
    let c = chain(vec![bad]);
    let mut src = RollSource::scripted(vec![4, 5, 6]);
    assert_eq!(c.resolve(&mut src), Err(SimError::InvalidThreshold));
    assert_eq!(src.roll(), 4);
}

#[test]
fn attack_sequence_draws_what_the_chain_rolls() {
    let c = chain(vec![link(2, Some(CritEffect::Bypass(1))), link(1, None)]);
    let mut src = RollSource::scripted(vec![6, 1, 3, 4, 5]);
    assert_eq!(c.attack_sequence(&mut src), Ok(vec![1, 2]));
    assert_eq!(src.roll(), 5);
}

#[test]
fn bonus_goes_to_the_next_link() {
    let c = chain(vec![link(2, Some(CritEffect::Bonus(2))), link(2, None)]);
    let mut src = RollSource::scripted(vec![6, 1, 3, 1, 4]);
    let res = c.resolve(&mut src);
    assert_eq!(res, Ok(vec![DiceRes { passes: 0, crits: 1 }, DiceRes { passes: 3, crits: 0 }]));
    assert_eq!(src.roll(), 4);
}

#[test]
fn bypass_adds_dice() {
    let c = chain(vec![link(3, Some(CritEffect::Bypass(1))), link(1, None)]);
    let mut src = RollSource::scripted(vec![6, 6, 6, 3, 4, 5, 1, 2]);
    let res = c.resolve(&mut src);
    assert_eq!(res, Ok(vec![DiceRes { passes: 0, crits: 3 }, DiceRes { passes: 3, crits: 0 }]));
    // The second link rolled four dice: its own and three more.
    assert_eq!(src.roll(), 2);
}

#[test]
fn bypass_skips_over_a_link() {
    let c = chain(vec![link(2, Some(CritEffect::Bypass(2))), link(1, None), link(1, None)]);
    let mut src = RollSource::scripted(vec![6, 6, 1, 4, 5, 6, 2]);
    let res = c.resolve(&mut src);
    assert_eq!(
        res,
        Ok(vec![
            DiceRes { passes: 0, crits: 2 },
            DiceRes { passes: 0, crits: 0 },
            DiceRes { passes: 2, crits: 1 },
        ])
    );
    assert_eq!(src.roll(), 2);
}

#[test]
fn effect_past_the_end_is_dropped() {
    let c = chain(vec![link(1, Some(CritEffect::Bypass(1)))]);
    let mut src = RollSource::scripted(vec![6, 3]);
    assert_eq!(c.resolve(&mut src), Ok(vec![DiceRes { passes: 0, crits: 1 }]));
    assert_eq!(src.roll(), 3);

    let c = chain(vec![link(1, None), link(1, Some(CritEffect::Bonus(4)))]);
    let mut src = RollSource::scripted(vec![6, 6]);
    assert_eq!(
        c.resolve(&mut src),
        Ok(vec![DiceRes { passes: 0, crits: 1 }, DiceRes { passes: 0, crits: 1 }])
    );

    let c = chain(vec![link(1, Some(CritEffect::Bypass(usize::MAX))), link(1, None)]);
    let mut src = RollSource::scripted(vec![6, 6, 6]);
    assert_eq!(
        c.resolve(&mut src),
        Ok(vec![DiceRes { passes: 0, crits: 1 }, DiceRes { passes: 0, crits: 1 }])
    );
}

#[test]
fn bonus_and_bypass_add_up() {
    let c = chain(vec![
        link(1, Some(CritEffect::Bypass(2))),
        link(1, Some(CritEffect::Bonus(3))),
        link(1, None),
    ]);
    let mut src = RollSource::scripted(vec![6, 6, 3, 1, 5]);
    assert_eq!(
        c.resolve(&mut src),
        Ok(vec![
            DiceRes { passes: 0, crits: 1 },
            DiceRes { passes: 0, crits: 1 },
            DiceRes { passes: 4, crits: 0 },
        ])
    );
    assert_eq!(src.roll(), 5);
}

#[test]
fn reroll_inside_a_chain() {
    let mut first = link(2, Some(CritEffect::Bonus(1)));
    first.param.reroll_thres = Some(ReRollCond::One);
    let c = chain(vec![first, link(1, None)]);
    let mut src = RollSource::scripted(vec![1, 6, 6, 2, 3]);
    assert_eq!(
        c.resolve(&mut src),
        Ok(vec![DiceRes { passes: 0, crits: 2 }, DiceRes { passes: 2, crits: 0 }])
    );
    assert_eq!(src.roll(), 3);
}

#[test]
fn attack_sequence_totals() {
    let c = chain(vec![link(2, Some(CritEffect::Bonus(2))), link(2, None)]);
    let mut src = RollSource::scripted(vec![6, 4, 3, 6]);
    assert_eq!(c.attack_sequence(&mut src), Ok(vec![2, 4]));
}

#[test]
fn pool_beyond_the_machine() {
    let c = chain(vec![link(usize::MAX, None)]);
    let mut src = RollSource::scripted(vec![1]);
    assert_eq!(c.resolve(&mut src), Err(SimError::InvalidDiceCount));
    assert_eq!(src.roll(), 1);

    let c = chain(vec![link(1, Some(CritEffect::Bypass(1))), link(usize::MAX / 2, None)]);
    let mut src = RollSource::scripted(vec![6]);
    assert_eq!(c.attack_sequence(&mut src), Err(SimError::InvalidDiceCount));

    let c = chain(vec![link(2, Some(CritEffect::Bonus(usize::MAX))), link(1, None)]);
    let mut src = RollSource::scripted(vec![6, 6]);
    assert_eq!(c.resolve(&mut src), Err(SimError::InvalidDiceCount));
}

#[test]
fn trials_are_summed() {
    let c = chain(vec![link(2, None)]);
    let mut src = RollSource::scripted(vec![3, 6, 1, 4, 5]);
    let stats = c.simulate(2, &mut src).ok().unwrap();
    assert_eq!(stats.trials, 2);
    assert_eq!(stats.passes, vec![2]);
    assert_eq!(stats.crits, vec![1]);
    assert_eq!(src.roll(), 5);
}

#[test]
fn whole_chain_sums() {
    let c = chain(vec![link(2, Some(CritEffect::Bypass(1))), link(1, None)]);
    // Trial one: 6 4, then 3 5. Trial two: 1 2, then 6.
    let mut src = RollSource::scripted(vec![6, 4, 3, 5, 1, 2, 6, 4]);
    let stats = c.simulate(2, &mut src).ok().unwrap();
    assert_eq!(stats.passes, vec![1, 2]);
    assert_eq!(stats.crits, vec![1, 1]);
    assert_eq!(stats.whole_chain(), Some(DiceRes { passes: 3, crits: 2 }));
    assert_eq!(src.roll(), 4);
}

#[test]
fn whole_chain_beyond_the_machine() {
    let stats = ww_calc::TrialStatistics { trials: 1, passes: vec![usize::MAX, 1], crits: vec![0, 0] };
    assert_eq!(stats.whole_chain(), None);
    let stats = ww_calc::TrialStatistics { trials: 1, passes: vec![], crits: vec![] };
    assert_eq!(stats.whole_chain(), Some(DiceRes { passes: 0, crits: 0 }));
}

#[test]
fn trials_carry_nothing_over() {
    let c = chain(vec![link(1, Some(CritEffect::Bonus(5))), link(1, Some(CritEffect::Bypass(1)))]);
    // Trial one: a crit, then a fail with five bonus passes. Trial two: a
    // fail, then a crit that aims past the end.
    let mut src = RollSource::scripted(vec![6, 1, 1, 6, 2]);
    let stats = c.simulate(2, &mut src).ok().unwrap();
    assert_eq!(stats.passes, vec![0, 5]);
    assert_eq!(stats.crits, vec![1, 1]);
    assert_eq!(src.roll(), 2);
}

#[test]
fn no_trials_are_refused() {
    let c = chain(vec![link(2, None)]);
    let mut src = RollSource::scripted(vec![3, 6]);
    assert!(matches!(c.simulate(0, &mut src), Err(SimError::InvalidTrialCount)));
    assert_eq!(src.roll(), 3);
}

#[test]
fn trials_beyond_the_machine() {
    let c = chain(vec![link(usize::MAX, None)]);
    let mut src = RollSource::random();
    assert!(matches!(c.simulate(3, &mut src), Err(SimError::InvalidDiceCount)));
}

#[test]
fn mean_of_many_trials() {
    let c = chain(vec![link(10, None)]);
    let mut src = RollSource::random();
    let stats = c.simulate(1000, &mut src).ok().unwrap();
    let mean = (stats.passes[0] + stats.crits[0]) as f64 / stats.trials as f64;
    // Ten dice, each at 3 or more with probability 2/3.
    let expected = 10.0 * 4.0 / 6.0;
    assert!((mean - expected).abs() < 0.5);
}

#[test]
fn mean_of_many_trials_with_reroll() {
    let mut l = link(10, None);
    l.param.reroll_thres = Some(ReRollCond::Thres(2));
    let c = chain(vec![l]);
    let mut src = RollSource::random();
    let stats = c.simulate(1000, &mut src).ok().unwrap();
    let mean = (stats.passes[0] + stats.crits[0]) as f64 / stats.trials as f64;
    // Each die passes at once with 2/3, or fails and passes when rolled again.
    let expected = 10.0 * (2.0 / 3.0 + 1.0 / 3.0 * 2.0 / 3.0);
    assert!((mean - expected).abs() < 0.5);
}
