use ww_calc::{CheckParams, DiceRes, ReRollCond, RollSource, SimError};

fn params(pass_thres: usize, crit_thres: usize, reroll_thres: Option<ReRollCond>) -> CheckParams {
    CheckParams { pass_thres, reroll_thres, crit_thres }
}

#[test]
fn default_params() {
    let p = CheckParams::default();
    assert_eq!(p, params(3, 6, None));
}

#[test]
fn check_without_reroll() {
    let mut src = RollSource::scripted(vec![1, 2, 3, 3, 3, 2, 5, 6, 1, 4]);
    let res = DiceRes::dice_check_from(9, CheckParams::default(), &mut src);
    assert_eq!(res, DiceRes { passes: 4, crits: 1 });
    assert_eq!(res.total_pass(), 5);
    // Nine faces were drawn and no more.
    assert_eq!(src.roll(), 4);
}

#[test]
fn check_of_no_dice() {
    let mut src = RollSource::scripted(vec![6, 6]);
    let res = DiceRes::dice_check_from(0, params(3, 6, Some(ReRollCond::One)), &mut src);
    assert_eq!(res, DiceRes { passes: 0, crits: 0 });
    assert_eq!(src.roll(), 6);
}

#[test]
fn threshold_above_every_face() {
    let mut src = RollSource::scripted(vec![1, 2, 3, 4, 5, 6, 6, 6, 6, 6, 6, 6]);
    let res = DiceRes::dice_check_from(6, params(7, 7, Some(ReRollCond::Thres(6))), &mut src);
    assert_eq!(res, DiceRes { passes: 0, crits: 0 });
}

#[test]
fn reroll_one_if_any_failed() {
    let mut src = RollSource::scripted(vec![1, 4, 6, 5, 2]);
    let res = DiceRes::dice_check_from(3, params(3, 6, Some(ReRollCond::One)), &mut src);
    assert_eq!(res, DiceRes { passes: 2, crits: 1 });
    assert_eq!(src.roll(), 2);
}

#[test]
fn reroll_one_only_one() {
    let mut src = RollSource::scripted(vec![1, 1, 2, 6, 6, 6]);
    let res = DiceRes::dice_check_from(3, params(3, 6, Some(ReRollCond::One)), &mut src);
    assert_eq!(res, DiceRes { passes: 0, crits: 1 });
    assert_eq!(src.roll(), 6);
}

#[test]
fn reroll_one_not_when_all_passed() {
    let mut src = RollSource::scripted(vec![3, 4, 6, 5]);
    let res = DiceRes::dice_check_from(3, params(3, 6, Some(ReRollCond::One)), &mut src);
    assert_eq!(res, DiceRes { passes: 2, crits: 1 });
    assert_eq!(src.roll(), 5);
}

#[test]
fn reroll_failed_at_or_below() {
    let mut src = RollSource::scripted(vec![1, 1, 2, 6, 3, 6, 5]);
    let res = DiceRes::dice_check_from(4, params(3, 6, Some(ReRollCond::Thres(1))), &mut src);
    assert_eq!(res, DiceRes { passes: 1, crits: 2 });
    assert_eq!(src.roll(), 5);
}

#[test]
fn reroll_value_just_below_the_threshold() {
    let mut src = RollSource::scripted(vec![1, 2, 3, 4, 4, 1, 5]);
    let res = DiceRes::dice_check_from(4, params(3, 6, Some(ReRollCond::Thres(2))), &mut src);
    assert_eq!(res, DiceRes { passes: 3, crits: 0 });
    assert_eq!(src.roll(), 5);
}

#[test]
fn reroll_value_at_the_threshold_is_refused() {
    assert_eq!(CheckParams::new(3, 6, Some(ReRollCond::Thres(5))), Err(SimError::InvalidThreshold));
    assert!(!params(3, 6, Some(ReRollCond::Thres(5))).is_valid());
    assert!(!params(3, 6, Some(ReRollCond::Thres(3))).is_valid());
    assert!(params(3, 6, Some(ReRollCond::Thres(2))).is_valid());
    assert!(!params(4, 2, None).is_valid());
    assert!(params(4, 4, Some(ReRollCond::One)).is_valid());
}

#[test]
fn no_double_reroll() {
    let mut src = RollSource::scripted(vec![1, 2, 6]);
    let res = DiceRes::dice_check_from(1, params(3, 6, Some(ReRollCond::One)), &mut src);
    assert_eq!(res, DiceRes { passes: 0, crits: 0 });
    assert_eq!(src.roll(), 6);

    let mut src = RollSource::scripted(vec![1, 1, 1, 2, 6]);
    let res = DiceRes::dice_check_from(2, params(3, 6, Some(ReRollCond::Thres(2))), &mut src);
    assert_eq!(res, DiceRes { passes: 0, crits: 0 });
    assert_eq!(src.roll(), 6);
}

#[test]
fn conservation() {
    let script = vec![1, 1, 2, 6, 3, 6, 5];
    let mut src = RollSource::scripted(script);
    let res = DiceRes::dice_check_from(4, params(3, 6, Some(ReRollCond::Thres(1))), &mut src);
    // Four dice and two re-rolls; 6, 3 and 6 are at or above the threshold.
    assert!(res.passes + res.crits <= 4 + 2);
    assert_eq!(res.passes + res.crits, 3);
}

#[test]
fn threshold_monotonicity() {
    let script = vec![1, 2, 3, 4, 5, 6, 2, 5, 6, 1, 3, 4];
    let mut last = usize::MAX;
    for pass in 0..9 {
        let mut src = RollSource::scripted(script.clone());
        let res = DiceRes::dice_check_from(6, params(pass, 9, Some(ReRollCond::One)), &mut src);
        assert!(res.total_pass() <= last);
        last = res.total_pass();
    }
    let mut last = usize::MAX;
    for pass in 3..9 {
        let mut src = RollSource::scripted(script.clone());
        let res = DiceRes::dice_check_from(6, params(pass, 9, Some(ReRollCond::Thres(2))), &mut src);
        assert!(res.total_pass() <= last);
        last = res.total_pass();
    }
}

#[test]
fn threshold_monotonicity_exact() {
    let script = vec![2, 3, 6, 4];
    let mut src = RollSource::scripted(script.clone());
    let low = DiceRes::dice_check_from(3, params(2, 6, Some(ReRollCond::One)), &mut src);
    assert_eq!(low.total_pass(), 3);
    let mut src = RollSource::scripted(script);
    let high = DiceRes::dice_check_from(3, params(3, 6, Some(ReRollCond::One)), &mut src);
    assert_eq!(high.total_pass(), 3);
}

#[test]
fn crit_implies_pass() {
    let mut src = RollSource::scripted(vec![1, 2, 3, 4, 5, 6]);
    let res = DiceRes::dice_check_from(6, params(4, 5, None), &mut src);
    assert_eq!(res, DiceRes { passes: 1, crits: 2 });
    // With both thresholds equal every die that passes is a crit.
    let mut src = RollSource::scripted(vec![1, 2, 3, 4, 5, 6]);
    let res = DiceRes::dice_check_from(6, params(4, 4, None), &mut src);
    assert_eq!(res, DiceRes { passes: 0, crits: 3 });
}

#[test]
fn check_with_real_dice() {
    let res = DiceRes::dice_check(10, params(3, 5, None));
    assert!(res.passes + res.crits <= 10);
    let res = DiceRes::dice_check(10, params(1, 1, None));
    assert_eq!(res, DiceRes { passes: 0, crits: 10 });
    let res = DiceRes::dice_check(10, params(1, 7, Some(ReRollCond::One)));
    assert_eq!(res, DiceRes { passes: 10, crits: 0 });
    let res = DiceRes::dice_check(10, params(7, 7, Some(ReRollCond::Thres(6))));
    assert_eq!(res, DiceRes { passes: 0, crits: 0 });
}

#[test]
fn params_are_checked() {
    assert_eq!(CheckParams::new(3, 6, None), Ok(params(3, 6, None)));
    assert_eq!(CheckParams::new(3, 3, Some(ReRollCond::One)), Ok(params(3, 3, Some(ReRollCond::One))));
    assert_eq!(
        CheckParams::new(3, 6, Some(ReRollCond::Thres(2))),
        Ok(params(3, 6, Some(ReRollCond::Thres(2))))
    );
    assert_eq!(CheckParams::new(4, 3, None), Err(SimError::InvalidThreshold));
    assert_eq!(CheckParams::new(3, 6, Some(ReRollCond::Thres(3))), Err(SimError::InvalidThreshold));
    assert_eq!(CheckParams::new(3, 6, Some(ReRollCond::Thres(5))), Err(SimError::InvalidThreshold));
}
