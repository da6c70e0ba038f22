use ww_calc::{dice_roll, enumerate_rolls, RollFrequency, RollSource};

#[test]
fn bounds() {
    let rolls: Vec<usize> = (0..100).map(|_| dice_roll()).collect();
    assert!(rolls.iter().max().unwrap() <= &6 && rolls.iter().min().unwrap() >= &1)
}

#[test]
fn count_roll() {
    let mut data: Vec<usize> = [1, 2, 3, 3, 3, 2, 5, 6, 1].into();
    let num = data.len();
    // The faces are handed out from the back of the list.
    data.reverse();

    let mut src = RollSource::scripted(data);
    let mut counts = RollFrequency::new();
    enumerate_rolls(&mut counts, num, &mut src);

    assert_eq!(counts.get(1), 2);
    assert_eq!(counts.get(2), 2);
    assert_eq!(counts.get(3), 3);
    assert_eq!(counts.get(4), 0);
    assert_eq!(counts.get(5), 1);
    assert_eq!(counts.get(6), 1);
}

#[test]
fn counts_sum_to_the_number_of_dice() {
    let mut src = RollSource::scripted(vec![1, 2, 3, 3, 3, 2, 5, 6, 1]);
    let mut counts = RollFrequency::new();
    enumerate_rolls(&mut counts, 9, &mut src);
    assert_eq!(counts.count_range(0, usize::MAX), 9);
    assert_eq!(counts.count_range(1, 6), 9);
    assert_eq!(counts.count_range(3, 5), 4);
    assert_eq!(counts.count_range(4, 4), 0);
}

#[test]
fn no_dice_give_an_empty_table() {
    let mut src = RollSource::scripted(vec![4, 5]);
    let mut counts = RollFrequency::new();
    enumerate_rolls(&mut counts, 0, &mut src);
    assert_eq!(counts.count_range(0, usize::MAX), 0);
    assert_eq!(src.roll(), 4);
}

#[test]
fn faces_outside_a_die_are_tallied_too() {
    let mut src = RollSource::scripted(vec![0, 17, 17, usize::MAX]);
    let mut counts = RollFrequency::new();
    enumerate_rolls(&mut counts, 4, &mut src);
    assert_eq!(counts.get(0), 1);
    assert_eq!(counts.get(17), 2);
    assert_eq!(counts.get(usize::MAX), 1);
    assert_eq!(counts.count_range(1, 6), 0);
}

#[test]
fn a_table_keeps_what_it_held() {
    let mut src = RollSource::scripted(vec![2, 2, 5, 2]);
    let mut counts = RollFrequency::new();
    enumerate_rolls(&mut counts, 2, &mut src);
    enumerate_rolls(&mut counts, 2, &mut src);
    counts.add(5);
    assert_eq!(counts.get(2), 3);
    assert_eq!(counts.get(5), 2);
}

#[test]
fn a_script_that_ran_out_shows_zero() {
    let mut src = RollSource::scripted(vec![3]);
    assert_eq!(src.roll(), 3);
    assert_eq!(src.roll(), 0);
    assert_eq!(src.roll(), 0);
}

#[test]
fn a_random_source_rolls_a_six_sided_die() {
    let mut src = RollSource::random();
    let mut counts = RollFrequency::new();
    enumerate_rolls(&mut counts, 200, &mut src);
    assert_eq!(counts.count_range(1, 6), 200);
    assert_eq!(counts.count_range(0, 0), 0);
    assert_eq!(counts.count_range(7, usize::MAX), 0);
}
