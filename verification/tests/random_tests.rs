use rust_game_common::utility::random::{all_hits, first_hit, RandomError};

#[test]
fn first_hit_picks_earliest_success() {
    assert_eq!(first_hit(&[false, true, true]), Ok(1));
    assert_eq!(first_hit(&[true]), Ok(0));
    assert_eq!(first_hit(&[false, false]), Err(RandomError::NoSelectionMade));
    assert_eq!(first_hit(&[]), Err(RandomError::NoSelectionMade));
}

#[test]
fn all_hits_lists_every_success() {
    assert_eq!(all_hits(&[true, false, true]), Ok(vec![0, 2]));
    assert_eq!(all_hits(&[false, false, false]), Err(RandomError::NoSelectionMade));
    assert_eq!(all_hits(&[]), Err(RandomError::NoSelectionMade));
}

#[test]
fn random_errors_are_distinct() {
    assert_ne!(RandomError::NoSelectionMade, RandomError::InvalidWeights);
}

#[test]
fn first_hit_heads_the_list_of_all_hits() {
    let cases: [&[bool]; 4] = [&[false, true, false, true], &[true, true], &[false], &[]];
    for draws in cases {
        match (first_hit(draws), all_hits(draws)) {
            (Ok(i), Ok(all)) => assert_eq!(all[0], i),
            (Err(a), Err(b)) => assert_eq!(a, b),
            _ => panic!("the two selections disagree"),
        }
    }
}
