use strdiffs::levenshtein::{twovec_lev, vecvec_lev, Differencer};

#[test]
fn differencer_standard() {
    let differ = Differencer::standard();
    assert_eq!(differ.insert as f32, 1.0);
    assert_eq!(differ.delete as f32, 1.0);
    assert_eq!(differ.substitution as f32, 1.0);
}

#[test]
fn differencer_standard_abc_v_bca() {
    let differ = Differencer::standard();
    let left = "abc";
    let right = "bca";

    let result = differ.score(&left, &right);
    assert_eq!(result as f32, 2.0);
}

#[test]
fn custom_unit_weights_score_abc_v_bca() {
    let differ = Differencer::new(1, 1, 1);
    assert_eq!(differ.score("abc", "bca"), 2);
}

#[test]
fn new_keeps_its_weights() {
    let differ = Differencer::new(4, 5, 6);
    assert_eq!(differ.insert, 4);
    assert_eq!(differ.delete, 5);
    assert_eq!(differ.substitution, 6);
}

#[test]
fn empty_sides_use_insert_and_delete_weights() {
    let differ = Differencer::new(1, 2, 3);
    assert_eq!(differ.score("abc", ""), 6);
    assert_eq!(differ.score("", "abc"), 3);
    assert_eq!(differ.score("", ""), 0);
}

#[test]
fn weighted_scores() {
    assert_eq!(Differencer::new(1, 2, 3).score("kitten", "sitting"), 7);
    assert_eq!(Differencer::new(3, 1, 5).score("kitten", "sitting"), 11);
    assert_eq!(Differencer::new(1, 1, 10).score("ab", "ba"), 2);
}

#[test]
fn weighted_symmetric_when_insert_equals_delete() {
    let differ = Differencer::new(2, 2, 1);
    assert_eq!(differ.score("flaw", "lawn"), 4);
    assert_eq!(differ.score("lawn", "flaw"), 4);
}

#[test]
fn standard_weights_match_unit_distance() {
    let differ = Differencer::standard();
    for (a, b) in [("123 n main st", "1217 north maine ave"), ("abc", "bca"), ("", "q")].iter() {
        let d = differ.score(a, b);
        assert_eq!(d, twovec_lev(a, b) as u64);
        assert_eq!(d, vecvec_lev(a, b) as u64);
    }
}

#[test]
fn weighted_distance_to_itself_is_zero() {
    let differ = Differencer::new(3, 7, 11);
    assert_eq!(differ.score("kitten", "kitten"), 0);
    assert_eq!(differ.score("", ""), 0);
}
