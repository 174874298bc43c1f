use strdiffs::global_alignment::{nw_align, nw_grid, vecvec_nw, walk_back, SimpleScoringSystem};

#[test]
fn vecvec_nm_same() {
    let scoring_system = SimpleScoringSystem::new(1, -1, -1);

    let input: String = "abc".into();

    let result = vecvec_nw(&scoring_system, &input, &input);
    assert_eq!(result, input.len() as i32);
}

#[test]
fn vecvec_nm_wikipedia_intro_example() {
    let scoring_system = SimpleScoringSystem::new(1, -1, -1);

    let left: String = "GCATGCG".into();
    let right: String = "GATTACA".into();

    let result = vecvec_nw(&scoring_system, &left, &right);
    assert_eq!(result, 0);
}

#[test]
fn scoring_system_keeps_its_weights() {
    let ss = SimpleScoringSystem::new(2, -3, -4);
    assert_eq!(ss.same, 2);
    assert_eq!(ss.diff, -3);
    assert_eq!(ss.indel, -4);
}

#[test]
fn grid_border_is_multiples_of_indel() {
    let ss = SimpleScoringSystem::new(1, -1, -2);
    let grid = nw_grid(&ss, "abc", "ab");
    assert_eq!(grid.len(), 3);
    assert_eq!(grid[0], vec![0, -2, -4, -6]);
    assert_eq!(grid[1][0], -2);
    assert_eq!(grid[2][0], -4);
    assert_eq!(grid[2][3], vecvec_nw(&ss, "abc", "ab"));
}

#[test]
fn wikipedia_example_alignment() {
    let ss = SimpleScoringSystem::new(1, -1, -1);
    let (a, b) = nw_align(&ss, "GCATGCG", "GATTACA");
    assert_eq!(a, "GCA-TGCG");
    assert_eq!(b, "G-ATTACA");
}

#[test]
fn alignment_against_empty_is_all_gaps() {
    let ss = SimpleScoringSystem::new(1, -1, -1);
    let (a, b) = nw_align(&ss, "abc", "");
    assert_eq!(a, "abc");
    assert_eq!(b, "---");
    let (a, b) = nw_align(&ss, "", "ab");
    assert_eq!(a, "--");
    assert_eq!(b, "ab");
    assert_eq!(vecvec_nw(&ss, "abc", ""), -3);
}

#[test]
fn alignment_prefers_diagonal_then_up() {
    let ss = SimpleScoringSystem::new(1, -1, -1);
    let (a, b) = nw_align(&ss, "abc", "bca");
    assert_eq!(a, "abc-");
    assert_eq!(b, "-bca");
    let (a, b) = nw_align(&ss, "abc", "abc");
    assert_eq!(a, "abc");
    assert_eq!(b, "abc");
}

#[test]
fn alignment_with_other_weights() {
    let ss = SimpleScoringSystem::new(2, -1, -2);
    assert_eq!(vecvec_nw(&ss, "AGTACGCA", "TATGC"), 1);
    let grid = nw_grid(&ss, "AGTACGCA", "TATGC");
    let (a, b) = walk_back(&ss, &grid, "AGTACGCA", "TATGC");
    assert_eq!(a, "AGTACGCA");
    assert_eq!(b, "--TATGC-");
}

#[test]
fn alignment_round_trip_and_lengths() {
    let ss = SimpleScoringSystem::new(1, -1, -1);
    for (src, target) in [("kitten", "sitting"), ("GCATGCG", "GATTACA"), ("", ""), ("xyz", "q")].iter() {
        let (a, b) = nw_align(&ss, src, target);
        assert_eq!(a.chars().count(), b.chars().count());
        let a_plain: String = a.chars().filter(|c| *c != '-').collect();
        let b_plain: String = b.chars().filter(|c| *c != '-').collect();
        assert_eq!(&a_plain, src);
        assert_eq!(&b_plain, target);
    }
}

#[test]
fn unused_large_rewards_do_not_matter() {
    let ss = SimpleScoringSystem::new(1 << 30, -1, -1);
    assert_eq!(vecvec_nw(&ss, "", "ab"), -2);
    let ss = SimpleScoringSystem::new(1, i32::MIN, -1);
    assert_eq!(vecvec_nw(&ss, "aa", "aa"), 2);
    let (a, b) = nw_align(&ss, "aa", "aa");
    assert_eq!(a, "aa");
    assert_eq!(b, "aa");
}

#[test]
fn alignment_score_is_symmetric() {
    let ss = SimpleScoringSystem::new(1, -1, -1);
    assert_eq!(vecvec_nw(&ss, "GCATGCG", "GATTACA"), vecvec_nw(&ss, "GATTACA", "GCATGCG"));
    let ss = SimpleScoringSystem::new(2, -1, -2);
    assert_eq!(vecvec_nw(&ss, "AGTACGCA", "TATGC"), vecvec_nw(&ss, "TATGC", "AGTACGCA"));
}

#[test]
fn alignment_columns_add_up_to_score() {
    let ss = SimpleScoringSystem::new(2, -1, -2);
    for (src, target) in [("AGTACGCA", "TATGC"), ("GCATGCG", "GATTACA"), ("abc", "")].iter() {
        let (a, b) = nw_align(&ss, src, target);
        let total: i32 = a
            .chars()
            .zip(b.chars())
            .map(|(x, y)| {
                if x == '-' || y == '-' {
                    ss.indel
                } else if x == y {
                    ss.same
                } else {
                    ss.diff
                }
            })
            .sum();
        assert_eq!(total, vecvec_nw(&ss, src, target));
    }
}

#[test]
fn self_alignment_earns_one_match_per_character() {
    let ss = SimpleScoringSystem::new(3, -5, -1);
    assert_eq!(vecvec_nw(&ss, "hello", "hello"), 15);
    assert_eq!(vecvec_nw(&ss, "", ""), 0);
    let ss = SimpleScoringSystem::new(1, -1, -1);
    assert_eq!(vecvec_nw(&ss, "", "abcd"), -4);
    assert_eq!(vecvec_nw(&ss, "abcd", ""), -4);
}
