use strdiffs::levenshtein::{twovec_lev, vecvec_lev};

#[test]
fn vecvec_lev_exact() {
    let source: String = "abc".into();
    let target: String = "abc".into();

    let result = vecvec_lev(&source, &target);
    assert_eq!(result, 0);
}

#[test]
fn vecvec_lev_abc_v_bca() {
    let source: String = "abc".into();
    let target: String = "bca".into();

    let result = vecvec_lev(&source, &target);
    assert_eq!(result, 2);
}

#[test]
fn vecvec_lev_one_empty() {
    let source: String = "abc".into();
    let target: String = "".into();

    let result = vecvec_lev(&source, &target);
    assert_eq!(result, source.len());

    let source: String = "".into();
    let target: String = "abc".into();

    let result = vecvec_lev(&source, &target);
    assert_eq!(result, target.len());
}

#[test]
fn twovec_lev_exact() {
    let source: String = "abc".into();
    let target: String = "abc".into();

    let result = twovec_lev(&source, &target);
    assert_eq!(result, 0);
}

#[test]
fn twovec_lev_abc_v_bca() {
    let source: String = "abc".into();
    let target: String = "bca".into();

    let result = twovec_lev(&source, &target);
    assert_eq!(result, 2);
}

#[test]
fn twovec_lev_one_empty() {
    let source: String = "".into();
    let target: String = "abc".into();

    let result = twovec_lev(&source, &target);
    assert_eq!(result, target.len());

    let source: String = "abc".into();
    let target: String = "".into();

    let result = twovec_lev(&source, &target);
    assert_eq!(result, source.len());
}

#[test]
fn both_empty_is_zero() {
    assert_eq!(twovec_lev("", ""), 0);
    assert_eq!(vecvec_lev("", ""), 0);
}

#[test]
fn kitten_sitting_is_three() {
    assert_eq!(twovec_lev("kitten", "sitting"), 3);
    assert_eq!(vecvec_lev("kitten", "sitting"), 3);
}

#[test]
fn rolling_and_table_agree() {
    let pairs = [
        ("123 n main st", "1217 north maine ave"),
        ("flaw", "lawn"),
        ("intention", "execution"),
        ("a", "b"),
        ("", "xyz"),
    ];
    for (a, b) in pairs.iter() {
        assert_eq!(twovec_lev(a, b), vecvec_lev(a, b));
    }
}

#[test]
fn distance_to_itself_is_zero() {
    for s in ["", "x", "hello world", "aaaa"].iter() {
        assert_eq!(twovec_lev(s, s), 0);
        assert_eq!(vecvec_lev(s, s), 0);
    }
}

#[test]
fn distance_is_symmetric() {
    assert_eq!(twovec_lev("flaw", "lawn"), twovec_lev("lawn", "flaw"));
    assert_eq!(vecvec_lev("sunday", "saturday"), vecvec_lev("saturday", "sunday"));
    assert_eq!(twovec_lev("sunday", "saturday"), 3);
}

#[test]
fn distance_obeys_triangle_inequality() {
    let (a, b, c) = ("kitten", "sitting", "fitting");
    assert!(twovec_lev(a, c) <= twovec_lev(a, b) + twovec_lev(b, c));
    assert!(vecvec_lev(c, a) <= vecvec_lev(c, b) + vecvec_lev(b, a));
}

#[test]
fn counts_code_points_not_bytes() {
    assert_eq!(twovec_lev("héllo", "hello"), 1);
    assert_eq!(vecvec_lev("héllo", "hello"), 1);
    assert_eq!(twovec_lev("日本", ""), 2);
    assert_eq!(vecvec_lev("", "日本語"), 3);
}
