use mlog::levenshtein;
use mlog::levenshtein::normalize;
use mlog::LevenshteinOp;
use mlog::LevenshteinOp::Delete;
use mlog::LevenshteinOp::Insert;
use mlog::LevenshteinOp::Keep;
use mlog::LevenshteinOp::Substitute;

/// Applies a script to `a`, panicking if any operation disagrees with
/// the characters of `a`.
fn apply(script: &[LevenshteinOp], a: &str) -> String {
    let mut chars = a.chars();
    let mut out = String::new();
    for op in script {
        match *op {
            Keep(c) => {
                assert_eq!(chars.next(), Some(c));
                out.push(c);
            }
            Substitute(x, y) => {
                assert_eq!(chars.next(), Some(x));
                out.push(y);
            }
            Insert(c) => {
                out.push(c);
            }
            Delete(c) => {
                assert_eq!(chars.next(), Some(c));
            }
        }
    }
    assert_eq!(chars.next(), None);
    out
}

fn cost(script: &[LevenshteinOp]) -> usize {
    script.iter().filter(|op| !matches!(op, Keep(_))).count()
}

#[test]
fn test_round_trip() {
    for (a, b) in [
        ("kitten", "sitting"),
        ("", "abc"),
        ("abc", ""),
        ("same", "same"),
        ("user login ok", "user login fail"),
        ("a b c", "a  c"),
    ] {
        let script = levenshtein(a, b);
        assert_eq!(apply(&script, a), b);
    }
}

#[test]
fn test_minimal_cost() {
    assert_eq!(cost(&levenshtein("kitten", "sitting")), 3);
    assert_eq!(cost(&levenshtein("", "abc")), 3);
    assert_eq!(cost(&levenshtein("abc", "")), 3);
    assert_eq!(cost(&levenshtein("same", "same")), 0);
    assert_eq!(cost(&levenshtein("ok", "fail")), 4);
}

#[test]
fn test_exact_script() {
    assert_eq!(
        levenshtein("ok", "fail"),
        vec![Insert('f'), Insert('a'), Substitute('o', 'i'), Substitute('k', 'l')],
    );
}

#[test]
fn test_empty_source_inserts_all() {
    assert_eq!(levenshtein("", "ab"), vec![Insert('a'), Insert('b')]);
}

#[test]
fn test_empty_target_deletes_all() {
    assert_eq!(levenshtein("ab", ""), vec![Delete('a'), Delete('b')]);
}

fn swap(op: &LevenshteinOp) -> LevenshteinOp {
    match *op {
        Keep(c) => Keep(c),
        Insert(c) => Delete(c),
        Delete(c) => Insert(c),
        Substitute(x, y) => Substitute(y, x),
    }
}

#[test]
fn test_symmetry() {
    for (a, b) in [("kitten", "sitting"), ("ok", "fail"), ("", "xy"), ("abba", "baab")] {
        let fwd = levenshtein(a, b);
        let bwd = levenshtein(b, a);
        // the metric is symmetric even though the scripts differ
        assert_eq!(cost(&fwd), cost(&bwd));
        // and the mirrored reverse script is a valid script for the
        // forward direction, at the same cost
        let mirrored: Vec<LevenshteinOp> = bwd.iter().map(swap).collect();
        assert_eq!(apply(&mirrored, a), b);
    }
}

#[test]
fn test_normalize_self_is_one() {
    let script = levenshtein("abc", "abc");
    let r = normalize(&script, 3, 3);
    assert_eq!((r.num, r.den), (3, 3));
}

#[test]
fn test_normalize_empty_pair_is_one() {
    let script = levenshtein("", "");
    let r = normalize(&script, 0, 0);
    assert_eq!((r.num, r.den), (1, 1));
}

#[test]
fn test_normalize_partial() {
    // "ok" -> "fail": 4 edits over max(2, 4) = 4 characters
    let script = levenshtein("ok", "fail");
    let r = normalize(&script, 2, 4);
    assert_eq!((r.num, r.den), (0, 4));
    // "kitten" -> "sitting": 3 edits over 7 characters
    let script = levenshtein("kitten", "sitting");
    let r = normalize(&script, 6, 7);
    assert_eq!((r.num, r.den), (4, 7));
}
