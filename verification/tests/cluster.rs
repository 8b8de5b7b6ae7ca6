use mlog::colorize;
use mlog::AddOrClosest;
use mlog::Color;
use mlog::LevenshteinOp::Delete;
use mlog::LevenshteinOp::Insert;
use mlog::LevenshteinOp::Keep;
use mlog::LevenshteinOp::Substitute;
use mlog::PatternBuffer;
use mlog::Ratio;

fn chars(s: &str) -> Vec<char> {
    s.chars().collect()
}

#[test]
fn test_scenario_user_login() {
    let mut buf = PatternBuffer::new(Ratio::new(2, 5), 512);

    // first line creates the first representative
    match buf.add_or_closest("user login ok") {
        AddOrClosest::Added(p) => {
            assert_eq!(p.text, chars("user login ok"));
            assert_eq!(p.repr, vec![1, 1, 1]);
            assert_eq!(p.color, Color::BrightRed);
        }
        _ => panic!("first line must create a representative"),
    }

    // the identical line attaches with an all-Keep script
    match buf.add_or_closest("user login ok") {
        AddOrClosest::Closest(p, diff) => {
            assert_eq!(p.text, chars("user login ok"));
            assert_eq!(diff.len(), 13);
            assert!(diff.iter().all(|op| matches!(op, Keep(_))));
        }
        _ => panic!("an identical line must attach"),
    }

    // "user login fail" is at distance 1/3 < 2/5 and attaches too
    match buf.add_or_closest("user login fail") {
        AddOrClosest::Closest(p, diff) => {
            assert_eq!(p.text, chars("user login ok"));
            let mut expected: Vec<_> = chars("user login ").into_iter().map(Keep).collect();
            expected.extend([
                Insert('f'),
                Insert('a'),
                Substitute('o', 'i'),
                Substitute('k', 'l'),
            ]);
            assert_eq!(diff, expected);
        }
        _ => panic!("a near line under the threshold must attach"),
    }

    assert_eq!(buf.patterns.len(), 1);
}

#[test]
fn test_distant_line_creates_second_representative() {
    let mut buf = PatternBuffer::new(Ratio::new(2, 5), 512);
    assert!(matches!(buf.add_or_closest("user login ok"), AddOrClosest::Added(_)));
    // no word overlap: distance 3/3 = 1 >= 2/5
    assert!(matches!(buf.add_or_closest("disk almost full"), AddOrClosest::Added(_)));
    assert_eq!(buf.patterns.len(), 2);
}

#[test]
fn test_capacity_forces_attach() {
    // threshold 0: every distance reaches it, so every line creates a
    // representative until the buffer is full
    let mut buf = PatternBuffer::new(Ratio::new(0, 1), 512);
    for i in 0..513u32 {
        let line = format!("word{}", i);
        let r = buf.add_or_closest(&line);
        if i < 512 {
            assert!(matches!(r, AddOrClosest::Added(_)));
        } else {
            // the 513th structurally distinct line may not create a
            // 513th representative
            assert!(matches!(r, AddOrClosest::Closest(_, _)));
        }
    }
    assert_eq!(buf.patterns.len(), 512);
}

#[test]
fn test_ties_attach_to_earliest() {
    // both representatives are at the maximal distance from the new
    // line; the earliest one wins the tie
    let mut buf = PatternBuffer::new(Ratio::new(1, 1), 2);
    assert!(matches!(buf.add_or_closest("aa"), AddOrClosest::Added(_)));
    assert!(matches!(buf.add_or_closest("bb"), AddOrClosest::Added(_)));
    match buf.add_or_closest("cc") {
        AddOrClosest::Closest(p, _) => assert_eq!(p.text, chars("aa")),
        _ => panic!("a full buffer must attach"),
    }
}

#[test]
fn test_color_cycle_wraps() {
    let mut buf = PatternBuffer::new(Ratio::new(0, 1), 512);
    let mut colors = Vec::new();
    for i in 0..16u32 {
        match buf.add_or_closest(&format!("line{}", i)) {
            AddOrClosest::Added(p) => colors.push(p.color),
            _ => panic!("threshold zero must always create"),
        }
    }
    assert_eq!(colors[0], Color::BrightRed);
    assert_eq!(colors[6], Color::BrightWhite);
    assert_eq!(colors[7], Color::Red);
    assert_eq!(colors[14], Color::BrightBlack);
    // the palette cycle wraps around, skipping only Black
    assert_eq!(colors[15], colors[0]);
}

#[test]
fn test_colorize_runs_and_flags() {
    let script = vec![Keep('a'), Keep(' '), Substitute('b', 'c')];
    let segs = colorize(&script, Color::Red);
    assert_eq!(segs.len(), 3);
    assert_eq!(segs[0].text, chars("a"));
    assert!(segs[0].same);
    assert_eq!(segs[1].text, chars(" "));
    assert!(!segs[1].same);
    assert_eq!(segs[2].text, chars("c"));
    assert!(!segs[2].same);
    assert!(segs.iter().all(|s| s.color == Color::Red));
}

#[test]
fn test_colorize_deletes_show_nothing() {
    let script = vec![Delete('x'), Keep('y')];
    let segs = colorize(&script, Color::Blue);
    assert_eq!(segs.len(), 1);
    assert_eq!(segs[0].text, chars("y"));
    // a run holding a deletion is not all-Keep, so it renders in full
    // intensity
    assert!(!segs[0].same);
}

#[test]
fn test_colorize_consecutive_delimiters() {
    let script = vec![Keep(' '), Keep(' ')];
    let segs = colorize(&script, Color::Green);
    // three empty runs with separators between them
    assert_eq!(segs.len(), 5);
    assert!(segs[0].text.is_empty() && segs[0].same);
    assert_eq!(segs[1].text, chars(" "));
    assert!(segs[2].text.is_empty() && segs[2].same);
    assert_eq!(segs[3].text, chars(" "));
    assert!(segs[4].text.is_empty() && segs[4].same);
}

#[test]
fn test_end_to_end_render() {
    let mut buf = PatternBuffer::new(Ratio::new(2, 5), 512);
    buf.add_or_closest("user login ok");
    match buf.add_or_closest("user login fail") {
        AddOrClosest::Closest(p, diff) => {
            let segs = colorize(&diff, p.color);
            assert_eq!(segs.len(), 5);
            assert_eq!(segs[0].text, chars("user"));
            assert!(segs[0].same);
            assert_eq!(segs[2].text, chars("login"));
            assert!(segs[2].same);
            assert_eq!(segs[4].text, chars("fail"));
            assert!(!segs[4].same);
        }
        _ => panic!("the near line must attach"),
    }
}
