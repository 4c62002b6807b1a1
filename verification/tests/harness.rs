use sppf_tester::forest::Forest;
use sppf_tester::forest::NodeShape;
use sppf_tester::harness::classify_outcome;
use sppf_tester::harness::render_progress;
use sppf_tester::harness::status_char;
use sppf_tester::harness::Category;
use sppf_tester::harness::ParseOutcome;
use sppf_tester::harness::Stats;

fn success(nodes: Vec<NodeShape>, root: usize) -> ParseOutcome {
    let forest = Forest { nodes };
    assert!(forest.is_well_formed());
    assert!(root < forest.node_count());
    ParseOutcome::Success { forest, root }
}

#[test]
fn full_single_derivation_parse_is_unambiguous() {
    let o = success(vec![NodeShape::Alias(1), NodeShape::Opaque], 0);
    assert_eq!(classify_outcome(&o), Category::Unambiguous);
}

#[test]
fn full_two_derivation_parse_is_ambiguous() {
    let o = success(
        vec![NodeShape::Choice(vec![1, 2]), NodeShape::Opaque, NodeShape::Opaque],
        0,
    );
    assert_eq!(classify_outcome(&o), Category::Ambiguous);
}

#[test]
fn prefix_parse_is_partial() {
    assert_eq!(classify_outcome(&ParseOutcome::TooShort), Category::Partial);
}

#[test]
fn no_parse_is_failed() {
    assert_eq!(classify_outcome(&ParseOutcome::NoParse), Category::Failed);
}

#[test]
fn status_characters_match_the_report_legend() {
    assert_eq!(status_char(Category::Unambiguous), '~');
    assert_eq!(status_char(Category::Ambiguous), '!');
    assert_eq!(status_char(Category::Partial), '.');
    assert_eq!(status_char(Category::Failed), 'X');
}

#[test]
fn recording_updates_one_bucket_and_the_total() {
    let mut s = Stats::new();
    s.record(Category::Unambiguous);
    s.record(Category::Ambiguous);
    s.record(Category::Ambiguous);
    s.record(Category::Partial);
    s.record(Category::Failed);
    assert_eq!(s.total, 5);
    assert_eq!(s.unambiguous, 1);
    assert_eq!(s.ambiguous, 2);
    assert_eq!(s.too_short, 1);
    assert_eq!(s.no_parse, 1);
    assert_eq!(
        s.unambiguous + s.ambiguous + s.too_short + s.no_parse,
        s.total
    );
}

#[test]
fn tallied_counts_sum_to_the_batch_size() {
    let cats = vec![
        Category::Unambiguous,
        Category::Failed,
        Category::Partial,
        Category::Unambiguous,
        Category::Ambiguous,
        Category::Failed,
        Category::Unambiguous,
    ];
    let s = Stats::tally(&cats);
    assert_eq!(s.total, cats.len());
    assert_eq!(s.unambiguous, 3);
    assert_eq!(s.ambiguous, 1);
    assert_eq!(s.too_short, 1);
    assert_eq!(s.no_parse, 2);
    assert_eq!(
        s.unambiguous + s.ambiguous + s.too_short + s.no_parse,
        cats.len()
    );
}

#[test]
fn empty_batch_tallies_to_zero_and_prints_nothing() {
    let cats: Vec<Category> = Vec::new();
    let s = Stats::tally(&cats);
    assert_eq!(s.total, 0);
    assert_eq!(s.unambiguous + s.ambiguous + s.too_short + s.no_parse, 0);
    assert_eq!(render_progress(&cats), "");
}

#[test]
fn batch_of_exactly_80_files_fills_one_line() {
    let cats = vec![Category::Partial; 80];
    let out = render_progress(&cats);
    assert_eq!(out.len(), 81);
    assert!(out.ends_with('\n'));
    assert_eq!(out.trim_end(), ".".repeat(80));
}

#[test]
fn short_progress_stream_has_no_line_break() {
    let cats = vec![Category::Unambiguous, Category::Ambiguous, Category::Failed];
    assert_eq!(render_progress(&cats), "~!X");
}

#[test]
fn batch_of_160_files_wraps_into_two_full_lines() {
    // A fixed mix: 100 unambiguous, 20 ambiguous, 20 partial, 20 failed.
    let mut cats = Vec::new();
    for _ in 0..100 {
        cats.push(Category::Unambiguous);
    }
    for _ in 0..20 {
        cats.push(Category::Ambiguous);
    }
    for _ in 0..20 {
        cats.push(Category::Partial);
    }
    for _ in 0..20 {
        cats.push(Category::Failed);
    }

    let s = Stats::tally(&cats);
    assert_eq!(s.total, 160);
    assert_eq!(s.unambiguous, 100);
    assert_eq!(s.ambiguous, 20);
    assert_eq!(s.too_short, 20);
    assert_eq!(s.no_parse, 20);

    let out = render_progress(&cats);
    let mut expected = String::new();
    for _ in 0..80 {
        expected.push('~');
    }
    expected.push('\n');
    for _ in 0..20 {
        expected.push('~');
    }
    for _ in 0..20 {
        expected.push('!');
    }
    for _ in 0..20 {
        expected.push('.');
    }
    for _ in 0..20 {
        expected.push('X');
    }
    expected.push('\n');
    assert_eq!(out, expected);
    let lines: Vec<&str> = out.lines().collect();
    assert_eq!(lines.len(), 2);
    assert_eq!(lines[0].len(), 80);
    assert_eq!(lines[1].len(), 80);
}
