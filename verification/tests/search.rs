use lazy_replace::{SearchStep, Searcher};

fn steps(haystack: &str, needle: &str) -> Vec<SearchStep> {
    let mut searcher = Searcher::new(haystack.as_bytes(), needle.as_bytes());
    let mut out = Vec::new();
    loop {
        let step = searcher.next();
        out.push(step);
        if step == SearchStep::Done {
            return out;
        }
    }
}

#[test]
fn walk_over_one_match() {
    assert_eq!(
        vec![
            SearchStep::Reject(0, 3),
            SearchStep::Match(3, 9),
            SearchStep::Reject(9, 14),
            SearchStep::Done
        ],
        steps("one!HERE!three", "!HERE!")
    );
}

#[test]
fn walk_over_adjacent_matches() {
    assert_eq!(
        vec![
            SearchStep::Reject(0, 6),
            SearchStep::Match(6, 12),
            SearchStep::Match(12, 18),
            SearchStep::Done
        ],
        steps("onetwo!HERE!!HERE!", "!HERE!")
    );
}

#[test]
fn walk_without_a_match() {
    assert_eq!(
        vec![SearchStep::Reject(0, 13), SearchStep::Done],
        steps("one two three", "!HERE!")
    );
}

#[test]
fn walk_over_nothing() {
    assert_eq!(vec![SearchStep::Done], steps("", "!HERE!"));
}

#[test]
fn walk_with_a_match_at_the_start() {
    assert_eq!(
        vec![
            SearchStep::Match(0, 1),
            SearchStep::Reject(1, 2),
            SearchStep::Match(2, 3),
            SearchStep::Done
        ],
        steps("aba", "a")
    );
}

#[test]
fn walk_takes_matches_from_the_left() {
    assert_eq!(
        vec![
            SearchStep::Match(0, 2),
            SearchStep::Reject(2, 3),
            SearchStep::Done
        ],
        steps("aaa", "aa")
    );
}

#[test]
fn walk_past_the_end_stays_done() {
    let mut searcher = Searcher::new(b"ab", b"b");
    assert_eq!(SearchStep::Reject(0, 1), searcher.next());
    assert_eq!(SearchStep::Match(1, 2), searcher.next());
    assert_eq!(SearchStep::Done, searcher.next());
    assert_eq!(SearchStep::Done, searcher.next());
}

#[test]
fn walk_over_a_long_haystack() {
    let mut haystack = String::new();
    for _ in 0..20 {
        haystack.push_str("0123456789");
    }
    haystack.push_str("needle");
    haystack.push_str("tail");
    assert_eq!(
        vec![
            SearchStep::Reject(0, 200),
            SearchStep::Match(200, 206),
            SearchStep::Reject(206, 210),
            SearchStep::Done
        ],
        steps(&haystack, "needle")
    );
}
