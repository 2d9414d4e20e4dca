use largest_file_finder::selector::{consider_candidate, drain_sorted, Candidate};

fn cand(size: u64, path: &str) -> Candidate {
    Candidate { size, path: String::from(path) }
}

#[test]
fn equal_size_ties_keep_lexicographically_smallest_path() {
    let mut heap: Vec<Candidate> = Vec::new();

    consider_candidate(&mut heap, 1, cand(10, "b"));
    consider_candidate(&mut heap, 1, cand(10, "a"));

    assert_eq!(heap.len(), 1);
    assert_eq!(heap[0].path, "a");
}

#[test]
fn tie_break_is_order_independent() {
    let mut first: Vec<Candidate> = Vec::new();
    consider_candidate(&mut first, 1, cand(10, "a"));
    consider_candidate(&mut first, 1, cand(10, "b"));
    assert_eq!(first[0].path, "a");

    let mut second: Vec<Candidate> = Vec::new();
    consider_candidate(&mut second, 1, cand(10, "b"));
    consider_candidate(&mut second, 1, cand(10, "a"));
    assert_eq!(second[0].path, "a");
}

#[test]
fn selection_never_exceeds_capacity() {
    let mut held: Vec<Candidate> = Vec::new();
    for k in 0..100u64 {
        consider_candidate(&mut held, 3, cand(k, "x"));
        assert!(held.len() <= 3);
    }
    assert_eq!(held.len(), 3);
}

#[test]
fn keeps_the_largest_candidates() {
    let mut held: Vec<Candidate> = Vec::new();
    consider_candidate(&mut held, 2, cand(5, "/a"));
    consider_candidate(&mut held, 2, cand(50, "/b"));
    consider_candidate(&mut held, 2, cand(20, "/c"));
    consider_candidate(&mut held, 2, cand(1, "/d"));

    let result = drain_sorted(held);
    assert_eq!(result.len(), 2);
    assert_eq!(result[0].size, 50);
    assert_eq!(result[0].path, "/b");
    assert_eq!(result[1].size, 20);
    assert_eq!(result[1].path, "/c");
}

#[test]
fn smaller_candidate_does_not_evict() {
    let mut held: Vec<Candidate> = Vec::new();
    consider_candidate(&mut held, 1, cand(10, "a"));
    consider_candidate(&mut held, 1, cand(9, "0"));
    assert_eq!(held[0].path, "a");
    assert_eq!(held[0].size, 10);
}

#[test]
fn drain_orders_by_size_desc_then_path_asc() {
    let mut held: Vec<Candidate> = Vec::new();
    for c in [
        cand(10, "zeta"),
        cand(30, "beta"),
        cand(10, "alpha"),
        cand(30, "alpha"),
        cand(20, "gamma"),
    ] {
        consider_candidate(&mut held, 5, c);
    }
    let result = drain_sorted(held);
    let got: Vec<(u64, &str)> = result.iter().map(|c| (c.size, c.path.as_str())).collect();
    assert_eq!(
        got,
        vec![
            (30, "alpha"),
            (30, "beta"),
            (20, "gamma"),
            (10, "alpha"),
            (10, "zeta"),
        ]
    );
}

#[test]
fn drain_of_empty_selection_is_empty() {
    let held: Vec<Candidate> = Vec::new();
    assert!(drain_sorted(held).is_empty());
}
