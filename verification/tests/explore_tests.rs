use trust_feed::explore::search_neighbours;
use trust_feed::explore::NeighborhoodExplorer;
use trust_feed::explore::TxRecord;

fn tx(from: &str, to: &str, value: u32) -> TxRecord {
    TxRecord {
        from: from.to_string(),
        to: to.to_string(),
        value,
    }
}

fn contains(v: &[String], s: &str) -> bool {
    v.iter().any(|x| x == s)
}

#[test]
fn seed_always_included() {
    let records = vec![tx("a", "b", 1), tx("b", "c", 2)];
    let res = NeighborhoodExplorer::explore(vec!["a".to_string()], records, 0);
    assert!(contains(&res, "a"));
}

#[test]
fn seed_included_even_without_records() {
    let res = NeighborhoodExplorer::explore(vec!["lonely".to_string()], Vec::new(), 0);
    assert_eq!(res, vec!["lonely".to_string()]);
}

#[test]
fn depth_beyond_limit_is_empty() {
    let records = vec![tx("a", "b", 1)];
    let res = search_neighbours(vec!["a".to_string()], records, 3);
    assert!(res.is_empty());
}

#[test]
fn depth_bound_cuts_long_chains() {
    let records = vec![tx("a", "b", 1), tx("b", "c", 1), tx("c", "d", 1)];
    let res = search_neighbours(vec!["a".to_string()], records, 0);
    // first-discovered order: the seed, then hop one, then hop two; d is
    // three hops out and excluded
    assert_eq!(
        res,
        vec!["a".to_string(), "b".to_string(), "c".to_string()]
    );
}

#[test]
fn duplicate_edges_do_not_duplicate_addresses() {
    let records = vec![tx("a", "b", 1), tx("a", "b", 2), tx("b", "a", 3)];
    let res = search_neighbours(vec!["a".to_string()], records, 0);
    assert_eq!(res, vec!["a".to_string(), "b".to_string()]);
}

#[test]
fn two_seeds_both_expand() {
    let records = vec![tx("a", "b", 1), tx("c", "d", 1)];
    let res = search_neighbours(vec!["a".to_string(), "c".to_string()], records, 0);
    assert_eq!(
        res,
        vec![
            "a".to_string(),
            "b".to_string(),
            "c".to_string(),
            "d".to_string()
        ]
    );
}

#[test]
fn targets_outside_vicinity_sources_are_reached() {
    // b is reached from a, and b's own target e is two hops out: included.
    let records = vec![tx("a", "b", 5), tx("b", "e", 7)];
    let res = search_neighbours(vec!["a".to_string()], records, 0);
    assert_eq!(
        res,
        vec!["a".to_string(), "b".to_string(), "e".to_string()]
    );
}
