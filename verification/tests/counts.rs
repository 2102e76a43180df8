use maillog_scan::access::RemoteAccess;
use maillog_scan::counts::{CountTable, VISIBILITY_THRESHOLD};

fn access(address: &str) -> RemoteAccess {
    RemoteAccess { address: address.to_string() }
}

fn events(addresses: &[&str]) -> Vec<RemoteAccess> {
    addresses.iter().map(|address| access(address)).collect()
}

fn repeated(address: &str, n: usize) -> Vec<RemoteAccess> {
    (0..n).map(|_| access(address)).collect()
}

#[test]
fn threshold_is_one_hundred() {
    assert_eq!(VISIBILITY_THRESHOLD, 100);
}

#[test]
fn new_table_has_no_entry() {
    let table = CountTable::new();
    assert_eq!(table.len(), 0);
    assert_eq!(table.count("10.0.0.5"), 0);
    let report = table.report();
    assert!(report.visible.is_empty());
    assert_eq!(report.hidden, 0);
    assert_eq!(report.total, 0);
}

#[test]
fn record_starts_an_address_at_one() {
    let mut table = CountTable::new();
    table.record(access("10.0.0.5"));
    assert_eq!(table.count("10.0.0.5"), 1);
    assert_eq!(table.len(), 1);
}

#[test]
fn n_events_give_the_count_n() {
    let mut table = CountTable::new();
    for n in 1..=250u32 {
        table.record(access("10.0.0.5"));
        assert_eq!(table.count("10.0.0.5"), n);
        assert_eq!(table.len(), 1);
    }
    assert_eq!(table.count("10.0.0.6"), 0);
}

#[test]
fn record_leaves_other_addresses_alone() {
    let mut table = CountTable::new();
    table.record(access("a"));
    table.record(access("b"));
    table.record(access("a"));
    table.record(access(""));
    assert_eq!(table.count("a"), 2);
    assert_eq!(table.count("b"), 1);
    assert_eq!(table.count(""), 1);
    assert_eq!(table.count("c"), 0);
    assert_eq!(table.len(), 3);
}

#[test]
fn aggregate_of_nothing_is_empty() {
    let table = CountTable::aggregate(&events(&[]));
    assert_eq!(table.len(), 0);
    assert_eq!(table.count("a"), 0);
}

#[test]
fn aggregate_counts_each_address() {
    let table = CountTable::aggregate(&events(&["a", "b", "a", "c", "a", "b"]));
    assert_eq!(table.count("a"), 3);
    assert_eq!(table.count("b"), 2);
    assert_eq!(table.count("c"), 1);
    assert_eq!(table.count("d"), 0);
    assert_eq!(table.len(), 3);
}

#[test]
fn aggregate_does_not_depend_on_the_order() {
    let one = CountTable::aggregate(&events(&["a", "b", "a", "c", "a", "b"]));
    let other = CountTable::aggregate(&events(&["b", "a", "c", "b", "a", "a"]));
    assert_eq!(one.len(), other.len());
    for address in ["a", "b", "c", "d"] {
        assert_eq!(one.count(address), other.count(address));
    }
}

#[test]
fn aggregate_twice_gives_the_same_table() {
    let input = events(&["x", "y", "x"]);
    let one = CountTable::aggregate(&input);
    let other = CountTable::aggregate(&input);
    assert_eq!(one.len(), other.len());
    for address in ["x", "y"] {
        assert_eq!(one.count(address), other.count(address));
    }
}

#[test]
fn exactly_one_hundred_is_hidden() {
    let table = CountTable::aggregate(&repeated("10.0.0.5", 100));
    assert_eq!(table.count("10.0.0.5"), 100);
    let report = table.report();
    assert!(report.visible.is_empty());
    assert_eq!(report.hidden, 1);
    assert_eq!(report.total, 1);
}

#[test]
fn one_hundred_and_one_is_shown() {
    let table = CountTable::aggregate(&repeated("10.0.0.5", 101));
    let report = table.report();
    assert_eq!(report.visible.len(), 1);
    assert_eq!(report.visible[0].address, "10.0.0.5");
    assert_eq!(report.visible[0].count, 101);
    assert_eq!(report.hidden, 0);
    assert_eq!(report.total, 1);
}

#[test]
fn report_shows_in_the_order_of_first_arrival() {
    let mut input = Vec::new();
    input.push(access("late"));
    input.push(access("quiet"));
    input.extend(repeated("busy", 150));
    input.extend(repeated("late", 100));
    input.extend(repeated("edge", 100));
    let table = CountTable::aggregate(&input);
    let report = table.report();
    let shown: Vec<(&str, u32)> =
        report.visible.iter().map(|t| (t.address.as_str(), t.count)).collect();
    assert_eq!(shown, vec![("late", 101), ("busy", 150)]);
    assert_eq!(report.hidden, 2);
    assert_eq!(report.total, 4);
}
