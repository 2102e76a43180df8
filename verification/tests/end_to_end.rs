use maillog_scan::access::RemoteAccess;
use maillog_scan::counts::CountTable;
use maillog_scan::parser::{parse_lines, FileParser, Step};

const ACCESS: &str = "[LAN access from remote] from 10.0.0.5:4444 to me Mon Jan 1 00:00:00";

fn file_a() -> Vec<String> {
    let mut lines = vec!["Subject: x".to_string(), String::new()];
    for _ in 0..101 {
        lines.push(ACCESS.to_string());
    }
    lines
}

fn file_b() -> Vec<String> {
    vec![String::new(), "hello world".to_string()]
}

#[test]
fn two_files_give_one_shown_address() {
    let a = parse_lines(&file_a());
    let b = parse_lines(&file_b());
    assert_eq!(a.head.get("Subject").map(|v| v.as_str()), Some("x"));
    assert_eq!(a.events.len(), 101);
    assert!(a.peripheral.is_empty());
    assert!(b.events.is_empty());
    assert_eq!(b.peripheral, vec!["hello world".to_string()]);

    let mut all: Vec<RemoteAccess> = Vec::new();
    all.extend(a.events);
    all.extend(b.events);
    let table = CountTable::aggregate(&all);
    let report = table.report();
    let shown: Vec<String> =
        report.visible.iter().map(|t| format!("{:?}: {:?}", t.address, t.count)).collect();
    assert_eq!(shown, vec!["\"10.0.0.5\": 101".to_string()]);
    assert_eq!(
        format!("{} hidden entries (of {})", report.hidden, report.total),
        "0 hidden entries (of 1)"
    );
}

#[test]
fn interleaved_files_give_the_same_counts() {
    let a = file_a();
    let b = file_b();
    let mut first = FileParser::new();
    let mut second = FileParser::new();
    let mut table = CountTable::new();
    let longest = a.len().max(b.len());
    for i in 0..longest {
        for (parser, lines) in [(&mut second, &b), (&mut first, &a)] {
            if let Some(line) = lines.get(i) {
                if let Step::Emit(access) = parser.feed(line) {
                    table.record(access);
                }
            }
        }
    }
    assert_eq!(table.count("10.0.0.5"), 101);
    assert_eq!(table.len(), 1);
    let report = table.report();
    assert_eq!(report.visible.len(), 1);
    assert_eq!(report.hidden, 0);
    assert_eq!(report.total, 1);
}

#[test]
fn running_twice_gives_identical_counts() {
    let run = || {
        let mut all: Vec<RemoteAccess> = Vec::new();
        all.extend(parse_lines(&file_a()).events);
        all.extend(parse_lines(&file_b()).events);
        CountTable::aggregate(&all)
    };
    let one = run();
    let other = run();
    assert_eq!(one.len(), other.len());
    assert_eq!(one.count("10.0.0.5"), other.count("10.0.0.5"));
    let shown = |table: &CountTable| -> Vec<(String, u32)> {
        table.report().visible.into_iter().map(|t| (t.address, t.count)).collect()
    };
    assert_eq!(shown(&one), shown(&other));
}

#[test]
fn one_access_less_hides_the_address() {
    let mut lines = file_a();
    lines.pop();
    let table = CountTable::aggregate(&parse_lines(&lines).events);
    let report = table.report();
    assert!(report.visible.is_empty());
    assert_eq!(
        format!("{} hidden entries (of {})", report.hidden, report.total),
        "1 hidden entries (of 1)"
    );
}
