use maillog_scan::header::EmailHead;

#[test]
fn fresh_head_is_open_and_empty() {
    let head = EmailHead::new();
    assert!(!head.is_done());
    assert_eq!(head.len(), 0);
    assert_eq!(head.get("Subject"), None);
}

#[test]
fn default_head_is_fresh() {
    let head = EmailHead::default();
    assert!(!head.is_done());
    assert_eq!(head.len(), 0);
}

#[test]
fn push_takes_header_lines_and_the_closing_line() {
    let mut head = EmailHead::new();
    let block = ["Subject: x", "From: a@b", "To: c@d"];
    let mut taken = 0;
    for line in block {
        if head.push(line) {
            taken += 1;
        }
    }
    assert!(!head.is_done());
    if head.push("") {
        taken += 1;
    }
    assert_eq!(taken, block.len() + 1);
    assert!(head.is_done());
    assert_eq!(head.len(), 3);
    assert_eq!(head.get("Subject").map(|v| v.as_str()), Some("x"));
    assert_eq!(head.get("From").map(|v| v.as_str()), Some("a@b"));
    assert_eq!(head.get("To").map(|v| v.as_str()), Some("c@d"));
}

#[test]
fn push_refuses_every_line_after_the_closing_line() {
    let mut head = EmailHead::new();
    assert!(head.push("Subject: x"));
    assert!(head.push(""));
    assert!(!head.push("Late: y"));
    assert!(!head.push(""));
    assert!(!head.push("[LAN access from remote] from 1.2.3.4 to me Mon Jan 1 00:00:00"));
    assert!(head.is_done());
    assert_eq!(head.len(), 1);
    assert_eq!(head.get("Late"), None);
}

#[test]
fn push_closes_on_a_leading_empty_line() {
    let mut head = EmailHead::new();
    assert!(head.push(""));
    assert!(head.is_done());
    assert_eq!(head.len(), 0);
    assert!(!head.push("hello world"));
}

#[test]
fn later_line_overwrites_the_same_key() {
    let mut head = EmailHead::new();
    assert!(head.push("Subject: first"));
    assert!(head.push("Other: o"));
    assert!(head.push("Subject: second"));
    assert_eq!(head.len(), 2);
    assert_eq!(head.get("Subject").map(|v| v.as_str()), Some("second"));
    assert_eq!(head.get("Other").map(|v| v.as_str()), Some("o"));
}

#[test]
fn line_without_delimiter_gives_the_empty_entry() {
    let mut head = EmailHead::new();
    assert!(head.push("no delimiter here"));
    assert_eq!(head.len(), 1);
    assert_eq!(head.get("").map(|v| v.as_str()), Some(""));
    assert_eq!(head.get("no delimiter here"), None);
}

#[test]
fn line_without_delimiter_overwrites_the_empty_key() {
    let mut head = EmailHead::new();
    assert!(head.push(": kept under the empty key"));
    assert_eq!(head.get("").map(|v| v.as_str()), Some("kept under the empty key"));
    assert!(head.push("colon:without space"));
    assert_eq!(head.len(), 1);
    assert_eq!(head.get("").map(|v| v.as_str()), Some(""));
}

#[test]
fn key_ends_at_the_first_delimiter() {
    let mut head = EmailHead::new();
    assert!(head.push("Subject: Re: hello"));
    assert_eq!(head.len(), 1);
    assert_eq!(head.get("Subject").map(|v| v.as_str()), Some("Re: hello"));
    assert_eq!(head.get("Subject: Re"), None);
}

#[test]
fn value_may_be_empty() {
    let mut head = EmailHead::new();
    assert!(head.push("Subject: "));
    assert_eq!(head.get("Subject").map(|v| v.as_str()), Some(""));
}

#[test]
fn push_takes_a_string_by_reference() {
    let mut head = EmailHead::new();
    let line = String::from("Key: Value");
    assert!(head.push(&line));
    assert_eq!(head.get("Key").map(|v| v.as_str()), Some("Value"));
}
