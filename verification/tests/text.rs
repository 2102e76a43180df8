use maillog_scan::text::{chars_of, find, join, split, split_once};

fn strings(items: &[&str]) -> Vec<String> {
    items.iter().map(|item| item.to_string()).collect()
}

#[test]
fn chars_of_gives_each_character() {
    assert_eq!(chars_of("a: é"), vec!['a', ':', ' ', 'é']);
    assert_eq!(chars_of(""), Vec::<char>::new());
}

#[test]
fn find_gives_the_leftmost_position() {
    assert_eq!(find("a: b: c", ": "), Some(1));
    assert_eq!(find("abc", ": "), None);
    assert_eq!(find("", ": "), None);
    assert_eq!(find("aaa", "aa"), Some(0));
    assert_eq!(find("abc", "abcd"), None);
    assert_eq!(find("abc", "c"), Some(2));
}

#[test]
fn find_counts_characters_not_bytes() {
    assert_eq!(find("héé: x", ": "), Some(3));
}

#[test]
fn find_of_empty_pattern_is_at_the_start() {
    assert_eq!(find("abc", ""), Some(0));
    assert_eq!(find("", ""), Some(0));
}

#[test]
fn split_once_cuts_at_the_leftmost_separator() {
    assert_eq!(
        split_once("Subject: Re: hello", ": "),
        Some(("Subject".to_string(), "Re: hello".to_string()))
    );
    assert_eq!(split_once(": ", ": "), Some((String::new(), String::new())));
    assert_eq!(split_once("no delimiter", ": "), None);
    assert_eq!(split_once("Key:", ": "), None);
}

#[test]
fn split_gives_the_pieces_between_separators() {
    assert_eq!(split("a b c", " "), strings(&["a", "b", "c"]));
    assert_eq!(split("a  b", " "), strings(&["a", "", "b"]));
    assert_eq!(split(" a ", " "), strings(&["", "a", ""]));
    assert_eq!(split("abc", " "), strings(&["abc"]));
    assert_eq!(split("", " "), strings(&[""]));
}

#[test]
fn split_takes_matches_from_the_left_without_overlap() {
    assert_eq!(split("aaa", "aa"), strings(&["", "a"]));
    assert_eq!(split("aaaa", "aa"), strings(&["", "", ""]));
}

#[test]
fn split_agrees_with_std_on_non_empty_separators() {
    let samples = [
        "",
        "] ",
        "[LAN access from remote] from 1.2.3.4:5 to me Mon Jan 1 00:00:00",
        "a] b] c",
        "]] ] ]",
        "héllo] wörld",
    ];
    for sample in samples {
        for separator in ["] ", " ", ":", "]"] {
            let expected: Vec<String> = sample.split(separator).map(|p| p.to_string()).collect();
            assert_eq!(split(sample, separator), expected);
        }
    }
}

#[test]
fn split_on_empty_separator_gives_the_whole() {
    assert_eq!(split("abc", ""), strings(&["abc"]));
}

#[test]
fn join_puts_the_separator_between_neighbours() {
    assert_eq!(join(&strings(&["a", "b", "c"]), "|"), "a|b|c");
    assert_eq!(join(&strings(&["a"]), "|"), "a");
    assert_eq!(join(&strings(&[]), "|"), "");
    assert_eq!(join(&strings(&["", ""]), "] "), "] ");
}

#[test]
fn join_undoes_split() {
    for sample in ["", "x", "a] b] c", "] ] ", "]] ]", "tail] "] {
        assert_eq!(join(&split(sample, "] "), "] "), sample);
    }
}
