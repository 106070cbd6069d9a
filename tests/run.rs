use anew::lineset::LineSet;
use anew::policy::{should_add_line, Options};
use anew::run::{ingest_line, load_file, rewrite_content, sorted_content};

fn options(quiet_mode: bool, sort: bool, trim: bool, rewrite: bool, dry_run: bool) -> Options {
    Options { quiet_mode, sort, trim, rewrite, dry_run, filepath: String::from("out.txt") }
}

fn strings(xs: &[&str]) -> Vec<String> {
    xs.iter().map(|x| x.to_string()).collect()
}

#[test]
fn line_set_keeps_first_insertion_order() {
    let mut set = LineSet::new();
    assert!(set.insert(String::from("b"), false));
    assert!(set.insert(String::from("a"), false));
    assert!(!set.insert(String::from("b"), false));
    assert!(set.contains("a"));
    assert!(!set.contains("c"));
    assert_eq!(set.lines(), strings(&["b", "a"]));
    let mut trimmed = LineSet::new();
    assert!(trimmed.insert(String::from(" b "), true));
    assert!(!trimmed.insert(String::from("b"), true));
    assert!(trimmed.contains("b"));
    assert!(!trimmed.contains(" b "));
    assert_eq!(trimmed.lines(), strings(&[" b "]));
}

#[test]
fn same_line_twice_is_admitted_once() {
    let args = options(false, false, false, false, false);
    let mut set = LineSet::new();
    let first = ingest_line(&args, &mut set, "a");
    let second = ingest_line(&args, &mut set, "a");
    assert!(first.admitted && first.echo && first.append);
    assert!(!second.admitted && !second.echo && !second.append);
    assert_eq!(set.lines(), strings(&["a"]));
}

#[test]
fn trimmed_duplicate_is_rejected() {
    let args = options(false, false, true, false, false);
    let mut set = LineSet::new();
    set.insert(String::from("foo"), true);
    assert!(!should_add_line(&args, &set, "  foo  "));
    assert!(should_add_line(&args, &set, "  bar  "));
    let mut padded = LineSet::new();
    padded.insert(String::from("  foo  "), true);
    assert!(!should_add_line(&args, &padded, "  foo  "));
    assert!(!should_add_line(&args, &padded, "foo"));
    assert_eq!(padded.lines(), strings(&["  foo  "]));
    let untrimmed = options(false, false, false, false, false);
    let mut raw = LineSet::new();
    raw.insert(String::from("foo"), false);
    assert!(should_add_line(&untrimmed, &raw, "  foo  "));
}

#[test]
fn blank_line_is_never_admitted_when_trimming() {
    let args = options(false, false, true, false, false);
    let empty = LineSet::new();
    assert!(!should_add_line(&args, &empty, "   "));
    assert!(!should_add_line(&args, &empty, "\t \u{3000}"));
    let mut set = LineSet::new();
    set.insert(String::from("a"), true);
    assert!(!should_add_line(&args, &set, "   "));
    let untrimmed = options(false, false, false, false, false);
    assert!(should_add_line(&untrimmed, &empty, "   "));
    assert!(!should_add_line(&untrimmed, &empty, ""));
}

#[test]
fn dry_run_never_writes() {
    let args = options(false, true, false, true, true);
    let mut set = load_file(&args, &strings(&["a", "b", "a"]));
    assert!(rewrite_content(&args, &set).is_none());
    let out = ingest_line(&args, &mut set, "c");
    assert!(out.admitted && out.echo && !out.append);
    assert!(sorted_content(&args, &set).is_none());
    let unsorted = options(false, false, false, false, true);
    let mut set = LineSet::new();
    assert!(!ingest_line(&unsorted, &mut set, "c").append);
}

#[test]
fn rewrite_removes_existing_duplicates() {
    let args = options(false, false, false, true, false);
    let set = load_file(&args, &strings(&["a", "b", "a"]));
    assert_eq!(rewrite_content(&args, &set), Some(strings(&["a", "b"])));
    assert!(sorted_content(&args, &set).is_none());
}

#[test]
fn sort_defers_all_writing() {
    let args = options(false, true, false, false, false);
    let mut set = load_file(&args, &Vec::new());
    assert!(rewrite_content(&args, &set).is_none());
    for line in ["banana", "apple", "apple"] {
        let out = ingest_line(&args, &mut set, line);
        assert!(!out.append);
    }
    assert_eq!(sorted_content(&args, &set), Some(strings(&["apple", "banana"])));
}

#[test]
fn sorted_pass_uses_natural_order() {
    let args = options(true, true, false, false, false);
    let set = load_file(&args, &strings(&["file10", "file2", "file1", "file2"]));
    assert_eq!(sorted_content(&args, &set), Some(strings(&["file1", "file2", "file10"])));
}

#[test]
fn trim_stores_one_raw_line_and_quiet_hides_it() {
    let args = options(true, false, true, false, false);
    let mut set = load_file(&args, &Vec::new());
    let first = ingest_line(&args, &mut set, " x ");
    assert!(first.admitted && !first.echo && first.append);
    let second = ingest_line(&args, &mut set, "x");
    assert!(!second.admitted && !second.echo && !second.append);
    let third = ingest_line(&args, &mut set, " x ");
    assert!(!third.admitted && !third.append);
    assert_eq!(set.lines(), strings(&[" x "]));
}

#[test]
fn stored_first_then_padded_is_rejected() {
    let args = options(true, false, true, false, false);
    let mut set = LineSet::new();
    assert!(ingest_line(&args, &mut set, "x").admitted);
    assert!(!ingest_line(&args, &mut set, " x ").admitted);
    assert_eq!(set.lines(), strings(&["x"]));
}

#[test]
fn load_drops_blank_and_duplicate_lines() {
    let args = options(false, false, true, false, false);
    let set = load_file(&args, &strings(&["a", "", "  ", " a", "b"]));
    assert_eq!(set.lines(), strings(&["a", "b"]));
    let set = load_file(&args, &strings(&["  foo  ", "foo", "   "]));
    assert_eq!(set.lines(), strings(&["  foo  "]));
    let raw = options(false, false, false, false, false);
    let set = load_file(&raw, &strings(&["a", "", "  ", " a", "a"]));
    assert_eq!(set.lines(), strings(&["a", "  ", " a"]));
}
