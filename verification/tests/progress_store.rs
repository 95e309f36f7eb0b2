use integ::progress::{parse_progress, retain_existing, Progress, ProgressEntry};

fn entry(name: &str, path: &str) -> ProgressEntry {
    ProgressEntry { name: String::from(name), path: String::from(path) }
}

#[test]
fn record_and_lookup() {
    let mut p = Progress::new();
    assert_eq!(p.lookup(&String::from("a")), None);
    p.record(String::from("a"), String::from("/out/a.tgz"));
    p.record(String::from("b"), String::from("/out/b.tgz"));
    assert_eq!(p.lookup(&String::from("a")), Some(String::from("/out/a.tgz")));
    assert_eq!(p.lookup(&String::from("b")), Some(String::from("/out/b.tgz")));
    assert_eq!(p.lookup(&String::from("c")), None);
}

#[test]
fn record_replaces_an_existing_entry() {
    let mut p = Progress::new();
    p.record(String::from("a"), String::from("/old.tgz"));
    p.record(String::from("a"), String::from("/new.tgz"));
    assert_eq!(p.entries.len(), 1);
    assert_eq!(p.lookup(&String::from("a")), Some(String::from("/new.tgz")));
}

#[test]
fn render_writes_one_line_per_entry() {
    let mut p = Progress::new();
    p.record(String::from("a"), String::from("/out/a.tgz"));
    p.record(String::from("b"), String::from("/out/b.tgz"));
    assert_eq!(p.render(), "a /out/a.tgz\nb /out/b.tgz\n");
}

#[test]
fn render_of_an_empty_store_is_empty() {
    let p = Progress::new();
    assert_eq!(p.render(), "");
}

#[test]
fn parse_reads_well_formed_lines() {
    let es = parse_progress("a /out/a.tgz\nb /out/b.tgz\n");
    assert_eq!(es.len(), 2);
    assert_eq!(es[0].name, "a");
    assert_eq!(es[0].path, "/out/a.tgz");
    assert_eq!(es[1].name, "b");
    assert_eq!(es[1].path, "/out/b.tgz");
}

#[test]
fn parse_skips_malformed_lines() {
    let es = parse_progress("noseparator\na /out/a.tgz\ntoo many fields\n\n");
    assert_eq!(es.len(), 1);
    assert_eq!(es[0].name, "a");
}

#[test]
fn parse_accepts_a_missing_trailing_newline() {
    let es = parse_progress("a /out/a.tgz");
    assert_eq!(es.len(), 1);
    assert_eq!(es[0].path, "/out/a.tgz");
}

#[test]
fn parse_of_empty_text_is_empty() {
    assert!(parse_progress("").is_empty());
}

#[test]
fn save_then_load_round_trips() {
    let mut p = Progress::new();
    p.record(String::from("a"), String::from("/out/a.tgz"));
    p.record(String::from("b"), String::from("/out/b.tgz"));
    p.record(String::from("c"), String::from("/out/c.tgz"));
    let text = p.render();
    let loaded = Progress::from_entries(parse_progress(&text));
    assert_eq!(loaded.entries.len(), 3);
    for name in ["a", "b", "c"] {
        assert_eq!(loaded.lookup(&String::from(name)), p.lookup(&String::from(name)));
    }
}

#[test]
fn entries_whose_artifact_vanished_are_dropped() {
    let es = vec![entry("a", "/a.tgz"), entry("b", "/b.tgz"), entry("c", "/c.tgz")];
    let present = vec![true, false, true];
    let kept = retain_existing(es, &present);
    assert_eq!(kept.len(), 2);
    assert_eq!(kept[0].name, "a");
    assert_eq!(kept[1].name, "c");
}

#[test]
fn from_entries_lets_a_later_duplicate_win() {
    let es = vec![entry("a", "/old.tgz"), entry("a", "/new.tgz")];
    let p = Progress::from_entries(es);
    assert_eq!(p.entries.len(), 1);
    assert_eq!(p.lookup(&String::from("a")), Some(String::from("/new.tgz")));
}
