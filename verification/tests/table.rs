use helptags::tagsdb::Entry;
use helptags::tagsdb::TagsDb;
use helptags::tagsdb::Txt;

fn lines(raw: &[&str]) -> Vec<String> {
    raw.iter().map(|s| String::from(*s)).collect()
}

fn entry(r: Option<Entry>) -> Entry {
    match r {
        Some(e) => e,
        None => panic!("expected a match"),
    }
}

#[test]
fn exact_topic_resolves_with_weight_zero() {
    let db = TagsDb::from_lines(&lines(&["foldmethod\toptions.txt"]), Txt::Trim);
    let e = entry(db.find("foldmethod"));
    assert_eq!(e.topic, "foldmethod");
    assert_eq!(e.filename, "options");
    assert_eq!(e.weight, 0);
}

#[test]
fn find_is_idempotent() {
    let db = TagsDb::from_lines(&lines(&["foldmethod\toptions.txt", "zz\tfold.txt"]), Txt::Trim);
    let a = entry(db.find("foldmethod"));
    let b = entry(db.find("foldmethod"));
    assert_eq!(a.topic, b.topic);
    assert_eq!(a.filename, b.filename);
    assert_eq!(a.weight, b.weight);
    assert!(db.find("no-such-topic-at-all").is_none());
    assert!(db.find("no-such-topic-at-all").is_none());
}

#[test]
fn exact_tier_beats_earlier_fuzzy_line() {
    // The first line registers "x" only under fuzzy tiers; the second
    // line's exact "x" still wins, although the first line came first.
    let db = TagsDb::from_lines(&lines(&["-x-\tearly.txt", "x\tlate.txt"]), Txt::Trim);
    let e = entry(db.find("x"));
    assert_eq!(e.topic, "x");
    assert_eq!(e.filename, "late");
    assert_eq!(e.weight, 0);
}

#[test]
fn case_sensitive_exact_match_wins_over_fuzzy() {
    let db = TagsDb::from_lines(&lines(&["FOO\tupper.txt", "foo\tlower.txt"]), Txt::Trim);
    let upper = entry(db.find("FOO"));
    assert_eq!(upper.filename, "upper");
    assert_eq!(upper.weight, 0);
    let low = entry(db.find("foo"));
    assert_eq!(low.filename, "lower");
    assert_eq!(low.weight, 0);
}

#[test]
fn lowercase_tier_resolves_mixed_case_topic() {
    let db = TagsDb::from_lines(&lines(&["FooBar\tf.txt"]), Txt::Trim);
    let e = entry(db.find("FOOBAR"));
    assert_eq!(e.topic, "FooBar");
    assert_eq!(e.filename, "f");
    assert_eq!(e.weight, 2);
}

#[test]
fn stripped_tier_resolves_punctuated_query() {
    let db = TagsDb::from_lines(&lines(&["'wrap'\topts.txt"]), Txt::Trim);
    // The exact key holds the quotes; querying with extra punctuation
    // falls through to the stripped tier.
    let e = entry(db.find("wrap"));
    assert_eq!(e.topic, "'wrap'");
    assert_eq!(e.weight, 1);
}

#[test]
fn empty_stripped_key_still_participates() {
    let db = TagsDb::from_lines(&lines(&["-\tdashes.txt"]), Txt::Trim);
    // Stripping "!" leaves the empty key, which the line registered.
    let e = entry(db.find("!"));
    assert_eq!(e.topic, "-");
    assert_eq!(e.weight, 1);
}

#[test]
fn malformed_line_is_skipped_not_fatal() {
    let db = TagsDb::from_lines(&lines(&["good\tfile.txt", "no tab on this line"]), Txt::Trim);
    assert!(db.find("good").is_some());
    assert!(db.find("no tab on this line").is_none());
}

#[test]
fn only_first_two_fields_are_read() {
    let db = TagsDb::from_lines(&lines(&["topic\tfile.txt\textra\tmore"]), Txt::Trim);
    let e = entry(db.find("topic"));
    assert_eq!(e.filename, "file");
}

#[test]
fn trim_policy_removes_repeated_txt_suffix() {
    let db = TagsDb::from_lines(&lines(&["a\tdoc.txt.txt"]), Txt::Trim);
    assert_eq!(entry(db.find("a")).filename, "doc");
}

#[test]
fn keep_policy_preserves_filename() {
    let db = TagsDb::from_lines(&lines(&["a\tdoc.txt"]), Txt::Keep);
    assert_eq!(entry(db.find("a")).filename, "doc.txt");
}

#[test]
fn weight_ties_go_to_first_inserted() {
    // Both lines register the exact key "dup" with weight 0; the
    // first-inserted entry wins.
    let db = TagsDb::from_lines(&lines(&["dup\tfirst.txt", "dup\tsecond.txt"]), Txt::Trim);
    let e = entry(db.find("dup"));
    assert_eq!(e.filename, "first");
    assert_eq!(e.weight, 0);
}

#[test]
fn find_on_empty_table_is_none() {
    let db = TagsDb::from_lines(&lines(&[]), Txt::Trim);
    assert!(db.find("anything").is_none());
}
