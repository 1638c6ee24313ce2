use helptags::scan::extract_topics;
use helptags::tagsdb::Entry;
use helptags::tagsearch::min_by_preference;
use helptags::tagsearch::Flavor;
use helptags::tagsearch::TagSearcher;

fn lines(raw: &[&str]) -> Vec<String> {
    raw.iter().map(|s| String::from(*s)).collect()
}

fn searcher(vim: &[&str], neovim: &[&str], custom: Option<&[&str]>) -> TagSearcher {
    let v = lines(vim);
    let n = lines(neovim);
    let c = custom.map(lines);
    match TagSearcher::from_sources(Some(&v), Some(&n), c.as_ref()) {
        Ok(s) => s,
        Err(_) => panic!("construction should succeed"),
    }
}

#[test]
fn missing_vim_source_fails_with_vim() {
    let n = lines(&["x\tf.txt"]);
    match TagSearcher::from_sources(None, Some(&n), None) {
        Err(f) => assert_eq!(f, Flavor::Vim),
        Ok(_) => panic!("construction should fail"),
    }
}

#[test]
fn missing_neovim_source_fails_with_neovim() {
    let v = lines(&["x\tf.txt"]);
    match TagSearcher::from_sources(Some(&v), None, None) {
        Err(f) => assert_eq!(f, Flavor::NeoVim),
        Ok(_) => panic!("construction should fail"),
    }
}

#[test]
fn missing_custom_source_is_no_error() {
    let s = searcher(&["x\tv.txt"], &["x\tn.txt"], None);
    assert_eq!(s.search_by_topic("x").len(), 2);
}

#[test]
fn search_by_topic_yields_fixed_flavor_order() {
    let s = searcher(
        &["x\tvimfile.txt"],
        &["x\tneofile.txt"],
        Some(&["x\thttps://example.invalid/x"]),
    );
    let r = s.search_by_topic("x");
    assert_eq!(r.len(), 3);
    assert_eq!(r[0].1, Flavor::Vim);
    assert_eq!(r[0].0.filename, "vimfile");
    assert_eq!(r[1].1, Flavor::NeoVim);
    assert_eq!(r[1].0.filename, "neofile");
    assert_eq!(r[2].1, Flavor::Custom);
    assert_eq!(r[2].0.filename, "https://example.invalid/x");
}

#[test]
fn preference_picks_preferred_flavor() {
    let s = searcher(&["x\tvimfile.txt"], &["x\tneofile.txt"], None);
    let r = s.search_by_topic("x");
    match min_by_preference(&r, Flavor::NeoVim) {
        Some((e, f)) => {
            assert_eq!(f, Flavor::NeoVim);
            assert_eq!(e.filename, "neofile");
        },
        None => panic!("expected a result"),
    }
}

#[test]
fn preference_falls_back_to_flavor_order() {
    let s = searcher(&["x\tvimfile.txt"], &["other\tneofile.txt"], None);
    let r = s.search_by_topic("x");
    match min_by_preference(&r, Flavor::NeoVim) {
        Some((e, f)) => {
            assert_eq!(f, Flavor::Vim);
            assert_eq!(e.filename, "vimfile");
        },
        None => panic!("expected a result"),
    }
}

#[test]
fn min_by_preference_of_empty_is_none() {
    let r: Vec<(Entry, Flavor)> = Vec::new();
    assert!(min_by_preference(&r, Flavor::Vim).is_none());
}

#[test]
fn text_search_keeps_text_order() {
    let s = searcher(&["foo\tfoofile.txt", "bar\tbarfile.txt"], &["unrelated\tn.txt"], None);
    let r = s.search_by_text(":help foo and :h bar", Flavor::Vim);
    assert_eq!(r.len(), 2);
    assert_eq!(r[0].0.topic, "foo");
    assert_eq!(r[1].0.topic, "bar");
}

#[test]
fn text_search_omits_unresolved_occurrences() {
    let s = searcher(&["foo\tfoofile.txt"], &["foo\tn.txt"], None);
    let r = s.search_by_text(":h nothing and :he foo", Flavor::Vim);
    assert_eq!(r.len(), 1);
    assert_eq!(r[0].0.topic, "foo");
    assert_eq!(r[0].1, Flavor::Vim);
}

#[test]
fn extract_topics_handles_all_abbreviations() {
    let topics = extract_topics(":h a :he b :hel c :help d");
    assert_eq!(topics, vec!["a", "b", "c", "d"]);
}

#[test]
fn extract_topics_rejects_near_misses() {
    assert!(extract_topics(":hep foo").is_empty());
    assert!(extract_topics(":helpx foo").is_empty());
    assert!(extract_topics(":help").is_empty());
    assert!(extract_topics(":help   ").is_empty());
    assert!(extract_topics("help foo").is_empty());
}

#[test]
fn extract_topics_takes_single_token() {
    let topics = extract_topics("see :help  foldmethod for folding");
    assert_eq!(topics, vec!["foldmethod"]);
}

#[test]
fn vim_url_percent_encodes_topic() {
    let e = Entry { topic: String::from("foo-bar"), filename: String::from("options"), weight: 0 };
    assert_eq!(
        Flavor::Vim.format_url(&e),
        "https://vimhelp.org/options.txt.html#foo%2Dbar"
    );
}

#[test]
fn neovim_url_special_cases_index() {
    let e = Entry { topic: String::from("x"), filename: String::from("index"), weight: 0 };
    assert_eq!(Flavor::NeoVim.format_url(&e), "https://neovim.io/doc/user/vimindex.html#x");
    let plain = Entry { topic: String::from("x"), filename: String::from("options"), weight: 0 };
    assert_eq!(Flavor::NeoVim.format_url(&plain), "https://neovim.io/doc/user/options.html#x");
}

#[test]
fn custom_url_is_filename_verbatim() {
    let e = Entry {
        topic: String::from("anything"),
        filename: String::from("https://example.invalid/page#frag"),
        weight: 0,
    };
    assert_eq!(Flavor::Custom.format_url(&e), "https://example.invalid/page#frag");
}

#[test]
fn flavor_names_are_capitalized() {
    assert_eq!(Flavor::Vim.name(), "Vim");
    assert_eq!(Flavor::NeoVim.name(), "NeoVim");
    assert_eq!(Flavor::Custom.name(), "Custom");
}

#[test]
fn url_bases_are_fixed() {
    assert_eq!(Flavor::Vim.url_base(), "https://vimhelp.org");
    assert_eq!(Flavor::NeoVim.url_base(), "https://neovim.io/doc/user");
    assert_eq!(Flavor::Custom.url_base(), "");
}

#[test]
fn vim_url_encodes_non_ascii_topic_bytes() {
    // Each UTF-8 byte that is not an ASCII letter or digit is
    // escaped; "é" is the two bytes C3 A9.
    let e = Entry { topic: String::from("é"), filename: String::from("f"), weight: 0 };
    assert_eq!(Flavor::Vim.format_url(&e), "https://vimhelp.org/f.txt.html#%C3%A9");
}

#[test]
fn extract_topics_token_may_hold_punctuation() {
    // The token after the whitespace run is any non-whitespace text,
    // a further ":h" among it.
    let topics = extract_topics(":h :h a");
    assert_eq!(topics, vec![":h"]);
}

#[test]
fn extract_topics_matches_are_not_overlapping() {
    let topics = extract_topics(":help foo :help foo");
    assert_eq!(topics, vec!["foo", "foo"]);
}

#[test]
fn custom_table_keeps_txt_suffix() {
    let s = searcher(&["x\tv.txt"], &["x\tn.txt"], Some(&["x\tnotes.txt"]));
    let r = s.search_by_topic("x");
    assert_eq!(r[2].0.filename, "notes.txt");
}
