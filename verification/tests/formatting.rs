use helptags::tagsdb::Entry;
use helptags::tagsearch::Flavor;
use helptags::utils::code_inline;
use helptags::utils::format_inline_answer;
use helptags::utils::format_message;

fn entry(topic: &str, filename: &str) -> Entry {
    Entry { topic: String::from(topic), filename: String::from(filename), weight: 0 }
}

#[test]
fn code_inline_escapes_html() {
    assert_eq!(code_inline("a<b&c>d"), "<code>a&lt;b&amp;c&gt;d</code>");
    assert_eq!(code_inline(""), "<code></code>");
    assert_eq!(code_inline("plain"), "<code>plain</code>");
}

#[test]
fn message_without_mention() {
    let links = vec![(entry("fold", "options"), Flavor::Vim)];
    assert_eq!(
        format_message(&links, None),
        "Found help for <code>fold</code> in Vim docs:\n\
         https://vimhelp.org/options.txt.html#fold"
    );
}

#[test]
fn message_with_mention_and_continuation() {
    let links = vec![
        (entry("fold", "options"), Flavor::Vim),
        (entry("fold", "opts"), Flavor::NeoVim),
    ];
    let mention = String::from("<a href=\"tg://user?id=1\">A</a>");
    let text = format_message(&links, Some(&mention));
    let expected = "<a href=\"tg://user?id=1\">A</a> found help for <code>fold</code> in Vim docs:\n\
                    https://vimhelp.org/options.txt.html#fold\n\n\
                    ... and for <code>fold</code> in NeoVim docs:\n\
                    https://neovim.io/doc/user/opts.html#fold";
    assert_eq!(text, expected);
}

#[test]
fn message_of_no_links_is_empty() {
    let links: Vec<(Entry, Flavor)> = Vec::new();
    assert_eq!(format_message(&links, None), "");
}

#[test]
fn inline_answer_names_flavor_and_url() {
    let e = entry("fold", "options");
    assert_eq!(
        format_inline_answer(&e, Flavor::Vim),
        "Help for <code>fold</code> in Vim docs:\n\
         https://vimhelp.org/options.txt.html#fold"
    );
}
