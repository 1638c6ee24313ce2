//! Reply-text formatting for resolved entries: topics rendered as
//! HTML inline code with the few HTML-special characters escaped,
//! one block per result, blocks joined by blank lines.

use vstd::prelude::*;

use crate::chars::push_char;
use crate::tagsdb::Entry;
use crate::tagsdb::EntryModel;
use crate::tagsearch::Flavor;

verus! {

/// One character under HTML escaping: `&`, `<` and `>` become their
/// entity names, everything else stands as it is.
pub open spec fn escaped_char(c: char) -> Seq<char> {
    if c == '&' {
        "&amp;"@
    } else if c == '<' {
        "&lt;"@
    } else if c == '>' {
        "&gt;"@
    } else {
        seq![c]
    }
}

/// `s` with every HTML-special character escaped.
pub open spec fn escaped(s: Seq<char>) -> Seq<char>
    decreases s.len(),
{
    if s.len() == 0 {
        Seq::empty()
    } else {
        escaped(s.drop_last()) + escaped_char(s.last())
    }
}

/// `s` escaped and wrapped as HTML inline code.
pub open spec fn spec_code_inline(s: Seq<char>) -> Seq<char> {
    "<code>"@ + escaped(s) + "</code>"@
}

/// Escapes `s` and wraps it in a `code` element.
pub fn code_inline(s: &str) -> (r: String)
    ensures
        r@ == spec_code_inline(s@),
{
    let n = s.unicode_len();
    let mut out = String::from_str("<code>");
    let mut i: usize = 0;
    while i < n
        invariant
            n == s@.len(),
            i <= n,
            out@ == "<code>"@ + escaped(s@.take(i as int)),
        decreases n - i,
    {
        let ghost prev = out@;
        let c = s.get_char(i);
        if c == '&' {
            out.append("&amp;");
        } else if c == '<' {
            out.append("&lt;");
        } else if c == '>' {
            out.append("&gt;");
        } else {
            push_char(&mut out, c);
        }
        proof {
            assert(out@ =~= prev + escaped_char(s@[i as int]));
            assert(s@.take(i + 1).drop_last() =~= s@.take(i as int));
            assert(s@.take(i + 1).last() == s@[i as int]);
            assert(out@ =~= "<code>"@ + escaped(s@.take(i + 1)));
        }
        i += 1;
    }
    proof {
        assert(s@.take(n as int) =~= s@);
    }
    let r = out.concat("</code>");
    r
}

/// The view of an optional borrowed string.
pub open spec fn opt_view(m: Option<&String>) -> Option<Seq<char>> {
    match m {
        Some(s) => Some(s@),
        None => None,
    }
}

/// One reply block: the first block opens with the mention (when one
/// is given) or `Found help`, later blocks with `... and`; then the
/// topic as inline code, the flavor's name, and the rendered URL.
pub open spec fn spec_message_block(
    index: int,
    mention: Option<Seq<char>>,
    e: EntryModel,
    f: Flavor,
) -> Seq<char> {
    let prefix = if index == 0 {
        match mention {
            Some(m) => m + " found help"@,
            None => "Found help"@,
        }
    } else {
        "... and"@
    };
    prefix + " for "@ + spec_code_inline(e.topic) + " in "@ + f.spec_name() + " docs:\n"@
        + f.spec_url(e)
}

/// The whole reply: one block per result, joined by blank lines.
pub open spec fn spec_message(
    results: Seq<(EntryModel, Flavor)>,
    mention: Option<Seq<char>>,
) -> Seq<char>
    decreases results.len(),
{
    if results.len() == 0 {
        Seq::empty()
    } else if results.len() == 1 {
        spec_message_block(0, mention, results[0].0, results[0].1)
    } else {
        spec_message(results.drop_last(), mention) + "\n\n"@ + spec_message_block(
            results.len() - 1,
            mention,
            results.last().0,
            results.last().1,
        )
    }
}

fn message_block(index: usize, mention: Option<&String>, e: &Entry, f: Flavor) -> (r: String)
    ensures
        r@ == spec_message_block(index as int, opt_view(mention), e@, f),
{
    let prefix: String = if index == 0 {
        match mention {
            Some(m) => String::from_str(m.as_str()).concat(" found help"),
            None => String::from_str("Found help"),
        }
    } else {
        String::from_str("... and")
    };
    let code = code_inline(e.topic.as_str());
    let url = f.format_url(e);
    let r = prefix.concat(" for ").concat(code.as_str()).concat(" in ").concat(f.name()).concat(
        " docs:\n",
    ).concat(url.as_str());
    proof {
        assert(r@ =~= spec_message_block(index as int, opt_view(mention), e@, f));
    }
    r
}

/// Formats the full reply for a list of resolved links, opened by the
/// given already-rendered mention when one is supplied.
pub fn format_message(links: &Vec<(Entry, Flavor)>, mention: Option<&String>) -> (r: String)
    ensures
        r@ == spec_message(links.deep_view(), opt_view(mention)),
{
    let ghost dv = links.deep_view();
    let mut out = String::new();
    let mut i: usize = 0;
    while i < links.len()
        invariant
            dv == links.deep_view(),
            dv.len() == links@.len(),
            i <= links@.len(),
            out@ == spec_message(dv.take(i as int), opt_view(mention)),
        decreases links@.len() - i,
    {
        let ghost prev = out@;
        let p = &links[i];
        let block = message_block(i, mention, &p.0, p.1);
        if i > 0 {
            out.append("\n\n");
        }
        out.append(block.as_str());
        proof {
            assert(dv.take(i + 1).drop_last() =~= dv.take(i as int));
            assert(dv.take(i + 1).last() == dv[i as int]);
            if i == 0 {
                assert(prev =~= Seq::<char>::empty());
                assert(out@ =~= spec_message(dv.take(1), opt_view(mention)));
            } else {
                assert(out@ =~= spec_message(dv.take(i + 1), opt_view(mention)));
            }
        }
        i += 1;
    }
    proof {
        assert(dv.take(links@.len() as int) =~= dv);
    }
    out
}

/// Formats the single-result answer used for inline queries.
pub fn format_inline_answer(entry: &Entry, flavor: Flavor) -> (r: String)
    ensures
        r@ == "Help for "@ + spec_code_inline(entry@.topic) + " in "@ + flavor.spec_name()
            + " docs:\n"@ + flavor.spec_url(entry@),
{
    let code = code_inline(entry.topic.as_str());
    let url = flavor.format_url(entry);
    let r = String::from_str("Help for ").concat(code.as_str()).concat(" in ").concat(
        flavor.name(),
    ).concat(" docs:\n").concat(url.as_str());
    proof {
        assert(r@ =~= "Help for "@ + spec_code_inline(entry@.topic) + " in "@
            + flavor.spec_name() + " docs:\n"@ + flavor.spec_url(entry@));
    }
    r
}

} // verus!
