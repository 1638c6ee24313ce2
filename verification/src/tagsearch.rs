//! Documentation flavors and the multi-source resolver: one tag table
//! per flavor, topic lookup merged across flavors in fixed order, a
//! caller-supplied preferred-flavor tie-break, and canonical URL
//! rendering per flavor.

use vstd::prelude::*;
use vstd::string::StringSliceAdditionalSpecFns;
use vstd::utf8::encode_utf8;

use percent_encoding::percent_encode;
use percent_encoding::NON_ALPHANUMERIC;

use crate::scan::extract_topics;
use crate::scan::topics_from;
use crate::tagsdb::table_models;
use crate::tagsdb::Entry;
use crate::tagsdb::EntryModel;
use crate::tagsdb::TagsDb;
use crate::tagsdb::Txt;

verus! {

/// Which documentation source an entry came from.
#[derive(Clone, Copy, Debug, PartialEq, Eq, Structural)]
pub enum Flavor {
    Vim,
    NeoVim,
    Custom,
}

impl DeepView for Flavor {
    type V = Flavor;

    open spec fn deep_view(&self) -> Flavor {
        *self
    }
}

impl Flavor {
    /// The capitalized display name of the flavor.
    pub open spec fn spec_name(self) -> Seq<char> {
        match self {
            Flavor::Vim => "Vim"@,
            Flavor::NeoVim => "NeoVim"@,
            Flavor::Custom => "Custom"@,
        }
    }

    /// The display name: `Vim`, `NeoVim` or `Custom`.
    pub fn name(self) -> (r: &'static str)
        ensures
            r@ == self.spec_name(),
    {
        match self {
            Flavor::Vim => "Vim",
            Flavor::NeoVim => "NeoVim",
            Flavor::Custom => "Custom",
        }
    }

    /// The fixed URL base of the flavor's documentation; empty for
    /// Custom, whose entries carry complete references already.
    pub open spec fn spec_url_base(self) -> Seq<char> {
        match self {
            Flavor::Vim => "https://vimhelp.org"@,
            Flavor::NeoVim => "https://neovim.io/doc/user"@,
            Flavor::Custom => ""@,
        }
    }

    pub fn url_base(self) -> (r: &'static str)
        ensures
            r@ == self.spec_url_base(),
    {
        match self {
            Flavor::Vim => "https://vimhelp.org",
            Flavor::NeoVim => "https://neovim.io/doc/user",
            Flavor::Custom => "",
        }
    }

    /// The canonical URL rendered for entry `e` under this flavor.
    pub open spec fn spec_url(self, e: EntryModel) -> Seq<char> {
        match self {
            Flavor::Vim => self.spec_url_base() + "/"@ + e.filename + ".txt.html#"@
                + percent_encoded(encode_utf8(e.topic)),
            Flavor::NeoVim => {
                let f = if e.filename == "index"@ {
                    "vimindex"@
                } else {
                    e.filename
                };
                self.spec_url_base() + "/"@ + f + ".html#"@ + percent_encoded(
                    encode_utf8(e.topic),
                )
            },
            Flavor::Custom => e.filename,
        }
    }

    /// Renders the canonical documentation URL for `entry`: Vim and
    /// NeoVim pages under their bases with the percent-encoded topic
    /// as fragment (NeoVim's `index` page is special-cased to
    /// `vimindex`), Custom entries verbatim.
    pub fn format_url(self, entry: &Entry) -> (r: String)
        ensures
            r@ == self.spec_url(entry@),
    {
        match self {
            Flavor::Vim => {
                let enc = percent_encode_non_alnum(entry.topic.as_str().as_bytes());
                let url = String::from_str(self.url_base()).concat("/").concat(
                    entry.filename.as_str(),
                ).concat(".txt.html#").concat(enc.as_str());
                proof {
                    assert(url@ =~= self.spec_url(entry@));
                }
                url
            },
            Flavor::NeoVim => {
                let enc = percent_encode_non_alnum(entry.topic.as_str().as_bytes());
                let index = String::from_str("index");
                let filename: &str = if entry.filename == index {
                    "vimindex"
                } else {
                    entry.filename.as_str()
                };
                let url = String::from_str(self.url_base()).concat("/").concat(filename).concat(
                    ".html#",
                ).concat(enc.as_str());
                proof {
                    assert(url@ =~= self.spec_url(entry@));
                }
                url
            },
            Flavor::Custom => entry.filename.clone(),
        }
    }
}

/// Whether byte `b` is an ASCII letter or digit.
pub open spec fn is_ascii_alnum_byte(b: u8) -> bool {
    (48 <= b && b <= 57) || (65 <= b && b <= 90) || (97 <= b && b <= 122)
}

/// The uppercase hexadecimal digit for `n` (below 16).
pub open spec fn hex_digit(n: u8) -> char
    recommends
        n < 16,
{
    if n < 10 {
        ((48 + n) as u8) as char
    } else {
        ((55 + n) as u8) as char
    }
}

/// One byte under the everything-but-alphanumeric encode set: ASCII
/// letters and digits pass through, every other byte becomes `%`
/// followed by two uppercase hex digits.
pub open spec fn encoded_byte(b: u8) -> Seq<char> {
    if is_ascii_alnum_byte(b) {
        seq![b as char]
    } else {
        seq!['%', hex_digit(b / 16), hex_digit(b % 16)]
    }
}

/// The percent-encoding of `bytes`, byte by byte.
pub open spec fn percent_encoded(bytes: Seq<u8>) -> Seq<char>
    decreases bytes.len(),
{
    if bytes.len() == 0 {
        Seq::empty()
    } else {
        encoded_byte(bytes[0]) + percent_encoded(bytes.drop_first())
    }
}

/// Relies on `percent_encoding::percent_encode` with the
/// `NON_ALPHANUMERIC` set: every byte that is not an ASCII letter or
/// digit — non-ASCII bytes among them — is written as `%` and two
/// uppercase hexadecimal digits, and the remaining bytes pass through
/// unchanged.
#[verifier::external_body]
fn percent_encode_non_alnum(bytes: &[u8]) -> (r: String)
    ensures
        r@ == percent_encoded(bytes@),
{
    percent_encode(bytes, NON_ALPHANUMERIC).to_string()
}

/// The multi-source resolver: one tag table for Vim, one for NeoVim,
/// and an optional one for a custom index.  Built once, immutable,
/// shared read-only afterwards.
pub struct TagSearcher {
    vim_db: TagsDb,
    neovim_db: TagsDb,
    custom_db: Option<TagsDb>,
}

impl TagSearcher {
    pub closed spec fn vim(self) -> TagsDb {
        self.vim_db
    }

    pub closed spec fn neovim(self) -> TagsDb {
        self.neovim_db
    }

    pub closed spec fn custom(self) -> Option<TagsDb> {
        self.custom_db
    }

    pub open spec fn wf(self) -> bool {
        &&& self.vim().wf()
        &&& self.neovim().wf()
        &&& (self.custom() matches Some(db) ==> db.wf())
    }

    /// Builds the resolver from the lines of each source's tags file;
    /// `None` stands for a source that could not be read.  A missing
    /// required source fails construction with its flavor — Vim is
    /// checked first — while the custom source is optional: absent or
    /// unreadable, searching simply proceeds without it.
    pub fn from_sources(
        vim: Option<&Vec<String>>,
        neovim: Option<&Vec<String>>,
        custom: Option<&Vec<String>>,
    ) -> (r: Result<TagSearcher, Flavor>)
        ensures
            match r {
                Ok(s) => {
                    &&& (vim matches Some(lv) && table_models(s.vim(), lv.deep_view(), Txt::Trim))
                    &&& (neovim matches Some(ln) && table_models(
                        s.neovim(),
                        ln.deep_view(),
                        Txt::Trim,
                    ))
                    &&& match custom {
                        Some(lc) => s.custom() matches Some(db) && table_models(
                            db,
                            lc.deep_view(),
                            Txt::Keep,
                        ),
                        None => s.custom() is None,
                    }
                },
                Err(f) => (vim is None && f == Flavor::Vim) || (vim is Some && neovim is None && f
                    == Flavor::NeoVim),
            },
    {
        match vim {
            None => Err(Flavor::Vim),
            Some(lv) => match neovim {
                None => Err(Flavor::NeoVim),
                Some(ln) => {
                    let vim_db = TagsDb::from_lines(lv, Txt::Trim);
                    let neovim_db = TagsDb::from_lines(ln, Txt::Trim);
                    let custom_db = match custom {
                        Some(lc) => Some(TagsDb::from_lines(lc, Txt::Keep)),
                        None => None,
                    };
                    Ok(TagSearcher { vim_db, neovim_db, custom_db })
                },
            },
        }
    }

    /// The per-flavor results one topic yields, in the fixed flavor
    /// order Vim, NeoVim, Custom: at most one result per flavor.
    pub open spec fn spec_topic_results(self, topic: Seq<char>) -> Seq<(EntryModel, Flavor)> {
        opt_result(self.vim().spec_find(topic), Flavor::Vim) + opt_result(
            self.neovim().spec_find(topic),
            Flavor::NeoVim,
        ) + (match self.custom() {
            Some(db) => opt_result(db.spec_find(topic), Flavor::Custom),
            None => Seq::empty(),
        })
    }

    /// Queries the Vim table, the NeoVim table, then the Custom table
    /// when present, in that fixed order, yielding one result per
    /// table that has a match, regardless of any caller preference.
    pub fn search_by_topic(&self, topic: &str) -> (r: Vec<(Entry, Flavor)>)
        requires
            self.wf(),
        ensures
            r.deep_view() == self.spec_topic_results(topic@),
    {
        let mut out: Vec<(Entry, Flavor)> = Vec::new();
        if let Some(e) = self.vim_db.find(topic) {
            out.push((e, Flavor::Vim));
        }
        if let Some(e) = self.neovim_db.find(topic) {
            out.push((e, Flavor::NeoVim));
        }
        if let Some(db) = &self.custom_db {
            if let Some(e) = db.find(topic) {
                out.push((e, Flavor::Custom));
            }
        }
        proof {
            assert(out.deep_view() =~= self.spec_topic_results(topic@));
        }
        out
    }

    /// Every result a free-text scan yields: each help invocation's
    /// topic resolved through the preference-aware search, occurrences
    /// that resolve to nothing silently omitted, in left-to-right
    /// order of occurrence in the text.
    pub open spec fn spec_text_results(self, text: Seq<char>, preferred: Flavor) -> Seq<
        (EntryModel, Flavor),
    > {
        resolved_topics(self, topics_from(text, 0), preferred)
    }

    /// Scans `text` for help invocations and resolves each topic with
    /// the preferred-flavor tie-break, keeping the text's left-to-right
    /// order and dropping topics that resolve to nothing.
    pub fn search_by_text(&self, text: &str, preferred_flavor: Flavor) -> (r: Vec<(Entry, Flavor)>)
        requires
            self.wf(),
        ensures
            r.deep_view() == self.spec_text_results(text@, preferred_flavor),
    {
        let topics = extract_topics(text);
        let ghost tdv = topics.deep_view();
        let mut out: Vec<(Entry, Flavor)> = Vec::new();
        proof {
            assert(tdv.take(0) =~= Seq::<Seq<char>>::empty());
        }
        let mut i: usize = 0;
        while i < topics.len()
            invariant
                self.wf(),
                tdv == topics.deep_view(),
                tdv.len() == topics@.len(),
                i <= topics@.len(),
                out.deep_view() == resolved_topics(*self, tdv.take(i as int), preferred_flavor),
            decreases topics@.len() - i,
        {
            let ghost prev = out.deep_view();
            let results = self.search_by_topic(topics[i].as_str());
            match min_by_preference(&results, preferred_flavor) {
                Some(p) => {
                    out.push(p);
                    proof {
                        assert(out.deep_view() =~= prev.push(
                            spec_min_by_preference(
                                self.spec_topic_results(tdv[i as int]),
                                preferred_flavor,
                            ).unwrap(),
                        ));
                    }
                },
                None => {},
            }
            proof {
                assert(tdv.take(i + 1).drop_last() =~= tdv.take(i as int));
                assert(tdv.take(i + 1).last() == tdv[i as int]);
                assert(out.deep_view() == resolved_topics(
                    *self,
                    tdv.take(i + 1),
                    preferred_flavor,
                ));
            }
            i += 1;
        }
        proof {
            assert(tdv.take(topics@.len() as int) =~= tdv);
        }
        out
    }
}

/// A lookup result as a zero- or one-element result sequence.
pub open spec fn opt_result(r: Option<EntryModel>, f: Flavor) -> Seq<(EntryModel, Flavor)> {
    match r {
        Some(e) => seq![(e, f)],
        None => Seq::empty(),
    }
}

/// The winner among an ordered result list under a preferred flavor:
/// the first result of the preferred flavor when one exists, else the
/// first result; nothing only when the list is empty.
pub open spec fn spec_min_by_preference(
    results: Seq<(EntryModel, Flavor)>,
    preferred: Flavor,
) -> Option<(EntryModel, Flavor)>
    decreases results.len(),
{
    if results.len() == 0 {
        None
    } else if results[0].1 == preferred {
        Some(results[0])
    } else {
        match spec_min_by_preference(results.drop_first(), preferred) {
            Some(r) => if r.1 == preferred {
                Some(r)
            } else {
                Some(results[0])
            },
            None => Some(results[0]),
        }
    }
}

/// Among the results of a topic search, selects the one whose flavor
/// equals `preferred`; when none matches the preference, falls back to
/// the first result in flavor order.
pub fn min_by_preference(results: &Vec<(Entry, Flavor)>, preferred: Flavor) -> (r: Option<
    (Entry, Flavor),
>)
    ensures
        match r {
            Some(p) => spec_min_by_preference(results.deep_view(), preferred) == Some(
                (p.0@, p.1),
            ),
            None => results.deep_view().len() == 0,
        },
{
    let ghost dv = results.deep_view();
    let mut i: usize = 0;
    while i < results.len()
        invariant
            dv == results.deep_view(),
            dv.len() == results@.len(),
            i <= results@.len(),
            forall|j: int| 0 <= j < i ==> (#[trigger] dv[j]).1 != preferred,
        decreases results@.len() - i,
    {
        let p = &results[i];
        if p.1 == preferred {
            proof {
                lemma_min_by_pref_found(dv, preferred, i as int);
            }
            let e = &p.0;
            return Some(
                (Entry { topic: e.topic.clone(), filename: e.filename.clone(), weight: e.weight }, p.1),
            );
        }
        i += 1;
    }
    if results.len() == 0 {
        None
    } else {
        proof {
            lemma_min_by_pref_absent(dv, preferred);
        }
        let p = &results[0];
        let e = &p.0;
        Some((Entry { topic: e.topic.clone(), filename: e.filename.clone(), weight: e.weight }, p.1))
    }
}

/// When the first preferred-flavor result stands at `i`, it wins.
proof fn lemma_min_by_pref_found(results: Seq<(EntryModel, Flavor)>, preferred: Flavor, i: int)
    requires
        0 <= i < results.len(),
        results[i].1 == preferred,
        forall|j: int| 0 <= j < i ==> (#[trigger] results[j]).1 != preferred,
    ensures
        spec_min_by_preference(results, preferred) == Some(results[i]),
    decreases i,
{
    if i > 0 {
        let t = results.drop_first();
        assert(t[i - 1] == results[i]);
        assert forall|j: int| 0 <= j < i - 1 implies (#[trigger] t[j]).1 != preferred by {
            assert(t[j] == results[j + 1]);
        }
        lemma_min_by_pref_found(t, preferred, i - 1);
    }
}

/// When no result has the preferred flavor, the first result wins.
proof fn lemma_min_by_pref_absent(results: Seq<(EntryModel, Flavor)>, preferred: Flavor)
    requires
        results.len() > 0,
        forall|j: int| 0 <= j < results.len() ==> (#[trigger] results[j]).1 != preferred,
    ensures
        spec_min_by_preference(results, preferred) == Some(results[0]),
    decreases results.len(),
{
    assert(results[0].1 != preferred);
    if results.len() > 1 {
        let t = results.drop_first();
        assert forall|j: int| 0 <= j < t.len() implies (#[trigger] t[j]).1 != preferred by {
            assert(t[j] == results[j + 1]);
        }
        lemma_min_by_pref_absent(t, preferred);
        assert(t[0] == results[1]);
    }
}

/// The lookup result of flavor `f`'s own table for a topic.
pub open spec fn flavor_result(s: TagSearcher, topic: Seq<char>, f: Flavor) -> Option<EntryModel> {
    match f {
        Flavor::Vim => s.vim().spec_find(topic),
        Flavor::NeoVim => s.neovim().spec_find(topic),
        Flavor::Custom => match s.custom() {
            Some(db) => db.spec_find(topic),
            None => None,
        },
    }
}

/// Preference tie-break: when the preferred flavor's table has a match
/// for the topic, the preference-aware pick is exactly that flavor's
/// result; when the preferred flavor has none, the pick falls back to
/// the first result in the fixed flavor order Vim, NeoVim, Custom, and
/// is absent only when no table matches at all.
pub proof fn lemma_preference_tiebreak(s: TagSearcher, topic: Seq<char>, preferred: Flavor)
    ensures
        ({
            let rs = s.spec_topic_results(topic);
            match flavor_result(s, topic, preferred) {
                Some(e) => spec_min_by_preference(rs, preferred) == Some((e, preferred)),
                None => spec_min_by_preference(rs, preferred) == (if rs.len() > 0 {
                    Some(rs[0])
                } else {
                    None
                }),
            }
        }),
{
    let rs = s.spec_topic_results(topic);
    let vr = s.vim().spec_find(topic);
    let nr = s.neovim().spec_find(topic);
    let cr: Option<EntryModel> = match s.custom() {
        Some(db) => db.spec_find(topic),
        None => None,
    };
    match (vr, nr, cr) {
        (Some(v), Some(n), Some(c)) => {
            assert(rs =~= seq![(v, Flavor::Vim), (n, Flavor::NeoVim), (c, Flavor::Custom)]);
            match preferred {
                Flavor::Vim => lemma_min_by_pref_found(rs, preferred, 0),
                Flavor::NeoVim => lemma_min_by_pref_found(rs, preferred, 1),
                Flavor::Custom => lemma_min_by_pref_found(rs, preferred, 2),
            }
        },
        (Some(v), Some(n), None) => {
            assert(rs =~= seq![(v, Flavor::Vim), (n, Flavor::NeoVim)]);
            match preferred {
                Flavor::Vim => lemma_min_by_pref_found(rs, preferred, 0),
                Flavor::NeoVim => lemma_min_by_pref_found(rs, preferred, 1),
                Flavor::Custom => lemma_min_by_pref_absent(rs, preferred),
            }
        },
        (Some(v), None, Some(c)) => {
            assert(rs =~= seq![(v, Flavor::Vim), (c, Flavor::Custom)]);
            match preferred {
                Flavor::Vim => lemma_min_by_pref_found(rs, preferred, 0),
                Flavor::NeoVim => lemma_min_by_pref_absent(rs, preferred),
                Flavor::Custom => lemma_min_by_pref_found(rs, preferred, 1),
            }
        },
        (Some(v), None, None) => {
            assert(rs =~= seq![(v, Flavor::Vim)]);
            match preferred {
                Flavor::Vim => lemma_min_by_pref_found(rs, preferred, 0),
                Flavor::NeoVim => lemma_min_by_pref_absent(rs, preferred),
                Flavor::Custom => lemma_min_by_pref_absent(rs, preferred),
            }
        },
        (None, Some(n), Some(c)) => {
            assert(rs =~= seq![(n, Flavor::NeoVim), (c, Flavor::Custom)]);
            match preferred {
                Flavor::Vim => lemma_min_by_pref_absent(rs, preferred),
                Flavor::NeoVim => lemma_min_by_pref_found(rs, preferred, 0),
                Flavor::Custom => lemma_min_by_pref_found(rs, preferred, 1),
            }
        },
        (None, Some(n), None) => {
            assert(rs =~= seq![(n, Flavor::NeoVim)]);
            match preferred {
                Flavor::Vim => lemma_min_by_pref_absent(rs, preferred),
                Flavor::NeoVim => lemma_min_by_pref_found(rs, preferred, 0),
                Flavor::Custom => lemma_min_by_pref_absent(rs, preferred),
            }
        },
        (None, None, Some(c)) => {
            assert(rs =~= seq![(c, Flavor::Custom)]);
            match preferred {
                Flavor::Vim => lemma_min_by_pref_absent(rs, preferred),
                Flavor::NeoVim => lemma_min_by_pref_absent(rs, preferred),
                Flavor::Custom => lemma_min_by_pref_found(rs, preferred, 0),
            }
        },
        (None, None, None) => {
            assert(rs =~= Seq::<(EntryModel, Flavor)>::empty());
        },
    }
}

/// How many of the first `i` topics resolve to a result.
pub open spec fn resolved_count(
    s: TagSearcher,
    topics: Seq<Seq<char>>,
    preferred: Flavor,
    i: int,
) -> int
    decreases i,
{
    if i <= 0 {
        0
    } else {
        resolved_count(s, topics, preferred, i - 1) + (
        if spec_min_by_preference(s.spec_topic_results(topics[i - 1]), preferred) is Some {
            1int
        } else {
            0int
        })
    }
}

/// Counting only looks at the first `i` topics.
proof fn lemma_resolved_count_agrees(
    s: TagSearcher,
    a: Seq<Seq<char>>,
    b: Seq<Seq<char>>,
    preferred: Flavor,
    i: int,
)
    requires
        0 <= i,
        forall|j: int| 0 <= j < i ==> a[j] == b[j],
    ensures
        resolved_count(s, a, preferred, i) == resolved_count(s, b, preferred, i),
    decreases i,
{
    if i > 0 {
        lemma_resolved_count_agrees(s, a, b, preferred, i - 1);
    }
}

/// The resolved output of a topic list is as long as its count of
/// resolving topics.
proof fn lemma_resolved_len(s: TagSearcher, topics: Seq<Seq<char>>, preferred: Flavor)
    ensures
        resolved_topics(s, topics, preferred).len() == resolved_count(
            s,
            topics,
            preferred,
            topics.len() as int,
        ),
    decreases topics.len(),
{
    if topics.len() > 0 {
        lemma_resolved_len(s, topics.drop_last(), preferred);
        lemma_resolved_count_agrees(
            s,
            topics.drop_last(),
            topics,
            preferred,
            topics.len() - 1,
        );
    }
}

/// Text-order preservation: a topic that resolves stands in the
/// output exactly after the results of the topics before it — the
/// output keeps the topics' left-to-right order.
pub proof fn lemma_text_order(
    s: TagSearcher,
    topics: Seq<Seq<char>>,
    preferred: Flavor,
    i: int,
)
    requires
        0 <= i < topics.len(),
        spec_min_by_preference(s.spec_topic_results(topics[i]), preferred) is Some,
    ensures
        ({
            let out = resolved_topics(s, topics, preferred);
            let pos = resolved_count(s, topics, preferred, i);
            &&& 0 <= pos < out.len()
            &&& out[pos] == spec_min_by_preference(
                s.spec_topic_results(topics[i]),
                preferred,
            ).unwrap()
        }),
    decreases topics.len(),
{
    let out = resolved_topics(s, topics, preferred);
    let prefix = resolved_topics(s, topics.drop_last(), preferred);
    if i == topics.len() - 1 {
        lemma_resolved_len(s, topics.drop_last(), preferred);
        lemma_resolved_count_agrees(s, topics.drop_last(), topics, preferred, i);
        assert(out[prefix.len() as int] == spec_min_by_preference(
            s.spec_topic_results(topics.last()),
            preferred,
        ).unwrap());
    } else {
        assert(topics.drop_last()[i] == topics[i]);
        lemma_text_order(s, topics.drop_last(), preferred, i);
        lemma_resolved_count_agrees(s, topics.drop_last(), topics, preferred, i);
        let pos = resolved_count(s, topics, preferred, i);
        assert(out[pos] == prefix[pos]);
    }
}

/// The results of resolving a list of topics in order, each through
/// the preference-aware search, unresolved topics dropped.
pub open spec fn resolved_topics(
    s: TagSearcher,
    topics: Seq<Seq<char>>,
    preferred: Flavor,
) -> Seq<(EntryModel, Flavor)>
    decreases topics.len(),
{
    if topics.len() == 0 {
        Seq::empty()
    } else {
        resolved_topics(s, topics.drop_last(), preferred) + (match spec_min_by_preference(
            s.spec_topic_results(topics.last()),
            preferred,
        ) {
            Some(p) => seq![p],
            None => Seq::empty(),
        })
    }
}

} // verus!
