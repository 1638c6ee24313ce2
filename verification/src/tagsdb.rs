//! The tag table: an immutable, in-memory lookup structure built from
//! the lines of a tab-separated tags file.  Each well-formed line
//! registers its entry under four progressively fuzzier normalizations
//! of its topic, and lookup tries those tiers in order of literalness.

use vstd::prelude::*;

use crate::chars::lower;
use crate::chars::lower_str;
use crate::chars::strip;
use crate::chars::trim_topic;

verus! {

/// One documentation anchor: the topic exactly as the source index
/// spells it, the document it lives in, and the weight of the
/// normalization tier it was registered under (lower is more literal).
#[derive(Clone, Debug)]
pub struct Entry {
    pub topic: String,
    pub filename: String,
    pub weight: u8,
}

/// The mathematical content of an [`Entry`].
#[verifier::ext_equal]
pub ghost struct EntryModel {
    pub topic: Seq<char>,
    pub filename: Seq<char>,
    pub weight: u8,
}

impl View for Entry {
    type V = EntryModel;

    open spec fn view(&self) -> EntryModel {
        EntryModel { topic: self.topic@, filename: self.filename@, weight: self.weight }
    }
}

impl DeepView for Entry {
    type V = EntryModel;

    open spec fn deep_view(&self) -> EntryModel {
        self.view()
    }
}

/// Whether a table trims trailing `.txt` extensions from filenames
/// while it is built; fixed per table at construction.
#[derive(Debug, Clone, Copy, PartialEq, Eq, Structural)]
pub enum Txt {
    Trim,
    Keep,
}

/// A mapping from normalized lookup keys to the non-empty, ordered
/// collection of candidate entries registered under each key.
#[derive(Clone, Debug, Default)]
pub struct TagsDb {
    keys: Vec<String>,
    buckets: Vec<Vec<Entry>>,
}

impl TagsDb {
    /// The table's invariant: one bucket per key, keys distinct, and
    /// every key holds at least one entry.
    pub closed spec fn wf(self) -> bool {
        &&& self.keys.len() == self.buckets.len()
        &&& forall|i: int, j: int|
            0 <= i < j < self.keys.len() ==> self.keys[i]@ != self.keys[j]@
        &&& forall|i: int| 0 <= i < self.buckets.len() ==> self.buckets[i]@.len() > 0
    }

    /// Whether any entry is registered under key `k`.
    pub closed spec fn contains(self, k: Seq<char>) -> bool {
        exists|i: int| 0 <= i < self.keys.len() && self.keys[i]@ == k
    }

    /// The entries registered under key `k`, in insertion order.
    pub closed spec fn bucket(self, k: Seq<char>) -> Seq<EntryModel> {
        let i = choose|i: int| 0 <= i < self.keys.len() && self.keys[i]@ == k;
        self.buckets[i].deep_view()
    }
}

proof fn lemma_bucket_at(db: TagsDb, k: Seq<char>, i: int)
    requires
        db.wf(),
        0 <= i < db.keys@.len(),
        db.keys@[i]@ == k,
    ensures
        db.contains(k),
        db.bucket(k) == db.buckets@[i].deep_view(),
{
    let j = choose|j: int| 0 <= j < db.keys@.len() && db.keys@[j]@ == k;
    if i != j {
        assert(db.keys@[i]@ != db.keys@[j]@);
    }
}

/// The best candidate of a non-empty bucket: the smallest weight wins,
/// and the first-inserted entry wins among equal weights.
pub open spec fn best_of(opts: Seq<EntryModel>) -> EntryModel
    recommends
        opts.len() > 0,
    decreases opts.len(),
{
    if opts.len() <= 1 {
        opts[0]
    } else {
        let prev = best_of(opts.drop_last());
        if opts.last().weight < prev.weight {
            opts.last()
        } else {
            prev
        }
    }
}

/// Selects the entry with the smallest weight; ties among equal
/// weights go to the first-inserted entry.
fn best_match(opts: &Vec<Entry>) -> (r: Option<Entry>)
    ensures
        opts@.len() == 0 ==> r is None,
        opts@.len() > 0 ==> (r matches Some(e) && e@ == best_of(opts.deep_view())),
{
    if opts.len() == 0 {
        None
    } else {
        let mut bi: usize = 0;
        let mut j: usize = 1;
        while j < opts.len()
            invariant
                0 <= bi < j <= opts@.len(),
                0 < opts@.len(),
                opts.deep_view()[bi as int] == best_of(opts.deep_view().take(j as int)),
            decreases opts@.len() - j,
        {
            proof {
                assert(opts.deep_view().take(j + 1).drop_last() =~= opts.deep_view().take(
                    j as int,
                ));
            }
            if opts[j].weight < opts[bi].weight {
                bi = j;
            }
            j += 1;
        }
        proof {
            assert(opts.deep_view().take(opts@.len() as int) =~= opts.deep_view());
        }
        let e = &opts[bi];
        Some(Entry { topic: e.topic.clone(), filename: e.filename.clone(), weight: e.weight })
    }
}

/// The index of the first occurrence of `c` in `s`, or `s.len()` when
/// `c` does not occur.
pub open spec fn first_at(s: Seq<char>, c: char) -> int
    decreases s.len(),
{
    if s.len() == 0 {
        0
    } else if s[0] == c {
        0
    } else {
        1 + first_at(s.drop_first(), c)
    }
}

proof fn lemma_first_at(s: Seq<char>, c: char, b: int)
    requires
        0 <= b <= s.len(),
        forall|j: int| 0 <= j < b ==> s[j] != c,
        b == s.len() || s[b] == c,
    ensures
        first_at(s, c) == b,
    decreases b,
{
    if b > 0 {
        let t = s.drop_first();
        assert forall|j: int| 0 <= j < b - 1 implies t[j] != c by {
            assert(t[j] == s[j + 1]);
        }
        if b < s.len() {
            assert(t[b - 1] == s[b]);
        }
        lemma_first_at(t, c, b - 1);
    }
}

/// A tags line is well-formed when it has at least two tab-separated
/// fields, i.e. when it contains a tab at all.
pub open spec fn line_well_formed(line: Seq<char>) -> bool {
    first_at(line, '\t') < line.len()
}

/// The first tab-separated field of a line: the topic.
pub open spec fn topic_of(line: Seq<char>) -> Seq<char>
    recommends
        line_well_formed(line),
{
    line.subrange(0, first_at(line, '\t'))
}

/// The second tab-separated field of a line: the filename, before any
/// extension trimming.  Fields past the second are ignored.
pub open spec fn raw_filename_of(line: Seq<char>) -> Seq<char>
    recommends
        line_well_formed(line),
{
    let rest = line.subrange(first_at(line, '\t') + 1, line.len() as int);
    rest.subrange(0, first_at(rest, '\t'))
}

/// Whether `s` ends in the four characters `.txt`.
pub open spec fn has_txt_suffix(s: Seq<char>) -> bool {
    &&& s.len() >= 4
    &&& s[s.len() - 4] == '.'
    &&& s[s.len() - 3] == 't'
    &&& s[s.len() - 2] == 'x'
    &&& s[s.len() - 1] == 't'
}

/// `s` with every trailing `.txt` suffix removed, repeatedly.
pub open spec fn trim_txt_suffix(s: Seq<char>) -> Seq<char>
    decreases s.len(),
{
    if has_txt_suffix(s) {
        trim_txt_suffix(s.subrange(0, s.len() - 4))
    } else {
        s
    }
}

/// The filename a table stores for a line, after the table's trim
/// policy is applied.
pub open spec fn stored_filename(line: Seq<char>, trim: Txt) -> Seq<char>
    recommends
        line_well_formed(line),
{
    if trim == Txt::Trim {
        trim_txt_suffix(raw_filename_of(line))
    } else {
        raw_filename_of(line)
    }
}

/// The lookup key of normalization tier `w` for a topic: the exact
/// topic, then stripped, then lowercased, then stripped-and-lowercased.
pub open spec fn tier_key(topic: Seq<char>, w: int) -> Seq<char>
    recommends
        0 <= w < 4,
{
    if w == 0 {
        topic
    } else if w == 1 {
        strip(topic)
    } else if w == 2 {
        lower(topic)
    } else {
        strip(lower(topic))
    }
}

/// The (key, entry) registrations one line contributes to a table:
/// none for a malformed line, otherwise one per normalization tier.
pub open spec fn line_regs(line: Seq<char>, trim: Txt) -> Seq<(Seq<char>, EntryModel)> {
    if line_well_formed(line) {
        let t = topic_of(line);
        let f = stored_filename(line, trim);
        seq![
            (tier_key(t, 0), EntryModel { topic: t, filename: f, weight: 0u8 }),
            (tier_key(t, 1), EntryModel { topic: t, filename: f, weight: 1u8 }),
            (tier_key(t, 2), EntryModel { topic: t, filename: f, weight: 2u8 }),
            (tier_key(t, 3), EntryModel { topic: t, filename: f, weight: 3u8 }),
        ]
    } else {
        Seq::empty()
    }
}

/// All registrations of a sequence of lines, in file order.
pub open spec fn registrations(lines: Seq<Seq<char>>, trim: Txt) -> Seq<(Seq<char>, EntryModel)>
    decreases lines.len(),
{
    if lines.len() == 0 {
        Seq::empty()
    } else {
        registrations(lines.drop_last(), trim) + line_regs(lines.last(), trim)
    }
}

/// The entries registered under key `k`, in registration order.
pub open spec fn entries_for(regs: Seq<(Seq<char>, EntryModel)>, k: Seq<char>) -> Seq<EntryModel>
    decreases regs.len(),
{
    if regs.len() == 0 {
        Seq::empty()
    } else {
        let prev = entries_for(regs.drop_last(), k);
        if regs.last().0 == k {
            prev.push(regs.last().1)
        } else {
            prev
        }
    }
}

proof fn lemma_entries_for_push(
    regs: Seq<(Seq<char>, EntryModel)>,
    x: (Seq<char>, EntryModel),
    k: Seq<char>,
)
    ensures
        entries_for(regs.push(x), k) == if x.0 == k {
            entries_for(regs, k).push(x.1)
        } else {
            entries_for(regs, k)
        },
{
    assert(regs.push(x).drop_last() =~= regs);
    assert(regs.push(x).last() == x);
}

/// Registers one entry under one key, preserving the table invariant:
/// the entry joins the key's bucket, every other bucket is unchanged.
fn add_entry(db: &mut TagsDb, key: &str, topic: &str, filename: &str, weight: u8)
    requires
        old(db).wf(),
    ensures
        final(db).wf(),
        forall|k: Seq<char>| final(db).contains(k) <==> (old(db).contains(k) || k == key@),
        forall|k: Seq<char>|
            k != key@ && old(db).contains(k) ==> final(db).bucket(k) == old(db).bucket(k),
        final(db).bucket(key@) == (if old(db).contains(key@) {
            old(db).bucket(key@)
        } else {
            Seq::<EntryModel>::empty()
        }).push(EntryModel { topic: topic@, filename: filename@, weight }),
{
    let entry = Entry { topic: topic.to_owned(), filename: filename.to_owned(), weight };
    let key_s: String = key.to_owned();
    match find_key_index(&db.keys, &key_s) {
        Some(i) => {
            proof {
                lemma_bucket_at(*old(db), key@, i as int);
            }
            db.buckets[i].push(entry);
            proof {
                assert(db.buckets@[i as int].deep_view() =~= old(db).buckets@[i as int].deep_view()
                    .push(entry@));
                lemma_bucket_at(*db, key@, i as int);
                assert(db.keys == old(db).keys);
                assert forall|k: Seq<char>| db.contains(k) <==> (old(db).contains(k) || k
                    == key@) by {
                    if db.contains(k) {
                        let j = choose|j: int| 0 <= j < db.keys.len() && db.keys[j]@ == k;
                        assert(old(db).keys[j]@ == k);
                        assert(old(db).contains(k));
                    }
                    if old(db).contains(k) {
                        let j = choose|j: int|
                            0 <= j < old(db).keys.len() && old(db).keys[j]@ == k;
                        assert(db.keys[j]@ == k);
                        assert(db.contains(k));
                    }
                    if k == key@ {
                        assert(db.keys[i as int]@ == k);
                        assert(db.contains(k));
                    }
                }
                assert forall|k: Seq<char>| k != key@ && old(db).contains(k) implies db.bucket(k)
                    == old(db).bucket(k) by {
                    let j = choose|j: int|
                        0 <= j < old(db).keys@.len() && old(db).keys@[j]@ == k;
                    lemma_bucket_at(*old(db), k, j);
                    lemma_bucket_at(*db, k, j);
                    assert(db.buckets@[j].deep_view() =~= old(db).buckets@[j].deep_view());
                }
            }
        },
        None => {
            let n = db.keys.len();
            db.keys.push(key_s);
            let mut b: Vec<Entry> = Vec::new();
            b.push(entry);
            db.buckets.push(b);
            proof {
                assert(db.keys[n as int]@ == key@);
                lemma_bucket_at(*db, key@, n as int);
                assert(db.buckets@[n as int].deep_view() =~= Seq::<EntryModel>::empty().push(
                    entry@,
                ));
                assert forall|k: Seq<char>| k != key@ && old(db).contains(k) implies db.bucket(k)
                    == old(db).bucket(k) by {
                    let j = choose|j: int|
                        0 <= j < old(db).keys.len() && old(db).keys[j]@ == k;
                    lemma_bucket_at(*old(db), k, j);
                    assert(db.keys[j]@ == k);
                    lemma_bucket_at(*db, k, j);
                    assert(db.buckets@[j].deep_view() =~= old(db).buckets@[j].deep_view());
                }
                assert forall|k: Seq<char>| db.contains(k) <==> (old(db).contains(k) || k
                    == key@) by {
                    if db.contains(k) {
                        let j = choose|j: int| 0 <= j < db.keys.len() && db.keys[j]@ == k;
                        if j < old(db).keys.len() {
                            assert(old(db).keys[j]@ == k);
                            assert(old(db).contains(k));
                        } else {
                            assert(k == key@);
                        }
                    }
                    if old(db).contains(k) {
                        let j = choose|j: int|
                            0 <= j < old(db).keys.len() && old(db).keys[j]@ == k;
                        assert(db.keys[j]@ == k);
                        assert(db.contains(k));
                    }
                    if k == key@ {
                        assert(db.contains(k));
                    }
                }
            }
        },
    }
}

impl TagsDb {
    /// The result a lookup must produce: the four normalization tiers
    /// tried in order of literalness, and the best candidate of the
    /// first tier with any registered entry.
    pub open spec fn spec_find(self, topic: Seq<char>) -> Option<EntryModel> {
        if self.contains(topic) {
            Some(best_of(self.bucket(topic)))
        } else if self.contains(strip(topic)) {
            Some(best_of(self.bucket(strip(topic))))
        } else if self.contains(lower(topic)) {
            Some(best_of(self.bucket(lower(topic))))
        } else if self.contains(strip(lower(topic))) {
            Some(best_of(self.bucket(strip(lower(topic)))))
        } else {
            None
        }
    }

    /// Looks `topic` up through the four tiers: exact first, then
    /// punctuation-stripped, then lowercased, then stripped and
    /// lowercased.  Within the winning tier the smallest weight wins
    /// and ties go to the first-inserted candidate.  The result is a
    /// function of the table and the topic alone, so repeated calls
    /// return equal results.
    pub fn find(&self, topic: &str) -> (r: Option<Entry>)
        requires
            self.wf(),
        ensures
            match r {
                Some(e) => self.spec_find(topic@) == Some(e@),
                None => self.spec_find(topic@) is None,
            },
    {
        let k0: String = topic.to_owned();
        match find_key_index(&self.keys, &k0) {
            Some(i) => {
                proof {
                    lemma_bucket_at(*self, topic@, i as int);
                }
                best_match(&self.buckets[i])
            },
            None => {
                proof {
                    lemma_not_contains(*self, topic@);
                }
                let k1: String = trim_topic(topic).to_owned();
                match find_key_index(&self.keys, &k1) {
                    Some(i) => {
                        proof {
                            lemma_bucket_at(*self, strip(topic@), i as int);
                        }
                        best_match(&self.buckets[i])
                    },
                    None => {
                        proof {
                            lemma_not_contains(*self, strip(topic@));
                        }
                        let k2: String = lower_str(topic);
                        match find_key_index(&self.keys, &k2) {
                            Some(i) => {
                                proof {
                                    lemma_bucket_at(*self, lower(topic@), i as int);
                                }
                                best_match(&self.buckets[i])
                            },
                            None => {
                                proof {
                                    lemma_not_contains(*self, lower(topic@));
                                }
                                let k3: String = trim_topic(k2.as_str()).to_owned();
                                match find_key_index(&self.keys, &k3) {
                                    Some(i) => {
                                        proof {
                                            lemma_bucket_at(*self, strip(lower(topic@)), i as int);
                                        }
                                        best_match(&self.buckets[i])
                                    },
                                    None => {
                                        proof {
                                            lemma_not_contains(*self, strip(lower(topic@)));
                                        }
                                        None
                                    },
                                }
                            },
                        }
                    },
                }
            },
        }
    }
}

/// A key that matches no stored key is not contained.
proof fn lemma_not_contains(db: TagsDb, k: Seq<char>)
    requires
        forall|i: int| 0 <= i < db.keys@.len() ==> db.keys@[i]@ != k,
    ensures
        !db.contains(k),
{
    if db.contains(k) {
        let j = choose|j: int| 0 <= j < db.keys.len() && db.keys[j]@ == k;
        assert(db.keys@[j]@ != k);
    }
}

/// The index of the first occurrence of `c` in `s` at or after `from`,
/// or the length of `s` when there is none.
fn find_char(s: &str, from: usize, c: char) -> (r: usize)
    requires
        from <= s@.len(),
    ensures
        from <= r <= s@.len(),
        forall|j: int| from <= j < r ==> s@[j] != c,
        r < s@.len() ==> s@[r as int] == c,
{
    let n = s.unicode_len();
    let mut i: usize = from;
    while i < n && s.get_char(i) != c
        invariant
            n == s@.len(),
            from <= i <= n,
            forall|j: int| from <= j < i ==> s@[j] != c,
        decreases n - i,
    {
        i += 1;
    }
    i
}

fn has_txt_suffix_exec(s: &str) -> (r: bool)
    ensures
        r == has_txt_suffix(s@),
{
    let n = s.unicode_len();
    if n < 4 {
        false
    } else {
        s.get_char(n - 4) == '.' && s.get_char(n - 3) == 't' && s.get_char(n - 2) == 'x'
            && s.get_char(n - 1) == 't'
    }
}

/// Removes every trailing `.txt` suffix, repeatedly, as the trim
/// policy asks.
fn strip_txt_suffix(s: &str) -> (r: String)
    ensures
        r@ == trim_txt_suffix(s@),
{
    let mut cur: String = s.to_owned();
    while has_txt_suffix_exec(cur.as_str())
        invariant
            trim_txt_suffix(s@) == trim_txt_suffix(cur@),
        decreases cur@.len(),
    {
        let n = cur.as_str().unicode_len();
        let shorter: String = cur.as_str().substring_char(0, n - 4).to_owned();
        cur = shorter;
    }
    cur
}

proof fn lemma_add_step(
    pre: TagsDb,
    post: TagsDb,
    regs: Seq<(Seq<char>, EntryModel)>,
    key: Seq<char>,
    em: EntryModel,
)
    requires
        forall|k: Seq<char>| #[trigger] pre.contains(k) <==> entries_for(regs, k).len() > 0,
        forall|k: Seq<char>| pre.contains(k) ==> #[trigger] pre.bucket(k) == entries_for(regs, k),
        forall|k: Seq<char>| #[trigger] post.contains(k) <==> (pre.contains(k) || k == key),
        forall|k: Seq<char>|
            k != key && pre.contains(k) ==> #[trigger] post.bucket(k) == pre.bucket(k),
        post.bucket(key) == (if pre.contains(key) {
            pre.bucket(key)
        } else {
            Seq::<EntryModel>::empty()
        }).push(em),
    ensures
        forall|k: Seq<char>| #[trigger] post.contains(k) <==> entries_for(
            regs.push((key, em)),
            k,
        ).len() > 0,
        forall|k: Seq<char>|
            post.contains(k) ==> #[trigger] post.bucket(k) == entries_for(
                regs.push((key, em)),
                k,
            ),
{
    assert forall|k: Seq<char>| #[trigger] post.contains(k) <==> entries_for(
        regs.push((key, em)),
        k,
    ).len() > 0 by {
        lemma_entries_for_push(regs, (key, em), k);
    }
    assert forall|k: Seq<char>| post.contains(k) implies #[trigger] post.bucket(k) == entries_for(
        regs.push((key, em)),
        k,
    ) by {
        lemma_entries_for_push(regs, (key, em), k);
        if k == key {
            if !pre.contains(key) {
                assert(entries_for(regs, key).len() == 0);
                assert(entries_for(regs, key) =~= Seq::<EntryModel>::empty());
            }
        }
    }
}

/// Whether table `db` holds exactly what `lines` register: a key is
/// present exactly when some line registers it, and its bucket is the
/// registered entries in file order.
pub open spec fn table_models(db: TagsDb, lines: Seq<Seq<char>>, trim: Txt) -> bool {
    &&& db.wf()
    &&& forall|k: Seq<char>| #[trigger] db.contains(k) <==> entries_for(
        registrations(lines, trim),
        k,
    ).len() > 0
    &&& forall|k: Seq<char>|
        db.contains(k) ==> #[trigger] db.bucket(k) == entries_for(registrations(lines, trim), k)
}

impl TagsDb {
    /// Builds a table from the lines of a tags file.  Construction is
    /// total: each well-formed line `topic<TAB>filename...` registers
    /// its entry under all four normalization tiers of its topic, and
    /// a malformed line (no tab) registers nothing.
    pub fn from_lines(lines: &Vec<String>, trim_txt: Txt) -> (r: TagsDb)
        ensures
            table_models(r, lines.deep_view(), trim_txt),
    {
        let ghost ldv = lines.deep_view();
        let mut db = TagsDb { keys: Vec::new(), buckets: Vec::new() };
        proof {
            assert(ldv.take(0) =~= Seq::<Seq<char>>::empty());
        }
        let mut li: usize = 0;
        while li < lines.len()
            invariant
                db.wf(),
                ldv == lines.deep_view(),
                ldv.len() == lines@.len(),
                li <= lines@.len(),
                forall|k: Seq<char>| #[trigger] db.contains(k) <==> entries_for(
                    registrations(ldv.take(li as int), trim_txt),
                    k,
                ).len() > 0,
                forall|k: Seq<char>|
                    db.contains(k) ==> #[trigger] db.bucket(k) == entries_for(
                        registrations(ldv.take(li as int), trim_txt),
                        k,
                    ),
            decreases lines@.len() - li,
        {
            let line: &String = &lines[li];
            proof {
                assert(ldv[li as int] == line@);
            }
            let ghost regs0 = registrations(ldv.take(li as int), trim_txt);
            let n = line.as_str().unicode_len();
            let t1 = find_char(line.as_str(), 0, '\t');
            if t1 < n {
                proof {
                    lemma_first_at(line@, '\t', t1 as int);
                }
                let topic: &str = line.as_str().substring_char(0, t1);
                let t2 = find_char(line.as_str(), t1 + 1, '\t');
                let fname_raw: &str = line.as_str().substring_char(t1 + 1, t2);
                proof {
                    assert(topic@ == topic_of(line@));
                    let rest = line@.subrange(t1 as int + 1, line@.len() as int);
                    assert forall|j: int| 0 <= j < t2 - t1 - 1 implies rest[j] != '\t' by {
                        assert(rest[j] == line@[t1 + 1 + j]);
                    }
                    if t2 < n {
                        assert(rest[t2 - t1 - 1] == line@[t2 as int]);
                    }
                    lemma_first_at(rest, '\t', t2 - t1 - 1);
                    assert(fname_raw@ =~= raw_filename_of(line@));
                }
                let filename: String = if trim_txt == Txt::Trim {
                    strip_txt_suffix(fname_raw)
                } else {
                    fname_raw.to_owned()
                };
                proof {
                    assert(filename@ == stored_filename(line@, trim_txt));
                }
                let topic_lc: String = lower_str(topic);
                let key1: &str = trim_topic(topic);
                let key3: &str = trim_topic(topic_lc.as_str());
                let ghost t = topic@;
                let ghost f = filename@;
                let ghost em0 = EntryModel { topic: t, filename: f, weight: 0u8 };
                let ghost em1 = EntryModel { topic: t, filename: f, weight: 1u8 };
                let ghost em2 = EntryModel { topic: t, filename: f, weight: 2u8 };
                let ghost em3 = EntryModel { topic: t, filename: f, weight: 3u8 };
                let ghost db0 = db;
                add_entry(&mut db, topic, topic, filename.as_str(), 0);
                proof {
                    lemma_add_step(db0, db, regs0, tier_key(t, 0), em0);
                }
                let ghost db1 = db;
                let ghost regs1 = regs0.push((tier_key(t, 0), em0));
                add_entry(&mut db, key1, topic, filename.as_str(), 1);
                proof {
                    assert(key1@ == tier_key(t, 1));
                    lemma_add_step(db1, db, regs1, tier_key(t, 1), em1);
                }
                let ghost db2 = db;
                let ghost regs2 = regs1.push((tier_key(t, 1), em1));
                add_entry(&mut db, topic_lc.as_str(), topic, filename.as_str(), 2);
                proof {
                    assert(topic_lc@ == tier_key(t, 2));
                    lemma_add_step(db2, db, regs2, tier_key(t, 2), em2);
                }
                let ghost db3 = db;
                let ghost regs3 = regs2.push((tier_key(t, 2), em2));
                add_entry(&mut db, key3, topic, filename.as_str(), 3);
                proof {
                    assert(key3@ == tier_key(t, 3));
                    lemma_add_step(db3, db, regs3, tier_key(t, 3), em3);
                }
                proof {
                    let lr = line_regs(line@, trim_txt);
                    assert(lr =~= seq![
                        (tier_key(t, 0), em0),
                        (tier_key(t, 1), em1),
                        (tier_key(t, 2), em2),
                        (tier_key(t, 3), em3),
                    ]);
                    assert(regs0 + lr =~= regs3.push((tier_key(t, 3), em3)));
                    assert(ldv.take(li as int + 1).drop_last() =~= ldv.take(li as int));
                    assert(ldv.take(li as int + 1).last() == line@);
                    assert(registrations(ldv.take(li as int + 1), trim_txt) == regs0 + lr);
                }
            } else {
                proof {
                    lemma_first_at(line@, '\t', n as int);
                    assert(!line_well_formed(line@));
                    assert(ldv.take(li as int + 1).drop_last() =~= ldv.take(li as int));
                    assert(ldv.take(li as int + 1).last() == line@);
                    assert(registrations(ldv.take(li as int + 1), trim_txt) == regs0 + line_regs(
                        line@,
                        trim_txt,
                    ));
                    assert(regs0 + line_regs(line@, trim_txt) =~= regs0);
                }
            }
            li += 1;
        }
        proof {
            assert(ldv.take(lines@.len() as int) =~= ldv);
        }
        db
    }
}

/// The index of `key` among the table's keys, if it is registered.
fn find_key_index(keys: &Vec<String>, key: &String) -> (r: Option<usize>)
    ensures
        match r {
            Some(i) => i < keys@.len() && keys@[i as int]@ == key@,
            None => forall|i: int| 0 <= i < keys@.len() ==> keys@[i]@ != key@,
        },
{
    let mut i: usize = 0;
    while i < keys.len()
        invariant
            i <= keys@.len(),
            forall|j: int| 0 <= j < i ==> keys@[j]@ != key@,
        decreases keys@.len() - i,
    {
        if keys[i] == *key {
            return Some(i);
        }
        i += 1;
    }
    None
}

/// The chosen candidate is a member of the bucket and has minimal
/// weight in it.
proof fn lemma_best_of_min(b: Seq<EntryModel>)
    requires
        b.len() >= 1,
    ensures
        exists|x: int| 0 <= x < b.len() && best_of(b) == b[x],
        forall|x: int| 0 <= x < b.len() ==> best_of(b).weight <= #[trigger] b[x].weight,
    decreases b.len(),
{
    if b.len() == 1 {
        assert(best_of(b) == b[0]);
    } else {
        lemma_best_of_min(b.drop_last());
        if b.last().weight < best_of(b.drop_last()).weight {
            assert(best_of(b) == b[b.len() - 1]);
        } else {
            let x = choose|x: int| 0 <= x < b.drop_last().len() && best_of(b.drop_last()) == b.drop_last()[x];
            assert(best_of(b) == b[x]);
        }
        assert forall|x: int| 0 <= x < b.len() implies best_of(b).weight <= #[trigger] b[x].weight by {
            if x < b.len() - 1 {
                assert(b.drop_last()[x] == b[x]);
            }
        }
    }
}

/// When the first candidate's weight is minimal, the first candidate
/// is chosen: earliest insertion wins among equal weights.
proof fn lemma_best_of_first(b: Seq<EntryModel>)
    requires
        b.len() >= 1,
        forall|x: int| 0 <= x < b.len() ==> b[0].weight <= #[trigger] b[x].weight,
    ensures
        best_of(b) == b[0],
    decreases b.len(),
{
    if b.len() > 1 {
        assert forall|x: int| 0 <= x < b.drop_last().len() implies b.drop_last()[0].weight
            <= #[trigger] b.drop_last()[x].weight by {
            assert(b.drop_last()[x] == b[x]);
        }
        lemma_best_of_first(b.drop_last());
        assert(b.last() == b[b.len() - 1]);
    }
}

proof fn lemma_entries_for_concat(
    a: Seq<(Seq<char>, EntryModel)>,
    b: Seq<(Seq<char>, EntryModel)>,
    k: Seq<char>,
)
    ensures
        entries_for(a + b, k) == entries_for(a, k) + entries_for(b, k),
    decreases b.len(),
{
    if b.len() == 0 {
        assert(a + b =~= a);
        assert(entries_for(a, k) + entries_for(b, k) =~= entries_for(a, k));
    } else {
        lemma_entries_for_concat(a, b.drop_last(), k);
        assert((a + b).drop_last() =~= a + b.drop_last());
        assert((a + b).last() == b.last());
        if b.last().0 == k {
            assert(entries_for(a, k) + entries_for(b, k) =~= (entries_for(a, k) + entries_for(
                b.drop_last(),
                k,
            )).push(b.last().1));
        }
    }
}

/// The well-formedness every registration has by construction: a
/// tier weight below four, and a key that is that tier's
/// normalization of the entry's own topic.
pub open spec fn reg_ok(rg: (Seq<char>, EntryModel)) -> bool {
    &&& rg.1.weight < 4
    &&& rg.0 == tier_key(rg.1.topic, rg.1.weight as int)
}

proof fn lemma_regs_shape(lines: Seq<Seq<char>>, trim: Txt)
    ensures
        forall|x: int|
            0 <= x < registrations(lines, trim).len() ==> reg_ok(
                #[trigger] registrations(lines, trim)[x],
            ),
    decreases lines.len(),
{
    if lines.len() > 0 {
        lemma_regs_shape(lines.drop_last(), trim);
        let p = registrations(lines.drop_last(), trim);
        let q = line_regs(lines.last(), trim);
        assert forall|x: int| 0 <= x < registrations(lines, trim).len() implies reg_ok(
            #[trigger] registrations(lines, trim)[x],
        ) by {
            if x < p.len() {
                assert(registrations(lines, trim)[x] == p[x]);
            } else {
                assert(registrations(lines, trim)[x] == q[x - p.len()]);
            }
        }
    }
}

/// Whether `em` is the payload of some registration under key `k`.
spec fn from_some_reg(regs: Seq<(Seq<char>, EntryModel)>, k: Seq<char>, em: EntryModel) -> bool {
    exists|y: int| 0 <= y < regs.len() && (#[trigger] regs[y]).0 == k && regs[y].1 == em
}

/// Every candidate under key `k` is the payload of some registration
/// whose key is `k`.
proof fn lemma_entries_for_members(regs: Seq<(Seq<char>, EntryModel)>, k: Seq<char>)
    ensures
        forall|x: int|
            0 <= x < entries_for(regs, k).len() ==> from_some_reg(
                regs,
                k,
                #[trigger] entries_for(regs, k)[x],
            ),
    decreases regs.len(),
{
    if regs.len() > 0 {
        lemma_entries_for_members(regs.drop_last(), k);
        let prev = entries_for(regs.drop_last(), k);
        assert forall|x: int| 0 <= x < entries_for(regs, k).len() implies from_some_reg(
            regs,
            k,
            #[trigger] entries_for(regs, k)[x],
        ) by {
            if x < prev.len() {
                assert(entries_for(regs, k)[x] == prev[x]);
                assert(from_some_reg(regs.drop_last(), k, prev[x]));
                let y = choose|y: int|
                    0 <= y < regs.drop_last().len() && (#[trigger] regs.drop_last()[y]).0 == k
                        && regs.drop_last()[y].1 == prev[x];
                assert(regs[y].0 == k && regs[y].1 == entries_for(regs, k)[x]);
            } else {
                if regs.last().0 == k {
                    assert(entries_for(regs, k) == prev.push(regs.last().1));
                    assert(x == prev.len());
                    let y = regs.len() - 1;
                    assert(regs[y].0 == k);
                    assert(regs[y].1 == entries_for(regs, k)[x]);
                } else {
                    assert(entries_for(regs, k) == prev);
                }
            }
        }
    }
}

/// What one well-formed line registers under a key `k`: the weight-0
/// entry first when `k` is the exact topic, only fuzzier entries
/// otherwise, and nothing at all when `k` is none of the four tier
/// keys.
proof fn lemma_entries_for_line(line: Seq<char>, trim: Txt, k: Seq<char>)
    requires
        line_well_formed(line),
    ensures
        ({
            let t = topic_of(line);
            let f = stored_filename(line, trim);
            let b = entries_for(line_regs(line, trim), k);
            &&& (k == t ==> b.len() >= 1 && b[0] == (EntryModel {
                topic: t,
                filename: f,
                weight: 0u8,
            }))
            &&& (forall|x: int|
                0 <= x < b.len() ==> (#[trigger] b[x]).topic == t && b[x].filename == f)
            &&& (forall|x: int| 1 <= x < b.len() ==> (#[trigger] b[x]).weight >= 1)
            &&& (k != t ==> (forall|x: int| 0 <= x < b.len() ==> (#[trigger] b[x]).weight >= 1))
            &&& ((k != t && k != strip(t) && k != lower(t) && k != strip(lower(t))) ==> b.len()
                == 0)
        }),
{
    let t = topic_of(line);
    let f = stored_filename(line, trim);
    let em0 = EntryModel { topic: t, filename: f, weight: 0u8 };
    let em1 = EntryModel { topic: t, filename: f, weight: 1u8 };
    let em2 = EntryModel { topic: t, filename: f, weight: 2u8 };
    let em3 = EntryModel { topic: t, filename: f, weight: 3u8 };
    let e = Seq::<(Seq<char>, EntryModel)>::empty();
    let r0 = (tier_key(t, 0), em0);
    let r1 = (tier_key(t, 1), em1);
    let r2 = (tier_key(t, 2), em2);
    let r3 = (tier_key(t, 3), em3);
    assert(line_regs(line, trim) =~= e.push(r0).push(r1).push(r2).push(r3));
    lemma_entries_for_push(e, r0, k);
    lemma_entries_for_push(e.push(r0), r1, k);
    lemma_entries_for_push(e.push(r0).push(r1), r2, k);
    lemma_entries_for_push(e.push(r0).push(r1).push(r2), r3, k);
    assert(entries_for(e, k) =~= Seq::<EntryModel>::empty());
}

/// When no line but `lines[i]` registers anything under `k`, the
/// candidates under `k` are exactly what `lines[i]` registers.
proof fn lemma_only_line(lines: Seq<Seq<char>>, trim: Txt, i: int, k: Seq<char>)
    requires
        0 <= i < lines.len(),
        forall|j: int, w: int|
            0 <= j < lines.len() && j != i && 0 <= w < 4 && line_well_formed(#[trigger] lines[j])
                ==> #[trigger] tier_key(topic_of(lines[j]), w) != k,
    ensures
        entries_for(registrations(lines, trim), k) == entries_for(line_regs(lines[i], trim), k),
    decreases lines.len(),
{
    let ll = lines.len() - 1;
    let p = registrations(lines.drop_last(), trim);
    let q = line_regs(lines[ll], trim);
    lemma_entries_for_concat(p, q, k);
    if i == ll {
        lemma_no_key(lines.drop_last(), trim, k);
        assert(entries_for(p, k) + entries_for(q, k) =~= entries_for(q, k));
    } else {
        assert forall|j: int, w: int|
            0 <= j < lines.drop_last().len() && j != i && 0 <= w < 4 && line_well_formed(
                #[trigger] lines.drop_last()[j],
            ) implies #[trigger] tier_key(topic_of(lines.drop_last()[j]), w) != k by {
            assert(lines.drop_last()[j] == lines[j]);
        }
        lemma_only_line(lines.drop_last(), trim, i, k);
        if line_well_formed(lines[ll]) {
            lemma_entries_for_line(lines[ll], trim, k);
            assert(entries_for(q, k).len() == 0);
        } else {
            assert(entries_for(q, k) =~= Seq::<EntryModel>::empty());
        }
        assert(entries_for(p, k) + entries_for(q, k) =~= entries_for(p, k));
        assert(lines.drop_last()[i] == lines[i]);
    }
}

/// Lines none of whose tier keys is `k` register nothing under `k`.
proof fn lemma_no_key(lines: Seq<Seq<char>>, trim: Txt, k: Seq<char>)
    requires
        forall|j: int, w: int|
            0 <= j < lines.len() && 0 <= w < 4 && line_well_formed(#[trigger] lines[j])
                ==> #[trigger] tier_key(topic_of(lines[j]), w) != k,
    ensures
        entries_for(registrations(lines, trim), k).len() == 0,
    decreases lines.len(),
{
    if lines.len() > 0 {
        let ll = lines.len() - 1;
        let p = registrations(lines.drop_last(), trim);
        let q = line_regs(lines[ll], trim);
        lemma_entries_for_concat(p, q, k);
        assert forall|j: int, w: int|
            0 <= j < lines.drop_last().len() && 0 <= w < 4 && line_well_formed(
                #[trigger] lines.drop_last()[j],
            ) implies #[trigger] tier_key(topic_of(lines.drop_last()[j]), w) != k by {
            assert(lines.drop_last()[j] == lines[j]);
        }
        lemma_no_key(lines.drop_last(), trim, k);
        if line_well_formed(lines[ll]) {
            lemma_entries_for_line(lines[ll], trim, k);
        } else {
            assert(entries_for(q, k) =~= Seq::<EntryModel>::empty());
        }
    }
}

/// Some line's exact-topic registration is present under that topic.
proof fn lemma_exact_present(lines: Seq<Seq<char>>, trim: Txt, i: int)
    requires
        0 <= i < lines.len(),
        line_well_formed(lines[i]),
    ensures
        ({
            let b = entries_for(registrations(lines, trim), topic_of(lines[i]));
            exists|x: int| 0 <= x < b.len() && (#[trigger] b[x]).weight == 0
        }),
    decreases lines.len(),
{
    let t = topic_of(lines[i]);
    let ll = lines.len() - 1;
    let p = registrations(lines.drop_last(), trim);
    let q = line_regs(lines[ll], trim);
    lemma_entries_for_concat(p, q, t);
    let bp = entries_for(p, t);
    let bq = entries_for(q, t);
    let b = entries_for(registrations(lines, trim), t);
    if i == ll {
        lemma_entries_for_line(lines[ll], trim, t);
        assert(b[bp.len() as int] == bq[0]);
        assert(b[bp.len() as int].weight == 0);
    } else {
        assert(lines.drop_last()[i] == lines[i]);
        lemma_exact_present(lines.drop_last(), trim, i);
        let x = choose|x: int| 0 <= x < bp.len() && bp[x].weight == 0;
        assert(b[x] == bp[x]);
        assert(b[x].weight == 0);
    }
}

/// An entry loaded from a well-formed line whose exact topic no other
/// line registers under any tier is returned by lookup of that exact
/// topic: the exact tier wins and the entry carries weight 0.
///
/// The table hypothesis is what `TagsDb::from_lines` ensures.
pub proof fn lemma_exact_line_lookup(db: TagsDb, lines: Seq<Seq<char>>, trim: Txt, i: int)
    requires
        table_models(db, lines, trim),
        0 <= i < lines.len(),
        line_well_formed(lines[i]),
        forall|j: int, w: int|
            0 <= j < lines.len() && j != i && 0 <= w < 4 && line_well_formed(#[trigger] lines[j])
                ==> #[trigger] tier_key(topic_of(lines[j]), w) != topic_of(lines[i]),
    ensures
        db.spec_find(topic_of(lines[i])) == Some(
            EntryModel {
                topic: topic_of(lines[i]),
                filename: stored_filename(lines[i], trim),
                weight: 0u8,
            },
        ),
{
    let t = topic_of(lines[i]);
    lemma_only_line(lines, trim, i, t);
    lemma_entries_for_line(lines[i], trim, t);
    let b = entries_for(line_regs(lines[i], trim), t);
    assert forall|x: int| 0 <= x < b.len() implies b[0].weight <= #[trigger] b[x].weight by {
        if x >= 1 {
            assert(b[x].weight >= 1);
        }
    }
    lemma_best_of_first(b);
    assert(db.contains(t));
    assert(db.bucket(t) == b);
}

/// Tier precedence: when some well-formed line's exact topic is `k`,
/// looking `k` up resolves in the exact weight-0 tier — the entry
/// found has weight 0 and its topic is exactly `k` — however many
/// fuzzier registrations other lines added under the same key, and
/// wherever those lines stood in the file.
pub proof fn lemma_exact_tier_wins(db: TagsDb, lines: Seq<Seq<char>>, trim: Txt, i: int)
    requires
        table_models(db, lines, trim),
        0 <= i < lines.len(),
        line_well_formed(lines[i]),
    ensures
        ({
            let r = db.spec_find(topic_of(lines[i]));
            r matches Some(e) && e.weight == 0 && e.topic == topic_of(lines[i])
        }),
{
    let t = topic_of(lines[i]);
    let regs = registrations(lines, trim);
    lemma_exact_present(lines, trim, i);
    let b = entries_for(regs, t);
    assert(db.contains(t));
    assert(db.bucket(t) == b);
    lemma_best_of_min(b);
    let x0 = choose|x: int| 0 <= x < b.len() && b[x].weight == 0;
    assert(best_of(b).weight <= b[x0].weight);
    lemma_regs_shape(lines, trim);
    lemma_entries_for_members(regs, t);
    let xb = choose|x: int| 0 <= x < b.len() && best_of(b) == b[x];
    assert(from_some_reg(regs, t, b[xb]));
    let y = choose|y: int|
        0 <= y < regs.len() && (#[trigger] regs[y]).0 == t && regs[y].1 == b[xb];
    assert(reg_ok(regs[y]));
}

/// Lookup is a function of the table and the topic alone: any two
/// results that `find`'s contract allows for the same table and the
/// same topic are equal, so repeated calls return equal results.
pub proof fn lemma_find_deterministic(
    db: TagsDb,
    topic: Seq<char>,
    r1: Option<EntryModel>,
    r2: Option<EntryModel>,
)
    requires
        match r1 {
            Some(e) => db.spec_find(topic) == Some(e),
            None => db.spec_find(topic) is None,
        },
        match r2 {
            Some(e) => db.spec_find(topic) == Some(e),
            None => db.spec_find(topic) is None,
        },
    ensures
        r1 == r2,
{
}

} // verus!
