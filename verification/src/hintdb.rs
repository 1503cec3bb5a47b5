use crate::tokenizer::spec_key_of;
use crate::tokenizer::spec_parse_tags;
use crate::tokenizer::parse_tags;
use crate::tokenizer::try_parse_tag;
use simsearch::SearchOptions;
use simsearch::SimSearch;
use std::hash::Hash;
use vstd::hash_map::StringHashMap;
use vstd::prelude::*;
use vstd::string::StrSliceExecFns;

verus! {

/// Stored metadata for a tag: either a usage-count ranking hint for a
/// canonical tag, or an alias pointing at a canonical tag.
pub enum TagHint {
    Just(u32),
    Alias(String),
}

/// Ghost counterpart of [`TagHint`]: the alias target is viewed as a
/// character sequence so that contracts can compare hints by content.
pub enum HintView {
    Just(u32),
    Alias(Seq<char>),
}

impl View for TagHint {
    type V = HintView;

    open spec fn view(&self) -> HintView {
        match self {
            TagHint::Just(n) => HintView::Just(*n),
            TagHint::Alias(s) => HintView::Alias(s@),
        }
    }
}

/// One ranked query result: a tag key of the database, together with either
/// the canonical tag it aliases or its usage count.
pub struct QueryTag {
    pub tag: String,
    pub suggest: Option<String>,
    pub usage_count: Option<u32>,
}

#[verifier::external_type_specification]
#[verifier::external_body]
#[verifier::reject_recursive_types(Id)]
pub struct ExSimSearch<Id>(SimSearch<Id>) where Id: Eq + PartialEq + Clone + Hash + Ord;

/// The set of ids currently held by a fuzzy-search index.
pub uninterp spec fn sim_ids(s: SimSearch<String>) -> Set<Seq<char>>;

/// Relies on `simsearch::SimSearch::new_with` (with options built by
/// `SearchOptions::new().stop_whitespace(false)`): a new index holds no ids.
#[verifier::external_body]
fn sim_new() -> (s: SimSearch<String>)
    ensures
        sim_ids(s) == Set::<Seq<char>>::empty(),
{
    SimSearch::new_with(SearchOptions::new().stop_whitespace(false))
}

/// Relies on `simsearch::SimSearch::insert`: it registers the id (replacing
/// any previous entry under the same id) and leaves the other ids in place.
#[verifier::external_body]
fn sim_insert(s: &mut SimSearch<String>, key: &String)
    ensures
        sim_ids(*final(s)) == sim_ids(*old(s)).insert(key@),
{
    s.insert(key.clone(), key.as_str());
}

/// Relies on `simsearch::SimSearch::search`: the ranked ids it returns come
/// from the index's own id maps, so each is currently held by the index and
/// none appears twice. Which ids match, and their order, is the engine's
/// fuzzy ranking and is not specified.
#[verifier::external_body]
fn sim_search(s: &SimSearch<String>, pattern: &str) -> (r: Vec<String>)
    ensures
        forall|i: int| 0 <= i < r@.len() ==> sim_ids(*s).contains(#[trigger] r@[i]@),
        forall|i: int, j: int| 0 <= i < j < r@.len() ==> r@[i]@ != r@[j]@,
{
    s.search(pattern)
}

/// The records that a CSV source decodes to: all fields of every record up to
/// (not including) the first decode error, a function of the bytes alone.
pub uninterp spec fn csv_rows_of(bytes: Seq<u8>) -> Seq<Seq<Seq<char>>>;

/// Relies on `csv::ReaderBuilder` (headerless mode) and
/// `csv::Reader::records`: decoding is deterministic in the bytes, and a
/// decode error ends the record stream, keeping the records before it.
#[verifier::external_body]
fn decode_csv(bytes: &Vec<u8>) -> (rows: Vec<Vec<String>>)
    ensures
        rows.deep_view() == csv_rows_of(bytes@),
{
    let mut rdr = csv::ReaderBuilder::new().has_headers(false).from_reader(bytes.as_slice());
    let mut rows: Vec<Vec<String>> = Vec::new();
    for rec in rdr.records() {
        match rec {
            Ok(r) => rows.push(r.iter().map(|f| f.to_string()).collect()),
            Err(_) => return rows,
        }
    }
    rows
}

/// An ASCII decimal digit.
pub open spec fn is_digit(c: char) -> bool {
    '0' <= c && c <= '9'
}

/// The numeric value of a digit character.
pub open spec fn digit_val(c: char) -> int {
    c as int - '0' as int
}

pub open spec fn all_digits(s: Seq<char>) -> bool {
    forall|i: int| 0 <= i < s.len() ==> is_digit(#[trigger] s[i])
}

/// The value of a digit string read left to right.
pub open spec fn digits_val(s: Seq<char>) -> int
    decreases s.len(),
{
    if s.len() == 0 {
        0
    } else {
        digits_val(s.drop_last()) * 10 + digit_val(s.last())
    }
}

/// How a usage-count field parses as an unsigned 32-bit number: an optional
/// leading plus sign, then one or more digits, with a value that fits.
pub open spec fn spec_parse_u32(s: Seq<char>) -> Option<u32> {
    let body = if s.len() > 0 && s[0] == '+' {
        s.drop_first()
    } else {
        s
    };
    if body.len() > 0 && all_digits(body) && digits_val(body) <= u32::MAX {
        Some(digits_val(body) as u32)
    } else {
        None
    }
}

/// The usage count a CSV field yields: its numeric value, or 0 when the field
/// does not parse as an unsigned 32-bit number.
pub open spec fn spec_count_of(s: Seq<char>) -> u32 {
    match spec_parse_u32(s) {
        Some(n) => n,
        None => 0,
    }
}

proof fn lemma_digits_val_nonneg(s: Seq<char>)
    requires
        all_digits(s),
    ensures
        digits_val(s) >= 0,
    decreases s.len(),
{
    if s.len() > 0 {
        lemma_digits_val_nonneg(s.drop_last());
    }
}

/// A digit string is worth at least any of its prefixes.
proof fn lemma_digits_val_monotone(s: Seq<char>, k: int)
    requires
        all_digits(s),
        0 <= k <= s.len(),
    ensures
        digits_val(s) >= digits_val(s.take(k)),
    decreases s.len() - k,
{
    if k == s.len() {
        assert(s.take(k) =~= s);
    } else {
        assert(s.take(k + 1).drop_last() =~= s.take(k));
        assert(s.take(k + 1).last() == s[k]);
        assert(all_digits(s.take(k)));
        lemma_digits_val_nonneg(s.take(k));
        assert(digits_val(s.take(k + 1)) >= digits_val(s.take(k)));
        lemma_digits_val_monotone(s, k + 1);
    }
}

/// Parses a usage-count field: the numeric value of the field, or 0 when it is
/// not an unsigned 32-bit number.
pub fn parse_count(s: &str) -> (n: u32)
    ensures
        n == spec_count_of(s@),
{
    let len = s.unicode_len();
    let mut i: usize = 0;
    if len > 0 && s.get_char(0) == '+' {
        i = 1;
    }
    let ghost start = i as int;
    let ghost body = if s@.len() > 0 && s@[0] == '+' {
        s@.drop_first()
    } else {
        s@
    };
    proof {
        assert(body =~= s@.skip(start));
    }
    if i == len {
        return 0;
    }
    let mut acc: u64 = 0;
    while i < len
        invariant
            0 <= start <= i as int <= len,
            len == s@.len(),
            body == s@.skip(start),
            body == (if s@.len() > 0 && s@[0] == '+' {
                s@.drop_first()
            } else {
                s@
            }),
            body.len() == len - start,
            all_digits(body.take(i - start)),
            acc == digits_val(body.take(i - start)),
            acc <= u32::MAX,
        decreases len - i,
    {
        let c = s.get_char(i);
        proof {
            assert(s@.subrange(start, s@.len() as int)[i - start] == s@[i as int]);
            assert(body[i - start] == s@[i as int]);
        }
        if c < '0' || c > '9' {
            proof {
                assert(!is_digit(body[i - start]));
                assert(!all_digits(body));
            }
            return 0;
        }
        let d: u64 = (c as u64) - 48;
        let next: u64 = acc * 10 + d;
        proof {
            assert(body.take(i - start + 1).drop_last() =~= body.take(i - start));
            assert(body.take(i - start + 1).last() == body[i - start]);
        }
        if next > (u32::MAX as u64) {
            proof {
                if all_digits(body) {
                    lemma_digits_val_monotone(body, i - start + 1);
                }
            }
            return 0;
        }
        acc = next;
        i = i + 1;
    }
    proof {
        assert(body.take(len - start) =~= body);
    }
    acc as u32
}

/// The tag-hint database: a mapping from tag key to hint, a fuzzy-search
/// index over the same keys, and the list of keys held by the mapping (the
/// mapping itself cannot be iterated).
pub struct TagHintDB {
    pub database: StringHashMap<TagHint>,
    pub search: SimSearch<String>,
    pub keys: Vec<String>,
}

impl TagHintDB {
    /// The database contents by character content: tag key to hint.
    pub open spec fn model(&self) -> Map<Seq<char>, HintView> {
        self.database@.map_values(|h: TagHint| h@)
    }

    /// `k` occurs in the key list.
    pub open spec fn key_listed(&self, k: Seq<char>) -> bool {
        exists|i: int| 0 <= i < self.keys@.len() && self.keys@[i]@ == k
    }

    /// Well-formed: the key list holds exactly the keys of the mapping, and
    /// the search index holds only keys of the mapping.
    pub open spec fn wf(&self) -> bool {
        &&& forall|k: Seq<char>|
            #[trigger] self.database@.dom().contains(k) <==> self.key_listed(k)
        &&& sim_ids(self.search).subset_of(self.database@.dom())
    }

    /// Creates an empty database with an empty search index.
    pub fn new() -> (db: Self)
        ensures
            db.wf(),
            db.model() == Map::<Seq<char>, HintView>::empty(),
            sim_ids(db.search) == Set::<Seq<char>>::empty(),
    {
        let db = TagHintDB { database: StringHashMap::new(), search: sim_new(), keys: Vec::new() };
        proof {
            assert(db.model() =~= Map::<Seq<char>, HintView>::empty());
        }
        db
    }

    /// Maps `key` to `hint`, overwriting any prior hint for it; the search
    /// index is left as it was.
    fn insert_hint(&mut self, key: String, hint: TagHint)
        requires
            old(self).wf(),
        ensures
            final(self).wf(),
            final(self).model() == old(self).model().insert(key@, hint@),
            final(self).search == old(self).search,
            final(self).database@.dom() == old(self).database@.dom().insert(key@),
    {
        if !self.database.contains_key(key.as_str()) {
            self.keys.push(key.clone());
        }
        self.database.insert(key, hint);
        proof {
            assert(self.database@.dom() =~= old(self).database@.dom().insert(key@));
            assert forall|k: Seq<char>| #[trigger] self.database@.dom().contains(k) implies self.key_listed(k) by {
                if k == key@ {
                    if old(self).database@.dom().contains(k) {
                        let i = choose|i: int|
                            0 <= i < old(self).keys@.len() && old(self).keys@[i]@ == k;
                        assert(self.keys@[i]@ == k);
                    } else {
                        assert(self.keys@[self.keys@.len() - 1]@ == k);
                    }
                } else {
                    assert(old(self).database@.dom().contains(k));
                    let i = choose|i: int| 0 <= i < old(self).keys@.len() && old(self).keys@[i]@ == k;
                    assert(self.keys@[i]@ == k);
                }
            }
            assert forall|k: Seq<char>| self.key_listed(k) implies #[trigger] self.database@.dom().contains(
                k,
            ) by {
                let i = choose|i: int| 0 <= i < self.keys@.len() && self.keys@[i]@ == k;
                if i < old(self).keys@.len() {
                    assert(old(self).key_listed(k));
                } else {
                    assert(k == key@);
                }
            }
            assert(self.model() =~= old(self).model().insert(key@, hint@));
        }
    }
}

/// Maps each alias, in order, to the canonical tag; a later alias overwrites
/// an earlier entry under the same key.
pub open spec fn spec_add_aliases(
    m: Map<Seq<char>, HintView>,
    canonical: Seq<char>,
    aliases: Seq<Seq<char>>,
) -> Map<Seq<char>, HintView>
    decreases aliases.len(),
{
    if aliases.len() == 0 {
        m
    } else {
        spec_add_aliases(
            m.insert(aliases[0], HintView::Alias(canonical)),
            canonical,
            aliases.drop_first(),
        )
    }
}

/// The hints one CSV record adds to the mapping, by its field count: one or
/// two fields name a tag with count 0; a third field adds a parsed usage
/// count; a fourth field's tokens each become an alias of the tag; any other
/// arity is ignored. The key is the first field's first token.
pub open spec fn spec_row_step(m: Map<Seq<char>, HintView>, row: Seq<Seq<char>>) -> Map<
    Seq<char>,
    HintView,
> {
    if row.len() == 0 {
        m
    } else {
        let key = spec_key_of(row[0]);
        if row.len() <= 2 {
            m.insert(key, HintView::Just(0))
        } else if row.len() == 3 {
            m.insert(key, HintView::Just(spec_count_of(row[2])))
        } else if row.len() == 4 {
            spec_add_aliases(
                m.insert(key, HintView::Just(spec_count_of(row[2]))),
                key,
                spec_parse_tags(row[3]),
            )
        } else {
            m
        }
    }
}

/// The mapping after ingesting the records in order: a later record
/// overwrites an earlier entry under the same key.
pub open spec fn spec_ingest(m: Map<Seq<char>, HintView>, rows: Seq<Seq<Seq<char>>>) -> Map<
    Seq<char>,
    HintView,
>
    decreases rows.len(),
{
    if rows.len() == 0 {
        m
    } else {
        spec_ingest(spec_row_step(m, rows[0]), rows.drop_first())
    }
}

/// Whatever a key was mapped to, ingesting it again leaves the later hint:
/// last write wins across sources.
pub proof fn lemma_last_write_wins(
    m: Map<Seq<char>, HintView>,
    key: Seq<char>,
    first: HintView,
    second: HintView,
)
    ensures
        m.insert(key, first).insert(key, second) == m.insert(key, second),
        m.insert(key, first).insert(key, second)[key] == second,
{
    assert(m.insert(key, first).insert(key, second) =~= m.insert(key, second));
}

/// One query result is consistent with the mapping: its tag is a known key;
/// a usage-count hint is exposed as the count with no suggestion, an alias
/// hint as its canonical tag with no count.
pub open spec fn result_matches(m: Map<Seq<char>, HintView>, q: QueryTag) -> bool {
    &&& m.dom().contains(q.tag@)
    &&& match m[q.tag@] {
        HintView::Just(n) => q.usage_count == Some(n) && q.suggest is None,
        HintView::Alias(c) => q.usage_count is None && match q.suggest {
            Some(s) => s@ == c,
            None => false,
        },
    }
}

impl TagHintDB {
    /// Applies the given CSV records in order, then (re-)inserts every key of
    /// the mapping into the search index, so that the index holds exactly the
    /// keys of the mapping.
    pub fn ingest_rows(&mut self, rows: &Vec<Vec<String>>)
        requires
            old(self).wf(),
        ensures
            final(self).wf(),
            final(self).model() == spec_ingest(old(self).model(), rows.deep_view()),
            sim_ids(final(self).search) == final(self).model().dom(),
    {
        let ghost m0 = old(self).model();
        let ghost rws = rows.deep_view();
        let mut i: usize = 0;
        proof {
            assert(rws.skip(0) =~= rws);
        }
        while i < rows.len()
            invariant
                self.wf(),
                i <= rows.len(),
                rws == rows.deep_view(),
                spec_ingest(self.model(), rws.skip(i as int)) == spec_ingest(m0, rws),
            decreases rows.len() - i,
        {
            let ghost m_i = self.model();
            let row: &Vec<String> = &rows[i];
            proof {
                assert(rws[i as int] == row.deep_view());
                assert(rws.skip(i as int)[0] == rws[i as int]);
                assert(rws.skip(i as int).drop_first() =~= rws.skip(i as int + 1));
            }
            if row.len() >= 1 {
                proof {
                    assert(row.deep_view()[0] == row@[0]@);
                }
                let tag = try_parse_tag(row[0].as_str());
                if row.len() <= 2 {
                    self.insert_hint(tag, TagHint::Just(0));
                } else if row.len() == 3 {
                    proof {
                        assert(row.deep_view()[2] == row@[2]@);
                    }
                    let cnt = parse_count(row[2].as_str());
                    self.insert_hint(tag, TagHint::Just(cnt));
                } else if row.len() == 4 {
                    proof {
                        assert(row.deep_view()[2] == row@[2]@);
                        assert(row.deep_view()[3] == row@[3]@);
                    }
                    let cnt = parse_count(row[2].as_str());
                    let canonical = tag.clone();
                    self.insert_hint(tag, TagHint::Just(cnt));
                    let aliases = parse_tags(row[3].as_str());
                    let ghost m_k = self.model();
                    let ghost avs = aliases.deep_view();
                    let mut j: usize = 0;
                    proof {
                        assert(avs.skip(0) =~= avs);
                    }
                    while j < aliases.len()
                        invariant
                            self.wf(),
                            j <= aliases.len(),
                            avs == aliases.deep_view(),
                            spec_add_aliases(self.model(), canonical@, avs.skip(j as int))
                                == spec_add_aliases(m_k, canonical@, avs),
                        decreases aliases.len() - j,
                    {
                        proof {
                            assert(avs.skip(j as int)[0] == avs[j as int]);
                            assert(avs[j as int] == aliases@[j as int]@);
                            assert(avs.skip(j as int).drop_first() =~= avs.skip(j as int + 1));
                        }
                        let a = aliases[j].clone();
                        self.insert_hint(a, TagHint::Alias(canonical.clone()));
                        j += 1;
                    }
                    proof {
                        assert(avs.skip(aliases@.len() as int) =~= Seq::<Seq<char>>::empty());
                    }
                }
            }
            proof {
                assert(self.model() == spec_row_step(m_i, rws[i as int]));
            }
            i += 1;
        }
        proof {
            assert(rws.skip(rows@.len() as int) =~= Seq::<Seq<Seq<char>>>::empty());
        }
        let ghost db0 = self.database@;
        let ghost keys0 = self.keys@;
        let mut j: usize = 0;
        while j < self.keys.len()
            invariant
                self.wf(),
                j <= self.keys.len(),
                self.database@ == db0,
                self.keys@ == keys0,
                self.model() == spec_ingest(m0, rws),
                forall|t: int|
                    0 <= t < j ==> sim_ids(self.search).contains(#[trigger] self.keys@[t]@),
            decreases self.keys.len() - j,
        {
            let ghost pre = *self;
            let k = self.keys[j].clone();
            proof {
                assert(self.keys@[j as int]@ == k@);
                assert(self.key_listed(k@));
                assert(self.database@.dom().contains(k@));
            }
            let ghost sim_before = sim_ids(self.search);
            sim_insert(&mut self.search, &k);
            proof {
                assert(sim_ids(self.search) == sim_before.insert(k@));
                assert forall|x: Seq<char>| sim_ids(self.search).contains(x) implies self.database@.dom().contains(x) by {
                    if x != k@ {
                        assert(sim_before.contains(x));
                    }
                }
                assert(sim_ids(self.search).subset_of(self.database@.dom()));
                assert forall|k2: Seq<char>|
                    #[trigger] self.database@.dom().contains(k2) <==> self.key_listed(k2) by {
                    if self.database@.dom().contains(k2) {
                        assert(pre.database@.dom().contains(k2));
                        assert(pre.key_listed(k2));
                        let idx = choose|t: int|
                            0 <= t < pre.keys@.len() && pre.keys@[t]@ == k2;
                        assert(self.keys@[idx]@ == k2);
                    }
                    if self.key_listed(k2) {
                        let idx = choose|t: int|
                            0 <= t < self.keys@.len() && self.keys@[t]@ == k2;
                        assert(pre.keys@[idx]@ == k2);
                        assert(pre.key_listed(k2));
                        assert(pre.database@.dom().contains(k2));
                    }
                }
                assert(self.wf());
            }
            j += 1;
        }
        proof {
            assert forall|k: Seq<char>| self.database@.dom().contains(k) implies sim_ids(
                self.search,
            ).contains(k) by {
                let t = choose|t: int| 0 <= t < self.keys@.len() && self.keys@[t]@ == k;
                assert(sim_ids(self.search).contains(self.keys@[t]@));
            }
            assert(sim_ids(self.search) =~= self.database@.dom());
            assert(self.model().dom() =~= self.database@.dom());
        }
    }

    /// Ingests one CSV source given as its raw bytes: the records it decodes
    /// to are applied in order, then the search index is rebuilt over the
    /// mapping's keys.
    pub fn read_csv_source(&mut self, bytes: &Vec<u8>)
        requires
            old(self).wf(),
        ensures
            final(self).wf(),
            final(self).model() == spec_ingest(old(self).model(), csv_rows_of(bytes@)),
            sim_ids(final(self).search) == final(self).model().dom(),
    {
        let rows = decode_csv(bytes);
        self.ingest_rows(&rows);
    }

    /// Ingests the given CSV sources in order. The caller discovers and reads
    /// them, usually by listing a directory; that order decides which source
    /// wins on a key collision. After a pass over at least one source, the
    /// search index holds exactly the keys of the mapping.
    pub fn read_db(&mut self, sources: &Vec<Vec<u8>>)
        requires
            old(self).wf(),
        ensures
            final(self).wf(),
            final(self).model() == spec_read_db(old(self).model(), sources.deep_view()),
            sources@.len() > 0 ==> sim_ids(final(self).search) == final(self).model().dom(),
    {
        let ghost m0 = old(self).model();
        let ghost srcs = sources.deep_view();
        let mut i: usize = 0;
        proof {
            assert(srcs.skip(0) =~= srcs);
        }
        while i < sources.len()
            invariant
                self.wf(),
                i <= sources.len(),
                srcs == sources.deep_view(),
                spec_read_db(self.model(), srcs.skip(i as int)) == spec_read_db(m0, srcs),
                i > 0 ==> sim_ids(self.search) == self.model().dom(),
            decreases sources.len() - i,
        {
            proof {
                assert(srcs.skip(i as int)[0] == srcs[i as int]);
                assert(srcs[i as int] == sources@[i as int]@);
                assert(srcs.skip(i as int).drop_first() =~= srcs.skip(i as int + 1));
            }
            self.read_csv_source(&sources[i]);
            i += 1;
        }
        proof {
            assert(srcs.skip(sources@.len() as int) =~= Seq::<Seq<u8>>::empty());
        }
    }

    /// Resolves ranked search hits against the mapping: the first at most 20
    /// hits, in order, each exposed with its current hint. Every hit must be
    /// a key of the mapping (a hit that is not would be a desynchronized
    /// index, a bug in ingestion).
    pub fn resolve_hits(&self, matched: &Vec<String>) -> (results: Vec<QueryTag>)
        requires
            self.wf(),
            forall|i: int|
                0 <= i < matched@.len() ==> self.database@.dom().contains(#[trigger] matched@[i]@),
        ensures
            results@.len() == if matched@.len() < 20 {
                matched@.len() as int
            } else {
                20int
            },
            forall|i: int| 0 <= i < results@.len() ==> #[trigger] results@[i].tag@ == matched@[i]@,
            forall|i: int|
                0 <= i < results@.len() ==> result_matches(self.model(), #[trigger] results@[i]),
    {
        let mut results: Vec<QueryTag> = Vec::new();
        let mut i: usize = 0;
        while i < matched.len() && i < 20
            invariant
                self.wf(),
                i <= matched.len(),
                i <= 20,
                results@.len() == i,
                forall|t: int|
                    0 <= t < matched@.len() ==> self.database@.dom().contains(
                        #[trigger] matched@[t]@,
                    ),
                forall|t: int| 0 <= t < i ==> #[trigger] results@[t].tag@ == matched@[t]@,
                forall|t: int|
                    0 <= t < i ==> result_matches(self.model(), #[trigger] results@[t]),
            decreases matched.len() - i,
        {
            let tag = &matched[i];
            let hint = match self.database.get(tag.as_str()) {
                Some(h) => h,
                None => {
                    proof {
                        assert(self.database@.dom().contains(matched@[i as int]@));
                        assert(false);
                    }
                    vstd::pervasive::unreached()
                },
            };
            let entry = match hint {
                TagHint::Just(x) => QueryTag { tag: tag.clone(), suggest: None, usage_count: Some(*x) },
                TagHint::Alias(x) => QueryTag {
                    tag: tag.clone(),
                    suggest: Some(x.clone()),
                    usage_count: None,
                },
            };
            results.push(entry);
            i += 1;
        }
        results
    }

    /// Serves a ranked autocomplete query: the fuzzy matches for `text`, at
    /// most 20 of them, each resolved against the mapping. Which keys match
    /// and their order are the search engine's ranking; every returned entry
    /// is a distinct key of the mapping with its current hint.
    pub fn query_tag(&self, text: &str) -> (results: Vec<QueryTag>)
        requires
            self.wf(),
        ensures
            results@.len() <= 20,
            forall|i: int|
                0 <= i < results@.len() ==> result_matches(self.model(), #[trigger] results@[i]),
            forall|i: int, j: int|
                0 <= i < j < results@.len() ==> results@[i].tag@ != results@[j].tag@,
    {
        let matched = sim_search(&self.search, text);
        self.resolve_hits(&matched)
    }
}

/// The mapping after ingesting each source's decoded records, sources in
/// order: a later source overwrites an earlier one on a key collision.
pub open spec fn spec_read_db(m: Map<Seq<char>, HintView>, sources: Seq<Seq<u8>>) -> Map<
    Seq<char>,
    HintView,
>
    decreases sources.len(),
{
    if sources.len() == 0 {
        m
    } else {
        spec_read_db(spec_ingest(m, csv_rows_of(sources[0])), sources.drop_first())
    }
}

impl Default for TagHintDB {
    /// An empty database, as [`TagHintDB::new`] builds it.
    fn default() -> (db: Self)
        ensures
            db.wf(),
            db.model() == Map::<Seq<char>, HintView>::empty(),
            sim_ids(db.search) == Set::<Seq<char>>::empty(),
    {
        TagHintDB::new()
    }
}

} // verus!
