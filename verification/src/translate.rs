use vstd::hash_map::StringHashMap;
use vstd::prelude::*;

verus! {

/// The first capture group of the leftmost match of a regular-expression
/// pattern in a text, if any: a function of the pattern and the text alone.
pub uninterp spec fn regex_first_capture(pattern: Seq<char>, text: Seq<char>) -> Option<Seq<char>>;

/// Relies on `regex::Regex::new` and `regex::Regex::captures`: which text the
/// first capture group of the leftmost match holds depends on the pattern and
/// the text alone (`None` also stands for a pattern that does not compile).
#[verifier::external_body]
fn capture_first(pattern: &str, text: &str) -> (r: Option<String>)
    ensures
        r.deep_view() == regex_first_capture(pattern@, text@),
{
    match regex::Regex::new(pattern) {
        Ok(re) => re.captures(text).and_then(|c| c.get(1).map(|m| m.as_str().to_string())),
        Err(_) => None,
    }
}

/// The translated text a response body yields: what the marker pattern
/// captures, or the empty string when nothing matches.
pub open spec fn spec_extract_translation(body: Seq<char>) -> Seq<char> {
    match regex_first_capture("\"result-container\">(.*?)</div>"@, body) {
        Some(t) => t,
        None => Seq::empty(),
    }
}

/// Extracts the translated text from a translation-service response body via
/// the fixed marker pattern; a body without the marker yields the empty
/// string (a failed translation degrades to an empty result).
pub fn extract_translation(body: &str) -> (r: String)
    ensures
        r@ == spec_extract_translation(body@),
{
    match capture_first("\"result-container\">(.*?)</div>", body) {
        Some(t) => t,
        None => String::new(),
    }
}

/// The translation memo: a mapping from exact source text (not normalized,
/// and regardless of target language) to translated text. It only grows,
/// until it is cleared as a whole.
pub struct TranslateCache {
    pub map: StringHashMap<String>,
}

impl View for TranslateCache {
    type V = Map<Seq<char>, Seq<char>>;

    open spec fn view(&self) -> Map<Seq<char>, Seq<char>> {
        self.map@.map_values(|v: String| v@)
    }
}

impl TranslateCache {
    /// Creates an empty cache.
    pub fn new() -> (c: Self)
        ensures
            c@ == Map::<Seq<char>, Seq<char>>::empty(),
    {
        let c = TranslateCache { map: StringHashMap::new() };
        proof {
            assert(c@ =~= Map::<Seq<char>, Seq<char>>::empty());
        }
        c
    }

    /// Looks the source text up: the cached translation exactly when one is
    /// stored, and a miss otherwise.
    pub fn lookup(&self, q: &str) -> (r: Option<String>)
        ensures
            match r {
                Some(t) => self@.contains_key(q@) && t@ == self@[q@],
                None => !self@.contains_key(q@),
            },
    {
        match self.map.get(q) {
            Some(t) => Some(t.clone()),
            None => None,
        }
    }

    /// Stores a translation for the source text, overwriting any prior entry.
    pub fn store(&mut self, q: &str, text: String)
        ensures
            final(self)@ == old(self)@.insert(q@, text@),
    {
        self.map.insert(q.to_owned(), text);
        proof {
            assert(self@ =~= old(self)@.insert(q@, text@));
        }
    }

    /// Empties the cache entirely; there is no partial invalidation.
    pub fn clear(&mut self)
        ensures
            final(self)@ == Map::<Seq<char>, Seq<char>>::empty(),
    {
        self.map.clear();
        proof {
            assert(self@ =~= Map::<Seq<char>, Seq<char>>::empty());
        }
    }
}

impl Default for TranslateCache {
    /// An empty cache, as [`TranslateCache::new`] builds it.
    fn default() -> (c: Self)
        ensures
            c@ == Map::<Seq<char>, Seq<char>>::empty(),
    {
        TranslateCache::new()
    }
}

/// Once a call has stored its translation of a text, a later lookup of the
/// same text hits the cache and returns exactly the stored translation, so no
/// further request is needed; after a clear, the same lookup misses again.
pub proof fn lemma_translation_cached(cache: Map<Seq<char>, Seq<char>>, q: Seq<char>, t: Seq<char>)
    ensures
        cache.insert(q, t).contains_key(q),
        cache.insert(q, t)[q] == t,
        !Map::<Seq<char>, Seq<char>>::empty().contains_key(q),
{
}

} // verus!
