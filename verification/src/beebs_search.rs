//! The search index over the standings site's competition list.
//!
//! A page carries a JSON list of competitions, each with a name, a URL and
//! alternative names. The index is a multimap from every such name to the
//! URLs it can stand for, queried through a fuzzy matcher: a search
//! returns every key the matcher scores, best score first, ties broken by
//! the key.

use crate::sorting::insertion_sort;
use crate::sorting::spec_sort_le;
use crate::sorting::views_of;
use crate::sorting::OrderedBy;
use crate::sorting::SpecOrdered;
use crate::strutil::find_str;
use crate::strutil::lemma_lex_le_total;
use crate::strutil::lemma_lex_le_trans;
use crate::strutil::spec_contains_at;
use crate::strutil::spec_find_at;
use crate::strutil::spec_lex_le;
use crate::strutil::starts_with;
use crate::strutil::str_eq;
use crate::strutil::str_lex_le;
use fuzzy_matcher::FuzzyMatcher;
use vstd::prelude::*;

verus! {

/// The score the fuzzy matcher assigns to a choice against a pattern, when
/// it matches at all. The matcher is configured the same way on every
/// call, so the score depends on the two strings alone.
pub uninterp spec fn skim_score(choice: Seq<char>, pattern: Seq<char>) -> Option<i64>;

/// Relies on fuzzy_matcher::skim::SkimMatcherV2::fuzzy_match, under the
/// default configuration folding case: the score of a choice against a
/// pattern, a pure function of the two strings.
#[verifier::external_body]
fn skim_fuzzy_match(choice: &str, pattern: &str) -> (r: Option<i64>)
    ensures
        r == skim_score(choice@, pattern@),
{
    fuzzy_matcher::skim::SkimMatcherV2::default().ignore_case().fuzzy_match(choice, pattern)
}

/// Why the search index could not be refreshed from a page.
#[derive(Debug)]
pub enum SearchError {
    /// The page holds no competition-list text.
    DidNotFindRawTableInfo,
    /// The competition-list text did not decode.
    CouldNotParseSearch(String),
}

/// One competition of the page's list, already decoded.
#[derive(Debug)]
pub struct ParsedLeague {
    pub name: String,
    pub url: String,
    pub alternatives: Vec<String>,
}

/// Mathematical model of a decoded competition.
#[verifier::ext_equal]
pub struct ParsedLeagueView {
    pub name: Seq<char>,
    pub url: Seq<char>,
    pub alternatives: Seq<Seq<char>>,
}

impl View for ParsedLeague {
    type V = ParsedLeagueView;

    open spec fn view(&self) -> ParsedLeagueView {
        ParsedLeagueView {
            name: self.name@,
            url: self.url@,
            alternatives: self.alternatives.deep_view(),
        }
    }
}

impl DeepView for ParsedLeague {
    type V = ParsedLeagueView;

    open spec fn deep_view(&self) -> ParsedLeagueView {
        self.view()
    }
}

/// The search index: a fingerprint of the text it was built from, and the
/// multimap from searchable names to URLs.
#[derive(Debug)]
pub struct Search {
    pub hashed: String,
    pub data: Vec<(String, Vec<String>)>,
}

/// Mathematical model of the index.
#[verifier::ext_equal]
pub struct SearchView {
    pub hashed: Seq<char>,
    pub data: Seq<(Seq<char>, Seq<Seq<char>>)>,
}

impl View for Search {
    type V = SearchView;

    open spec fn view(&self) -> SearchView {
        SearchView { hashed: self.hashed@, data: self.data.deep_view() }
    }
}

/// Adding one key/URL pair to the multimap: the URL is appended to the
/// first entry carrying the key, or a fresh entry is appended at the end.
pub open spec fn spec_mm_add(
    data: Seq<(Seq<char>, Seq<Seq<char>>)>,
    key: Seq<char>,
    url: Seq<char>,
) -> Seq<(Seq<char>, Seq<Seq<char>>)>
    decreases data.len(),
{
    if data.len() == 0 {
        seq![(key, seq![url])]
    } else if data[0].0 == key {
        seq![(data[0].0, data[0].1.push(url))] + data.drop_first()
    } else {
        seq![data[0]] + spec_mm_add(data.drop_first(), key, url)
    }
}

/// Adding a URL under several keys, in order.
pub open spec fn spec_mm_add_keys(
    data: Seq<(Seq<char>, Seq<Seq<char>>)>,
    keys: Seq<Seq<char>>,
    url: Seq<char>,
) -> Seq<(Seq<char>, Seq<Seq<char>>)>
    decreases keys.len(),
{
    if keys.len() == 0 {
        data
    } else {
        spec_mm_add_keys(spec_mm_add(data, keys[0], url), keys.drop_first(), url)
    }
}

/// Adding one decoded competition: team pages are skipped; all other
/// competitions register their URL under every alternative name and then
/// under the name itself.
pub open spec fn spec_mm_add_league(
    data: Seq<(Seq<char>, Seq<Seq<char>>)>,
    lg: ParsedLeagueView,
) -> Seq<(Seq<char>, Seq<Seq<char>>)> {
    if spec_contains_at(lg.url, "/sport/football/teams/"@, 0) {
        data
    } else {
        spec_mm_add_keys(data, lg.alternatives.push(lg.name), lg.url)
    }
}

/// Adding a whole list of decoded competitions, in order.
pub open spec fn spec_mm_add_leagues(
    data: Seq<(Seq<char>, Seq<Seq<char>>)>,
    lgs: Seq<ParsedLeagueView>,
) -> Seq<(Seq<char>, Seq<Seq<char>>)>
    decreases lgs.len(),
{
    if lgs.len() == 0 {
        data
    } else {
        spec_mm_add_leagues(spec_mm_add_league(data, lgs[0]), lgs.drop_first())
    }
}

/// Splices a found key into the take/skip form the executable update uses.
proof fn lemma_mm_add_found(
    data: Seq<(Seq<char>, Seq<Seq<char>>)>,
    key: Seq<char>,
    url: Seq<char>,
    i: int,
)
    requires
        0 <= i < data.len(),
        data[i].0 == key,
        forall|k: int| 0 <= k < i ==> (#[trigger] data[k]).0 != key,
    ensures
        spec_mm_add(data, key, url) == data.take(i) + seq![(data[i].0, data[i].1.push(url))]
            + data.skip(i + 1),
    decreases i,
{
    if i == 0 {
        assert(spec_mm_add(data, key, url) =~= data.take(0) + seq![
            (data[0].0, data[0].1.push(url)),
        ] + data.skip(1));
    } else {
        assert(data.drop_first()[i - 1].0 == key);
        assert(forall|k: int| 0 <= k < i - 1 ==> (#[trigger] data.drop_first()[k]).0 != key);
        lemma_mm_add_found(data.drop_first(), key, url, i - 1);
        assert(data.drop_first().take(i - 1) =~= data.take(i).drop_first());
        assert(data.drop_first().skip(i) =~= data.skip(i + 1));
        assert(spec_mm_add(data, key, url) =~= data.take(i) + seq![
            (data[i].0, data[i].1.push(url)),
        ] + data.skip(i + 1));
    }
}

/// A key absent from the whole map lands in a fresh entry at the end.
proof fn lemma_mm_add_missing(data: Seq<(Seq<char>, Seq<Seq<char>>)>, key: Seq<char>, url: Seq<char>)
    requires
        forall|k: int| 0 <= k < data.len() ==> (#[trigger] data[k]).0 != key,
    ensures
        spec_mm_add(data, key, url) == data.push((key, seq![url])),
    decreases data.len(),
{
    if data.len() == 0 {
        assert(spec_mm_add(data, key, url) =~= data.push((key, seq![url])));
    } else {
        lemma_mm_add_missing(data.drop_first(), key, url);
        assert(spec_mm_add(data, key, url) =~= data.push((key, seq![url])));
    }
}

/// Appends `url` under `key` in the multimap.
fn mm_add(data: &mut Vec<(String, Vec<String>)>, key: &String, url: &String)
    ensures
        final(data).deep_view() == spec_mm_add(old(data).deep_view(), key@, url@),
{
    let ghost dv = data.deep_view();
    let mut i: usize = 0;
    while i < data.len()
        invariant
            i <= data@.len(),
            dv == data.deep_view(),
            dv == old(data).deep_view(),
            dv.len() == data@.len(),
            forall|k: int| 0 <= k < i ==> (#[trigger] dv[k]).0 != key@,
        decreases data@.len() - i,
    {
        let hit = str_eq(data[i].0.as_str(), key.as_str());
        proof {
            assert(dv[i as int] == data@[i as int].deep_view());
        }
        if hit {
            proof {
                lemma_mm_add_found(dv, key@, url@, i as int);
            }
            let mut entry = data.remove(i);
            entry.1.push(url.clone());
            data.insert(i, entry);
            proof {
                assert(data.deep_view() =~~= dv.take(i as int) + seq![
                    (dv[i as int].0, dv[i as int].1.push(url@)),
                ] + dv.skip(i + 1));
            }
            return ;
        }
        i = i + 1;
    }
    proof {
        lemma_mm_add_missing(dv, key@, url@);
    }
    data.push((key.clone(), vec![url.clone()]));
    proof {
        assert(data.deep_view() =~~= dv.push((key@, seq![url@])));
    }
}

impl Search {
    /// A fresh, empty index.
    pub fn new() -> (r: Search)
        ensures
            r@.hashed == Seq::<char>::empty(),
            r@.data == Seq::<(Seq<char>, Seq<Seq<char>>)>::empty(),
    {
        let r = Search { hashed: String::new(), data: Vec::new() };
        proof {
            assert(r@.data =~~= Seq::<(Seq<char>, Seq<Seq<char>>)>::empty());
        }
        r
    }

    /// The fingerprint of a competition-list text: the text itself.
    pub fn hash_input(input: &str) -> (r: String)
        ensures
            r@ == input@,
    {
        input.to_owned()
    }

    /// Whether a competition-list text differs from the one the index was
    /// built from.
    pub fn needs_data_update(&self, info: &str) -> (r: bool)
        ensures
            r == (self@.hashed != info@),
    {
        !str_eq(self.hashed.as_str(), info)
    }

    /// Cuts the competition-list JSON out of a page: the text from the
    /// metadata opening that follows the list marker up to the closing
    /// parenthesis.
    pub fn get_tables_info<'a>(content: &'a str) -> (r: Result<&'a str, SearchError>)
        ensures
            match r {
                Ok(s) => spec_tables_info(content@) == Some(s@),
                Err(e) => spec_tables_info(content@) is None && e is DidNotFindRawTableInfo,
            },
    {
        let needle_position = match find_str(content, "bbc-morph-sport-teams-competitions-list", 0) {
            Some(i) => i,
            None => {
                return Err(SearchError::DidNotFindRawTableInfo);
            },
        };
        let meta_position = match find_str(content, "{\"meta\":", needle_position) {
            Some(i) => i,
            None => {
                return Err(SearchError::DidNotFindRawTableInfo);
            },
        };
        let end_position = match find_str(content, ");", meta_position) {
            Some(i) => i,
            None => {
                return Err(SearchError::DidNotFindRawTableInfo);
            },
        };
        proof {
            crate::strutil::lemma_find_at_some(content@, "{\"meta\":"@, needle_position as int);
            crate::strutil::lemma_find_at_some(content@, ");"@, meta_position as int);
        }
        let len = content.unicode_len();
        Ok(content.substring_char(meta_position, end_position))
    }

    /// Rebuilds the index from a decoded competition list, remembering the
    /// text it came from.
    pub fn force_update_data(&mut self, info: &str, leagues: &Vec<ParsedLeague>)
        ensures
            final(self)@.hashed == info@,
            final(self)@.data == spec_mm_add_leagues(old(self)@.data, leagues.deep_view()),
    {
        let ghost lgs = leagues.deep_view();
        proof {
            assert(lgs.skip(0) =~= lgs);
        }
        let mut i: usize = 0;
        while i < leagues.len()
            invariant
                i <= leagues@.len(),
                lgs == leagues.deep_view(),
                lgs.len() == leagues@.len(),
                spec_mm_add_leagues(old(self)@.data, lgs) == spec_mm_add_leagues(
                    self.data.deep_view(),
                    lgs.skip(i as int),
                ),
            decreases leagues@.len() - i,
        {
            let league = &leagues[i];
            let ghost lv = lgs[i as int];
            let ghost pre = self.data.deep_view();
            proof {
                assert(lv == league@);
                assert(lgs.skip(i as int)[0] == lv);
                assert(lgs.skip(i as int).drop_first() =~= lgs.skip(i + 1));
            }
            if !starts_with(league.url.as_str(), "/sport/football/teams/") {
                let ghost keys = lv.alternatives.push(lv.name);
                let mut k: usize = 0;
                proof {
                    assert(keys.skip(0) =~= keys);
                }
                while k < league.alternatives.len()
                    invariant
                        k <= league.alternatives@.len(),
                        lv == league@,
                        keys == lv.alternatives.push(lv.name),
                        keys.len() == league.alternatives@.len() + 1,
                        spec_mm_add_keys(pre, keys, lv.url) == spec_mm_add_keys(
                            self.data.deep_view(),
                            keys.skip(k as int),
                            lv.url,
                        ),
                    decreases league.alternatives@.len() - k,
                {
                    proof {
                        assert(keys.skip(k as int)[0] == keys[k as int]);
                        assert(keys[k as int] == league.alternatives@[k as int]@);
                        assert(keys.skip(k as int).drop_first() =~= keys.skip(k + 1));
                    }
                    mm_add(&mut self.data, &league.alternatives[k], &league.url);
                    k = k + 1;
                }
                proof {
                    assert(keys.skip(k as int)[0] == keys[k as int]);
                    assert(keys[keys.len() - 1] == lv.name);
                    assert(keys.skip(k as int).drop_first() =~= keys.skip(k + 1));
                    assert(keys.skip(keys.len() as int) =~= Seq::<Seq<char>>::empty());
                }
                mm_add(&mut self.data, &league.name, &league.url);
                proof {
                    assert(keys.skip(keys.len() as int) =~= Seq::<Seq<char>>::empty());
                    assert(spec_mm_add_keys(
                        self.data.deep_view(),
                        keys.skip(keys.len() as int),
                        lv.url,
                    ) == self.data.deep_view());
                    assert(self.data.deep_view() == spec_mm_add_keys(pre, keys, lv.url));
                    assert(self.data.deep_view() == spec_mm_add_league(pre, lv));
                }
            } else {
                proof {
                    assert(self.data.deep_view() == spec_mm_add_league(pre, lv));
                }
            }
            proof {
                assert(spec_mm_add_leagues(pre, lgs.skip(i as int)) == spec_mm_add_leagues(
                    self.data.deep_view(),
                    lgs.skip(i + 1),
                ));
            }
            i = i + 1;
        }
        proof {
            assert(lgs.skip(lgs.len() as int) =~= Seq::<ParsedLeagueView>::empty());
        }
        self.hashed = Search::hash_input(info);
    }
}

/// Where the competition-list JSON sits in a page: from the metadata
/// opening after the list marker to the closing parenthesis.
pub open spec fn spec_tables_info(content: Seq<char>) -> Option<Seq<char>> {
    match spec_find_at(content, "bbc-morph-sport-teams-competitions-list"@, 0) {
        None => None,
        Some(np) => match spec_find_at(content, "{\"meta\":"@, np) {
            None => None,
            Some(mp) => match spec_find_at(content, ");"@, mp) {
                None => None,
                Some(ep) => Some(content.subrange(mp, ep)),
            },
        },
    }
}

/// One search hit: the matcher's score, the key that matched, and the URLs
/// registered under it.
#[derive(Debug)]
pub struct SearchHit {
    pub score: i64,
    pub key: String,
    pub urls: Vec<String>,
}

/// Mathematical model of a search hit.
#[verifier::ext_equal]
pub struct SearchHitView {
    pub score: i64,
    pub key: Seq<char>,
    pub urls: Seq<Seq<char>>,
}

impl View for SearchHit {
    type V = SearchHitView;

    open spec fn view(&self) -> SearchHitView {
        SearchHitView { score: self.score, key: self.key@, urls: self.urls.deep_view() }
    }
}

impl DeepView for SearchHit {
    type V = SearchHitView;

    open spec fn deep_view(&self) -> SearchHitView {
        self.view()
    }
}

/// The order on hits: best score first, ties broken by the key.
pub open spec fn spec_hit_le(a: SearchHitView, b: SearchHitView) -> bool {
    if a.score != b.score {
        a.score > b.score
    } else {
        spec_lex_le(a.key, b.key)
    }
}

impl SpecOrdered for SearchHitView {
    open spec fn le_spec(self, other: Self) -> bool {
        spec_hit_le(self, other)
    }

    proof fn lemma_le_total(a: Self, b: Self) {
        lemma_lex_le_total(a.key, b.key);
    }

    proof fn lemma_le_trans(a: Self, b: Self, c: Self) {
        if a.score == b.score && b.score == c.score {
            lemma_lex_le_trans(a.key, b.key, c.key);
        }
    }
}

impl SpecOrdered for SearchHit {
    open spec fn le_spec(self, other: Self) -> bool {
        spec_hit_le(self@, other@)
    }

    proof fn lemma_le_total(a: Self, b: Self) {
        SearchHitView::lemma_le_total(a@, b@);
    }

    proof fn lemma_le_trans(a: Self, b: Self, c: Self) {
        SearchHitView::lemma_le_trans(a@, b@, c@);
    }
}

impl OrderedBy for SearchHit {
    fn le(&self, other: &Self) -> (r: bool) {
        if self.score != other.score {
            self.score > other.score
        } else {
            str_lex_le(self.key.as_str(), other.key.as_str())
        }
    }
}

/// The hits the matcher scores over the index entries, in index order.
pub open spec fn spec_search_hits(
    data: Seq<(Seq<char>, Seq<Seq<char>>)>,
    needle: Seq<char>,
) -> Seq<SearchHitView>
    decreases data.len(),
{
    if data.len() == 0 {
        Seq::empty()
    } else {
        spec_search_hits(data.drop_last(), needle) + match skim_score(data.last().0, needle) {
            Some(s) => seq![
                SearchHitView { score: s, key: data.last().0, urls: data.last().1 },
            ],
            None => Seq::empty(),
        }
    }
}

impl Search {
    /// Scores every key of the index against the needle and returns the
    /// matching keys with their URLs, best score first, ties broken by the
    /// key.
    pub fn search(&self, needle: &str) -> (r: Vec<SearchHit>)
        ensures
            r.deep_view() == spec_sort_le(spec_search_hits(self@.data, needle@)),
    {
        let ghost dv = self@.data;
        let mut collected: Vec<SearchHit> = Vec::new();
        proof {
            assert(collected.deep_view() =~~= spec_search_hits(dv.take(0), needle@));
        }
        let mut i: usize = 0;
        while i < self.data.len()
            invariant
                i <= self.data@.len(),
                dv == self@.data,
                dv.len() == self.data@.len(),
                collected.deep_view() == spec_search_hits(dv.take(i as int), needle@),
            decreases self.data@.len() - i,
        {
            let entry = &self.data[i];
            let ghost ev = dv[i as int];
            proof {
                assert(ev == self.data@[i as int].deep_view());
                assert(dv.take(i + 1).drop_last() =~= dv.take(i as int));
                assert(dv.take(i + 1).last() == ev);
            }
            let ghost oldc = collected.deep_view();
            match skim_fuzzy_match(entry.0.as_str(), needle) {
                Some(score) => {
                    let mut urls: Vec<String> = Vec::new();
                    let mut u: usize = 0;
                    while u < entry.1.len()
                        invariant
                            u <= entry.1@.len(),
                            urls@.len() == u,
                            forall|q: int| 0 <= q < u ==> #[trigger] urls@[q]@ == entry.1@[q]@,
                        decreases entry.1@.len() - u,
                    {
                        urls.push(entry.1[u].clone());
                        u = u + 1;
                    }
                    proof {
                        assert(urls.deep_view() =~~= ev.1);
                    }
                    let hit = SearchHit { score, key: entry.0.clone(), urls };
                    proof {
                        assert(hit@ =~~= SearchHitView { score: score, key: ev.0, urls: ev.1 });
                    }
                    collected.push(hit);
                    proof {
                        assert(forall|q: int|
                            0 <= q < oldc.len() ==> #[trigger] collected.deep_view()[q] == oldc[q]);
                        assert(collected.deep_view() =~~= spec_search_hits(
                            dv.take(i + 1),
                            needle@,
                        ));
                    }
                },
                None => {
                    proof {
                        assert(collected.deep_view() =~~= spec_search_hits(
                            dv.take(i + 1),
                            needle@,
                        ));
                    }
                },
            }
            i = i + 1;
        }
        proof {
            assert(dv.take(dv.len() as int) =~= dv);
        }
        let ghost collected_seq = collected@;
        let sorted = insertion_sort(collected);
        proof {
            assert(forall|a: SearchHit, b: SearchHit| #[trigger]
                a.le_spec(b) == a.deep_view().le_spec(b.deep_view()));
            crate::sorting::lemma_sort_le_views(collected_seq);
            assert(views_of(collected_seq) =~~= spec_search_hits(dv, needle@));
            assert(sorted.deep_view() =~~= views_of(spec_sort_le(collected_seq)));
        }
        sorted
    }
}

} // verus!
