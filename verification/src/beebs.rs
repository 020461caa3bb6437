//! The standings site's league tables, cached and searchable.
//!
//! A fetched standings page yields league tables and a search index; the
//! tables are cached under the page's URL and refreshed only once they are
//! older than the cache duration. What the clock says comes from the clock
//! wrappers; every decision over a reading is verified for all readings.

use crate::beebs_search::spec_search_hits;
use crate::beebs_search::Search;
use crate::beebs_search::SearchView;
use crate::beebs_table::League;
use crate::beebs_table::LeagueView;
use crate::clock::now_unix_seconds;
use crate::sorting::spec_sort_le;
use crate::strutil::str_eq;
use vstd::prelude::*;

verus! {

/// How long cached tables stay fresh, in seconds.
pub const CACHE_DURATION_SECS: i64 = 600;

/// The league tables of one standings page, with the page's URL and the
/// time they were taken.
#[derive(Debug)]
pub struct CachedLeagues {
    pub leagues: Vec<League>,
    pub url: String,
    pub last_updated: i64,
}

/// Mathematical model of a cache entry.
#[verifier::ext_equal]
pub struct CachedLeaguesView {
    pub leagues: Seq<LeagueView>,
    pub url: Seq<char>,
    pub last_updated: i64,
}

impl View for CachedLeagues {
    type V = CachedLeaguesView;

    open spec fn view(&self) -> CachedLeaguesView {
        CachedLeaguesView {
            leagues: self.leagues.deep_view(),
            url: self.url@,
            last_updated: self.last_updated,
        }
    }
}

impl DeepView for CachedLeagues {
    type V = CachedLeaguesView;

    open spec fn deep_view(&self) -> CachedLeaguesView {
        self.view()
    }
}

/// A cache entry is stale once more than the cache duration has passed.
pub open spec fn spec_needs_update(last_updated: i64, now: int) -> bool {
    now - last_updated > CACHE_DURATION_SECS
}

impl CachedLeagues {
    /// A fresh cache entry holding the given tables, taken now.
    pub fn new(url: &str, leagues: Vec<League>) -> (r: CachedLeagues)
        ensures
            r@.url == url@,
            r@.leagues == leagues.deep_view(),
            -9_000_000_000_000 <= r@.last_updated <= 9_000_000_000_000,
    {
        let now = now_unix_seconds();
        CachedLeagues { leagues, url: url.to_owned(), last_updated: now }
    }

    /// An empty cache entry, backdated so that it is already stale.
    pub fn empty(url: &str) -> (r: CachedLeagues)
        ensures
            r@.url == url@,
            r@.leagues == Seq::<LeagueView>::empty(),
            r@.last_updated <= 9_000_000_000_000 - 2 * CACHE_DURATION_SECS,
    {
        let now = now_unix_seconds();
        let r = CachedLeagues {
            leagues: Vec::new(),
            url: url.to_owned(),
            last_updated: now - 2 * CACHE_DURATION_SECS,
        };
        proof {
            assert(r@.leagues =~~= Seq::<LeagueView>::empty());
        }
        r
    }

    /// Whether the entry is stale at the given time.
    pub fn needs_update_at(&self, now: i64) -> (r: bool)
        ensures
            r == spec_needs_update(self@.last_updated, now as int),
    {
        (now as i128) - (self.last_updated as i128) > CACHE_DURATION_SECS as i128
    }

    /// Whether the entry is stale now, by the wall clock.
    pub fn needs_update(&self) -> (r: bool)
        ensures
            exists|now: i64|
                #![trigger spec_needs_update(self@.last_updated, now as int)]
                -9_000_000_000_000 <= now <= 9_000_000_000_000 && r == spec_needs_update(
                    self@.last_updated,
                    now as int,
                ),
    {
        let now = now_unix_seconds();
        self.needs_update_at(now)
    }

    /// Replaces the cached tables with freshly fetched ones, but only when
    /// at least as many were fetched as are held; the entry then remembers
    /// the given time.
    pub fn apply_update(&mut self, leagues: Vec<League>, now: i64)
        ensures
            old(self)@.leagues.len() <= leagues.deep_view().len() ==> final(self)@
                == (CachedLeaguesView {
                leagues: leagues.deep_view(),
                url: old(self)@.url,
                last_updated: now,
            }),
            old(self)@.leagues.len() > leagues.deep_view().len() ==> final(self)@ == old(self)@,
    {
        if self.leagues.len() <= leagues.len() {
            self.leagues = leagues;
            self.last_updated = now;
        }
    }

    /// The cached table at the given index, if there is one.
    pub fn get(&self, idx: usize) -> (r: Option<&League>)
        ensures
            match r {
                Some(l) => idx < self@.leagues.len() && l@ == self@.leagues[idx as int],
                None => idx >= self@.leagues.len(),
            },
    {
        if idx < self.leagues.len() {
            Some(&self.leagues[idx])
        } else {
            None
        }
    }
}

/// The standings site: cached tables keyed by page URL, and the search
/// index over competition names.
#[derive(Debug)]
pub struct Beebs {
    pub leagues: Vec<(String, CachedLeagues)>,
    pub search: Search,
}

/// Mathematical model of the standings site's state.
#[verifier::ext_equal]
pub struct BeebsView {
    pub leagues: Seq<(Seq<char>, CachedLeaguesView)>,
    pub search: SearchView,
}

impl View for Beebs {
    type V = BeebsView;

    open spec fn view(&self) -> BeebsView {
        BeebsView { leagues: self.leagues.deep_view(), search: self.search@ }
    }
}

/// The first cache entry registered under a URL.
pub open spec fn spec_lookup_leagues(
    leagues: Seq<(Seq<char>, CachedLeaguesView)>,
    url: Seq<char>,
) -> Option<CachedLeaguesView>
    decreases leagues.len(),
{
    if leagues.len() == 0 {
        None
    } else if leagues[0].0 == url {
        Some(leagues[0].1)
    } else {
        spec_lookup_leagues(leagues.drop_first(), url)
    }
}

/// The league a query resolves to: the best search hit's first URL, looked
/// up in the cache, giving that entry's first table.
pub open spec fn spec_get_league(b: BeebsView, query: Seq<char>) -> Option<LeagueView> {
    let hits = spec_sort_le(spec_search_hits(b.search.data, query));
    if hits.len() == 0 {
        None
    } else if hits[0].urls.len() == 0 {
        None
    } else {
        match spec_lookup_leagues(b.leagues, hits[0].urls[0]) {
            None => None,
            Some(cl) => if cl.leagues.len() > 0 {
                Some(cl.leagues[0])
            } else {
                None
            },
        }
    }
}

impl Beebs {
    /// Builds the site's state from one page's tables and search index,
    /// registered under the page's URL.
    pub fn assemble(url: &str, cached: CachedLeagues, search: Search) -> (r: Beebs)
        ensures
            r@.leagues.len() == 1,
            r@.leagues[0].0 == url@,
            r@.leagues[0].1 == cached@,
            r@.search == search@,
    {
        let ghost cview = cached@;
        let mut leagues: Vec<(String, CachedLeagues)> = Vec::new();
        leagues.push((url.to_owned(), cached));
        let r = Beebs { leagues, search };
        proof {
            assert(r@.leagues[0].1 =~~= cview);
        }
        r
    }

    /// Resolves a query to the first table of the best-matching page.
    pub fn get_league(&self, query: &str) -> (r: Option<&League>)
        ensures
            match r {
                Some(l) => spec_get_league(self@, query@) == Some(l@),
                None => spec_get_league(self@, query@) is None,
            },
    {
        let results = self.search.search(query);
        if results.len() == 0 {
            return None;
        }
        proof {
            assert(results.deep_view()[0] == results@[0]@);
        }
        let first = &results[0];
        if first.urls.len() == 0 {
            proof {
                assert(results.deep_view()[0].urls.len() == 0);
            }
            return None;
        }
        let url = &first.urls[0];
        proof {
            assert(results.deep_view()[0].urls[0] == first.urls@[0]@);
        }
        let ghost lv = self@.leagues;
        let mut i: usize = 0;
        proof {
            assert(lv.skip(0) =~= lv);
        }
        while i < self.leagues.len()
            invariant
                i <= self.leagues@.len(),
                lv == self@.leagues,
                lv.len() == self.leagues@.len(),
                spec_lookup_leagues(lv, url@) == spec_lookup_leagues(lv.skip(i as int), url@),
                ({
                    let hits = spec_sort_le(spec_search_hits(self@.search.data, query@));
                    hits.len() > 0 && hits[0].urls.len() > 0 && hits[0].urls[0] == url@
                }),
            decreases self.leagues@.len() - i,
        {
            let entry = &self.leagues[i];
            proof {
                assert(lv.skip(i as int)[0] == lv[i as int]);
                assert(lv[i as int] == self.leagues@[i as int].deep_view());
                assert(lv.skip(i as int).drop_first() =~= lv.skip(i + 1));
            }
            if str_eq(entry.0.as_str(), url.as_str()) {
                return entry.1.get(0);
            }
            i = i + 1;
        }
        proof {
            assert(lv.skip(lv.len() as int) =~= Seq::<(Seq<char>, CachedLeaguesView)>::empty());
        }
        None
    }
}

} // verus!
