//! League and group rankings from the fixture site's standings tables.
//!
//! The fixture site serves each ranking as an HTML table; the HTML walk
//! happens outside, handing this module the cell texts row by row. Here
//! the rows decode to ranking entries — all or nothing, as one bad row
//! discards the table — and a league or group caches its ranking with the
//! time it was taken, refreshing only once stale.

use crate::beebs::spec_needs_update;
use crate::beebs::CACHE_DURATION_SECS;
use crate::beebs_table::spec_around_range;
use crate::clock::now_unix_seconds;
use crate::strutil::contains_lowered;
use crate::strutil::lowered_chars;
use crate::strutil::parse_i8;
use crate::strutil::parse_u8;
use crate::strutil::spec_is_substring;
use crate::strutil::spec_lower;
use crate::strutil::spec_parse_i8;
use crate::strutil::spec_parse_u8;
use crate::strutil::str_eq;
use vstd::prelude::*;

verus! {

/// One row of a ranking table.
#[derive(Debug)]
pub struct RankingEntry {
    pub rank: u8,
    pub team: String,
    pub _played: u8,
    pub win: u8,
    pub draw: u8,
    pub lose: u8,
    pub gf: u8,
    pub ga: u8,
    pub _gd: i8,
    pub points: u8,
}

/// Mathematical model of a ranking row.
#[verifier::ext_equal]
pub struct RankingEntryView {
    pub rank: u8,
    pub team: Seq<char>,
    pub _played: u8,
    pub win: u8,
    pub draw: u8,
    pub lose: u8,
    pub gf: u8,
    pub ga: u8,
    pub _gd: i8,
    pub points: u8,
}

impl View for RankingEntry {
    type V = RankingEntryView;

    open spec fn view(&self) -> RankingEntryView {
        RankingEntryView {
            rank: self.rank,
            team: self.team@,
            _played: self._played,
            win: self.win,
            draw: self.draw,
            lose: self.lose,
            gf: self.gf,
            ga: self.ga,
            _gd: self._gd,
            points: self.points,
        }
    }
}

impl DeepView for RankingEntry {
    type V = RankingEntryView;

    open spec fn deep_view(&self) -> RankingEntryView {
        self.view()
    }
}

impl Clone for RankingEntry {
    fn clone(&self) -> (r: Self)
        ensures
            r@ == self@,
    {
        RankingEntry {
            rank: self.rank,
            team: self.team.clone(),
            _played: self._played,
            win: self.win,
            draw: self.draw,
            lose: self.lose,
            gf: self.gf,
            ga: self.ga,
            _gd: self._gd,
            points: self.points,
        }
    }
}

/// The row a list of cell texts decodes to, if every numeric cell parses.
/// The cells are, in order: rank, an ignored cell, team, played, wins,
/// draws, losses, goals for, goals against, goal difference, points.
pub open spec fn spec_entry_of_cells(cells: Seq<Seq<char>>) -> Option<RankingEntryView> {
    if cells.len() < 11 {
        None
    } else {
        let rank = spec_parse_u8(cells[0]);
        let played = spec_parse_u8(cells[3]);
        let win = spec_parse_u8(cells[4]);
        let draw = spec_parse_u8(cells[5]);
        let lose = spec_parse_u8(cells[6]);
        let gf = spec_parse_u8(cells[7]);
        let ga = spec_parse_u8(cells[8]);
        let gd = spec_parse_i8(cells[9]);
        let points = spec_parse_u8(cells[10]);
        if rank is Some && played is Some && win is Some && draw is Some && lose is Some
            && gf is Some && ga is Some && gd is Some && points is Some {
            Some(
                RankingEntryView {
                    rank: rank->Some_0,
                    team: cells[2],
                    _played: played->Some_0,
                    win: win->Some_0,
                    draw: draw->Some_0,
                    lose: lose->Some_0,
                    gf: gf->Some_0,
                    ga: ga->Some_0,
                    _gd: gd->Some_0,
                    points: points->Some_0,
                },
            )
        } else {
            None
        }
    }
}

impl RankingEntry {
    /// Decodes one row's cell texts.
    pub fn parse_from_cells(cells: &Vec<String>) -> (r: Option<RankingEntry>)
        ensures
            match r {
                Some(e) => spec_entry_of_cells(cells.deep_view()) == Some(e@),
                None => spec_entry_of_cells(cells.deep_view()) is None,
            },
    {
        if cells.len() < 11 {
            return None;
        }
        proof {
            assert(forall|k: int|
                0 <= k < cells@.len() ==> #[trigger] cells.deep_view()[k] == cells@[k]@);
        }
        let rank = parse_u8(cells[0].as_str());
        let played = parse_u8(cells[3].as_str());
        let win = parse_u8(cells[4].as_str());
        let draw = parse_u8(cells[5].as_str());
        let lose = parse_u8(cells[6].as_str());
        let gf = parse_u8(cells[7].as_str());
        let ga = parse_u8(cells[8].as_str());
        let gd = parse_i8(cells[9].as_str());
        let points = parse_u8(cells[10].as_str());
        match (rank, played, win, draw, lose, gf, ga, gd, points) {
            (
                Some(rank),
                Some(played),
                Some(win),
                Some(draw),
                Some(lose),
                Some(gf),
                Some(ga),
                Some(gd),
                Some(points),
            ) => Some(
                RankingEntry {
                    rank,
                    team: cells[2].clone(),
                    _played: played,
                    win,
                    draw,
                    lose,
                    gf,
                    ga,
                    _gd: gd,
                    points,
                },
            ),
            _ => None,
        }
    }
}

/// The all-or-nothing parse of a table's rows.
pub open spec fn spec_rows_parse(rows: Seq<Seq<Seq<char>>>) -> Option<Seq<RankingEntryView>>
    decreases rows.len(),
{
    if rows.len() == 0 {
        Some(Seq::empty())
    } else {
        match spec_rows_parse(rows.drop_last()) {
            None => None,
            Some(s) => match spec_entry_of_cells(rows.last()) {
                None => None,
                Some(e) => Some(s.push(e)),
            },
        }
    }
}

/// The ranking a table's rows yield: every row decoded, or nothing at all
/// when any row fails.
pub open spec fn spec_parse_ranking(rows: Seq<Seq<Seq<char>>>) -> Seq<RankingEntryView> {
    match spec_rows_parse(rows) {
        Some(s) => s,
        None => Seq::empty(),
    }
}

/// A failed prefix fails the whole table.
proof fn lemma_rows_parse_none(rows: Seq<Seq<Seq<char>>>, i: int)
    requires
        0 <= i <= rows.len(),
        spec_rows_parse(rows.take(i)) is None,
    ensures
        spec_rows_parse(rows) is None,
    decreases rows.len() - i,
{
    if i == rows.len() {
        assert(rows.take(i) =~= rows);
    } else {
        assert(rows.take(i + 1).drop_last() =~= rows.take(i));
        lemma_rows_parse_none(rows, i + 1);
    }
}

/// Decodes a table's rows into a ranking; one bad row discards the table.
pub fn parse_ranking_rows(rows: &Vec<Vec<String>>) -> (r: Vec<RankingEntry>)
    ensures
        r.deep_view() == spec_parse_ranking(rows.deep_view()),
{
    let ghost rv = rows.deep_view();
    let mut out: Vec<RankingEntry> = Vec::new();
    proof {
        assert(rv.take(0) =~= Seq::<Seq<Seq<char>>>::empty());
        assert(out.deep_view() =~~= Seq::<RankingEntryView>::empty());
    }
    let mut i: usize = 0;
    while i < rows.len()
        invariant
            i <= rows@.len(),
            rv == rows.deep_view(),
            rv.len() == rows@.len(),
            spec_rows_parse(rv.take(i as int)) == Some(out.deep_view()),
        decreases rows@.len() - i,
    {
        proof {
            assert(rv[i as int] == rows@[i as int].deep_view());
            assert(rv.take(i + 1).drop_last() =~= rv.take(i as int));
            assert(rv.take(i + 1).last() == rv[i as int]);
        }
        match RankingEntry::parse_from_cells(&rows[i]) {
            Some(e) => {
                let ghost oldo = out.deep_view();
                out.push(e);
                proof {
                    assert(forall|q: int|
                        0 <= q < oldo.len() ==> #[trigger] out.deep_view()[q] == oldo[q]);
                    assert(out.deep_view() =~~= oldo.push(e@));
                }
            },
            None => {
                proof {
                    lemma_rows_parse_none(rv, i + 1);
                }
                let empty: Vec<RankingEntry> = Vec::new();
                proof {
                    assert(empty.deep_view() =~~= spec_parse_ranking(rv));
                }
                return empty;
            },
        }
        i = i + 1;
    }
    proof {
        assert(rv.take(rv.len() as int) =~= rv);
    }
    out
}

/// The position reported for a team: the first row whose team name
/// contains the needle case-insensitively gives its rank less one (zero
/// when that rank is zero); with no such row the position is zero.
pub open spec fn spec_team_position(entries: Seq<RankingEntryView>, needle: Seq<char>) -> int
    decreases entries.len(),
{
    if entries.len() == 0 {
        0
    } else if spec_is_substring(spec_lower(needle), spec_lower(entries[0].team)) {
        if entries[0].rank >= 1 {
            entries[0].rank - 1
        } else {
            0
        }
    } else {
        spec_team_position(entries.drop_first(), needle)
    }
}

/// A cached league ranking: the rows, the page URL, and the time taken.
#[derive(Debug)]
pub struct League {
    pub ranking: Vec<RankingEntry>,
    pub url: String,
    pub last_updated: i64,
}

/// Mathematical model of a cached ranking.
#[verifier::ext_equal]
pub struct RankedTableView {
    pub ranking: Seq<RankingEntryView>,
    pub url: Seq<char>,
    pub last_updated: i64,
}

impl View for League {
    type V = RankedTableView;

    open spec fn view(&self) -> RankedTableView {
        RankedTableView {
            ranking: self.ranking.deep_view(),
            url: self.url@,
            last_updated: self.last_updated,
        }
    }
}

impl League {
    /// A fresh, empty ranking for a page, backdated past the cache
    /// duration so that it is already stale.
    pub fn new(url: String) -> (r: League)
        ensures
            r@.url == url@,
            r@.ranking == Seq::<RankingEntryView>::empty(),
            r@.last_updated <= 9_000_000_000_000 - CACHE_DURATION_SECS - 1,
    {
        let now = now_unix_seconds();
        let r = League { ranking: Vec::new(), url, last_updated: now - CACHE_DURATION_SECS - 1 };
        proof {
            assert(r@.ranking =~~= Seq::<RankingEntryView>::empty());
        }
        r
    }

    /// Whether the ranking is stale at the given time.
    pub fn needs_update_at(&self, now: i64) -> (r: bool)
        ensures
            r == spec_needs_update(self@.last_updated, now as int),
    {
        (now as i128) - (self.last_updated as i128) > CACHE_DURATION_SECS as i128
    }

    /// Whether the ranking is stale now, by the wall clock.
    pub fn needs_update(&self) -> (r: bool)
        ensures
            exists|now: i64|
                #![trigger spec_needs_update(self@.last_updated, now as int)]
                -9_000_000_000_000 <= now <= 9_000_000_000_000 && r == spec_needs_update(
                    self@.last_updated,
                    now as int,
                ),
    {
        let now = now_unix_seconds();
        self.needs_update_at(now)
    }

    /// Remembers that a refresh was attempted at the given time.
    pub fn mark_updated(&mut self, now: i64)
        ensures
            final(self)@ == (RankedTableView {
                ranking: old(self)@.ranking,
                url: old(self)@.url,
                last_updated: now,
            }),
    {
        self.last_updated = now;
    }

    /// Replaces the ranking with a freshly parsed one.
    pub fn apply_update(&mut self, ranking: Vec<RankingEntry>)
        ensures
            final(self)@ == (RankedTableView {
                ranking: ranking.deep_view(),
                url: old(self)@.url,
                last_updated: old(self)@.last_updated,
            }),
    {
        self.ranking = ranking;
    }

    /// Up to six rows around the given position.
    pub fn get_ranking_around(&self, idx: usize) -> (r: Vec<RankingEntry>)
        ensures
            ({
                let (lo, hi) = spec_around_range(self.ranking@.len() as int, idx as int);
                r.deep_view() == self@.ranking.subrange(lo, hi)
            }),
    {
        let len = self.ranking.len();
        let (lo, hi): (usize, usize) = if len <= 6 {
            (0, len)
        } else if idx <= 3 {
            (0, 6)
        } else if idx >= len - 2 {
            (len - 6, len)
        } else {
            (idx - 3, idx + 3)
        };
        let mut out: Vec<RankingEntry> = Vec::new();
        let mut i: usize = lo;
        while i < hi
            invariant
                lo <= i <= hi <= self.ranking@.len(),
                out@.len() == i - lo,
                forall|k: int| 0 <= k < i - lo ==> #[trigger] out@[k]@ == self.ranking@[lo + k]@,
            decreases hi - i,
        {
            out.push(self.ranking[i].clone());
            i = i + 1;
        }
        proof {
            assert(out.deep_view() =~~= self@.ranking.subrange(lo as int, hi as int));
        }
        out
    }

    /// Zero-indexed position of the first team containing the needle,
    /// case-insensitively; zero when nothing is found.
    pub fn find_team_position(&self, needle: &str) -> (r: u8)
        ensures
            r == spec_team_position(self@.ranking, needle@),
    {
        let low = lowered_chars(needle);
        let mut i: usize = 0;
        proof {
            assert(self@.ranking.skip(0) =~= self@.ranking);
        }
        while i < self.ranking.len()
            invariant
                i <= self.ranking@.len(),
                low@ == spec_lower(needle@),
                spec_team_position(self@.ranking, needle@) == spec_team_position(
                    self@.ranking.skip(i as int),
                    needle@,
                ),
            decreases self.ranking@.len() - i,
        {
            let entry = &self.ranking[i];
            proof {
                assert(self@.ranking.skip(i as int)[0] == self.ranking@[i as int]@);
                assert(self@.ranking.skip(i as int).drop_first() =~= self@.ranking.skip(i + 1));
            }
            if contains_lowered(entry.team.as_str(), &low) {
                let rank = entry.rank;
                if rank >= 1 {
                    return rank - 1;
                } else {
                    return 0;
                }
            }
            i = i + 1;
        }
        proof {
            assert(self@.ranking.skip(self@.ranking.len() as int) =~= Seq::<
                RankingEntryView,
            >::empty());
        }
        0
    }
}

/// A cached group ranking, created lazily from its page URL.
#[derive(Debug)]
pub struct Group {
    pub ranking: Vec<RankingEntry>,
    pub url: String,
    pub last_updated: i64,
}

impl View for Group {
    type V = RankedTableView;

    open spec fn view(&self) -> RankedTableView {
        RankedTableView {
            ranking: self.ranking.deep_view(),
            url: self.url@,
            last_updated: self.last_updated,
        }
    }
}

impl DeepView for Group {
    type V = RankedTableView;

    open spec fn deep_view(&self) -> RankedTableView {
        self.view()
    }
}

impl Group {
    /// A fresh, empty ranking for a page, backdated past the cache
    /// duration so that it is already stale.
    pub fn new(url: String) -> (r: Group)
        ensures
            r@.url == url@,
            r@.ranking == Seq::<RankingEntryView>::empty(),
            r@.last_updated <= 9_000_000_000_000 - CACHE_DURATION_SECS - 1,
    {
        let now = now_unix_seconds();
        let r = Group { ranking: Vec::new(), url, last_updated: now - CACHE_DURATION_SECS - 1 };
        proof {
            assert(r@.ranking =~~= Seq::<RankingEntryView>::empty());
        }
        r
    }

    /// Whether the ranking is stale at the given time.
    pub fn needs_update_at(&self, now: i64) -> (r: bool)
        ensures
            r == spec_needs_update(self@.last_updated, now as int),
    {
        (now as i128) - (self.last_updated as i128) > CACHE_DURATION_SECS as i128
    }

    /// Whether the ranking is stale now, by the wall clock.
    pub fn needs_update(&self) -> (r: bool)
        ensures
            exists|now: i64|
                #![trigger spec_needs_update(self@.last_updated, now as int)]
                -9_000_000_000_000 <= now <= 9_000_000_000_000 && r == spec_needs_update(
                    self@.last_updated,
                    now as int,
                ),
    {
        let now = now_unix_seconds();
        self.needs_update_at(now)
    }

    /// Remembers that a refresh was attempted at the given time.
    pub fn mark_updated(&mut self, now: i64)
        ensures
            final(self)@ == (RankedTableView {
                ranking: old(self)@.ranking,
                url: old(self)@.url,
                last_updated: now,
            }),
    {
        self.last_updated = now;
    }

    /// Replaces the ranking with a freshly parsed one.
    pub fn apply_update(&mut self, ranking: Vec<RankingEntry>)
        ensures
            final(self)@ == (RankedTableView {
                ranking: ranking.deep_view(),
                url: old(self)@.url,
                last_updated: old(self)@.last_updated,
            }),
    {
        self.ranking = ranking;
    }

    /// All rows of the ranking.
    pub fn get_ranking(&self) -> (r: &Vec<RankingEntry>)
        ensures
            r == &self.ranking,
    {
        &self.ranking
    }
}

/// A competition's groups, keyed by group name.
#[derive(Debug)]
pub struct Competition {
    pub groups: Vec<(String, Group)>,
}

impl View for Competition {
    type V = Seq<(Seq<char>, RankedTableView)>;

    open spec fn view(&self) -> Seq<(Seq<char>, RankedTableView)> {
        self.groups.deep_view()
    }
}

/// The first group registered under a name.
pub open spec fn spec_lookup_group(
    groups: Seq<(Seq<char>, RankedTableView)>,
    id: Seq<char>,
) -> Option<RankedTableView>
    decreases groups.len(),
{
    if groups.len() == 0 {
        None
    } else if groups[0].0 == id {
        Some(groups[0].1)
    } else {
        spec_lookup_group(groups.drop_first(), id)
    }
}

impl Competition {
    /// Builds a competition from its group names and page URLs, one fresh
    /// group per pair, in the given order.
    pub fn new(group_config: &Vec<(String, String)>) -> (r: Competition)
        ensures
            r@.len() == group_config@.len(),
            forall|k: int|
                0 <= k < group_config@.len() ==> (#[trigger] r@[k]).0 == group_config@[k].0@
                    && r@[k].1.url == group_config@[k].1@ && r@[k].1.ranking == Seq::<
                    RankingEntryView,
                >::empty(),
    {
        let mut groups: Vec<(String, Group)> = Vec::new();
        let mut i: usize = 0;
        while i < group_config.len()
            invariant
                i <= group_config@.len(),
                groups@.len() == i,
                forall|k: int|
                    0 <= k < i ==> (#[trigger] groups.deep_view()[k]).0 == group_config@[k].0@
                        && groups.deep_view()[k].1.url == group_config@[k].1@
                        && groups.deep_view()[k].1.ranking == Seq::<RankingEntryView>::empty(),
            decreases group_config@.len() - i,
        {
            let pair = &group_config[i];
            let g = Group::new(pair.1.clone());
            let ghost gview = g@;
            let ghost oldg = groups.deep_view();
            groups.push((pair.0.clone(), g));
            proof {
                assert(forall|k: int|
                    0 <= k < oldg.len() ==> #[trigger] groups.deep_view()[k] == oldg[k]);
                assert(groups.deep_view()[oldg.len() as int] == (pair.0@, gview));
            }
            i = i + 1;
        }
        Competition { groups }
    }

    /// The first group registered under the given name.
    pub fn get_group(&self, group_id: &str) -> (r: Option<&Group>)
        ensures
            match r {
                Some(g) => spec_lookup_group(self@, group_id@) == Some(g@),
                None => spec_lookup_group(self@, group_id@) is None,
            },
    {
        let ghost gv = self@;
        let mut i: usize = 0;
        proof {
            assert(gv.skip(0) =~= gv);
        }
        while i < self.groups.len()
            invariant
                i <= self.groups@.len(),
                gv == self@,
                gv.len() == self.groups@.len(),
                spec_lookup_group(gv, group_id@) == spec_lookup_group(gv.skip(i as int), group_id@),
            decreases self.groups@.len() - i,
        {
            let entry = &self.groups[i];
            proof {
                assert(gv.skip(i as int)[0] == gv[i as int]);
                assert(gv[i as int] == self.groups@[i as int].deep_view());
                assert(gv.skip(i as int).drop_first() =~= gv.skip(i + 1));
            }
            if str_eq(entry.0.as_str(), group_id) {
                return Some(&entry.1);
            }
            i = i + 1;
        }
        proof {
            assert(gv.skip(gv.len() as int) =~= Seq::<(Seq<char>, RankedTableView)>::empty());
        }
        None
    }
}

} // verus!
