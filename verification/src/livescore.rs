//! The feed's raw records and the normalizer.
//!
//! A fetch window yields a flat list of stages, one per (country,
//! competition) pair, each with its raw game entries. The normalizer sorts
//! the stages by a fixed priority comparator and walks them once, closing
//! and opening competitions and countries as the names change, to build
//! the `Football` tree. Status codes are classified by exact lookup and
//! never fail; a game whose start-time code does not decode is dropped; a
//! competition or country left without children is dropped at closing. The
//! proved tree invariants: no empty node, and sibling names are unique.

use crate::generic_structs::Competition;
use crate::generic_structs::CompetitionView;
use crate::generic_structs::Country;
use crate::generic_structs::CountryView;
use crate::generic_structs::Football;
use crate::generic_structs::Game;
use crate::generic_structs::GameStatus;
use crate::generic_structs::GameStatusView;
use crate::generic_structs::GameView;
use crate::sorting::insertion_sort;
use crate::sorting::spec_sort_le;
use crate::sorting::OrderedBy;
use crate::sorting::SpecOrdered;
use crate::strutil::lemma_lex_le_antisym;
use crate::strutil::lemma_lex_le_total;
use crate::strutil::lemma_lex_le_trans;
use crate::strutil::spec_lex_le;
use crate::strutil::spec_parse_u8;
use crate::strutil::parse_u8;
use crate::strutil::str_eq;
use crate::strutil::str_lex_le;
use crate::time::spec_code_valid;
use crate::time::spec_datetime_of_code;
use crate::time::DateTime;
use vstd::prelude::*;

verus! {

/// A team as the feed carries it: just a name.
#[derive(Debug)]
pub struct LiveScoreTeam {
    pub name: String,
}

impl View for LiveScoreTeam {
    type V = Seq<char>;

    open spec fn view(&self) -> Seq<char> {
        self.name@
    }
}

impl DeepView for LiveScoreTeam {
    type V = Seq<char>;

    open spec fn deep_view(&self) -> Seq<char> {
        self.name@
    }
}

/// A raw game entry of one stage: status code, numeric start-time code,
/// one-element-or-empty team lists, and optional score strings.
#[derive(Debug)]
pub struct LiveScoreGames {
    pub time: String,
    pub start_time: u64,
    pub home: Vec<LiveScoreTeam>,
    pub away: Vec<LiveScoreTeam>,
    pub home_score: Option<String>,
    pub away_score: Option<String>,
}

/// Mathematical model of a raw game entry.
#[verifier::ext_equal]
pub struct RawGameView {
    pub time: Seq<char>,
    pub start_time: u64,
    pub home: Seq<Seq<char>>,
    pub away: Seq<Seq<char>>,
    pub home_score: Option<Seq<char>>,
    pub away_score: Option<Seq<char>>,
}

impl View for LiveScoreGames {
    type V = RawGameView;

    open spec fn view(&self) -> RawGameView {
        RawGameView {
            time: self.time@,
            start_time: self.start_time,
            home: self.home.deep_view(),
            away: self.away.deep_view(),
            home_score: self.home_score.deep_view(),
            away_score: self.away_score.deep_view(),
        }
    }
}

impl DeepView for LiveScoreGames {
    type V = RawGameView;

    open spec fn deep_view(&self) -> RawGameView {
        self.view()
    }
}

/// One raw stage: a (country, competition) pair with its games.
#[derive(Debug)]
pub struct LiveScoreStage {
    pub country_name: String,
    pub competition_name: String,
    pub games: Vec<LiveScoreGames>,
}

/// Mathematical model of a stage.
#[verifier::ext_equal]
pub struct StageView {
    pub country_name: Seq<char>,
    pub competition_name: Seq<char>,
    pub games: Seq<RawGameView>,
}

impl View for LiveScoreStage {
    type V = StageView;

    open spec fn view(&self) -> StageView {
        StageView {
            country_name: self.country_name@,
            competition_name: self.competition_name@,
            games: self.games.deep_view(),
        }
    }
}

impl DeepView for LiveScoreStage {
    type V = StageView;

    open spec fn deep_view(&self) -> StageView {
        self.view()
    }
}

/// A whole fetch window: the flat list of stages.
#[derive(Debug)]
pub struct LiveScore {
    pub stages: Vec<LiveScoreStage>,
}

/// The error a status-code parse could report. No code actually produces
/// it: unmapped codes classify as an ongoing game by design.
#[derive(Debug, Clone)]
pub struct ParseGameStatusError;

/// Classification of a raw status code: the exact table, with every
/// unmapped non-empty code falling back to an ongoing game labelled by the
/// code itself.
pub open spec fn spec_status_of(s: Seq<char>) -> GameStatusView {
    if s == "NS"@ {
        GameStatusView::Upcoming
    } else if s == "FT"@ || s == "AET"@ || s == "AP"@ {
        GameStatusView::Ended
    } else if s == "Postp."@ {
        GameStatusView::Postponed
    } else if s == "Canc."@ || s == "Aband."@ {
        GameStatusView::Cancelled
    } else {
        GameStatusView::Ongoing(s)
    }
}

impl GameStatus {
    /// Classifies a raw status code; never fails.
    pub fn parse_from_livescore(s: &str) -> (r: Result<GameStatus, ParseGameStatusError>)
        ensures
            r is Ok,
            r matches Ok(st) ==> st@ == spec_status_of(s@),
    {
        if str_eq(s, "NS") {
            Ok(GameStatus::Upcoming)
        } else if str_eq(s, "FT") || str_eq(s, "AET") || str_eq(s, "AP") {
            Ok(GameStatus::Ended)
        } else if str_eq(s, "Postp.") {
            Ok(GameStatus::Postponed)
        } else if str_eq(s, "Canc.") || str_eq(s, "Aband.") {
            Ok(GameStatus::Cancelled)
        } else {
            Ok(GameStatus::Ongoing(s.to_owned()))
        }
    }
}

/// Rank of a country name in the priority table: the index of the first
/// table row whose country matches, 100 when none does. The table ranks
/// the global tournaments, then the top European leagues' countries.
pub open spec fn spec_country_rank(name: Seq<char>) -> int {
    if name == "World Cup"@ {
        0
    } else if name == "Euro 2020"@ {
        1
    } else if name == "Copa America"@ {
        2
    } else if name == "EURO"@ {
        3
    } else if name == "Champions League"@ {
        4
    } else if name == "Europa League"@ {
        5
    } else if name == "Europa Conference League"@ {
        6
    } else if name == "England"@ {
        7
    } else if name == "Germany"@ {
        8
    } else if name == "Spain"@ {
        9
    } else if name == "Italy"@ {
        10
    } else if name == "Belgium"@ {
        11
    } else if name == "France"@ {
        13
    } else {
        100
    }
}

/// Rank of a competition name in the priority table: the index of the
/// first table row whose competition matches, 100 when none does. The
/// global tournaments' rows carry an empty competition name, so the empty
/// name ranks first.
pub open spec fn spec_competition_rank(name: Seq<char>) -> int {
    if name == ""@ {
        0
    } else if name == "Premier League"@ {
        7
    } else if name == "Bundesliga"@ {
        8
    } else if name == "LaLiga Santander"@ {
        9
    } else if name == "Serie A"@ {
        10
    } else if name == "First Division A"@ {
        11
    } else if name == "Cup"@ {
        12
    } else if name == "Ligue 1"@ {
        13
    } else if name == "Sky Bet Championship"@ {
        14
    } else if name == "First Division B"@ {
        15
    } else {
        100
    }
}

/// Rank of a country name in the priority table.
pub fn country_rank(name: &str) -> (r: u32)
    ensures
        r == spec_country_rank(name@),
{
    if str_eq(name, "World Cup") {
        0
    } else if str_eq(name, "Euro 2020") {
        1
    } else if str_eq(name, "Copa America") {
        2
    } else if str_eq(name, "EURO") {
        3
    } else if str_eq(name, "Champions League") {
        4
    } else if str_eq(name, "Europa League") {
        5
    } else if str_eq(name, "Europa Conference League") {
        6
    } else if str_eq(name, "England") {
        7
    } else if str_eq(name, "Germany") {
        8
    } else if str_eq(name, "Spain") {
        9
    } else if str_eq(name, "Italy") {
        10
    } else if str_eq(name, "Belgium") {
        11
    } else if str_eq(name, "France") {
        13
    } else {
        100
    }
}

/// Rank of a competition name in the priority table.
pub fn competition_rank(name: &str) -> (r: u32)
    ensures
        r == spec_competition_rank(name@),
{
    if str_eq(name, "") {
        0
    } else if str_eq(name, "Premier League") {
        7
    } else if str_eq(name, "Bundesliga") {
        8
    } else if str_eq(name, "LaLiga Santander") {
        9
    } else if str_eq(name, "Serie A") {
        10
    } else if str_eq(name, "First Division A") {
        11
    } else if str_eq(name, "Cup") {
        12
    } else if str_eq(name, "Ligue 1") {
        13
    } else if str_eq(name, "Sky Bet Championship") {
        14
    } else if str_eq(name, "First Division B") {
        15
    } else {
        100
    }
}

/// The priority order on stages: country rank first, equally ranked
/// countries alphabetically, then within one country the competition rank,
/// remaining ties broken alphabetically by competition name. The
/// competition rank only ever orders stages of one country: were it
/// compared across countries, two unranked countries could interleave
/// whenever one of them runs a competition with a ranked name, and the
/// grouping walk would then emit the same country twice — the tree's
/// sibling names are required to be unique.
pub open spec fn spec_stage_le(a: StageView, b: StageView) -> bool {
    let ca = spec_country_rank(a.country_name);
    let cb = spec_country_rank(b.country_name);
    if ca != cb {
        ca < cb
    } else if a.country_name != b.country_name {
        spec_lex_le(a.country_name, b.country_name)
    } else {
        let pa = spec_competition_rank(a.competition_name);
        let pb = spec_competition_rank(b.competition_name);
        if pa != pb {
            pa < pb
        } else {
            spec_lex_le(a.competition_name, b.competition_name)
        }
    }
}

impl SpecOrdered for LiveScoreStage {
    open spec fn le_spec(self, other: Self) -> bool {
        spec_stage_le(self@, other@)
    }

    proof fn lemma_le_total(a: Self, b: Self) {
        lemma_lex_le_total(a@.country_name, b@.country_name);
        lemma_lex_le_total(a@.competition_name, b@.competition_name);
    }

    proof fn lemma_le_trans(a: Self, b: Self, c: Self) {
        let (an, bn, cn) = (a@.country_name, b@.country_name, c@.country_name);
        let (am, bm, cm) = (a@.competition_name, b@.competition_name, c@.competition_name);
        if spec_country_rank(an) == spec_country_rank(bn) && spec_country_rank(bn)
            == spec_country_rank(cn) {
            if an != bn && bn != cn {
                lemma_lex_le_trans(an, bn, cn);
                if an == cn {
                    lemma_lex_le_antisym(an, bn);
                }
            } else if an == bn && bn == cn {
                if spec_competition_rank(am) == spec_competition_rank(bm)
                    && spec_competition_rank(bm) == spec_competition_rank(cm) {
                    if am != bm && bm != cm {
                        lemma_lex_le_trans(am, bm, cm);
                        if am == cm {
                            lemma_lex_le_antisym(am, bm);
                        }
                    }
                }
            }
        }
    }

}

impl OrderedBy for LiveScoreStage {
    fn le(&self, other: &Self) -> (r: bool) {
        let ca = country_rank(self.country_name.as_str());
        let cb = country_rank(other.country_name.as_str());
        if ca != cb {
            ca < cb
        } else if !str_eq(self.country_name.as_str(), other.country_name.as_str()) {
            str_lex_le(self.country_name.as_str(), other.country_name.as_str())
        } else {
            let pa = competition_rank(self.competition_name.as_str());
            let pb = competition_rank(other.competition_name.as_str());
            if pa != pb {
                pa < pb
            } else {
                str_lex_le(self.competition_name.as_str(), other.competition_name.as_str())
            }
        }
    }
}

impl LiveScore {
    /// Concatenates another fetch window's stages onto this one.
    pub fn union(&mut self, other: LiveScore)
        ensures
            final(self).stages@ == old(self).stages@ + other.stages@,
    {
        let mut o = other;
        self.stages.append(&mut o.stages);
    }

    /// Sorts the stages by the priority comparator, stably.
    pub fn sort_by_priority(&mut self)
        ensures
            final(self).stages@ == spec_sort_le(old(self).stages@),
    {
        let mut tmp: Vec<LiveScoreStage> = Vec::new();
        core::mem::swap(&mut tmp, &mut self.stages);
        self.stages = insertion_sort(tmp);
    }
}

/// The home or away team name: the first listed name, or the placeholder
/// when the source listed none.
pub open spec fn spec_team_or(names: Seq<Seq<char>>, fallback: Seq<char>) -> Seq<char> {
    if names.len() > 0 {
        names[0]
    } else {
        fallback
    }
}

/// The parse of an optional score string; an absent or unparsable score is
/// no score.
pub open spec fn spec_score_of(s: Option<Seq<char>>) -> Option<u8> {
    match s {
        Some(t) => spec_parse_u8(t),
        None => None,
    }
}

/// The normalized game a raw entry yields, or nothing when its start-time
/// code does not decode (that game is dropped).
pub open spec fn spec_game_of(g: RawGameView) -> Option<GameView> {
    if spec_code_valid(g.start_time) {
        Some(
            GameView {
                home_team: spec_team_or(g.home, "No home team"@),
                away_team: spec_team_or(g.away, "No away team"@),
                home_score: spec_score_of(g.home_score),
                away_score: spec_score_of(g.away_score),
                start_time: spec_datetime_of_code(g.start_time),
                status: spec_status_of(g.time),
            },
        )
    } else {
        None
    }
}

/// The normalized games of one stage, in order, dropped entries omitted.
pub open spec fn spec_games_of(games: Seq<RawGameView>) -> Seq<GameView>
    decreases games.len(),
{
    if games.len() == 0 {
        Seq::empty()
    } else {
        spec_games_of(games.drop_last()) + match spec_game_of(games.last()) {
            Some(g) => seq![g],
            None => Seq::empty(),
        }
    }
}

/// The grouping walk's running state: the closed countries, the open
/// country and the open competition.
#[verifier::ext_equal]
pub struct GroupState {
    pub done: Seq<CountryView>,
    pub country: CountryView,
    pub comp: CompetitionView,
}

/// A closing competition joins its country only when it kept any games,
/// and a closing country joins the result only when it kept any
/// competitions: empty nodes never appear in a normalized tree.
pub open spec fn spec_close_comp(country: CountryView, comp: CompetitionView) -> CountryView {
    CountryView {
        name: country.name,
        competitions: if comp.games.len() > 0 {
            country.competitions.push(comp)
        } else {
            country.competitions
        },
    }
}

/// One step of the grouping walk over a sorted stage list. When the stage
/// names a different competition or country, the open competition closes
/// into the open country; when it names a different country, the open
/// country also closes into the result. The two tests are separate so that
/// same-named competitions of adjacent countries never merge. A node left
/// empty is dropped at closing. The stage's games always land in the
/// competition that is open afterwards.
pub open spec fn spec_group_step(st: GroupState, stage: StageView) -> GroupState {
    let st1 = if stage.competition_name != st.comp.name || stage.country_name != st.country.name {
        let closed = spec_close_comp(st.country, st.comp);
        if stage.country_name != st.country.name {
            GroupState {
                done: if closed.competitions.len() > 0 {
                    st.done.push(closed)
                } else {
                    st.done
                },
                country: CountryView { name: stage.country_name, competitions: Seq::empty() },
                comp: CompetitionView { name: stage.competition_name, games: Seq::empty() },
            }
        } else {
            GroupState {
                done: st.done,
                country: closed,
                comp: CompetitionView { name: stage.competition_name, games: Seq::empty() },
            }
        }
    } else {
        st
    };
    GroupState {
        done: st1.done,
        country: st1.country,
        comp: CompetitionView {
            name: st1.comp.name,
            games: st1.comp.games + spec_games_of(stage.games),
        },
    }
}

/// The state before any stage is processed: both the first stage's
/// competition and country stand open and empty.
pub open spec fn spec_group_init(stages: Seq<StageView>) -> GroupState {
    GroupState {
        done: Seq::empty(),
        country: CountryView { name: stages[0].country_name, competitions: Seq::empty() },
        comp: CompetitionView { name: stages[0].competition_name, games: Seq::empty() },
    }
}

/// The grouping state after the first `i` stages.
pub open spec fn spec_group_state(stages: Seq<StageView>, i: int) -> GroupState
    decreases i,
{
    if i <= 0 {
        spec_group_init(stages)
    } else {
        spec_group_step(spec_group_state(stages, i - 1), stages[i - 1])
    }
}

/// The grouping of a sorted stage list: walk all stages, then flush the
/// open competition and country, dropping either when it stayed empty.
pub open spec fn spec_group(stages: Seq<StageView>) -> Seq<CountryView> {
    if stages.len() == 0 {
        Seq::empty()
    } else {
        let st = spec_group_state(stages, stages.len() as int);
        let closed = spec_close_comp(st.country, st.comp);
        if closed.competitions.len() > 0 {
            st.done.push(closed)
        } else {
            st.done
        }
    }
}

/// The views of a stage list.
pub open spec fn spec_stage_views(stages: Seq<LiveScoreStage>) -> Seq<StageView> {
    stages.map_values(|s: LiveScoreStage| s@)
}

/// The whole normalizer: priority-sort the stages, then group them.
pub open spec fn spec_parse_livescore(stages: Seq<LiveScoreStage>) -> Seq<CountryView> {
    spec_group(spec_stage_views(spec_sort_le(stages)))
}

/// Normalizes a fetch window into the country/competition/game tree:
/// sorts the stages by the priority comparator and groups them, mapping
/// each raw game's status and start-time code and dropping games whose
/// code does not decode.
pub fn parse_livescore(livescore: LiveScore) -> (r: Football)
    ensures
        r@.countries == spec_parse_livescore(livescore.stages@),
{
    let ghost input = livescore.stages@;
    if livescore.stages.len() == 0 {
        let empty = Football { countries: Vec::new() };
        proof {
            assert(spec_sort_le(input) =~= Seq::<LiveScoreStage>::empty());
            assert(spec_stage_views(spec_sort_le(input)).len() == 0);
            assert(empty@.countries =~= spec_parse_livescore(input));
        }
        return empty;
    }
    let sorted = insertion_sort(livescore.stages);
    let ghost svs = spec_stage_views(sorted@);
    proof {
        crate::sorting::lemma_sort_le_ensures(input);
        assert(svs.len() == sorted@.len());
    }
    let mut result: Vec<Country> = Vec::new();
    let mut current_competition = Competition {
        name: sorted[0].competition_name.clone(),
        games: Vec::new(),
    };
    let mut current_country = Country {
        name: sorted[0].country_name.clone(),
        competitions: Vec::new(),
    };
    proof {
        assert(svs[0] == sorted@[0]@);
        assert(current_competition@ =~= spec_group_state(svs, 0).comp);
        assert(current_country@ =~= spec_group_state(svs, 0).country);
        assert(result.deep_view() =~= spec_group_state(svs, 0).done);
    }
    let mut i: usize = 0;
    while i < sorted.len()
        invariant
            sorted@ == spec_sort_le(input),
            svs == spec_stage_views(sorted@),
            0 < svs.len() == sorted@.len(),
            i <= sorted@.len(),
            result.deep_view() == spec_group_state(svs, i as int).done,
            current_country@ == spec_group_state(svs, i as int).country,
            current_competition@ == spec_group_state(svs, i as int).comp,
        decreases sorted@.len() - i,
    {
        let ghost pre = spec_group_state(svs, i as int);
        let ghost post = spec_group_state(svs, i + 1);
        proof {
            assert(post == spec_group_step(pre, svs[i as int]));
            assert(svs[i as int] == sorted@[i as int]@);
        }
        let stage = &sorted[i];
        let same_comp = str_eq(stage.competition_name.as_str(), current_competition.name.as_str());
        let same_country = str_eq(stage.country_name.as_str(), current_country.name.as_str());
        if !same_comp || !same_country {
            if current_competition.games.len() > 0 {
                current_country.competitions.push(current_competition);
            }
            current_competition = Competition {
                name: stage.competition_name.clone(),
                games: Vec::new(),
            };
            proof {
                assert(current_competition@.games =~= Seq::<GameView>::empty());
            }
            if !same_country {
                if current_country.competitions.len() > 0 {
                    result.push(current_country);
                }
                current_country = Country {
                    name: stage.country_name.clone(),
                    competitions: Vec::new(),
                };
                proof {
                    assert(current_country@.competitions =~= Seq::<CompetitionView>::empty());
                }
            }
        }
        // the state after closing and opening, before this stage's games
        let ghost mid = if svs[i as int].competition_name != pre.comp.name
            || svs[i as int].country_name != pre.country.name {
            let closed = spec_close_comp(pre.country, pre.comp);
            if svs[i as int].country_name != pre.country.name {
                GroupState {
                    done: if closed.competitions.len() > 0 {
                        pre.done.push(closed)
                    } else {
                        pre.done
                    },
                    country: CountryView {
                        name: svs[i as int].country_name,
                        competitions: Seq::empty(),
                    },
                    comp: CompetitionView {
                        name: svs[i as int].competition_name,
                        games: Seq::empty(),
                    },
                }
            } else {
                GroupState {
                    done: pre.done,
                    country: closed,
                    comp: CompetitionView {
                        name: svs[i as int].competition_name,
                        games: Seq::empty(),
                    },
                }
            }
        } else {
            pre
        };
        proof {
            assert(result.deep_view() =~~= mid.done);
            assert(current_country@ =~~= mid.country);
            assert(current_competition@ =~~= mid.comp);
        }
        let mut j: usize = 0;
        while j < stage.games.len()
            invariant
                j <= stage.games.len(),
                stage@.games.len() == stage.games.len(),
                stage@ == svs[i as int],
                0 <= i < svs.len(),
                current_competition@.name == mid.comp.name,
                current_competition@.games == mid.comp.games + spec_games_of(
                    stage@.games.take(j as int),
                ),
            decreases stage.games.len() - j,
        {
            let ghost gv = stage@.games[j as int];
            let game = &stage.games[j];
            proof {
                assert(gv == game@);
                assert(stage@.games.take(j + 1).drop_last() =~= stage@.games.take(j as int));
                assert(stage@.games.take(j + 1).last() == gv);
            }
            let status = match GameStatus::parse_from_livescore(game.time.as_str()) {
                Ok(st) => st,
                Err(_) => GameStatus::Upcoming,
            };
            match DateTime::from_code(game.start_time) {
                Some(datetime) => {
                    let home_team = if game.home.len() > 0 {
                        game.home[0].name.clone()
                    } else {
                        String::from_str("No home team")
                    };
                    let away_team = if game.away.len() > 0 {
                        game.away[0].name.clone()
                    } else {
                        String::from_str("No away team")
                    };
                    let home_score = match &game.home_score {
                        Some(sc) => parse_u8(sc.as_str()),
                        None => None,
                    };
                    let away_score = match &game.away_score {
                        Some(sc) => parse_u8(sc.as_str()),
                        None => None,
                    };
                    let newgame = Game {
                        home_team,
                        away_team,
                        home_score,
                        away_score,
                        status,
                        start_time: datetime,
                    };
                    proof {
                        if gv.home.len() > 0 {
                            assert(gv.home[0 as int] == game.home@[0 as int]@);
                        }
                        if gv.away.len() > 0 {
                            assert(gv.away[0 as int] == game.away@[0 as int]@);
                        }
                        assert(newgame@ =~~= spec_game_of(gv)->Some_0);
                        assert(spec_games_of(stage@.games.take(j + 1)) =~~= spec_games_of(
                            stage@.games.take(j as int),
                        ) + seq![spec_game_of(gv)->Some_0]);
                    }
                    let ghost oldgames = current_competition@.games;
                    current_competition.games.push(newgame);
                    proof {
                        assert(current_competition@.games.len() == oldgames.len() + 1);
                        assert(oldgames == mid.comp.games + spec_games_of(
                            stage@.games.take(j as int),
                        ));
                        assert(forall|k: int|
                            0 <= k < oldgames.len() ==> #[trigger] current_competition@.games[k]
                                == oldgames[k]);
                        assert(current_competition@.games[oldgames.len() as int] == newgame@);
                        assert(current_competition@.games =~~= mid.comp.games + spec_games_of(
                            stage@.games.take(j + 1),
                        ));
                    }
                },
                None => {
                    proof {
                        assert(spec_games_of(stage@.games.take(j + 1)) =~= spec_games_of(
                            stage@.games.take(j as int),
                        ));
                    }
                },
            }
            j = j + 1;
        }
        proof {
            assert(stage@.games.take(stage@.games.len() as int) =~= stage@.games);
            assert(current_competition@ =~~= post.comp);
            assert(current_country@ =~~= post.country);
            assert(result.deep_view() =~~= post.done);
        }
        i = i + 1;
    }
    if current_competition.games.len() > 0 {
        current_country.competitions.push(current_competition);
    }
    if current_country.competitions.len() > 0 {
        result.push(current_country);
    }
    let football = Football { countries: result };
    proof {
        assert(football@.countries =~~= spec_group(svs));
    }
    football
}

/// No empty node: every country holds at least one competition and every
/// competition holds at least one game.
pub open spec fn spec_no_empty_nodes(cs: Seq<CountryView>) -> bool {
    forall|i: int|
        0 <= i < cs.len() ==> {
            let c = #[trigger] cs[i];
            c.competitions.len() > 0 && forall|j: int|
                0 <= j < c.competitions.len() ==> (#[trigger] c.competitions[j]).games.len() > 0
        }
}

/// The grouping state stays clean throughout the walk: the closed
/// countries hold no empty node, and every competition already closed into
/// the open country holds games.
spec fn spec_state_wf(st: GroupState) -> bool {
    &&& spec_no_empty_nodes(st.done)
    &&& forall|j: int|
        0 <= j < st.country.competitions.len() ==> (#[trigger] st.country.competitions[j]).games.len()
            > 0
}

proof fn lemma_group_state_wf(stages: Seq<StageView>, i: int)
    requires
        0 <= i,
    ensures
        spec_state_wf(spec_group_state(stages, i)),
    decreases i,
{
    if i > 0 {
        lemma_group_state_wf(stages, i - 1);
        let st = spec_group_state(stages, i - 1);
        let closed = spec_close_comp(st.country, st.comp);
        assert(forall|j: int|
            0 <= j < closed.competitions.len() ==> (#[trigger] closed.competitions[j]).games.len()
                > 0);
        if closed.competitions.len() > 0 {
            assert(forall|k: int|
                0 <= k < st.done.push(closed).len() ==> (#[trigger] st.done.push(closed)[k])
                    == (if k < st.done.len() {
                    st.done[k]
                } else {
                    closed
                }));
        }
    }
}

/// The data model's pruning invariant, proved of the normalizer: no
/// country or competition node with zero children ever appears in a
/// normalized tree.
pub proof fn lemma_parse_livescore_no_empty_nodes(stages: Seq<LiveScoreStage>)
    ensures
        spec_no_empty_nodes(spec_parse_livescore(stages)),
{
    let svs = spec_stage_views(spec_sort_le(stages));
    if svs.len() > 0 {
        lemma_group_state_wf(svs, svs.len() as int);
        let st = spec_group_state(svs, svs.len() as int);
        let closed = spec_close_comp(st.country, st.comp);
        assert(forall|j: int|
            0 <= j < closed.competitions.len() ==> (#[trigger] closed.competitions[j]).games.len()
                > 0);
        if closed.competitions.len() > 0 {
            assert(forall|k: int|
                0 <= k < st.done.push(closed).len() ==> (#[trigger] st.done.push(closed)[k])
                    == (if k < st.done.len() {
                    st.done[k]
                } else {
                    closed
                }));
        }
    }
}

/// The strict order the sort leaves country names in: by rank, ties by
/// name. Two distinct names always compare strictly, because the rank is a
/// function of the name.
pub open spec fn spec_ckey_lt(a: Seq<char>, b: Seq<char>) -> bool {
    ||| spec_country_rank(a) < spec_country_rank(b)
    ||| (spec_country_rank(a) == spec_country_rank(b) && a != b && spec_lex_le(a, b))
}

/// The strict order the sort leaves one country's competition names in.
pub open spec fn spec_pkey_lt(a: Seq<char>, b: Seq<char>) -> bool {
    ||| spec_competition_rank(a) < spec_competition_rank(b)
    ||| (spec_competition_rank(a) == spec_competition_rank(b) && a != b && spec_lex_le(a, b))
}

proof fn lemma_ckey_lt_trans(a: Seq<char>, b: Seq<char>, c: Seq<char>)
    requires
        spec_ckey_lt(a, b),
        spec_ckey_lt(b, c),
    ensures
        spec_ckey_lt(a, c),
{
    if spec_country_rank(a) == spec_country_rank(b) && spec_country_rank(b) == spec_country_rank(
        c,
    ) {
        lemma_lex_le_trans(a, b, c);
        if a == c {
            lemma_lex_le_antisym(a, b);
        }
    }
}

proof fn lemma_pkey_lt_trans(a: Seq<char>, b: Seq<char>, c: Seq<char>)
    requires
        spec_pkey_lt(a, b),
        spec_pkey_lt(b, c),
    ensures
        spec_pkey_lt(a, c),
{
    if spec_competition_rank(a) == spec_competition_rank(b) && spec_competition_rank(b)
        == spec_competition_rank(c) {
        lemma_lex_le_trans(a, b, c);
        if a == c {
            lemma_lex_le_antisym(a, b);
        }
    }
}

/// Competition names within one node are pairwise distinct.
pub open spec fn spec_unique_comp_names(comps: Seq<CompetitionView>) -> bool {
    forall|i: int, j: int|
        0 <= i < j < comps.len() ==> (#[trigger] comps[i]).name != (#[trigger] comps[j]).name
}

/// Sibling names are unique: country names are pairwise distinct, and so
/// are the competition names within each country.
pub open spec fn spec_unique_sibling_names(cs: Seq<CountryView>) -> bool {
    &&& forall|i: int, j: int|
        0 <= i < j < cs.len() ==> (#[trigger] cs[i]).name != (#[trigger] cs[j]).name
    &&& forall|k: int| 0 <= k < cs.len() ==> spec_unique_comp_names((#[trigger] cs[k]).competitions)
}

/// What the walk maintains over a sorted stage list: the closed countries
/// form a strictly increasing name chain below the open country's name,
/// the open country's closed competitions form a strictly increasing name
/// chain below the open competition's name, every closed country's
/// competition names are pairwise distinct, and the open names are the
/// last stage's names.
spec fn spec_group_chain(st: GroupState, last: StageView) -> bool {
    &&& st.country.name == last.country_name
    &&& st.comp.name == last.competition_name
    &&& forall|i: int, j: int|
        0 <= i < j < st.done.len() ==> spec_ckey_lt(
            (#[trigger] st.done[i]).name,
            (#[trigger] st.done[j]).name,
        )
    &&& forall|i: int|
        0 <= i < st.done.len() ==> spec_ckey_lt((#[trigger] st.done[i]).name, st.country.name)
    &&& forall|i: int, j: int|
        0 <= i < j < st.country.competitions.len() ==> spec_pkey_lt(
            (#[trigger] st.country.competitions[i]).name,
            (#[trigger] st.country.competitions[j]).name,
        )
    &&& forall|i: int|
        0 <= i < st.country.competitions.len() ==> spec_pkey_lt(
            (#[trigger] st.country.competitions[i]).name,
            st.comp.name,
        )
    &&& forall|k: int|
        0 <= k < st.done.len() ==> spec_unique_comp_names((#[trigger] st.done[k]).competitions)
}

proof fn lemma_group_chain(svs: Seq<StageView>, i: int)
    requires
        1 <= i <= svs.len(),
        forall|a: int, b: int|
            0 <= a < b < svs.len() ==> spec_stage_le(#[trigger] svs[a], #[trigger] svs[b]),
    ensures
        spec_group_chain(spec_group_state(svs, i), svs[i - 1]),
    decreases i,
{
    if i == 1 {
        let init = spec_group_init(svs);
        let post = spec_group_state(svs, 1);
        assert(spec_group_state(svs, 0) == init);
        assert(post == spec_group_step(init, svs[0]));
        assert(post.country == init.country);
        assert(post.done == init.done);
        assert(post.comp.name == init.comp.name);
    } else {
        lemma_group_chain(svs, i - 1);
        let st = spec_group_state(svs, i - 1);
        let stage = svs[i - 1];
        let prev = svs[i - 2];
        assert(spec_stage_le(prev, stage));
        let closed = spec_close_comp(st.country, st.comp);
        let post = spec_group_state(svs, i);
        assert(post == spec_group_step(st, stage));
        if stage.competition_name != st.comp.name || stage.country_name != st.country.name {
            // the closed country's competition names stay a strict chain
            assert(forall|a: int, b: int|
                0 <= a < b < closed.competitions.len() ==> spec_pkey_lt(
                    (#[trigger] closed.competitions[a]).name,
                    (#[trigger] closed.competitions[b]).name,
                ));
            if stage.country_name != st.country.name {
                // the country key grows strictly across the close
                assert(spec_ckey_lt(st.country.name, stage.country_name));
                // the closing country's strict competition chain makes its
                // names pairwise distinct
                assert forall|a: int, b: int|
                    0 <= a < b < closed.competitions.len() implies (#[trigger] closed.competitions[a]).name
                    != (#[trigger] closed.competitions[b]).name by {
                    assert(spec_pkey_lt(closed.competitions[a].name, closed.competitions[b].name));
                }
                assert(spec_unique_comp_names(closed.competitions));
                if closed.competitions.len() > 0 {
                    let done2 = st.done.push(closed);
                    assert(forall|k: int|
                        0 <= k < done2.len() ==> (#[trigger] done2[k]) == (if k < st.done.len() {
                            st.done[k]
                        } else {
                            closed
                        }));
                    assert forall|k: int| 0 <= k < done2.len() implies spec_ckey_lt(
                        (#[trigger] done2[k]).name,
                        stage.country_name,
                    ) by {
                        if k < st.done.len() {
                            lemma_ckey_lt_trans(
                                st.done[k].name,
                                st.country.name,
                                stage.country_name,
                            );
                        }
                    }
                } else {
                    assert forall|k: int| 0 <= k < st.done.len() implies spec_ckey_lt(
                        (#[trigger] st.done[k]).name,
                        stage.country_name,
                    ) by {
                        lemma_ckey_lt_trans(st.done[k].name, st.country.name, stage.country_name);
                    }
                }
            } else {
                // same country: the competition key grows strictly
                assert(spec_pkey_lt(st.comp.name, stage.competition_name));
                assert forall|k: int| 0 <= k < closed.competitions.len() implies spec_pkey_lt(
                    (#[trigger] closed.competitions[k]).name,
                    stage.competition_name,
                ) by {
                    if k < st.country.competitions.len() {
                        lemma_pkey_lt_trans(
                            st.country.competitions[k].name,
                            st.comp.name,
                            stage.competition_name,
                        );
                    }
                }
            }
        }
        assert(post.country.name == stage.country_name);
        assert(post.comp.name == stage.competition_name);
        assert(forall|a: int, b: int|
            0 <= a < b < post.done.len() ==> spec_ckey_lt(
                (#[trigger] post.done[a]).name,
                (#[trigger] post.done[b]).name,
            ));
        assert(forall|a: int|
            0 <= a < post.done.len() ==> spec_ckey_lt((#[trigger] post.done[a]).name, post.country.name));
        assert(forall|a: int, b: int|
            0 <= a < b < post.country.competitions.len() ==> spec_pkey_lt(
                (#[trigger] post.country.competitions[a]).name,
                (#[trigger] post.country.competitions[b]).name,
            ));
        assert(forall|a: int|
            0 <= a < post.country.competitions.len() ==> spec_pkey_lt(
                (#[trigger] post.country.competitions[a]).name,
                post.comp.name,
            ));
        assert(forall|k: int|
            0 <= k < post.done.len() ==> spec_unique_comp_names(
                (#[trigger] post.done[k]).competitions,
            ));
    }
}

/// The data model's uniqueness invariant, proved of the normalizer:
/// country names are pairwise distinct in a normalized tree, and so are
/// the competition names within each country.
pub proof fn lemma_parse_livescore_unique_names(stages: Seq<LiveScoreStage>)
    ensures
        spec_unique_sibling_names(spec_parse_livescore(stages)),
{
    crate::sorting::lemma_sort_le_ensures(stages);
    let sorted = spec_sort_le(stages);
    let svs = spec_stage_views(sorted);
    assert forall|a: int, b: int| 0 <= a < b < svs.len() implies spec_stage_le(
        #[trigger] svs[a],
        #[trigger] svs[b],
    ) by {
        assert(sorted[a].le_spec(sorted[b]));
    }
    if svs.len() == 0 {
    } else {
        lemma_group_chain(svs, svs.len() as int);
        let st = spec_group_state(svs, svs.len() as int);
        let closed = spec_close_comp(st.country, st.comp);
        let result = spec_group(svs);
        assert(forall|a: int, b: int|
            0 <= a < b < closed.competitions.len() ==> spec_pkey_lt(
                (#[trigger] closed.competitions[a]).name,
                (#[trigger] closed.competitions[b]).name,
            ));
        if closed.competitions.len() > 0 {
            assert(forall|k: int|
                0 <= k < result.len() ==> (#[trigger] result[k]) == (if k < st.done.len() {
                    st.done[k]
                } else {
                    closed
                }));
        }
        // a strict key chain makes the names pairwise distinct: equal
        // names would have equal ranks, and the strict key order rules
        // both disjuncts out
        assert forall|a: int, b: int| 0 <= a < b < result.len() implies (#[trigger] result[a]).name
            != (#[trigger] result[b]).name by {
            assert(spec_ckey_lt(result[a].name, result[b].name));
        }
        assert forall|k: int| 0 <= k < result.len() implies spec_unique_comp_names(
            (#[trigger] result[k]).competitions,
        ) by {
            if closed.competitions.len() > 0 && k == st.done.len() {
                let comps = closed.competitions;
                assert forall|a: int, b: int|
                    0 <= a < b < comps.len() implies (#[trigger] comps[a]).name
                    != (#[trigger] comps[b]).name by {
                    assert(spec_pkey_lt(comps[a].name, comps[b].name));
                }
                assert(spec_unique_comp_names(result[k].competitions));
            } else {
                assert(result[k] == st.done[k]);
                assert(spec_unique_comp_names(st.done[k].competitions));
            }
        }
    }
}

/// The normalizer is blind to the order the stages arrive in: two stage
/// lists with the same stages (as a multiset) normalize to the same tree,
/// as long as no two distinct stages among them rank equal under the
/// priority comparator. (Two distinct stages that rank equal — the same
/// country and competition names with different games — keep their
/// arrival order instead, since the sort is stable.)
pub proof fn lemma_parse_livescore_permutation_invariant(
    s1: Seq<LiveScoreStage>,
    s2: Seq<LiveScoreStage>,
)
    requires
        s1.to_multiset() == s2.to_multiset(),
        forall|a: LiveScoreStage, b: LiveScoreStage|
            s1.contains(a) && s1.contains(b) && #[trigger] a.le_spec(b) && #[trigger] b.le_spec(a)
                ==> a == b,
    ensures
        spec_parse_livescore(s1) == spec_parse_livescore(s2),
{
    broadcast use vstd::seq_lib::group_to_multiset_ensures;

    crate::sorting::lemma_sort_le_ensures(s1);
    crate::sorting::lemma_sort_le_ensures(s2);
    let x = spec_sort_le(s1);
    let y = spec_sort_le(s2);
    assert forall|a: LiveScoreStage, b: LiveScoreStage|
        x.contains(a) && x.contains(b) && #[trigger] a.le_spec(b) && #[trigger] b.le_spec(a)
            implies a == b by {
        assert(x.to_multiset().contains(a));
        assert(x.to_multiset().contains(b));
        assert(s1.to_multiset().contains(a));
        assert(s1.to_multiset().contains(b));
        assert(s1.contains(a));
        assert(s1.contains(b));
    }
    crate::sorting::lemma_sorted_unique_le(x, y);
}

} // verus!
