//! League tables scraped from a broadcaster's standings pages.
//!
//! A standings page embeds its data as a JSON blob inside a script tag;
//! `find_json_blob` cuts that blob out of the page text, and
//! `gather_leagues` flattens the decoded tournament/stage/round tree into
//! flat league tables. The lookups over a table — the full ranking, a
//! window around a position, a team's position — are plain list logic.

use crate::strutil::chars_to_string;
use crate::strutil::contains_lowered;
use crate::strutil::eq_ignore_ascii_case;
use crate::strutil::find_str;
use crate::strutil::lowered_chars;
use crate::strutil::spec_contains_at;
use crate::strutil::spec_find_at;
use crate::strutil::spec_is_substring;
use crate::strutil::spec_lower;
use vstd::prelude::*;

verus! {

/// One row of a league table.
#[derive(Debug)]
pub struct Entry {
    pub rank: i8,
    pub team: String,
    pub win: i8,
    pub draw: i8,
    pub lose: i8,
    pub gf: i8,
    pub ga: i8,
    pub points: i8,
}

/// Mathematical model of a table row.
#[verifier::ext_equal]
pub struct EntryView {
    pub rank: i8,
    pub team: Seq<char>,
    pub win: i8,
    pub draw: i8,
    pub lose: i8,
    pub gf: i8,
    pub ga: i8,
    pub points: i8,
}

impl View for Entry {
    type V = EntryView;

    open spec fn view(&self) -> EntryView {
        EntryView {
            rank: self.rank,
            team: self.team@,
            win: self.win,
            draw: self.draw,
            lose: self.lose,
            gf: self.gf,
            ga: self.ga,
            points: self.points,
        }
    }
}

impl DeepView for Entry {
    type V = EntryView;

    open spec fn deep_view(&self) -> EntryView {
        self.view()
    }
}

impl Clone for Entry {
    fn clone(&self) -> (r: Self)
        ensures
            r@ == self@,
    {
        Entry {
            rank: self.rank,
            team: self.team.clone(),
            win: self.win,
            draw: self.draw,
            lose: self.lose,
            gf: self.gf,
            ga: self.ga,
            points: self.points,
        }
    }
}

/// One league table: a name and its ranked rows.
#[derive(Debug)]
pub struct League {
    pub name: String,
    pub entries: Vec<Entry>,
}

/// Mathematical model of a league table.
#[verifier::ext_equal]
pub struct LeagueView {
    pub name: Seq<char>,
    pub entries: Seq<EntryView>,
}

impl View for League {
    type V = LeagueView;

    open spec fn view(&self) -> LeagueView {
        LeagueView { name: self.name@, entries: self.entries.deep_view() }
    }
}

impl DeepView for League {
    type V = LeagueView;

    open spec fn deep_view(&self) -> LeagueView {
        self.view()
    }
}

/// The raw JSON blob embedded in a standings page: the text from 18
/// positions past the start of the data marker up to two positions before
/// the closing script tag, with every backslash removed. Nothing when a
/// marker is missing or the cut would be empty or reversed.
pub open spec fn spec_json_blob(content: Seq<char>) -> Option<Seq<char>> {
    match spec_find_at(content, "__INITIAL_DATA__"@, 0) {
        None => None,
        Some(ds) => match spec_find_at(content, "</script>"@, ds) {
            None => None,
            Some(de) => if ds + 20 <= de {
                Some(content.subrange(ds + 18, de - 2).filter(|c: char| c != '\\'))
            } else {
                None
            },
        },
    }
}

/// The window of up to six rows around a position: the whole table when it
/// has at most six rows, the top six near the top, the bottom six near the
/// bottom, else three rows either side.
pub open spec fn spec_around_range(len: int, idx: int) -> (int, int) {
    if len <= 6 {
        (0, len)
    } else if idx <= 3 {
        (0, 6)
    } else if idx >= len - 2 {
        (len - 6, len)
    } else {
        (idx - 3, idx + 3)
    }
}

/// The position reported for a team: the first row whose team name
/// contains the needle case-insensitively gives its rank less one (zero
/// when that rank is not positive); with no such row the position is zero.
pub open spec fn spec_find_team_position(entries: Seq<EntryView>, needle: Seq<char>) -> int
    decreases entries.len(),
{
    if entries.len() == 0 {
        0
    } else if spec_is_substring(spec_lower(needle), spec_lower(entries[0].team)) {
        if entries[0].rank >= 1 {
            entries[0].rank - 1
        } else {
            0
        }
    } else {
        spec_find_team_position(entries.drop_first(), needle)
    }
}

impl League {
    /// Cuts the embedded JSON blob out of a standings page.
    pub fn find_json_blob(content: &str) -> (r: Option<String>)
        ensures
            match r {
                Some(s) => spec_json_blob(content@) == Some(s@),
                None => spec_json_blob(content@) is None,
            },
    {
        let ds = match find_str(content, "__INITIAL_DATA__", 0) {
            Some(i) => i,
            None => {
                return None;
            },
        };
        let de = match find_str(content, "</script>", ds) {
            Some(i) => i,
            None => {
                return None;
            },
        };
        if de < 20 || ds > de - 20 {
            return None;
        }
        proof {
            crate::strutil::lemma_find_at_some(content@, "</script>"@, ds as int);
            reveal_strlit("</script>");
            assert("</script>"@.len() == 9);
        }
        let ghost region = content@.subrange(ds + 18, de - 2);
        let mut out: Vec<char> = Vec::new();
        let mut i: usize = ds + 18;
        proof {
            reveal_with_fuel(Seq::filter, 2);
            assert(region.take(0) =~= Seq::<char>::empty());
            assert(out@ =~= region.take(0).filter(|c: char| c != '\\'));
            assert(spec_contains_at(content@, "</script>"@, de as int));
        }
        while i < de - 2
            invariant
                ds + 18 <= i <= de - 2,
                de <= content@.len(),
                region == content@.subrange(ds + 18, de - 2),
                out@ == region.take(i - (ds + 18)).filter(|c: char| c != '\\'),
            decreases de - 2 - i,
        {
            let c = content.get_char(i);
            let ghost k = i - (ds + 18);
            proof {
                assert(region[k] == content@[i as int]);
                assert(region.take(k + 1).drop_last() =~= region.take(k));
                assert(region.take(k + 1).last() == region[k]);
                reveal_with_fuel(Seq::filter, 2);
            }
            if c != '\\' {
                out.push(c);
            }
            proof {
                assert(out@ =~= region.take(k + 1).filter(|c: char| c != '\\'));
            }
            i = i + 1;
        }
        proof {
            assert(region.take(region.len() as int) =~= region);
        }
        Some(chars_to_string(&out))
    }

    /// All ranked rows of the table.
    pub fn get_ranking(&self) -> (r: &Vec<Entry>)
        ensures
            r == &self.entries,
    {
        &self.entries
    }

    /// Up to six rows around the given position.
    pub fn get_ranking_around(&self, idx: usize) -> (r: Vec<Entry>)
        ensures
            ({
                let (lo, hi) = spec_around_range(self.entries@.len() as int, idx as int);
                r.deep_view() == self@.entries.subrange(lo, hi)
            }),
    {
        let len = self.entries.len();
        let (lo, hi): (usize, usize) = if len <= 6 {
            (0, len)
        } else if idx <= 3 {
            (0, 6)
        } else if idx >= len - 2 {
            (len - 6, len)
        } else {
            (idx - 3, idx + 3)
        };
        let mut out: Vec<Entry> = Vec::new();
        let mut i: usize = lo;
        while i < hi
            invariant
                lo <= i <= hi <= self.entries@.len(),
                out@.len() == i - lo,
                forall|k: int| 0 <= k < i - lo ==> #[trigger] out@[k]@ == self.entries@[lo + k]@,
            decreases hi - i,
        {
            out.push(self.entries[i].clone());
            i = i + 1;
        }
        proof {
            assert(out.deep_view() =~~= self@.entries.subrange(lo as int, hi as int));
        }
        out
    }

    /// Zero-indexed position of the first team containing the needle,
    /// case-insensitively; zero when nothing is found.
    pub fn find_team_position(&self, needle: &str) -> (r: usize)
        ensures
            r == spec_find_team_position(self@.entries, needle@),
    {
        let low = lowered_chars(needle);
        let mut i: usize = 0;
        proof {
            assert(self@.entries.skip(0) =~= self@.entries);
        }
        while i < self.entries.len()
            invariant
                i <= self.entries@.len(),
                low@ == spec_lower(needle@),
                spec_find_team_position(self@.entries, needle@) == spec_find_team_position(
                    self@.entries.skip(i as int),
                    needle@,
                ),
            decreases self.entries@.len() - i,
        {
            let entry = &self.entries[i];
            proof {
                assert(self@.entries.skip(i as int)[0] == self.entries@[i as int]@);
                assert(self@.entries.skip(i as int).drop_first() =~= self@.entries.skip(i + 1));
            }
            if contains_lowered(entry.team.as_str(), &low) {
                let rank = entry.rank;
                if rank >= 1 {
                    return (rank - 1) as usize;
                } else {
                    return 0;
                }
            }
            i = i + 1;
        }
        proof {
            assert(self@.entries.skip(self@.entries.len() as int) =~= Seq::<EntryView>::empty());
        }
        0
    }
}

/// The flattened tournament/stage/round tree a standings page decodes to.
#[derive(Debug)]
pub struct BeebsInitialData {
    pub data: BeebsInnerData,
}

#[derive(Debug)]
pub struct BeebsInnerData {
    pub football_table: BeebsFootballTable,
}

#[derive(Debug)]
pub struct BeebsFootballTable {
    pub data: BeebsFootballTableData,
}

#[derive(Debug)]
pub struct BeebsFootballTableData {
    pub tournaments: Vec<BeebsTournament>,
}

#[derive(Debug)]
pub struct BeebsTournament {
    pub name: String,
    pub stages: Vec<BeebsStages>,
}

#[derive(Debug)]
pub struct BeebsStages {
    pub name: String,
    pub rounds: Vec<BeebsRounds>,
}

#[derive(Debug)]
pub struct BeebsRounds {
    pub name: Option<String>,
    pub participants: Vec<BeebsParticipant>,
}

/// One table row as the page's JSON carries it.
#[derive(Debug)]
pub struct BeebsParticipant {
    pub rank: i8,
    pub name: String,
    pub points: i8,
    pub wins: i8,
    pub losses: i8,
    pub draws: i8,
    pub gf: i8,
    pub ga: i8,
}

/// The table row a participant maps to.
pub open spec fn spec_entry_of_participant(p: &BeebsParticipant) -> EntryView {
    EntryView {
        rank: p.rank,
        team: p.name@,
        win: p.wins,
        draw: p.draws,
        lose: p.losses,
        gf: p.gf,
        ga: p.ga,
        points: p.points,
    }
}

impl BeebsParticipant {
    /// Maps a participant to a table row.
    pub fn to_entry(&self) -> (r: Entry)
        ensures
            r@ == spec_entry_of_participant(self),
    {
        Entry {
            rank: self.rank,
            team: self.name.clone(),
            win: self.wins,
            draw: self.draws,
            lose: self.losses,
            gf: self.gf,
            ga: self.ga,
            points: self.points,
        }
    }
}

/// The name of the league a round yields: the tournament name alone for a
/// regular season, else the tournament and stage names, with the round
/// name appended when there is one.
pub open spec fn spec_league_name(
    tournament: Seq<char>,
    stage: Seq<char>,
    round: Option<Seq<char>>,
) -> Seq<char> {
    if spec_lower(stage) == spec_lower("Regular Season"@) {
        tournament
    } else {
        match round {
            Some(rn) => tournament + " "@ + stage + " "@ + rn,
            None => tournament + " "@ + stage,
        }
    }
}

/// The participants of a round as table rows.
pub open spec fn spec_round_entries(parts: Seq<BeebsParticipant>) -> Seq<EntryView>
    decreases parts.len(),
{
    if parts.len() == 0 {
        Seq::empty()
    } else {
        spec_round_entries(parts.drop_last()).push(spec_entry_of_participant(&parts.last()))
    }
}

/// The leagues of one stage's rounds.
pub open spec fn spec_stage_leagues(
    tournament: Seq<char>,
    stage: Seq<char>,
    rounds: Seq<BeebsRounds>,
) -> Seq<LeagueView>
    decreases rounds.len(),
{
    if rounds.len() == 0 {
        Seq::empty()
    } else {
        spec_stage_leagues(tournament, stage, rounds.drop_last()).push(
            LeagueView {
                name: spec_league_name(tournament, stage, rounds.last().name.deep_view()),
                entries: spec_round_entries(rounds.last().participants@),
            },
        )
    }
}

/// The leagues of one tournament's stages.
pub open spec fn spec_tournament_leagues(tournament: Seq<char>, stages: Seq<BeebsStages>) -> Seq<
    LeagueView,
>
    decreases stages.len(),
{
    if stages.len() == 0 {
        Seq::empty()
    } else {
        spec_tournament_leagues(tournament, stages.drop_last()) + spec_stage_leagues(
            tournament,
            stages.last().name@,
            stages.last().rounds@,
        )
    }
}

/// The leagues of the whole decoded tree, in document order.
pub open spec fn spec_gathered_leagues(tournaments: Seq<BeebsTournament>) -> Seq<LeagueView>
    decreases tournaments.len(),
{
    if tournaments.len() == 0 {
        Seq::empty()
    } else {
        spec_gathered_leagues(tournaments.drop_last()) + spec_tournament_leagues(
            tournaments.last().name@,
            tournaments.last().stages@,
        )
    }
}

impl BeebsInitialData {
    /// Flattens the decoded tree into flat league tables, naming each from
    /// its tournament, stage and round.
    pub fn gather_leagues(&self) -> (r: Vec<League>)
        ensures
            r.deep_view() == spec_gathered_leagues(self.data.football_table.data.tournaments@),
    {
        let tournaments = &self.data.football_table.data.tournaments;
        let mut result: Vec<League> = Vec::new();
        proof {
            assert(result.deep_view() =~~= spec_gathered_leagues(tournaments@.take(0)));
        }
        let mut t: usize = 0;
        while t < tournaments.len()
            invariant
                t <= tournaments@.len(),
                tournaments == &self.data.football_table.data.tournaments,
                result.deep_view() == spec_gathered_leagues(tournaments@.take(t as int)),
            decreases tournaments@.len() - t,
        {
            let tournament = &tournaments[t];
            let ghost base_t = result.deep_view();
            let mut s: usize = 0;
            proof {
                assert(result.deep_view() + spec_tournament_leagues(
                    tournament.name@,
                    tournament.stages@.take(0),
                ) =~~= result.deep_view());
            }
            while s < tournament.stages.len()
                invariant
                    s <= tournament.stages@.len(),
                    result.deep_view() == base_t + spec_tournament_leagues(
                        tournament.name@,
                        tournament.stages@.take(s as int),
                    ),
                decreases tournament.stages@.len() - s,
            {
                let stage = &tournament.stages[s];
                let ghost base_s = result.deep_view();
                let mut rd: usize = 0;
                proof {
                    assert(result.deep_view() + spec_stage_leagues(
                        tournament.name@,
                        stage.name@,
                        stage.rounds@.take(0),
                    ) =~~= result.deep_view());
                }
                while rd < stage.rounds.len()
                    invariant
                        rd <= stage.rounds@.len(),
                        result.deep_view() == base_s + spec_stage_leagues(
                            tournament.name@,
                            stage.name@,
                            stage.rounds@.take(rd as int),
                        ),
                    decreases stage.rounds@.len() - rd,
                {
                    let round = &stage.rounds[rd];
                    proof {
                        assert(stage.rounds@.take(rd + 1).drop_last() =~= stage.rounds@.take(
                            rd as int,
                        ));
                        assert(stage.rounds@.take(rd + 1).last() == stage.rounds@[rd as int]);
                    }
                    let name: String = if eq_ignore_ascii_case(stage.name.as_str(), "Regular Season")
                        {
                        tournament.name.clone()
                    } else {
                        let mut n = tournament.name.clone();
                        n.append(" ");
                        n.append(stage.name.as_str());
                        match &round.name {
                            Some(rn) => {
                                n.append(" ");
                                n.append(rn.as_str());
                                n
                            },
                            None => n,
                        }
                    };
                    proof {
                        assert(name@ == spec_league_name(
                            tournament.name@,
                            stage.name@,
                            round.name.deep_view(),
                        ));
                    }
                    let mut entries: Vec<Entry> = Vec::new();
                    let mut p: usize = 0;
                    proof {
                        assert(entries.deep_view() =~~= spec_round_entries(
                            round.participants@.take(0),
                        ));
                    }
                    while p < round.participants.len()
                        invariant
                            p <= round.participants@.len(),
                            entries.deep_view() == spec_round_entries(
                                round.participants@.take(p as int),
                            ),
                        decreases round.participants@.len() - p,
                    {
                        let ghost olde = entries.deep_view();
                        entries.push(round.participants[p].to_entry());
                        proof {
                            assert(round.participants@.take(p + 1).drop_last()
                                =~= round.participants@.take(p as int));
                            assert(round.participants@.take(p + 1).last()
                                == round.participants@[p as int]);
                            assert(forall|q: int|
                                0 <= q < olde.len() ==> #[trigger] entries.deep_view()[q]
                                    == olde[q]);
                            assert(entries.deep_view()[olde.len() as int]
                                == spec_entry_of_participant(&round.participants@[p as int]));
                            assert(entries.deep_view() =~~= spec_round_entries(
                                round.participants@.take(p + 1),
                            ));
                        }
                        p = p + 1;
                    }
                    proof {
                        assert(round.participants@.take(round.participants@.len() as int)
                            =~= round.participants@);
                    }
                    let league = League { name, entries };
                    let ghost lview = LeagueView {
                        name: spec_league_name(
                            tournament.name@,
                            stage.name@,
                            round.name.deep_view(),
                        ),
                        entries: spec_round_entries(round.participants@),
                    };
                    proof {
                        assert(league@ =~~= lview);
                    }
                    let ghost oldr = result.deep_view();
                    result.push(league);
                    proof {
                        assert(forall|q: int|
                            0 <= q < oldr.len() ==> #[trigger] result.deep_view()[q] == oldr[q]);
                        assert(result.deep_view()[oldr.len() as int] == lview);
                        assert(result.deep_view() =~~= base_s + spec_stage_leagues(
                            tournament.name@,
                            stage.name@,
                            stage.rounds@.take(rd + 1),
                        ));
                    }
                    rd = rd + 1;
                }
                proof {
                    assert(stage.rounds@.take(stage.rounds@.len() as int) =~= stage.rounds@);
                    assert(tournament.stages@.take(s + 1).drop_last() =~= tournament.stages@.take(
                        s as int,
                    ));
                    assert(tournament.stages@.take(s + 1).last() == tournament.stages@[s as int]);
                    assert(result.deep_view() =~~= base_t + spec_tournament_leagues(
                        tournament.name@,
                        tournament.stages@.take(s + 1),
                    ));
                }
                s = s + 1;
            }
            proof {
                assert(tournament.stages@.take(tournament.stages@.len() as int)
                    =~= tournament.stages@);
                assert(tournaments@.take(t + 1).drop_last() =~= tournaments@.take(t as int));
                assert(tournaments@.take(t + 1).last() == tournaments@[t as int]);
                assert(result.deep_view() =~~= spec_gathered_leagues(tournaments@.take(t + 1)));
            }
            t = t + 1;
        }
        proof {
            assert(tournaments@.take(tournaments@.len() as int) =~= tournaments@);
        }
        result
    }
}

} // verus!
