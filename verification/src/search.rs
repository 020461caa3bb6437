//! The query layer over a `Football` tree.
//!
//! Every query returns a newly built, pruned copy of the tree: a game is
//! kept when it satisfies the query's predicate, a competition or country
//! with nothing left below it is dropped. The exact free-text query splits
//! the query into letter runs and keeps a game when every run occurs,
//! case-folded, in the country, competition or team names. The time and
//! status filters share one filter-and-prune walk, parameterized by a
//! `GamePred`.

use crate::clock::now_ordinal;
use crate::clock::now_unix_seconds;
use crate::generic_structs::Competition;
use crate::generic_structs::CompetitionView;
use crate::generic_structs::Country;
use crate::generic_structs::CountryView;
use crate::generic_structs::Football;
use crate::generic_structs::FootballView;
use crate::generic_structs::Game;
use crate::generic_structs::GameStatus;
use crate::generic_structs::GameView;
use crate::generic_structs::GameStatusView;
use crate::strutil::contains_lowered;
use crate::strutil::eq_ignore_ascii_case;
use crate::strutil::spec_is_substring;
use crate::strutil::spec_lower;
use crate::strutil::spec_tokens;
use crate::strutil::tokenize;
use vstd::prelude::*;

verus! {

/// One query token matches a game when it occurs, case-folded, in the
/// country name, the competition name, or either team name.
pub open spec fn spec_token_matches(
    w: Seq<char>,
    country: Seq<char>,
    competition: Seq<char>,
    g: GameView,
) -> bool {
    ||| spec_is_substring(w, spec_lower(country))
    ||| spec_is_substring(w, spec_lower(competition))
    ||| spec_is_substring(w, spec_lower(g.home_team))
    ||| spec_is_substring(w, spec_lower(g.away_team))
}

/// A game matches a query when every token matches it.
pub open spec fn spec_game_matches(
    country: Seq<char>,
    competition: Seq<char>,
    g: GameView,
    tokens: Seq<Seq<char>>,
) -> bool {
    forall|t: int|
        0 <= t < tokens.len() ==> spec_token_matches(#[trigger] tokens[t], country, competition, g)
}

/// The game predicate of an exact free-text query.
pub open spec fn spec_query_pred(tokens: Seq<Seq<char>>) -> spec_fn(
    Seq<char>,
    Seq<char>,
    GameView,
) -> bool {
    |cn: Seq<char>, pn: Seq<char>, g: GameView| spec_game_matches(cn, pn, g, tokens)
}

/// The competitions of one country that keep at least one game under the
/// predicate, each holding exactly its kept games.
pub open spec fn spec_prune_competitions(
    cname: Seq<char>,
    comps: Seq<CompetitionView>,
    p: spec_fn(Seq<char>, Seq<char>, GameView) -> bool,
) -> Seq<CompetitionView>
    decreases comps.len(),
{
    if comps.len() == 0 {
        Seq::empty()
    } else {
        let rest = spec_prune_competitions(cname, comps.drop_last(), p);
        let c = comps.last();
        let kept = c.games.filter(|g: GameView| p(cname, c.name, g));
        if kept.len() > 0 {
            rest.push(CompetitionView { name: c.name, games: kept })
        } else {
            rest
        }
    }
}

/// The countries that keep at least one competition under the predicate.
pub open spec fn spec_prune_countries(
    countries: Seq<CountryView>,
    p: spec_fn(Seq<char>, Seq<char>, GameView) -> bool,
) -> Seq<CountryView>
    decreases countries.len(),
{
    if countries.len() == 0 {
        Seq::empty()
    } else {
        let rest = spec_prune_countries(countries.drop_last(), p);
        let c = countries.last();
        let comps = spec_prune_competitions(c.name, c.competitions, p);
        if comps.len() > 0 {
            rest.push(CountryView { name: c.name, competitions: comps })
        } else {
            rest
        }
    }
}

/// The filter-and-prune of a whole tree under a game predicate.
pub open spec fn spec_filter_tree(
    t: FootballView,
    p: spec_fn(Seq<char>, Seq<char>, GameView) -> bool,
) -> FootballView {
    FootballView { countries: spec_prune_countries(t.countries, p) }
}

/// A predicate over a single game, for the status and time filters.
#[derive(Debug, Clone, Copy, PartialEq, Eq, Structural)]
pub enum GamePred {
    /// The game has ended.
    Ended,
    /// The game is ongoing, under any live label.
    Live,
    /// The game has not started.
    Upcoming,
    /// The game starts within the closed window of epoch seconds.
    Window { lo: i64, hi: i64 },
    /// The game starts on the given day of the year.
    OnDay { day: u32 },
}

/// What a `GamePred` says of one game. The time predicates hold only of
/// games with a well-formed start time.
pub open spec fn spec_game_pred(p: GamePred, g: GameView) -> bool {
    match p {
        GamePred::Ended => g.status is Ended,
        GamePred::Live => g.status is Ongoing,
        GamePred::Upcoming => g.status is Upcoming,
        GamePred::Window { lo, hi } => g.start_time.is_valid() && lo
            <= g.start_time.spec_unix_seconds() <= hi,
        GamePred::OnDay { day } => g.start_time.is_valid() && g.start_time.spec_ordinal()
            == day as int,
    }
}

/// The tree-filter form of a `GamePred`.
pub open spec fn spec_pred_fn(p: GamePred) -> spec_fn(Seq<char>, Seq<char>, GameView) -> bool {
    |cn: Seq<char>, pn: Seq<char>, g: GameView| spec_game_pred(p, g)
}

impl GamePred {
    /// Evaluates the predicate on one game.
    pub fn eval(&self, game: &Game) -> (r: bool)
        ensures
            r == spec_game_pred(*self, game@),
    {
        match self {
            GamePred::Ended => matches!(game.status, GameStatus::Ended),
            GamePred::Live => matches!(game.status, GameStatus::Ongoing(_)),
            GamePred::Upcoming => matches!(game.status, GameStatus::Upcoming),
            GamePred::Window { lo, hi } => {
                if game.start_time.valid() {
                    let s = game.start_time.unix_seconds();
                    *lo <= s && s <= *hi
                } else {
                    false
                }
            },
            GamePred::OnDay { day } => {
                if game.start_time.valid() {
                    game.start_time.ordinal() as u32 == *day
                } else {
                    false
                }
            },
        }
    }
}

/// A filter over single games: either a status or time predicate, or the
/// token list of an exact query.
enum GameFilter {
    Pred(GamePred),
    Tokens(Vec<Vec<char>>),
}

impl GameFilter {
    /// The game predicate this filter stands for.
    spec fn spec_pred(&self) -> spec_fn(Seq<char>, Seq<char>, GameView) -> bool {
        match self {
            GameFilter::Pred(p) => spec_pred_fn(*p),
            GameFilter::Tokens(tokens) => spec_query_pred(tokens.deep_view()),
        }
    }

    /// Evaluates the filter on one game in its country and competition.
    fn matches(&self, country: &str, competition: &str, game: &Game) -> (r: bool)
        ensures
            r == self.spec_pred()(country@, competition@, game@),
    {
        match self {
            GameFilter::Pred(p) => p.eval(game),
            GameFilter::Tokens(tokens) => game_matches_tokens(country, competition, game, tokens),
        }
    }
}

/// Whether every token matches the game.
fn game_matches_tokens(country: &str, competition: &str, game: &Game, tokens: &Vec<Vec<char>>) -> (r:
    bool)
    ensures
        r == spec_game_matches(country@, competition@, game@, tokens.deep_view()),
{
    let mut t: usize = 0;
    while t < tokens.len()
        invariant
            t <= tokens@.len(),
            forall|k: int|
                0 <= k < t ==> spec_token_matches(
                    #[trigger] tokens.deep_view()[k],
                    country@,
                    competition@,
                    game@,
                ),
        decreases tokens@.len() - t,
    {
        let w = &tokens[t];
        let m = contains_lowered(country, w) || contains_lowered(competition, w)
            || contains_lowered(game.home_team.as_str(), w) || contains_lowered(
            game.away_team.as_str(),
            w,
        );
        proof {
            assert(tokens.deep_view()[t as int] == tokens@[t as int]@);
        }
        if !m {
            return false;
        }
        t = t + 1;
    }
    true
}

impl Football {
    /// The shared filter-and-prune walk.
    fn filter_games(&self, f: &GameFilter) -> (r: Football)
        ensures
            r@ == spec_filter_tree(self@, f.spec_pred()),
    {
        let ghost p = f.spec_pred();
        let mut countries: Vec<Country> = Vec::new();
        proof {
            assert(countries.deep_view() =~~= spec_prune_countries(self@.countries.take(0), p));
        }
        let mut i: usize = 0;
        while i < self.countries.len()
            invariant
                i <= self.countries@.len(),
                self@.countries.len() == self.countries@.len(),
                self@.countries == self.countries.deep_view(),
                p == f.spec_pred(),
                countries.deep_view() == spec_prune_countries(self@.countries.take(i as int), p),
            decreases self.countries@.len() - i,
        {
            let country = &self.countries[i];
            let ghost cv = self@.countries[i as int];
            proof {
                assert(cv == country@);
            }
            let mut filteredcompetitions: Vec<Competition> = Vec::new();
            proof {
                assert(filteredcompetitions.deep_view() =~~= spec_prune_competitions(
                    cv.name,
                    cv.competitions.take(0),
                    p,
                ));
            }
            let mut j: usize = 0;
            while j < country.competitions.len()
                invariant
                    j <= country.competitions@.len(),
                    cv == country@,
                    cv.competitions.len() == country.competitions@.len(),
                    cv.competitions == country.competitions.deep_view(),
                    p == f.spec_pred(),
                    filteredcompetitions.deep_view() == spec_prune_competitions(
                        cv.name,
                        cv.competitions.take(j as int),
                        p,
                    ),
                decreases country.competitions@.len() - j,
            {
                let competition = &country.competitions[j];
                let ghost compv = cv.competitions[j as int];
                proof {
                    assert(compv == competition@);
                }
                let ghost gamepred = (|g: GameView| p(cv.name, compv.name, g));
                let mut filteredgames: Vec<Game> = Vec::new();
                proof {
                    reveal_with_fuel(Seq::filter, 2);
                    assert(filteredgames.deep_view() =~~= compv.games.take(0).filter(gamepred));
                }
                let mut k: usize = 0;
                while k < competition.games.len()
                    invariant
                        k <= competition.games@.len(),
                        compv == competition@,
                        cv == country@,
                        compv.games.len() == competition.games@.len(),
                        compv.games == competition.games.deep_view(),
                        p == f.spec_pred(),
                        gamepred == (|g: GameView| p(cv.name, compv.name, g)),
                        filteredgames.deep_view() == compv.games.take(k as int).filter(gamepred),
                    decreases competition.games@.len() - k,
                {
                    let game = &competition.games[k];
                    let ghost gv = compv.games[k as int];
                    proof {
                        assert(gv == game@);
                        assert(compv.games.take(k + 1).drop_last() =~= compv.games.take(k as int));
                        assert(compv.games.take(k + 1).last() == gv);
                    }
                    let ghost oldfg = filteredgames.deep_view();
                    if f.matches(country.name.as_str(), competition.name.as_str(), game) {
                        filteredgames.push(game.clone());
                        proof {
                            assert(gamepred(gv));
                            assert(forall|q: int|
                                0 <= q < oldfg.len() ==> #[trigger] filteredgames.deep_view()[q]
                                    == oldfg[q]);
                            assert(filteredgames.deep_view()[oldfg.len() as int] == gv);
                            assert(compv.games.take(k + 1).len() == k + 1);
                            reveal_with_fuel(Seq::filter, 2);
                            assert(compv.games.take(k + 1).filter(gamepred) == compv.games.take(
                                k + 1,
                            ).drop_last().filter(gamepred).push(compv.games.take(k + 1).last()));
                            assert(compv.games.take(k + 1).drop_last().filter(gamepred) == oldfg);
                            assert(filteredgames.deep_view() =~~= oldfg.push(gv));
                            assert(filteredgames.deep_view() =~~= compv.games.take(k + 1).filter(
                                gamepred,
                            ));
                        }
                    } else {
                        proof {
                            assert(!gamepred(gv));
                            assert(compv.games.take(k + 1).len() == k + 1);
                            reveal_with_fuel(Seq::filter, 2);
                            assert(compv.games.take(k + 1).filter(gamepred) == compv.games.take(
                                k + 1,
                            ).drop_last().filter(gamepred));
                            assert(filteredgames.deep_view() =~~= compv.games.take(k + 1).filter(
                                gamepred,
                            ));
                        }
                    }
                    k = k + 1;
                }
                proof {
                    assert(compv.games.take(compv.games.len() as int) =~= compv.games);
                }
                let ghost oldfc = filteredcompetitions.deep_view();
                if filteredgames.len() > 0 {
                    filteredcompetitions.push(
                        Competition { name: competition.name.clone(), games: filteredgames },
                    );
                    proof {
                        assert(forall|q: int|
                            0 <= q < oldfc.len()
                                ==> #[trigger] filteredcompetitions.deep_view()[q] == oldfc[q]);
                        assert(filteredcompetitions.deep_view()[oldfc.len() as int]
                            =~~= CompetitionView {
                            name: compv.name,
                            games: compv.games.filter(gamepred),
                        });
                    }
                }
                proof {
                    assert(cv.competitions.take(j + 1).drop_last() =~= cv.competitions.take(
                        j as int,
                    ));
                    assert(cv.competitions.take(j + 1).last() == compv);
                    assert(filteredcompetitions.deep_view() =~~= spec_prune_competitions(
                        cv.name,
                        cv.competitions.take(j + 1),
                        p,
                    ));
                }
                j = j + 1;
            }
            proof {
                assert(cv.competitions.take(cv.competitions.len() as int) =~= cv.competitions);
            }
            let ghost oldcs = countries.deep_view();
            if filteredcompetitions.len() > 0 {
                countries.push(
                    Country { name: country.name.clone(), competitions: filteredcompetitions },
                );
                proof {
                    assert(forall|q: int|
                        0 <= q < oldcs.len() ==> #[trigger] countries.deep_view()[q] == oldcs[q]);
                    assert(countries.deep_view()[oldcs.len() as int] =~~= CountryView {
                        name: cv.name,
                        competitions: spec_prune_competitions(cv.name, cv.competitions, p),
                    });
                }
            }
            proof {
                assert(self@.countries.take(i + 1).drop_last() =~= self@.countries.take(i as int));
                assert(self@.countries.take(i + 1).last() == cv);
                assert(countries.deep_view() =~~= spec_prune_countries(
                    self@.countries.take(i + 1),
                    p,
                ));
            }
            i = i + 1;
        }
        proof {
            assert(self@.countries.take(self@.countries.len() as int) =~= self@.countries);
        }
        let football = Football { countries };
        proof {
            assert(football@ =~~= spec_filter_tree(self@, p));
        }
        football
    }

    /// Splits the query into letter runs and keeps exactly the games that
    /// every run matches, case-insensitively, in the country, competition
    /// or team names; competitions and countries left empty are dropped.
    pub fn query(&self, query: &str) -> (r: Football)
        ensures
            r@ == spec_filter_tree(self@, spec_query_pred(spec_tokens(query@))),
    {
        let tokens = tokenize(query);
        let f = GameFilter::Tokens(tokens);
        self.filter_games(&f)
    }

    /// Keeps exactly the games satisfying the predicate; competitions and
    /// countries left empty are dropped.
    pub fn generic_filter(&self, predicate: GamePred) -> (r: Football)
        ensures
            r@ == spec_filter_tree(self@, spec_pred_fn(predicate)),
    {
        self.filter_games(&GameFilter::Pred(predicate))
    }

    /// Keeps the games that start within the closed window of epoch
    /// seconds.
    pub fn sliding_window_at(&self, lo: i64, hi: i64) -> (r: Football)
        ensures
            r@ == spec_filter_tree(self@, spec_pred_fn(GamePred::Window { lo, hi })),
    {
        self.generic_filter(GamePred::Window { lo, hi })
    }

    /// Keeps the games that start at most `hours_before` hours before now
    /// and at most `hours_after` hours after now, reading now from the
    /// wall clock.
    pub fn sliding_window(&self, hours_before: u8, hours_after: u8) -> (r: Football)
        ensures
            exists|lo: i64, hi: i64|
                #![trigger spec_pred_fn(GamePred::Window { lo, hi })]
                hi - lo == (hours_before + hours_after) * 3600 && r@ == spec_filter_tree(
                    self@,
                    spec_pred_fn(GamePred::Window { lo, hi }),
                ),
    {
        let now = now_unix_seconds();
        let lo = now - (hours_before as i64) * 3600;
        let hi = now + (hours_after as i64) * 3600;
        self.sliding_window_at(lo, hi)
    }

    /// Keeps the games that start on the given day of the year.
    pub fn on_ordinal(&self, day: u32) -> (r: Football)
        ensures
            r@ == spec_filter_tree(self@, spec_pred_fn(GamePred::OnDay { day })),
    {
        self.generic_filter(GamePred::OnDay { day })
    }

    /// Keeps the games that start on the current day of the year.
    pub fn today(&self) -> (r: Football)
        ensures
            exists|d: u32|
                #![trigger spec_pred_fn(GamePred::OnDay { day: d })]
                1 <= d <= 366 && r@ == spec_filter_tree(
                    self@,
                    spec_pred_fn(GamePred::OnDay { day: d }),
                ),
    {
        let d = now_ordinal();
        self.on_ordinal(d)
    }

    /// Keeps the games whose day of the year follows today's. At the turn
    /// of the year no day carries that number, so nothing is kept then.
    pub fn tomorrow(&self) -> (r: Football)
        ensures
            exists|d: u32|
                #![trigger spec_pred_fn(GamePred::OnDay { day: d })]
                2 <= d <= 367 && r@ == spec_filter_tree(
                    self@,
                    spec_pred_fn(GamePred::OnDay { day: d }),
                ),
    {
        let d = now_ordinal();
        self.on_ordinal(d + 1)
    }

    /// Keeps the games whose day of the year precedes today's. On the
    /// first of January no day carries that number, so nothing is kept
    /// then.
    pub fn yesterday(&self) -> (r: Football)
        ensures
            exists|d: u32|
                #![trigger spec_pred_fn(GamePred::OnDay { day: d })]
                d <= 365 && r@ == spec_filter_tree(
                    self@,
                    spec_pred_fn(GamePred::OnDay { day: d }),
                ),
    {
        let d = now_ordinal();
        self.on_ordinal(d - 1)
    }

    /// Keeps the games that have ended.
    pub fn ended(&self) -> (r: Football)
        ensures
            r@ == spec_filter_tree(self@, spec_pred_fn(GamePred::Ended)),
    {
        self.generic_filter(GamePred::Ended)
    }

    /// Keeps the games that are ongoing.
    pub fn live(&self) -> (r: Football)
        ensures
            r@ == spec_filter_tree(self@, spec_pred_fn(GamePred::Live)),
    {
        self.generic_filter(GamePred::Live)
    }

    /// Keeps the games that have not started.
    pub fn upcoming(&self) -> (r: Football)
        ensures
            r@ == spec_filter_tree(self@, spec_pred_fn(GamePred::Upcoming)),
    {
        self.generic_filter(GamePred::Upcoming)
    }

    /// Keeps only the countries whose name equals `country_name`, case
    /// folded in the ASCII range; their competitions are kept whole.
    pub fn country(&self, country_name: &str) -> (r: Football)
        ensures
            r@.countries == self@.countries.filter(
                |c: CountryView| spec_lower(c.name) == spec_lower(country_name@),
            ),
    {
        let ghost pred = (|c: CountryView| spec_lower(c.name) == spec_lower(country_name@));
        let mut countries: Vec<Country> = Vec::new();
        proof {
            reveal_with_fuel(Seq::filter, 2);
            assert(countries.deep_view() =~~= self@.countries.take(0).filter(pred));
        }
        let mut i: usize = 0;
        while i < self.countries.len()
            invariant
                i <= self.countries@.len(),
                self@.countries.len() == self.countries@.len(),
                self@.countries == self.countries.deep_view(),
                pred == (|c: CountryView| spec_lower(c.name) == spec_lower(country_name@)),
                countries.deep_view() == self@.countries.take(i as int).filter(pred),
            decreases self.countries@.len() - i,
        {
            let country = &self.countries[i];
            let ghost cv = self@.countries[i as int];
            let ghost oldcs = countries.deep_view();
            proof {
                assert(cv == country@);
                assert(self@.countries.take(i + 1).drop_last() =~= self@.countries.take(i as int));
                assert(self@.countries.take(i + 1).last() == cv);
            }
            if eq_ignore_ascii_case(country.name.as_str(), country_name) {
                countries.push(country.clone());
                proof {
                    assert(forall|q: int|
                        0 <= q < oldcs.len() ==> #[trigger] countries.deep_view()[q] == oldcs[q]);
                    assert(countries.deep_view()[oldcs.len() as int] == cv);
                }
            }
            proof {
                reveal_with_fuel(Seq::filter, 2);
                assert(countries.deep_view() =~~= self@.countries.take(i + 1).filter(pred));
            }
            i = i + 1;
        }
        proof {
            assert(self@.countries.take(self@.countries.len() as int) =~= self@.countries);
        }
        Football { countries }
    }

    /// Keeps only the competitions whose name equals `competition_name`,
    /// case folded in the ASCII range, with their games kept whole;
    /// countries left with no competition are dropped.
    pub fn competition(&self, competition_name: &str) -> (r: Football)
        ensures
            r@.countries == spec_competition_filter(self@.countries, competition_name@),
    {
        let ghost pred = (
        |cc: CompetitionView| spec_lower(cc.name) == spec_lower(competition_name@));
        let mut countries: Vec<Country> = Vec::new();
        proof {
            assert(countries.deep_view() =~~= spec_competition_filter(
                self@.countries.take(0),
                competition_name@,
            ));
        }
        let mut i: usize = 0;
        while i < self.countries.len()
            invariant
                i <= self.countries@.len(),
                self@.countries.len() == self.countries@.len(),
                self@.countries == self.countries.deep_view(),
                pred == (|cc: CompetitionView| spec_lower(cc.name) == spec_lower(
                    competition_name@,
                )),
                countries.deep_view() == spec_competition_filter(
                    self@.countries.take(i as int),
                    competition_name@,
                ),
            decreases self.countries@.len() - i,
        {
            let country = &self.countries[i];
            let ghost cv = self@.countries[i as int];
            proof {
                assert(cv == country@);
            }
            let mut comps: Vec<Competition> = Vec::new();
            proof {
                reveal_with_fuel(Seq::filter, 2);
                assert(comps.deep_view() =~~= cv.competitions.take(0).filter(pred));
            }
            let mut j: usize = 0;
            while j < country.competitions.len()
                invariant
                    j <= country.competitions@.len(),
                    cv == country@,
                    cv.competitions.len() == country.competitions@.len(),
                    cv.competitions == country.competitions.deep_view(),
                    pred == (|cc: CompetitionView| spec_lower(cc.name) == spec_lower(
                        competition_name@,
                    )),
                    comps.deep_view() == cv.competitions.take(j as int).filter(pred),
                decreases country.competitions@.len() - j,
            {
                let competition = &country.competitions[j];
                let ghost compv = cv.competitions[j as int];
                let ghost oldcc = comps.deep_view();
                proof {
                    assert(compv == competition@);
                    assert(cv.competitions.take(j + 1).drop_last() =~= cv.competitions.take(
                        j as int,
                    ));
                    assert(cv.competitions.take(j + 1).last() == compv);
                }
                if eq_ignore_ascii_case(competition.name.as_str(), competition_name) {
                    comps.push(competition.clone());
                    proof {
                        assert(forall|q: int|
                            0 <= q < oldcc.len() ==> #[trigger] comps.deep_view()[q] == oldcc[q]);
                        assert(comps.deep_view()[oldcc.len() as int] == compv);
                    }
                }
                proof {
                    reveal_with_fuel(Seq::filter, 2);
                    assert(comps.deep_view() =~~= cv.competitions.take(j + 1).filter(pred));
                }
                j = j + 1;
            }
            proof {
                assert(cv.competitions.take(cv.competitions.len() as int) =~= cv.competitions);
            }
            let ghost oldcs = countries.deep_view();
            if comps.len() > 0 {
                countries.push(Country { name: country.name.clone(), competitions: comps });
                proof {
                    assert(forall|q: int|
                        0 <= q < oldcs.len() ==> #[trigger] countries.deep_view()[q] == oldcs[q]);
                    assert(countries.deep_view()[oldcs.len() as int] =~~= CountryView {
                        name: cv.name,
                        competitions: cv.competitions.filter(pred),
                    });
                }
            }
            proof {
                assert(self@.countries.take(i + 1).drop_last() =~= self@.countries.take(i as int));
                assert(self@.countries.take(i + 1).last() == cv);
                assert(countries.deep_view() =~~= spec_competition_filter(
                    self@.countries.take(i + 1),
                    competition_name@,
                ));
            }
            i = i + 1;
        }
        proof {
            assert(self@.countries.take(self@.countries.len() as int) =~= self@.countries);
        }
        Football { countries }
    }

    /// Counts the games in the whole tree.
    pub fn number_of_games(&self) -> (r: usize)
        requires
            spec_number_of_games(self@) <= usize::MAX,
        ensures
            r == spec_number_of_games(self@),
    {
        let ghost total = spec_number_of_games(self@);
        let mut ctr: usize = 0;
        let mut i: usize = 0;
        while i < self.countries.len()
            invariant
                i <= self.countries@.len(),
                self@.countries.len() == self.countries@.len(),
                self@.countries == self.countries.deep_view(),
                total == spec_number_of_games(self@),
                total <= usize::MAX,
                ctr == spec_countries_prefix(self@.countries, i as int),
            decreases self.countries@.len() - i,
        {
            let country = &self.countries[i];
            let ghost cv = self@.countries[i as int];
            proof {
                assert(cv == country@);
            }
            let mut j: usize = 0;
            while j < country.competitions.len()
                invariant
                    j <= country.competitions@.len(),
                    cv == country@,
                    cv.competitions.len() == country.competitions@.len(),
                    cv.competitions == country.competitions.deep_view(),
                    0 <= i < self@.countries.len(),
                    cv == self@.countries[i as int],
                    total == spec_number_of_games(self@),
                    total <= usize::MAX,
                    ctr == spec_countries_prefix(self@.countries, i as int)
                        + spec_comps_prefix(cv.competitions, j as int),
                decreases country.competitions@.len() - j,
            {
                proof {
                    assert(cv.competitions[j as int] == country.competitions.deep_view()[j as int]);
                    lemma_count_within_total(self@.countries, i as int, j + 1);
                }
                ctr = ctr + country.competitions[j].games.len();
                j = j + 1;
            }
            proof {
                lemma_count_within_total(self@.countries, i as int, cv.competitions.len() as int);
                assert(spec_countries_prefix(self@.countries, i + 1) == spec_countries_prefix(
                    self@.countries,
                    i as int,
                ) + spec_comps_prefix(cv.competitions, cv.competitions.len() as int));
            }
            i = i + 1;
        }
        ctr
    }
}

/// The country filter that keeps competitions matching a name and drops
/// countries left empty.
pub open spec fn spec_competition_filter(cs: Seq<CountryView>, name: Seq<char>) -> Seq<CountryView>
    decreases cs.len(),
{
    if cs.len() == 0 {
        Seq::empty()
    } else {
        let rest = spec_competition_filter(cs.drop_last(), name);
        let c = cs.last();
        let comps = c.competitions.filter(
            |cc: CompetitionView| spec_lower(cc.name) == spec_lower(name),
        );
        if comps.len() > 0 {
            rest.push(CountryView { name: c.name, competitions: comps })
        } else {
            rest
        }
    }
}

/// Number of games in the first `j` competitions.
pub open spec fn spec_comps_prefix(comps: Seq<CompetitionView>, j: int) -> int
    decreases j,
{
    if j <= 0 {
        0
    } else {
        spec_comps_prefix(comps, j - 1) + comps[j - 1].games.len()
    }
}

/// Number of games in the first `i` countries.
pub open spec fn spec_countries_prefix(cs: Seq<CountryView>, i: int) -> int
    decreases i,
{
    if i <= 0 {
        0
    } else {
        spec_countries_prefix(cs, i - 1) + spec_comps_prefix(
            cs[i - 1].competitions,
            cs[i - 1].competitions.len() as int,
        )
    }
}

/// Number of games in the whole tree.
pub open spec fn spec_number_of_games(t: FootballView) -> int {
    spec_countries_prefix(t.countries, t.countries.len() as int)
}

/// Prefix game counts only grow.
pub proof fn lemma_comps_prefix_mono(comps: Seq<CompetitionView>, a: int, b: int)
    requires
        0 <= a <= b,
    ensures
        spec_comps_prefix(comps, a) <= spec_comps_prefix(comps, b),
        0 <= spec_comps_prefix(comps, a),
    decreases b - a, a + b,
{
    if a == b {
        if a > 0 {
            lemma_comps_prefix_mono(comps, a - 1, a - 1);
        }
    } else {
        lemma_comps_prefix_mono(comps, a, b - 1);
        lemma_comps_prefix_mono(comps, a, a);
    }
}

/// Prefix country counts only grow.
pub proof fn lemma_countries_prefix_mono(cs: Seq<CountryView>, a: int, b: int)
    requires
        0 <= a <= b,
    ensures
        spec_countries_prefix(cs, a) <= spec_countries_prefix(cs, b),
        0 <= spec_countries_prefix(cs, a),
    decreases b - a, a + b,
{
    if a == b {
        if a > 0 {
            lemma_countries_prefix_mono(cs, a - 1, a - 1);
            lemma_comps_prefix_mono(
                cs[a - 1].competitions,
                0,
                cs[a - 1].competitions.len() as int,
            );
        }
    } else {
        lemma_countries_prefix_mono(cs, a, b - 1);
        lemma_countries_prefix_mono(cs, a, a);
        lemma_comps_prefix_mono(
            cs[b - 1].competitions,
            0,
            cs[b - 1].competitions.len() as int,
        );
    }
}

/// A partial count is never more than the whole tree's count.
pub proof fn lemma_count_within_total(cs: Seq<CountryView>, i: int, j: int)
    requires
        0 <= i < cs.len(),
        0 <= j <= cs[i].competitions.len(),
    ensures
        spec_countries_prefix(cs, i) + spec_comps_prefix(cs[i].competitions, j)
            <= spec_countries_prefix(cs, cs.len() as int),
        0 <= spec_countries_prefix(cs, i),
{
    lemma_comps_prefix_mono(cs[i].competitions, j, cs[i].competitions.len() as int);
    lemma_countries_prefix_mono(cs, i, i);
    assert(spec_countries_prefix(cs, i + 1) == spec_countries_prefix(cs, i) + spec_comps_prefix(
        cs[i].competitions,
        cs[i].competitions.len() as int,
    ));
    lemma_countries_prefix_mono(cs, i + 1, cs.len() as int);
}

/// Filtering keeps a sequence whose elements all satisfy the predicate
/// unchanged.
proof fn lemma_filter_all<A>(s: Seq<A>, q: spec_fn(A) -> bool)
    requires
        forall|i: int| 0 <= i < s.len() ==> q(#[trigger] s[i]),
    ensures
        s.filter(q) == s,
    decreases s.len(),
{
    reveal_with_fuel(Seq::filter, 2);
    if s.len() == 0 {
        assert(s.filter(q) =~= s);
    } else {
        lemma_filter_all(s.drop_last(), q);
        assert(s.filter(q) =~= s.drop_last().push(s.last()));
        assert(s.drop_last().push(s.last()) =~= s);
    }
}

/// Pruning a country's already-pruned competitions changes nothing.
proof fn lemma_prune_competitions_idempotent(
    cname: Seq<char>,
    comps: Seq<CompetitionView>,
    p: spec_fn(Seq<char>, Seq<char>, GameView) -> bool,
)
    ensures
        spec_prune_competitions(cname, spec_prune_competitions(cname, comps, p), p)
            == spec_prune_competitions(cname, comps, p),
    decreases comps.len(),
{
    broadcast use vstd::seq_lib::group_filter_ensures;

    if comps.len() == 0 {
    } else {
        lemma_prune_competitions_idempotent(cname, comps.drop_last(), p);
        let rest = spec_prune_competitions(cname, comps.drop_last(), p);
        let c = comps.last();
        let gamepred = (|g: GameView| p(cname, c.name, g));
        let kept = c.games.filter(gamepred);
        if kept.len() > 0 {
            let c2 = CompetitionView { name: c.name, games: kept };
            let whole = rest.push(c2);
            assert(whole.drop_last() =~= rest);
            assert(whole.last() == c2);
            assert(forall|i: int| 0 <= i < kept.len() ==> gamepred(#[trigger] kept[i]));
            lemma_filter_all(kept, gamepred);
            assert(spec_prune_competitions(cname, whole, p) =~= spec_prune_competitions(
                cname,
                rest,
                p,
            ).push(c2));
        }
    }
}

/// Pruning an already-pruned tree changes nothing.
proof fn lemma_prune_countries_idempotent(
    countries: Seq<CountryView>,
    p: spec_fn(Seq<char>, Seq<char>, GameView) -> bool,
)
    ensures
        spec_prune_countries(spec_prune_countries(countries, p), p) == spec_prune_countries(
            countries,
            p,
        ),
    decreases countries.len(),
{
    if countries.len() == 0 {
    } else {
        lemma_prune_countries_idempotent(countries.drop_last(), p);
        let rest = spec_prune_countries(countries.drop_last(), p);
        let c = countries.last();
        let comps = spec_prune_competitions(c.name, c.competitions, p);
        if comps.len() > 0 {
            let c2 = CountryView { name: c.name, competitions: comps };
            let whole = rest.push(c2);
            assert(whole.drop_last() =~= rest);
            assert(whole.last() == c2);
            lemma_prune_competitions_idempotent(c.name, c.competitions, p);
            assert(spec_prune_countries(whole, p) =~= spec_prune_countries(rest, p).push(c2));
        }
    }
}

/// Filtering is a fixed point: filtering an already-fully-filtered tree
/// with the same game predicate returns the tree unchanged.
pub proof fn lemma_filter_tree_idempotent(
    t: FootballView,
    p: spec_fn(Seq<char>, Seq<char>, GameView) -> bool,
)
    ensures
        spec_filter_tree(spec_filter_tree(t, p), p) == spec_filter_tree(t, p),
{
    lemma_prune_countries_idempotent(t.countries, p);
    assert(spec_filter_tree(spec_filter_tree(t, p), p) =~= spec_filter_tree(t, p));
}

} // verus!
