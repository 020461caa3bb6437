//! The country/competition/game tree and its mathematical model.
//!
//! Every contract in the library speaks about these types through their
//! views: a `Game` is seen as a `GameView` whose strings are `Seq<char>`,
//! and the tree types are seen as nested sequences of views.

use crate::time::DateTime;
use vstd::prelude::*;

verus! {

/// Classification of a game's raw status code.
#[derive(Debug, PartialEq)]
pub enum GameStatus {
    Upcoming,
    Ongoing(String),
    Ended,
    Postponed,
    Cancelled,
}

/// Mathematical model of a `GameStatus`: the live label as a `Seq<char>`.
#[verifier::ext_equal]
pub enum GameStatusView {
    Upcoming,
    Ongoing(Seq<char>),
    Ended,
    Postponed,
    Cancelled,
}

impl View for GameStatus {
    type V = GameStatusView;

    open spec fn view(&self) -> GameStatusView {
        match self {
            GameStatus::Upcoming => GameStatusView::Upcoming,
            GameStatus::Ongoing(label) => GameStatusView::Ongoing(label@),
            GameStatus::Ended => GameStatusView::Ended,
            GameStatus::Postponed => GameStatusView::Postponed,
            GameStatus::Cancelled => GameStatusView::Cancelled,
        }
    }
}

/// One game of football, possibly future, past, or present.
#[derive(Debug)]
pub struct Game {
    pub home_team: String,
    pub away_team: String,
    pub home_score: Option<u8>,
    pub away_score: Option<u8>,
    pub start_time: DateTime,
    pub status: GameStatus,
}

/// Mathematical model of a `Game`.
#[verifier::ext_equal]
pub struct GameView {
    pub home_team: Seq<char>,
    pub away_team: Seq<char>,
    pub home_score: Option<u8>,
    pub away_score: Option<u8>,
    pub start_time: DateTime,
    pub status: GameStatusView,
}

impl View for Game {
    type V = GameView;

    open spec fn view(&self) -> GameView {
        GameView {
            home_team: self.home_team@,
            away_team: self.away_team@,
            home_score: self.home_score,
            away_score: self.away_score,
            start_time: self.start_time,
            status: self.status@,
        }
    }
}

/// A league, or a group or stage in a major competition.
#[derive(Debug)]
pub struct Competition {
    pub name: String,
    pub games: Vec<Game>,
}

/// Mathematical model of a `Competition`.
#[verifier::ext_equal]
pub struct CompetitionView {
    pub name: Seq<char>,
    pub games: Seq<GameView>,
}

impl View for Competition {
    type V = CompetitionView;

    open spec fn view(&self) -> CompetitionView {
        CompetitionView { name: self.name@, games: self.games.deep_view() }
    }
}

/// A country, or a major international competition acting as one.
#[derive(Debug)]
pub struct Country {
    pub name: String,
    pub competitions: Vec<Competition>,
}

/// Mathematical model of a `Country`.
#[verifier::ext_equal]
pub struct CountryView {
    pub name: Seq<char>,
    pub competitions: Seq<CompetitionView>,
}

impl View for Country {
    type V = CountryView;

    open spec fn view(&self) -> CountryView {
        CountryView { name: self.name@, competitions: self.competitions.deep_view() }
    }
}

/// Container for all football games, grouped by country and competition.
#[derive(Debug)]
pub struct Football {
    pub countries: Vec<Country>,
}

/// Mathematical model of a `Football` tree.
#[verifier::ext_equal]
pub struct FootballView {
    pub countries: Seq<CountryView>,
}

impl View for Football {
    type V = FootballView;

    open spec fn view(&self) -> FootballView {
        FootballView { countries: self.countries.deep_view() }
    }
}

impl DeepView for Game {
    type V = GameView;

    open spec fn deep_view(&self) -> GameView {
        self.view()
    }
}

impl DeepView for Competition {
    type V = CompetitionView;

    open spec fn deep_view(&self) -> CompetitionView {
        self.view()
    }
}

impl DeepView for Country {
    type V = CountryView;

    open spec fn deep_view(&self) -> CountryView {
        self.view()
    }
}

impl Clone for GameStatus {
    fn clone(&self) -> (r: Self)
        ensures
            r@ == self@,
    {
        match self {
            GameStatus::Upcoming => GameStatus::Upcoming,
            GameStatus::Ongoing(label) => GameStatus::Ongoing(label.clone()),
            GameStatus::Ended => GameStatus::Ended,
            GameStatus::Postponed => GameStatus::Postponed,
            GameStatus::Cancelled => GameStatus::Cancelled,
        }
    }
}

impl Clone for Game {
    fn clone(&self) -> (r: Self)
        ensures
            r@ == self@,
    {
        Game {
            home_team: self.home_team.clone(),
            away_team: self.away_team.clone(),
            home_score: self.home_score,
            away_score: self.away_score,
            start_time: self.start_time,
            status: self.status.clone(),
        }
    }
}

impl Clone for Competition {
    fn clone(&self) -> (r: Self)
        ensures
            r@ == self@,
    {
        let mut games: Vec<Game> = Vec::new();
        let mut i: usize = 0;
        while i < self.games.len()
            invariant
                i <= self.games.len(),
                games@.len() == i,
                forall|k: int| 0 <= k < i ==> games@[k]@ == self.games@[k]@,
            decreases self.games.len() - i,
        {
            games.push(self.games[i].clone());
            i = i + 1;
        }
        proof {
            assert(games.deep_view() =~= self.games.deep_view());
        }
        Competition { name: self.name.clone(), games }
    }
}

impl Clone for Country {
    fn clone(&self) -> (r: Self)
        ensures
            r@ == self@,
    {
        let mut competitions: Vec<Competition> = Vec::new();
        let mut i: usize = 0;
        while i < self.competitions.len()
            invariant
                i <= self.competitions.len(),
                competitions@.len() == i,
                forall|k: int| 0 <= k < i ==> competitions@[k]@ == self.competitions@[k]@,
            decreases self.competitions.len() - i,
        {
            competitions.push(self.competitions[i].clone());
            i = i + 1;
        }
        proof {
            assert(competitions.deep_view() =~= self.competitions.deep_view());
        }
        Country { name: self.name.clone(), competitions }
    }
}

impl Clone for Football {
    fn clone(&self) -> (r: Self)
        ensures
            r@ == self@,
    {
        let mut countries: Vec<Country> = Vec::new();
        let mut i: usize = 0;
        while i < self.countries.len()
            invariant
                i <= self.countries.len(),
                countries@.len() == i,
                forall|k: int| 0 <= k < i ==> countries@[k]@ == self.countries@[k]@,
            decreases self.countries.len() - i,
        {
            countries.push(self.countries[i].clone());
            i = i + 1;
        }
        proof {
            assert(countries.deep_view() =~= self.countries.deep_view());
        }
        Football { countries }
    }
}

} // verus!
