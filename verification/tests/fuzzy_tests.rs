use livescore::livescore::parse_livescore;
use livescore::livescore::LiveScore;
use livescore::livescore::LiveScoreGames;
use livescore::livescore::LiveScoreStage;
use livescore::livescore::LiveScoreTeam;
use livescore::Football;

fn game(time: &str, start_time: u64, home: &str, away: &str) -> LiveScoreGames {
    LiveScoreGames {
        time: String::from(time),
        start_time,
        home: vec![LiveScoreTeam { name: String::from(home) }],
        away: vec![LiveScoreTeam { name: String::from(away) }],
        home_score: None,
        away_score: None,
    }
}

fn stage(country: &str, competition: &str, games: Vec<LiveScoreGames>) -> LiveScoreStage {
    LiveScoreStage {
        country_name: String::from(country),
        competition_name: String::from(competition),
        games,
    }
}

fn fixture() -> Football {
    parse_livescore(LiveScore {
        stages: vec![
            stage(
                "EURO",
                "Group B",
                vec![game("NS", 20210612210000, "Spain", "Sweden")],
            ),
            stage(
                "England",
                "Premier League",
                vec![game("FT", 20210210160000, "Arsenal", "Chelsea")],
            ),
        ],
    })
}

#[test]
fn fuzzy_query_exact_substring_scores_zero() {
    let games = fixture();
    let matches = games.fuzzy_query("spain");
    assert_eq!(matches.len(), 1);
    assert_eq!(matches[0].score_num, 0);
    assert_eq!(matches[0].score_den, 5);
    assert_eq!(matches[0].game.home_team, "Spain");
    assert_eq!(matches[0].country.name, "EURO");
}

#[test]
fn fuzzy_query_tolerates_one_edit() {
    let games = fixture();
    // one substitution within a 7-character pattern stays under the
    // three-tenths threshold
    let matches = games.fuzzy_query("arsenol");
    assert_eq!(matches.len(), 1);
    assert_eq!(matches[0].score_num, 1);
    assert_eq!(matches[0].game.home_team, "Arsenal");
}

#[test]
fn fuzzy_query_orders_by_score() {
    let games = fixture();
    // "chelsea" matches one game exactly and the other not at all
    let matches = games.fuzzy_query("chelsea");
    assert_eq!(matches.len(), 1);
    assert_eq!(matches[0].game.away_team, "Chelsea");
}

#[test]
fn fuzzy_query_rejects_empty_and_overlong() {
    let games = fixture();
    assert_eq!(games.fuzzy_query("").len(), 0);
    let long = "a".repeat(64);
    assert_eq!(games.fuzzy_query(&long).len(), 0);
}

#[test]
fn fuzzy_query_is_deterministic() {
    // identical data and query give identical scores and ordering
    let games = fixture();
    let a = games.fuzzy_query("spain sweden");
    let b = games.fuzzy_query("spain sweden");
    assert_eq!(a.len(), b.len());
    for (x, y) in a.iter().zip(b.iter()) {
        assert_eq!(x.score_num, y.score_num);
        assert_eq!(x.score_den, y.score_den);
        assert_eq!(x.country.name, y.country.name);
        assert_eq!(x.competition.name, y.competition.name);
        assert_eq!(x.game.home_team, y.game.home_team);
        assert_eq!(x.game.away_team, y.game.away_team);
    }
}

#[test]
fn mixed_query_requires_every_word() {
    let games = fixture();
    let both = games.mixed_query("euro spain");
    assert_eq!(both.len(), 1);
    assert_eq!(both[0].game.home_team, "Spain");
    // each word matched exactly, so the mean score is zero
    assert_eq!(both[0].score_num, 0);
    assert_eq!(both[0].score_den, 2000);
    let neither = games.mixed_query("euro arsenal");
    assert_eq!(neither.len(), 0);
}

#[test]
fn mixed_query_empty_matches_nothing() {
    let games = fixture();
    assert_eq!(games.mixed_query("").len(), 0);
    assert_eq!(games.mixed_query("!!!").len(), 0);
}
