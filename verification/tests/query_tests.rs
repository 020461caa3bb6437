use livescore::livescore::parse_livescore;
use livescore::livescore::LiveScore;
use livescore::livescore::LiveScoreGames;
use livescore::livescore::LiveScoreStage;
use livescore::livescore::LiveScoreTeam;
use livescore::search::GamePred;
use livescore::strutil::parse_i8;
use livescore::strutil::parse_u8;
use livescore::Football;

fn game(time: &str, start_time: u64, home: &str, away: &str) -> LiveScoreGames {
    LiveScoreGames {
        time: String::from(time),
        start_time,
        home: vec![LiveScoreTeam { name: String::from(home) }],
        away: vec![LiveScoreTeam { name: String::from(away) }],
        home_score: None,
        away_score: None,
    }
}

fn stage(country: &str, competition: &str, games: Vec<LiveScoreGames>) -> LiveScoreStage {
    LiveScoreStage {
        country_name: String::from(country),
        competition_name: String::from(competition),
        games,
    }
}

fn fixture() -> Football {
    parse_livescore(LiveScore {
        stages: vec![
            stage(
                "EURO",
                "Group B",
                vec![game("NS", 20210612210000, "Spain", "Sweden")],
            ),
            stage(
                "England",
                "Premier League",
                vec![
                    game("FT", 20210210160000, "Arsenal", "Chelsea"),
                    game("45", 20210210180000, "Leeds", "Everton"),
                ],
            ),
            stage("Belgium", "Cup", vec![game("NS", 20210211100000, "Gent", "Brugge")]),
        ],
    })
}

#[test]
fn query_games_euro_spain() {
    // A dataset with exactly one Euro-competition game involving Spain
    // answers the reference query with exactly that game.
    let games = fixture();
    let euro_spain = games.query("euro spain");
    assert_eq!(euro_spain.number_of_games(), 1);
    assert_eq!(euro_spain.countries[0].competitions[0].games[0].home_team, "Spain");
}

#[test]
fn query_requires_every_token() {
    let games = fixture();
    assert_eq!(games.query("arsenal").number_of_games(), 1);
    assert_eq!(games.query("arsenal spain").number_of_games(), 0);
    // an empty query keeps everything
    assert_eq!(games.query("").number_of_games(), 4);
    // tokens match case-insensitively and across name kinds
    assert_eq!(games.query("ENGLAND premier").number_of_games(), 2);
}

#[test]
fn query_prunes_empty_nodes() {
    let games = fixture();
    let filtered = games.query("gent");
    assert_eq!(filtered.countries.len(), 1);
    assert_eq!(filtered.countries[0].name, "Belgium");
    assert_eq!(filtered.countries[0].competitions.len(), 1);
}

#[test]
fn status_filters() {
    let games = fixture();
    assert_eq!(games.upcoming().number_of_games(), 2);
    assert_eq!(games.ended().number_of_games(), 1);
    assert_eq!(games.live().number_of_games(), 1);
    assert_eq!(games.live().countries[0].competitions[0].games[0].home_team, "Leeds");
}

#[test]
fn window_filter() {
    let games = fixture();
    // 2021-02-10 16:00:00 UTC
    let at = 1612972800i64;
    assert_eq!(games.sliding_window_at(at - 3600, at + 3600).number_of_games(), 1);
    assert_eq!(games.sliding_window_at(at - 3600, at + 3 * 3600).number_of_games(), 2);
    assert_eq!(games.sliding_window_at(0, 0).number_of_games(), 0);
}

#[test]
fn ordinal_filter() {
    let games = fixture();
    // the 10th of February is day 41 of a common year
    assert_eq!(games.on_ordinal(41).number_of_games(), 2);
    assert_eq!(games.on_ordinal(42).number_of_games(), 1);
    assert_eq!(games.on_ordinal(300).number_of_games(), 0);
}

#[test]
fn filtering_is_idempotent() {
    // a second pass with the same predicate leaves the tree untouched
    let games = fixture();
    let once = games.ended();
    let twice = once.ended();
    assert_eq!(once.number_of_games(), twice.number_of_games());
    assert_eq!(once.countries.len(), twice.countries.len());
    for (a, b) in once.countries.iter().zip(twice.countries.iter()) {
        assert_eq!(a.name, b.name);
        assert_eq!(a.competitions.len(), b.competitions.len());
    }
    let q_once = games.query("premier");
    let q_twice = q_once.query("premier");
    assert_eq!(q_once.number_of_games(), q_twice.number_of_games());
}

#[test]
fn generic_filter_by_predicate() {
    let games = fixture();
    let ended = games.generic_filter(GamePred::Ended);
    assert_eq!(ended.number_of_games(), 1);
    let windowed = games.generic_filter(GamePred::Window { lo: 0, hi: i64::MAX });
    assert_eq!(windowed.number_of_games(), 4);
}

#[test]
fn country_and_competition_filters() {
    let games = fixture();
    let belgium = games.country("belgium");
    assert_eq!(belgium.countries.len(), 1);
    assert_eq!(belgium.countries[0].name, "Belgium");
    assert_eq!(games.country("nowhere").countries.len(), 0);
    let premier = games.competition("premier league");
    assert_eq!(premier.countries.len(), 1);
    assert_eq!(premier.countries[0].competitions[0].games.len(), 2);
    assert_eq!(games.competition("no such").countries.len(), 0);
}

#[test]
fn parse_small_unsigned() {
    assert_eq!(parse_u8("0"), Some(0));
    assert_eq!(parse_u8("3"), Some(3));
    assert_eq!(parse_u8("+3"), Some(3));
    assert_eq!(parse_u8("255"), Some(255));
    assert_eq!(parse_u8("256"), None);
    assert_eq!(parse_u8(""), None);
    assert_eq!(parse_u8("+"), None);
    assert_eq!(parse_u8("1a"), None);
    assert_eq!(parse_u8("-1"), None);
}

#[test]
fn parse_small_signed() {
    assert_eq!(parse_i8("0"), Some(0));
    assert_eq!(parse_i8("-2"), Some(-2));
    assert_eq!(parse_i8("+7"), Some(7));
    assert_eq!(parse_i8("127"), Some(127));
    assert_eq!(parse_i8("128"), None);
    assert_eq!(parse_i8("-128"), Some(-128));
    assert_eq!(parse_i8("-129"), None);
    assert_eq!(parse_i8("--1"), None);
    assert_eq!(parse_i8(""), None);
}

#[test]
fn clone_copies_tree() {
    let games = fixture();
    let copy = games.clone();
    assert_eq!(copy.number_of_games(), games.number_of_games());
    assert_eq!(copy.countries[0].name, games.countries[0].name);
}
