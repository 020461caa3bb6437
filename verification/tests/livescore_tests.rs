use livescore::livescore::parse_livescore;
use livescore::livescore::LiveScore;
use livescore::livescore::LiveScoreGames;
use livescore::livescore::LiveScoreStage;
use livescore::livescore::LiveScoreTeam;
use livescore::time::DateTime;
use livescore::GameStatus;

fn game(time: &str, start_time: u64, home: &str, away: &str) -> LiveScoreGames {
    LiveScoreGames {
        time: String::from(time),
        start_time,
        home: vec![LiveScoreTeam { name: String::from(home) }],
        away: vec![LiveScoreTeam { name: String::from(away) }],
        home_score: None,
        away_score: None,
    }
}

fn stage(country: &str, competition: &str, games: Vec<LiveScoreGames>) -> LiveScoreStage {
    LiveScoreStage {
        country_name: String::from(country),
        competition_name: String::from(competition),
        games,
    }
}

#[test]
fn bad_livescore_parsing() {
    // Two same-named cups of adjacent countries must never merge: each
    // country keeps exactly its own competition and game.
    let livescore = LiveScore {
        stages: vec![
            stage("Belgium", "Cup", vec![game("NS", 20210210160000, "A", "B")]),
            stage("France", "Cup", vec![game("NS", 20210210160000, "C", "D")]),
        ],
    };
    let football = parse_livescore(livescore);
    assert_eq!(football.countries.len(), 2);
    assert_eq!(football.countries[0].competitions.len(), 1);
    assert_eq!(football.countries[1].competitions.len(), 1);
    assert_eq!(football.countries[0].competitions[0].games.len(), 1);
    assert_eq!(football.countries[1].competitions[0].games.len(), 1);
}

#[test]
fn status_classification() {
    assert_eq!(GameStatus::parse_from_livescore("NS").unwrap(), GameStatus::Upcoming);
    assert_eq!(GameStatus::parse_from_livescore("FT").unwrap(), GameStatus::Ended);
    assert_eq!(GameStatus::parse_from_livescore("AET").unwrap(), GameStatus::Ended);
    assert_eq!(GameStatus::parse_from_livescore("AP").unwrap(), GameStatus::Ended);
    assert_eq!(GameStatus::parse_from_livescore("Postp.").unwrap(), GameStatus::Postponed);
    assert_eq!(GameStatus::parse_from_livescore("Canc.").unwrap(), GameStatus::Cancelled);
    assert_eq!(GameStatus::parse_from_livescore("Aband.").unwrap(), GameStatus::Cancelled);
    assert_eq!(
        GameStatus::parse_from_livescore("HT").unwrap(),
        GameStatus::Ongoing(String::from("HT"))
    );
    assert_eq!(
        GameStatus::parse_from_livescore("45").unwrap(),
        GameStatus::Ongoing(String::from("45"))
    );
}

#[test]
fn priority_sort_order() {
    let mut livescore = LiveScore {
        stages: vec![
            stage("Zimbabwe", "League", vec![]),
            stage("England", "Premier League", vec![]),
            stage("World Cup", "", vec![]),
            stage("Belgium", "Cup", vec![]),
            stage("Belgium", "First Division A", vec![]),
            stage("Austria", "Bundesliga?", vec![]),
        ],
    };
    livescore.sort_by_priority();
    let names: Vec<(String, String)> = livescore
        .stages
        .iter()
        .map(|s| (s.country_name.clone(), s.competition_name.clone()))
        .collect();
    assert_eq!(names[0].0, "World Cup");
    assert_eq!(names[1].0, "England");
    assert_eq!(names[2], (String::from("Belgium"), String::from("First Division A")));
    assert_eq!(names[3], (String::from("Belgium"), String::from("Cup")));
    // unranked countries follow alphabetically
    assert_eq!(names[4].0, "Austria");
    assert_eq!(names[5].0, "Zimbabwe");
}

#[test]
fn union_concatenates_stages() {
    let mut a = LiveScore { stages: vec![stage("Belgium", "Cup", vec![])] };
    let b = LiveScore { stages: vec![stage("France", "Cup", vec![])] };
    a.union(b);
    assert_eq!(a.stages.len(), 2);
    assert_eq!(a.stages[0].country_name, "Belgium");
    assert_eq!(a.stages[1].country_name, "France");
}

#[test]
fn bad_timestamp_drops_single_game() {
    let livescore = LiveScore {
        stages: vec![stage(
            "Belgium",
            "Cup",
            vec![
                game("NS", 20210210160000, "A", "B"),
                // month 13 does not decode, so only this game is dropped
                game("NS", 20211310160000, "C", "D"),
            ],
        )],
    };
    let football = parse_livescore(livescore);
    assert_eq!(football.countries.len(), 1);
    assert_eq!(football.countries[0].competitions[0].games.len(), 1);
    assert_eq!(football.countries[0].competitions[0].games[0].home_team, "A");
}

#[test]
fn missing_team_gets_placeholder() {
    let mut g = game("NS", 20210210160000, "A", "B");
    g.home = vec![];
    let livescore = LiveScore { stages: vec![stage("Belgium", "Cup", vec![g])] };
    let football = parse_livescore(livescore);
    let parsed = &football.countries[0].competitions[0].games[0];
    assert_eq!(parsed.home_team, "No home team");
    assert_eq!(parsed.away_team, "B");
}

#[test]
fn scores_parse_or_default() {
    let mut g = game("FT", 20210210160000, "A", "B");
    g.home_score = Some(String::from("3"));
    g.away_score = Some(String::from("x"));
    let livescore = LiveScore { stages: vec![stage("Belgium", "Cup", vec![g])] };
    let football = parse_livescore(livescore);
    let parsed = &football.countries[0].competitions[0].games[0];
    assert_eq!(parsed.home_score, Some(3));
    assert_eq!(parsed.away_score, None);
}

#[test]
fn datetime_from_code() {
    let dt = DateTime::from_code(20210210160000).unwrap();
    assert_eq!(dt.year, 2021);
    assert_eq!(dt.month, 2);
    assert_eq!(dt.day, 10);
    assert_eq!(dt.hour, 16);
    assert_eq!(dt.minute, 0);
    assert_eq!(dt.second, 0);
    // too few digits
    assert_eq!(DateTime::from_code(210210160000), None);
    // month out of range
    assert_eq!(DateTime::from_code(20211310160000), None);
    // the 29th of February only exists in leap years
    assert_eq!(DateTime::from_code(20210229120000), None);
    assert!(DateTime::from_code(20200229120000).is_some());
}

#[test]
fn datetime_ordinal_and_seconds() {
    let dt = DateTime::from_code(20190610152546).unwrap();
    assert_eq!(dt.ordinal(), 161);
    let feb = DateTime::from_code(20210210160000).unwrap();
    assert_eq!(feb.ordinal(), 41);
    assert_eq!(feb.unix_seconds(), 1612972800);
    let epoch = DateTime::from_code(19700101000000).unwrap();
    assert_eq!(epoch.unix_seconds(), 0);
}

#[test]
fn grouping_ignores_arrival_order() {
    // permuting the stages changes nothing when no two distinct stages
    // rank equal under the priority comparator
    let stages = vec![
        stage("Belgium", "Cup", vec![game("NS", 20210210160000, "A", "B")]),
        stage("France", "Cup", vec![game("NS", 20210210170000, "C", "D")]),
        stage("England", "Premier League", vec![game("FT", 20210210180000, "E", "F")]),
    ];
    let forward = parse_livescore(LiveScore {
        stages: stages.iter().map(clone_stage).collect(),
    });
    let backward = parse_livescore(LiveScore {
        stages: stages.iter().rev().map(clone_stage).collect(),
    });
    assert_eq!(forward.countries.len(), backward.countries.len());
    for (a, b) in forward.countries.iter().zip(backward.countries.iter()) {
        assert_eq!(a.name, b.name);
        assert_eq!(a.competitions.len(), b.competitions.len());
        for (ca, cb) in a.competitions.iter().zip(b.competitions.iter()) {
            assert_eq!(ca.name, cb.name);
            assert_eq!(ca.games.len(), cb.games.len());
            for (ga, gb) in ca.games.iter().zip(cb.games.iter()) {
                assert_eq!(ga.home_team, gb.home_team);
                assert_eq!(ga.away_team, gb.away_team);
            }
        }
    }
}

fn clone_stage(s: &LiveScoreStage) -> LiveScoreStage {
    LiveScoreStage {
        country_name: s.country_name.clone(),
        competition_name: s.competition_name.clone(),
        games: s
            .games
            .iter()
            .map(|g| LiveScoreGames {
                time: g.time.clone(),
                start_time: g.start_time,
                home: g.home.iter().map(|t| LiveScoreTeam { name: t.name.clone() }).collect(),
                away: g.away.iter().map(|t| LiveScoreTeam { name: t.name.clone() }).collect(),
                home_score: g.home_score.clone(),
                away_score: g.away_score.clone(),
            })
            .collect(),
    }
}

#[test]
fn empty_nodes_are_pruned() {
    // a stage with no games, and one whose only game has a bad timestamp,
    // leave no country or competition node behind
    let all_empty = parse_livescore(LiveScore {
        stages: vec![
            stage("Belgium", "Cup", vec![]),
            stage("France", "Cup", vec![game("NS", 20211310160000, "A", "B")]),
        ],
    });
    assert_eq!(all_empty.countries.len(), 0);
    // an empty stage beside a real one leaves only the real nodes
    let mixed = parse_livescore(LiveScore {
        stages: vec![
            stage("Belgium", "Cup", vec![]),
            stage("Belgium", "First Division A", vec![game("NS", 20210210160000, "A", "B")]),
        ],
    });
    assert_eq!(mixed.countries.len(), 1);
    assert_eq!(mixed.countries[0].competitions.len(), 1);
    assert_eq!(mixed.countries[0].competitions[0].name, "First Division A");
}

#[test]
fn country_is_never_split() {
    // one country's competition carrying a globally ranked name must not
    // pull that country apart around another: sibling country names stay
    // unique
    let football = parse_livescore(LiveScore {
        stages: vec![
            stage("Armenia", "Cup", vec![game("NS", 20210210160000, "A", "B")]),
            stage("Bolivia", "Cup", vec![game("NS", 20210210170000, "C", "D")]),
            stage("Armenia", "Zonal League", vec![game("NS", 20210210180000, "E", "F")]),
        ],
    });
    assert_eq!(football.countries.len(), 2);
    assert_eq!(football.countries[0].name, "Armenia");
    assert_eq!(football.countries[0].competitions.len(), 2);
    assert_eq!(football.countries[0].competitions[0].name, "Cup");
    assert_eq!(football.countries[0].competitions[1].name, "Zonal League");
    assert_eq!(football.countries[1].name, "Bolivia");
    assert_eq!(football.countries[1].competitions.len(), 1);
}
