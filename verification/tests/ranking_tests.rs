use livescore::beebs::Beebs;
use livescore::beebs::CachedLeagues;
use livescore::beebs_search::ParsedLeague;
use livescore::beebs_search::Search;
use livescore::beebs_table::BeebsFootballTable;
use livescore::beebs_table::BeebsFootballTableData;
use livescore::beebs_table::BeebsInitialData;
use livescore::beebs_table::BeebsInnerData;
use livescore::beebs_table::BeebsParticipant;
use livescore::beebs_table::BeebsRounds;
use livescore::beebs_table::BeebsStages;
use livescore::beebs_table::BeebsTournament;
use livescore::beebs_table::Entry;
use livescore::beebs_table::League;
use livescore::soccerway;
use livescore::soccerway::parse_ranking_rows;
use livescore::soccerway::Competition;
use livescore::soccerway::RankingEntry;

fn entry(rank: i8, team: &str) -> Entry {
    Entry {
        rank,
        team: String::from(team),
        win: 0,
        draw: 0,
        lose: 0,
        gf: 0,
        ga: 0,
        points: 0,
    }
}

fn participant(rank: i8, name: &str, points: i8) -> BeebsParticipant {
    BeebsParticipant {
        rank,
        name: String::from(name),
        points,
        wins: 2,
        losses: 1,
        draws: 0,
        gf: 7,
        ga: 4,
    }
}

#[test]
fn find_json_blob_cuts_and_unescapes() {
    let content = "..__INITIAL_DATA__=\"{\\\"x\\\": 1}\";</script>";
    let blob = League::find_json_blob(content).unwrap();
    assert_eq!(blob, "{\"x\": 1}");
    assert_eq!(League::find_json_blob("no markers here"), None);
    assert_eq!(League::find_json_blob("__INITIAL_DATA__ but no close"), None);
}

#[test]
fn ranking_around_windows() {
    let league = League {
        name: String::from("Table"),
        entries: (1..=10).map(|i| entry(i, "team")).collect(),
    };
    let top = league.get_ranking_around(0);
    assert_eq!(top.len(), 6);
    assert_eq!(top[0].rank, 1);
    let mid = league.get_ranking_around(5);
    assert_eq!(mid.len(), 6);
    assert_eq!(mid[0].rank, 3);
    assert_eq!(mid[5].rank, 8);
    let bottom = league.get_ranking_around(9);
    assert_eq!(bottom.len(), 6);
    assert_eq!(bottom[0].rank, 5);
    let small = League { name: String::from("Small"), entries: vec![entry(1, "only")] };
    assert_eq!(small.get_ranking_around(0).len(), 1);
}

#[test]
fn team_position_is_case_insensitive() {
    let league = League {
        name: String::from("Table"),
        entries: vec![entry(1, "Standard"), entry(2, "RSC Anderlecht"), entry(3, "Gent")],
    };
    assert_eq!(league.find_team_position("ANDERLECHT"), 1);
    assert_eq!(league.find_team_position("gent"), 2);
    assert_eq!(league.find_team_position("nobody"), 0);
    assert_eq!(league.get_ranking().len(), 3);
}

#[test]
fn gather_leagues_names_and_rows() {
    let data = BeebsInitialData {
        data: BeebsInnerData {
            football_table: BeebsFootballTable {
                data: BeebsFootballTableData {
                    tournaments: vec![
                        BeebsTournament {
                            name: String::from("Belgian Pro League"),
                            stages: vec![BeebsStages {
                                name: String::from("Regular Season"),
                                rounds: vec![BeebsRounds {
                                    name: None,
                                    participants: vec![
                                        participant(1, "Union", 40),
                                        participant(2, "Club Brugge", 38),
                                    ],
                                }],
                            }],
                        },
                        BeebsTournament {
                            name: String::from("UEFA Nations League"),
                            stages: vec![BeebsStages {
                                name: String::from("League C"),
                                rounds: vec![BeebsRounds {
                                    name: Some(String::from("Group 2")),
                                    participants: vec![participant(1, "Romania", 12)],
                                }],
                            }],
                        },
                    ],
                },
            },
        },
    };
    let leagues = data.gather_leagues();
    assert_eq!(leagues.len(), 2);
    assert_eq!(leagues[0].name, "Belgian Pro League");
    assert_eq!(leagues[0].entries.len(), 2);
    assert_eq!(leagues[0].entries[0].team, "Union");
    assert_eq!(leagues[0].entries[0].points, 40);
    assert_eq!(leagues[1].name, "UEFA Nations League League C Group 2");
    assert_eq!(leagues[1].entries[0].team, "Romania");
}

#[test]
fn search_index_and_lookup() {
    let mut search = Search::new();
    let leagues = vec![
        ParsedLeague {
            name: String::from("Belgian Pro League"),
            url: String::from("/sport/football/belgian-pro-league/table"),
            alternatives: vec![String::from("rsc anderlecht")],
        },
        ParsedLeague {
            name: String::from("Some Team"),
            url: String::from("/sport/football/teams/some-team/table"),
            alternatives: vec![],
        },
    ];
    search.force_update_data("fingerprint", &leagues);
    assert!(!search.needs_data_update("fingerprint"));
    assert!(search.needs_data_update("other"));
    // the team page was skipped, the two names of the league were kept
    assert_eq!(search.data.len(), 2);
    let hits = search.search("anderlecht");
    assert!(!hits.is_empty());
    assert_eq!(hits[0].key, "rsc anderlecht");
    assert_eq!(hits[0].urls, vec![String::from("/sport/football/belgian-pro-league/table")]);
}

#[test]
fn cached_leagues_lifecycle() {
    let stale = CachedLeagues::empty("url");
    assert!(stale.needs_update());
    assert!(stale.get(0).is_none());
    let mut cache = CachedLeagues::new(
        "url",
        vec![League { name: String::from("Table"), entries: vec![entry(1, "team")] }],
    );
    assert!(!cache.needs_update());
    assert!(cache.get(0).is_some());
    // fewer fetched tables than held: the cache keeps what it has
    cache.apply_update(vec![], 0);
    assert_eq!(cache.get(0).unwrap().entries.len(), 1);
    // at least as many: the cache takes the new tables
    let fresh = vec![
        League { name: String::from("A"), entries: vec![] },
        League { name: String::from("B"), entries: vec![] },
    ];
    cache.apply_update(fresh, 7);
    assert_eq!(cache.last_updated, 7);
    assert_eq!(cache.get(1).unwrap().name, "B");
}

#[test]
fn beebs_resolves_query_to_league() {
    let url = "/sport/football/belgian-pro-league/table";
    let mut search = Search::new();
    search.force_update_data(
        "page",
        &vec![ParsedLeague {
            name: String::from("Belgian Pro League"),
            url: String::from(url),
            alternatives: vec![],
        }],
    );
    let cached = CachedLeagues::new(
        url,
        vec![League { name: String::from("Belgian Pro League"), entries: vec![entry(1, "Union")] }],
    );
    let beebs = Beebs::assemble(url, cached, search);
    let league = beebs.get_league("belgian").unwrap();
    assert_eq!(league.name, "Belgian Pro League");
}

#[test]
fn beebs_misses_unregistered_url() {
    // the search index points at a URL the cache does not hold, so no
    // query can resolve to a league
    let mut search = Search::new();
    search.force_update_data(
        "page",
        &vec![ParsedLeague {
            name: String::from("Belgian Pro League"),
            url: String::from("/sport/football/belgian-pro-league/table"),
            alternatives: vec![],
        }],
    );
    let cached = CachedLeagues::new(
        "/some/other/page",
        vec![League { name: String::from("Elsewhere"), entries: vec![] }],
    );
    let beebs = Beebs::assemble("/some/other/page", cached, search);
    assert!(beebs.get_league("belgian").is_none());
}

fn row(cells: &[&str]) -> Vec<String> {
    cells.iter().map(|c| String::from(*c)).collect()
}

#[test]
fn ranking_rows_parse_all_or_nothing() {
    let good = vec![
        row(&["1", "crest", "Belgium", "3", "2", "1", "0", "7", "2", "5", "7"]),
        row(&["2", "crest", "Wales", "3", "1", "1", "1", "4", "4", "0", "4"]),
    ];
    let ranking = parse_ranking_rows(&good);
    assert_eq!(ranking.len(), 2);
    assert_eq!(ranking[0].team, "Belgium");
    assert_eq!(ranking[0].rank, 1);
    assert_eq!(ranking[0].points, 7);
    assert_eq!(ranking[1]._gd, 0);
    // one bad row discards the whole table
    let bad = vec![
        row(&["1", "crest", "Belgium", "3", "2", "1", "0", "7", "2", "5", "7"]),
        row(&["x", "crest", "Wales", "3", "1", "1", "1", "4", "4", "0", "4"]),
    ];
    assert_eq!(parse_ranking_rows(&bad).len(), 0);
    // short rows fail too
    assert_eq!(parse_ranking_rows(&vec![row(&["1", "2", "3"])]).len(), 0);
}

#[test]
fn soccerway_league_ranking_queries() {
    let rows = vec![
        row(&["1", "crest", "Standard", "6", "4", "1", "1", "12", "5", "7", "13"]),
        row(&["2", "crest", "Anderlecht", "6", "3", "2", "1", "9", "6", "3", "11"]),
        row(&["3", "crest", "Gent", "6", "3", "1", "2", "8", "7", "1", "10"]),
        row(&["4", "crest", "Genk", "6", "2", "2", "2", "7", "7", "0", "8"]),
        row(&["5", "crest", "Brugge", "6", "2", "1", "3", "6", "8", "-2", "7"]),
        row(&["6", "crest", "Antwerp", "6", "1", "2", "3", "5", "9", "-4", "5"]),
        row(&["7", "crest", "Charleroi", "6", "1", "1", "4", "4", "9", "-5", "4"]),
    ];
    let mut league = soccerway::League::new(String::from("url"));
    assert!(league.needs_update());
    league.apply_update(parse_ranking_rows(&rows));
    league.mark_updated(5);
    assert_eq!(league.last_updated, 5);
    assert_eq!(league.find_team_position("anderlecht"), 1);
    assert_eq!(league.find_team_position("nobody"), 0);
    let around = league.get_ranking_around(6);
    assert_eq!(around.len(), 6);
    assert_eq!(around[0].rank, 2);
    assert_eq!(around[5].rank, 7);
}

#[test]
fn competition_groups_lookup() {
    let config = vec![
        (String::from("A"), String::from("url-a")),
        (String::from("B"), String::from("url-b")),
    ];
    let competition = Competition::new(&config);
    let group = competition.get_group("B").unwrap();
    assert_eq!(group.url, "url-b");
    assert!(group.get_ranking().is_empty());
    assert!(group.needs_update());
    assert!(competition.get_group("C").is_none());
}

#[test]
fn group_update_cycle() {
    let mut group = soccerway::Group::new(String::from("url"));
    let rows = vec![row(&["1", "crest", "Belgium", "0", "0", "0", "0", "0", "0", "0", "0"])];
    group.apply_update(parse_ranking_rows(&rows));
    group.mark_updated(9);
    assert_eq!(group.get_ranking().len(), 1);
    assert_eq!(group.get_ranking()[0].team, "Belgium");
    assert_eq!(group.last_updated, 9);
}

#[test]
fn ranking_entry_cell_order() {
    let cells = row(&["4", "crest", "Anderlecht", "6", "0", "4", "2", "9", "11", "-2", "33"]);
    let e = RankingEntry::parse_from_cells(&cells).unwrap();
    assert_eq!(e.rank, 4);
    assert_eq!(e.team, "Anderlecht");
    assert_eq!(e._played, 6);
    assert_eq!(e.win, 0);
    assert_eq!(e.draw, 4);
    assert_eq!(e.lose, 2);
    assert_eq!(e.gf, 9);
    assert_eq!(e.ga, 11);
    assert_eq!(e._gd, -2);
    assert_eq!(e.points, 33);
}
