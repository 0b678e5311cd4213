use hsstats::map_document;
use hsstats::AggregationError;
use hsstats::Node;
use hsstats::Season;
use hsstats::Timestamp;

fn text(s: &str) -> Node {
    Node::Text(String::from(s))
}

fn field(key: &str, value: &str) -> (Node, Node) {
    (text(key), text(value))
}

fn season_of(label: &str, matches: Vec<(i64, Vec<(Node, Node)>)>) -> Season {
    let inner: Vec<(Node, Node)> = matches
        .into_iter()
        .map(|(id, fields)| (Node::Number(id), Node::Mapping(fields)))
        .collect();
    let doc = Node::Mapping(vec![(text(label), Node::Mapping(inner))]);
    let mut seasons = map_document(&vec![doc]).unwrap();
    seasons.pop().unwrap()
}

#[test]
fn round_trip_two_wins_one_loss() {
    let season = season_of(
        "Season 1",
        vec![
            (1, vec![field("result", "Win")]),
            (2, vec![field("result", "Win")]),
            (3, vec![field("result", "Loss")]),
        ],
    );
    let p = season.win_rate().unwrap();
    assert_eq!(p.wins, 2);
    assert_eq!(p.total, 3);
    let value = 100.0 * (p.wins as f64) / (p.total as f64);
    assert!((value - 66.666).abs() < 0.01);
}

#[test]
fn win_rate_stays_between_zero_and_hundred() {
    let all_wins = season_of(
        "Season 1",
        vec![(1, vec![field("result", "Win")]), (2, vec![field("result", "Win")])],
    );
    let p = all_wins.win_rate().unwrap();
    assert_eq!(p.wins, 2);
    assert_eq!(p.total, 2);
    assert!((100.0 * (p.wins as f64) / (p.total as f64) - 100.0).abs() < 1e-9);

    let all_losses = season_of(
        "Season 1",
        vec![(1, vec![field("result", "Loss")]), (2, vec![field("result", "Loss")])],
    );
    let p = all_losses.win_rate().unwrap();
    assert_eq!(p.wins, 0);
    assert_eq!(p.total, 2);
    let value = 100.0 * (p.wins as f64) / (p.total as f64);
    assert!(value.abs() < 1e-9);
    assert!((0.0..=100.0).contains(&value));
}

#[test]
fn win_rate_of_empty_season_is_an_error() {
    let season = season_of("Season 1", vec![]);
    assert!(season.win_rate() == Err(AggregationError::EmptySeason));
}

#[test]
fn filter_by_deck_is_case_insensitive() {
    let season = season_of(
        "Season 1",
        vec![
            (
                1,
                vec![
                    field("deck", "Mage Tempo"),
                    field("opponent", "Warrior"),
                    field("result", "Win"),
                ],
            ),
            (
                2,
                vec![
                    field("deck", "mage tempo"),
                    field("opponent", "Priest"),
                    field("result", "Loss"),
                ],
            ),
        ],
    );
    let filtered = season.filter_by_deck("Mage", "Tempo");
    assert_eq!(filtered.num, season.num);
    assert_eq!(filtered.matches.len(), 2);
    let p = filtered.win_rate().unwrap();
    assert_eq!(p.wins, 1);
    assert_eq!(p.total, 2);
    let value = 100.0 * (p.wins as f64) / (p.total as f64);
    assert!((value - 50.0).abs() < 1e-9);
}

#[test]
fn filter_by_deck_excludes_other_decks() {
    let season = season_of(
        "Season 1",
        vec![
            (1, vec![field("deck", "Mage Tempo")]),
            (2, vec![field("deck", "Warrior Control")]),
        ],
    );
    let filtered = season.filter_by_deck("Mage", "Tempo");
    assert_eq!(filtered.matches.len(), 1);
    assert_eq!(filtered.matches[0].id, 1);
}

#[test]
fn empty_deck_filter_win_rate_is_empty_season_error() {
    let season = season_of("Season 1", vec![(1, vec![field("deck", "Mage Tempo")])]);
    let filtered = season.filter_by_deck("Priest", "Control");
    assert_eq!(filtered.matches.len(), 0);
    assert!(filtered.win_rate() == Err(AggregationError::EmptySeason));
}

#[test]
fn filter_by_deck_twice_yields_the_same_matches() {
    let season = season_of(
        "Season 1",
        vec![
            (1, vec![field("deck", "Mage Tempo")]),
            (2, vec![field("deck", "MAGE TEMPO")]),
            (3, vec![field("deck", "Druid Ramp")]),
        ],
    );
    let once = season.filter_by_deck("Mage", "Tempo");
    let twice = once.filter_by_deck("Mage", "Tempo");
    assert_eq!(once.matches.len(), 2);
    assert_eq!(twice.matches.len(), once.matches.len());
    for (a, b) in once.matches.iter().zip(twice.matches.iter()) {
        assert_eq!(a.id, b.id);
        assert_eq!(a.deck, b.deck);
    }
}

#[test]
fn group_by_opponent_counts_partition_the_matches() {
    let season = season_of(
        "Season 1",
        vec![
            (1, vec![field("opponent", "Warrior"), field("result", "Win")]),
            (2, vec![field("opponent", "warrior"), field("result", "Loss")]),
            (3, vec![field("opponent", "Priest"), field("result", "Win")]),
            (4, vec![field("opponent", "WARRIOR"), field("result", "Win")]),
        ],
    );
    let groups = season.group_by_opponent();
    let total: usize = groups.iter().map(|g| g.count).sum();
    assert_eq!(total, season.matches.len());
    assert_eq!(groups.len(), 2);
}

#[test]
fn group_by_opponent_keeps_first_seen_spelling() {
    let season = season_of(
        "Season 1",
        vec![
            (1, vec![field("opponent", "Warrior"), field("result", "Win")]),
            (2, vec![field("opponent", "warrior"), field("result", "Loss")]),
            (3, vec![field("opponent", "Priest"), field("result", "Win")]),
        ],
    );
    let groups = season.group_by_opponent();
    assert_eq!(groups.len(), 2);
    assert_eq!(groups[0].opponent, "Warrior");
    assert_eq!(groups[0].count, 2);
    assert_eq!(groups[0].wins, 1);
    assert_eq!(groups[1].opponent, "Priest");
    assert_eq!(groups[1].count, 1);
    assert_eq!(groups[1].wins, 1);
    let p = groups[0].rate().unwrap();
    assert_eq!(p.wins, 1);
    assert_eq!(p.total, 2);
    let value = 100.0 * (p.wins as f64) / (p.total as f64);
    assert!((value - 50.0).abs() < 1e-9);
}

#[test]
fn group_rate_of_empty_group_is_an_error() {
    let g = hsstats::OpponentStats { opponent: String::from("Warrior"), count: 0, wins: 0 };
    assert!(g.rate() == Err(AggregationError::EmptySeason));
}

#[test]
fn filter_by_day_matches_day_and_month_ignoring_year() {
    let season = season_of(
        "Season 1",
        vec![
            (1, vec![field("datetime", "2015-03-27 18:02:42")]),
            (2, vec![field("datetime", "2014-03-27 09:30:00")]),
            (3, vec![field("datetime", "2015-04-27 12:00:00")]),
            (4, vec![field("datetime", "2015-03-28 12:00:00")]),
            (5, vec![]),
        ],
    );
    let reference = Timestamp { year: 2016, month: 3, day: 27, hour: 0, minute: 0, second: 0 };
    let filtered = season.filter_by_day(reference);
    assert_eq!(filtered.num, season.num);
    assert_eq!(filtered.matches.len(), 2);
    assert_eq!(filtered.matches[0].id, 1);
    assert_eq!(filtered.matches[1].id, 2);
}

#[test]
fn filter_by_day_excludes_matches_without_timestamp() {
    let season = season_of("Season 1", vec![(1, vec![field("deck", "Mage Tempo")])]);
    let reference = Timestamp { year: 2016, month: 3, day: 27, hour: 0, minute: 0, second: 0 };
    let filtered = season.filter_by_day(reference);
    assert_eq!(filtered.matches.len(), 0);
}

#[test]
fn filters_do_not_change_the_input_season() {
    let season = season_of(
        "Season 1",
        vec![
            (1, vec![field("deck", "Mage Tempo"), field("opponent", "Warrior")]),
            (2, vec![field("deck", "Druid Ramp"), field("opponent", "Priest")]),
        ],
    );
    let _ = season.filter_by_deck("Mage", "Tempo");
    let _ = season.group_by_opponent();
    assert_eq!(season.matches.len(), 2);
    assert_eq!(season.matches[0].deck, "Mage Tempo");
    assert_eq!(season.matches[1].deck, "Druid Ramp");
}
