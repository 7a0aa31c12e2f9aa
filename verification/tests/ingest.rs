use jaccard_graph::ingest::collect_ratings;
use jaccard_graph::ingest::decimate;
use jaccard_graph::ingest::keeps_position;
use jaccard_graph::ingest::rating_from_record;
use jaccard_graph::ingest::Record;

fn record(item_id: i32, participant: &str, has_opinion: bool) -> Record {
    Record { item_id, participant_id: participant.to_string(), has_opinion }
}

fn lines(count: usize) -> Vec<String> {
    (0..count).map(|i| format!("line {}", i)).collect()
}

#[test]
fn every_position_is_kept_at_factor_one() {
    for index in 0..10 {
        assert!(keeps_position(index, 1));
    }
}

#[test]
fn one_position_in_ten_is_kept_at_factor_ten() {
    let kept: Vec<usize> = (0..35).filter(|&index| keeps_position(index, 10)).collect();
    assert_eq!(kept, vec![0, 10, 20, 30]);
}

#[test]
fn decimate_keeps_every_nth_line() {
    assert_eq!(decimate(&lines(7), 3), vec!["line 0", "line 3", "line 6"]);
    assert_eq!(decimate(&lines(6), 3), vec!["line 0", "line 3"]);
    assert_eq!(decimate(&lines(5), 1), lines(5));
    assert_eq!(decimate(&lines(5), 5), vec!["line 0"]);
    assert_eq!(decimate(&lines(5), 100), vec!["line 0"]);
    assert_eq!(decimate(&lines(0), 4), Vec::<String>::new());
}

#[test]
fn decimate_agrees_with_keeps_position() {
    let all = lines(23);
    for factor in 1..30 {
        let expected: Vec<String> = all
            .iter()
            .enumerate()
            .filter(|(index, _)| keeps_position(*index, factor))
            .map(|(_, line)| line.clone())
            .collect();
        assert_eq!(decimate(&all, factor), expected);
    }
}

#[test]
fn a_record_with_an_opinion_is_a_rating() {
    let rating = rating_from_record(&record(42, "ann", true)).unwrap();
    assert_eq!(rating.item_id, 42);
    assert_eq!(rating.participant_id, "ann");
    assert!(rating_from_record(&record(42, "ann", false)).is_none());
}

#[test]
fn collect_ratings_skips_bad_lines_and_missing_opinions() {
    let outcomes = vec![
        Some(record(1, "ann", true)),
        None,
        Some(record(1, "bob", false)),
        Some(record(2, "ann", true)),
        None,
    ];
    let ratings = collect_ratings(&outcomes);
    let seen: Vec<(i32, String)> =
        ratings.iter().map(|rating| (rating.item_id, rating.participant_id.clone())).collect();
    assert_eq!(seen, vec![(1, "ann".to_string()), (2, "ann".to_string())]);
    assert!(collect_ratings(&Vec::new()).is_empty());
}
