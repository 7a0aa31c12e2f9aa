use jaccard_graph::graph::GraphNode;
use jaccard_graph::label::clean_label;
use jaccard_graph::label::display_text;
use jaccard_graph::label::item_text;
use jaccard_graph::label::strip_dots;

#[test]
fn strip_dots_removes_every_dot() {
    assert_eq!(strip_dots("Mr. Jack"), "Mr Jack");
    assert_eq!(strip_dots("..."), "");
    assert_eq!(strip_dots(""), "");
    assert_eq!(strip_dots("no dots"), "no dots");
    assert_eq!(strip_dots("é.t.é"), "été");
}

#[test]
fn clean_label_transliterates_and_removes_dots() {
    assert_eq!(clean_label("Æneid."), "AEneid");
    assert_eq!(clean_label("étude"), "etude");
    assert_eq!(clean_label("Dr. Jekyll & Mr. Hyde"), "Dr Jekyll & Mr Hyde");
    assert_eq!(clean_label("…"), "");
    assert!(clean_label("北亰").is_ascii());
}

#[test]
fn item_text_is_the_decimal_number() {
    assert_eq!(item_text(0), "0");
    assert_eq!(item_text(7), "7");
    assert_eq!(item_text(10), "10");
    assert_eq!(item_text(154003), "154003");
    assert_eq!(item_text(-42), "-42");
    assert_eq!(item_text(i32::MAX), "2147483647");
    assert_eq!(item_text(i32::MIN), "-2147483648");
    for value in [-1000, -9, 1, 99, 100, 101, 65536] {
        assert_eq!(item_text(value), value.to_string());
    }
}

#[test]
fn a_node_without_label_is_shown_by_its_number() {
    let labelled =
        GraphNode { node_id: 0, item_id: 154003, weight: 5, label: Some("Pagoda".to_string()) };
    let bare = GraphNode { node_id: 1, item_id: 154003, weight: 5, label: None };
    assert_eq!(display_text(&labelled), "Pagoda");
    assert_eq!(display_text(&bare), "154003");
}
