use jaccard_graph::participants::ParticipantSet;

fn names(list: &[&str]) -> Vec<String> {
    list.iter().map(|name| name.to_string()).collect()
}

#[test]
fn a_new_set_is_empty() {
    let set = ParticipantSet::new();
    assert_eq!(set.len(), 0);
    assert!(set.is_empty());
    assert!(!set.contains(&"ann".to_string()));
}

#[test]
fn insert_adds_a_name_once() {
    let mut set = ParticipantSet::new();
    assert!(set.insert("ann".to_string()));
    assert!(set.insert("bob".to_string()));
    assert!(!set.insert("ann".to_string()));
    assert_eq!(set.len(), 2);
    assert!(!set.is_empty());
    assert!(set.contains(&"ann".to_string()));
    assert!(set.contains(&"bob".to_string()));
    assert!(!set.contains(&"Ann".to_string()));
}

#[test]
fn from_names_drops_repeats() {
    let set = ParticipantSet::from_names(&names(&["u1", "u2", "u1", "u3", "u2"]));
    assert_eq!(set.len(), 3);
    let mut listed = set.to_vec();
    listed.sort();
    assert_eq!(listed, names(&["u1", "u2", "u3"]));
}

#[test]
fn common_count_is_the_size_of_the_intersection() {
    let a = ParticipantSet::from_names(&names(&["u1", "u2", "u3"]));
    let b = ParticipantSet::from_names(&names(&["u2", "u3", "u4"]));
    let c = ParticipantSet::from_names(&names(&["u5", "u6"]));
    assert_eq!(a.common_count(&b), 2);
    assert_eq!(b.common_count(&a), 2);
    assert_eq!(a.common_count(&c), 0);
    assert_eq!(a.common_count(&a), 3);
    assert_eq!(a.common_count(&ParticipantSet::new()), 0);
}
