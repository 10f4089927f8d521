use live_plotter::labels::{display_labels, given_labels, input_to_display_map};

fn strings(s: &[&str]) -> Vec<String> {
    s.iter().map(|t| t.to_string()).collect()
}

#[test]
fn one_label_stands_for_none() {
    assert_eq!(given_labels(None), strings(&["Series 1"]));
    assert_eq!(given_labels(Some(strings(&["b", "a"]))), strings(&["b", "a"]));
}

#[test]
fn labels_are_sorted_when_asked_for() {
    let given = strings(&["b", "ab", "a", "B", "é", "b"]);
    assert_eq!(display_labels(&given, false), given);
    assert_eq!(display_labels(&given, true), strings(&["B", "a", "ab", "b", "b", "é"]));
}

#[test]
fn the_way_leads_to_the_first_of_each_label() {
    let given = strings(&["b", "c", "a", "b"]);
    let shown = display_labels(&given, true);
    assert_eq!(input_to_display_map(&given, &shown), vec![1, 3, 0, 1]);
    assert_eq!(input_to_display_map(&given, &given), vec![0, 1, 2, 0]);
}

#[test]
fn a_label_that_is_not_shown_leads_to_the_first() {
    assert_eq!(input_to_display_map(&strings(&["x", "b"]), &strings(&["a", "b"])), vec![0, 1]);
}
