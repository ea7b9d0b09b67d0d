use dp_noise::mechanisms::above_threshold_indices;

#[test]
fn collects_indices_in_input_order() {
    let flags = vec![false, true, false, true, true, false];
    assert_eq!(above_threshold_indices(&flags), vec![1, 3, 4]);
}

#[test]
fn empty_input_gives_empty_output() {
    let flags: Vec<bool> = Vec::new();
    assert_eq!(above_threshold_indices(&flags), Vec::<usize>::new());
}

#[test]
fn all_false_gives_empty_output() {
    let flags = vec![false; 10];
    assert_eq!(above_threshold_indices(&flags), Vec::<usize>::new());
}

// A strictly decreasing input against a single threshold crosses once: the
// flags are a prefix of trues, and the collected indices are that prefix.
#[test]
fn single_crossing_returns_prefix() {
    let flags = vec![true, true, true, false, false, false, false];
    assert_eq!(above_threshold_indices(&flags), vec![0, 1, 2]);
    let all = vec![true; 5];
    assert_eq!(above_threshold_indices(&all), vec![0, 1, 2, 3, 4]);
}
