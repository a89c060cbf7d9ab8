use muskat::util::{all_choices, number_of_choices};

#[test]
fn choose_from_5() {
    assert_eq!(number_of_choices(5, 0), 1);
    assert_eq!(number_of_choices(5, 1), 5);
    assert_eq!(number_of_choices(5, 2), 10);
    assert_eq!(number_of_choices(5, 3), 10);
    assert_eq!(number_of_choices(5, 4), 5);
    assert_eq!(number_of_choices(5, 5), 1);
}

#[test]
fn choose_max() {
    assert_eq!(number_of_choices(10, 5), 252);
}

#[test]
fn all_choices_of_three_out_of_five() {
    let choices = all_choices(5, 3);
    assert_eq!(
        choices,
        vec![
            vec![0, 1, 2],
            vec![0, 1, 3],
            vec![0, 2, 3],
            vec![1, 2, 3],
            vec![0, 1, 4],
            vec![0, 2, 4],
            vec![1, 2, 4],
            vec![0, 3, 4],
            vec![1, 3, 4],
            vec![2, 3, 4],
        ]
    );
    assert_eq!(all_choices(4, 0), vec![Vec::<usize>::new()]);
    assert!(all_choices(2, 3).is_empty());
}

#[test]
fn no_choice_is_listed_twice() {
    let mut choices = all_choices(10, 4);
    assert_eq!(choices.len(), 210);
    choices.sort();
    choices.dedup();
    assert_eq!(choices.len(), 210);
}
