#[test]
fn test_print_columned() {
    let items: Vec<String> = vec![
        "one", "two", "three", "four", "five", "six", "seven", "eight", "nine", "ten",
    ]
    .into_iter()
    .map(|s| s.to_string())
    .collect();
    let out = meow::columned::write(&items, 32);
    assert_eq!(
        out,
        "one   two   three four  five  \nsix   seven eight nine  ten   \n"
    );
}

#[test]
fn columned_single_item_fills_one_row() {
    let items: Vec<String> = vec!["alpha".to_string()];
    let out = meow::columned::write(&items, 6);
    assert_eq!(out, "alpha \n");
}

#[test]
fn columned_no_items_prints_nothing() {
    let items: Vec<String> = Vec::new();
    let out = meow::columned::write(&items, 80);
    assert_eq!(out, "");
}
