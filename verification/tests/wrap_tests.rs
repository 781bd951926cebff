use subscrub::wrap::wrap_items;

#[test]
fn wrap_items_respects_width() {
    let items: Vec<String> = (0..157).map(|i| format!("lang-{i}")).collect();
    let lines = wrap_items(&items, 40);

    assert!(lines.len() > 1, "157 items at width 40 should need several lines");
    for line in &lines {
        assert!(line.len() <= 40, "line exceeded width: {line:?}");
    }

    // every original item must still be present somewhere in the output
    let rejoined = lines.join("  ·  ");
    for item in &items {
        assert!(rejoined.contains(item.as_str()));
    }
}

#[test]
fn wrap_items_single_line_when_it_fits() {
    let items = vec!["ar".to_string(), "en".to_string(), "fr".to_string()];
    let lines = wrap_items(&items, 80);
    assert_eq!(lines, vec!["ar  ·  en  ·  fr".to_string()]);
}

#[test]
fn wrap_items_handles_empty_input() {
    let lines: Vec<String> = wrap_items(&[], 80);
    assert!(lines.is_empty());
}

#[test]
fn wrapped_lines_join_back_to_the_items() {
    let items: Vec<String> = (0..30).map(|i| format!("x{i}")).collect();
    let lines = wrap_items(&items, 17);
    assert_eq!(lines.join("  ·  "), items.join("  ·  "));
    assert!(lines.iter().all(|l| !l.is_empty()));
}

#[test]
fn an_item_wider_than_the_width_stands_alone() {
    let items = vec!["ab".to_string(), "abcdefghijkl".to_string(), "cd".to_string()];
    let lines = wrap_items(&items, 10);
    assert_eq!(lines, vec!["ab".to_string(), "abcdefghijkl".to_string(), "cd".to_string()]);
}

#[test]
fn width_counts_bytes_not_characters() {
    // "éé  ·  b" is 8 characters but 11 bytes.
    let items = vec!["éé".to_string(), "b".to_string()];
    assert_eq!(wrap_items(&items, 10), vec!["éé".to_string(), "b".to_string()]);
    assert_eq!(wrap_items(&items, 11), vec!["éé  ·  b".to_string()]);
}

#[test]
fn lines_are_filled_greedily() {
    let items = vec!["aa".to_string(), "bb".to_string(), "cc".to_string()];
    // "aa  ·  bb" is 10 bytes; adding "  ·  cc" would make 18.
    assert_eq!(
        wrap_items(&items, 10),
        vec!["aa  ·  bb".to_string(), "cc".to_string()]
    );
}
