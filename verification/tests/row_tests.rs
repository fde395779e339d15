use rope_buffer::rope::RopeBuilder;
use rope_buffer::row::EditorRow;

fn chars_of(s: &str) -> Vec<char> {
    s.chars().collect()
}

#[test]
fn new_plain_text() {
    let row = EditorRow::new("hello");
    assert_eq!(row.chars, chars_of("hello"));
    assert_eq!(row.render, chars_of("hello"));
}

#[test]
fn new_empty() {
    let row = EditorRow::new("");
    assert!(row.chars.is_empty());
    assert!(row.render.is_empty());
}

#[test]
fn new_expands_a_tab_to_the_next_tab_stop() {
    let row = EditorRow::new("a\tb");
    assert_eq!(row.render, chars_of("a       b"));
}

#[test]
fn new_expands_a_leading_tab_to_eight_spaces() {
    let row = EditorRow::new("\t");
    assert_eq!(row.render, chars_of("        "));
}

#[test]
fn new_expands_an_aligned_tab_to_eight_spaces() {
    let row = EditorRow::new("abcdefgh\tx");
    assert_eq!(row.render, chars_of("abcdefgh        x"));
}

#[test]
fn len_counts_characters_not_bytes() {
    let row = EditorRow::new("h\u{e9}llo");
    assert_eq!(row.len(), 5);
}

#[test]
fn get_char_in_and_out_of_range() {
    let row = EditorRow::new("abc");
    assert_eq!(row.get_char(0), Some('a'));
    assert_eq!(row.get_char(2), Some('c'));
    assert_eq!(row.get_char(3), None);
    assert_eq!(row.get_char(100), None);
}

#[test]
fn insert_char_in_the_middle() {
    let mut row = EditorRow::new("abc");
    row.insert_char(1, 'x');
    assert_eq!(row.chars, chars_of("axbc"));
    assert_eq!(row.render, chars_of("axbc"));
}

#[test]
fn insert_char_past_the_end_appends() {
    let mut row = EditorRow::new("abc");
    row.insert_char(99, 'z');
    assert_eq!(row.chars, chars_of("abcz"));
}

#[test]
fn insert_tab_updates_the_render() {
    let mut row = EditorRow::new("ab");
    row.insert_char(1, '\t');
    assert_eq!(row.chars, chars_of("a\tb"));
    assert_eq!(row.render, chars_of("a       b"));
}

#[test]
fn del_char_in_the_middle() {
    let mut row = EditorRow::new("abc");
    row.del_char(1);
    assert_eq!(row.chars, chars_of("ac"));
    assert_eq!(row.render, chars_of("ac"));
}

#[test]
fn del_char_past_the_end_does_nothing() {
    let mut row = EditorRow::new("abc");
    row.del_char(3);
    assert_eq!(row.chars, chars_of("abc"));
    row.del_char(50);
    assert_eq!(row.chars, chars_of("abc"));
}

#[test]
fn append_string_joins_lines() {
    let mut row = EditorRow::new("ab");
    row.append_string("\tcd");
    assert_eq!(row.chars, chars_of("ab\tcd"));
    assert_eq!(row.render, chars_of("ab      cd"));
}

#[test]
fn update_chars_replaces_the_text() {
    let mut row = EditorRow::new("old text");
    row.update_chars("new");
    assert_eq!(row.chars, chars_of("new"));
    assert_eq!(row.render, chars_of("new"));
}

#[test]
fn cx_to_rx_steps_over_tabs() {
    let row = EditorRow::new("a\tb");
    assert_eq!(row.cx_to_rx(0), 0);
    assert_eq!(row.cx_to_rx(1), 1);
    assert_eq!(row.cx_to_rx(2), 8);
    assert_eq!(row.cx_to_rx(3), 9);
    assert_eq!(row.cx_to_rx(4), 10);
}

#[test]
fn cx_to_rx_with_leading_tab() {
    let row = EditorRow::new("\tx");
    assert_eq!(row.cx_to_rx(1), 8);
    assert_eq!(row.cx_to_rx(2), 9);
}

#[test]
fn rows_stored_in_a_rope_can_be_edited_in_place() {
    let mut builder = RopeBuilder::new();
    for s in ["one", "two", "three"] {
        builder.insert(EditorRow::new(s));
    }
    let mut node = builder.build().unwrap();
    node.get_line_mut(1).insert_char(0, 'x');
    assert_eq!(node.get_line(1).chars, chars_of("xtwo"));
    assert_eq!(node.get_line(0).chars, chars_of("one"));
    assert_eq!(node.get_line(2).chars, chars_of("three"));
}
