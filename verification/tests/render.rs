use spotly::render::{
    display_width, glyph, is_quit_key, layout, render_word, scale_row, scale_rows,
    terminal_dims, UNKNOWN_GLYPH,
};

#[test]
fn glyph_rows_scale_seven_to_ten() {
    assert_eq!(scale_rows(7), vec![0, 0, 1, 2, 2, 3, 4, 4, 5, 6]);
    assert_eq!(scale_rows(0), Vec::<usize>::new());
}

#[test]
fn glyph_columns_scale_five_to_seven() {
    let row: Vec<char> = "ab cd".chars().collect();
    let scaled: String = scale_row(&row).into_iter().collect();
    assert_eq!(scaled, "aab  cd");
}

#[test]
fn letter_a_is_drawn_in_blocks() {
    let lines = render_word("A");
    assert_eq!(lines.len(), 10);
    assert_eq!(lines[0], "   ██  ");
    assert_eq!(lines[5], "███████");
    assert!(lines.iter().all(|l| display_width(l) == 7));
}

#[test]
fn glyphs_ignore_case() {
    assert_eq!(glyph('a'), glyph('A'));
    assert_eq!(glyph('#'), UNKNOWN_GLYPH);
    assert_ne!(glyph('b'), glyph('a'));
}

#[test]
fn glyphs_stand_two_columns_apart() {
    let lines = render_word("hi");
    assert_eq!(display_width(&lines[0]), 16);
    assert_eq!(&lines[0].chars().skip(7).take(2).collect::<String>(), "  ");
    assert_eq!(render_word(""), vec![String::new(); 10]);
}

#[test]
fn frame_is_centered() {
    let frame = layout(Some("  hi  "), 80, 24);
    assert_eq!(frame.lines, render_word("hi"));
    assert_eq!(frame.left_padding, 32);
    assert_eq!(frame.top_padding, 7);

    let small = layout(Some("hi"), 10, 5);
    assert_eq!(small.left_padding, 0);
    assert_eq!(small.top_padding, 0);
}

#[test]
fn blank_word_shows_a_note() {
    assert_eq!(layout(None, 80, 24).lines, render_word("♪"));
    assert_eq!(layout(Some("   "), 80, 24).lines, render_word("♪"));
}

#[test]
fn terminal_size_falls_back_to_eighty_by_twenty_four() {
    assert_eq!(terminal_dims(Some((100, 40))), (100, 40));
    assert_eq!(terminal_dims(Some((0, 40))), (80, 24));
    assert_eq!(terminal_dims(None), (80, 24));
}

#[test]
fn q_quits() {
    assert!(is_quit_key('q'));
    assert!(is_quit_key('Q'));
    assert!(!is_quit_key('x'));
}

#[test]
fn display_width_counts_chars() {
    assert_eq!(display_width("█ █"), 3);
    assert_eq!(display_width(""), 0);
}
