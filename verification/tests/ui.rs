use rz::app::App;
use rz::error::Error;
use rz::ui::{box_text, continuation_prefix, labeled, output_width, print_box, wrap_line};

#[test]
fn box_fits_narrow_and_wide_widths() {
    for width in [16, 40, 92] {
        let output = box_text(
            "WORKSPACE RESTORED",
            &vec!["A line long enough to wrap inside a narrow terminal".into()],
            width,
        );
        assert!(output.lines().all(|line| line.chars().count() == width));
    }
}

#[test]
fn labels_align_values() {
    assert_eq!(labeled("AMP", "T-123"), "AMP          T-123");
}

#[test]
fn long_labels_are_kept() {
    assert_eq!(labeled("TAB 1234.5678", "x"), "TAB 1234.5678  x");
    assert_eq!(labeled("", ""), "             ");
}

#[test]
fn boxes_look_like_this() {
    assert_eq!(
        box_text("X", &vec!["ab".into(), String::new()], 12),
        "╭──────────╮\n│ RZ :: X  │\n├──────────┤\n│ ab       │\n│          │\n╰──────────╯\n"
    );
    assert_eq!(
        box_text("", &vec!["ab".into()], 0),
        "╭───╮\n│ R │\n│ Z │\n│ : │\n│ : │\n├───┤\n│ a │\n│ b │\n╰───╯\n"
    );
}

#[test]
fn every_row_is_as_wide_as_the_box() {
    let lines = vec![
        "  indented text that goes on and on and on".to_owned(),
        "LABEL        a value that goes on and on and on".to_owned(),
        "äöüßéèêñäöüßéèêñäöüßéèêñäöüßéèêñ".to_owned(),
        "   ".to_owned(),
        "a\u{2003}b\u{3000}c d".to_owned(),
    ];
    for width in 0..60 {
        let output = box_text("A TITLE", &lines, width);
        assert!(output.lines().all(|line| line.chars().count() == width.max(5)));
        let kept = |text: &str| {
            text.chars().filter(|c| !c.is_whitespace() && !"│╭╮├┤╰╯─".contains(*c)).collect::<String>()
        };
        assert_eq!(kept(&output), format!("RZ::ATITLE{}", kept(&lines.concat())));
    }
}

#[test]
fn lines_are_wrapped_at_spaces() {
    assert_eq!(wrap_line("", 10), [""]);
    assert!(wrap_line("   ", 10).is_empty());
    assert_eq!(wrap_line("one two three", 8), ["one two", "three"]);
    assert_eq!(wrap_line("abcdefghij", 4), ["abcd", "efgh", "ij"]);
    assert_eq!(wrap_line("a bcdefghij", 8), ["a bcdefg", "hij"]);
    assert_eq!(wrap_line("  one two", 6), ["  one", "  two"]);
    assert_eq!(
        wrap_line("AMP          one two three", 21),
        ["AMP          one two", "             three"]
    );
}

#[test]
fn continuations_line_up() {
    assert_eq!(continuation_prefix("AMP  x", 40), " ".repeat(13));
    assert_eq!(continuation_prefix("AMP  x", 6), " ".repeat(5));
    assert_eq!(continuation_prefix("Amp  x", 40), "");
    assert_eq!(continuation_prefix("  x", 40), "  ");
    assert_eq!(continuation_prefix("ABCDEFGHIJKL  x", 40), "");
    assert_eq!(continuation_prefix("x", 0), "");
}

#[test]
fn boxes_are_as_wide_as_the_output() {
    assert_eq!(output_width(false, Some(40)), 92);
    assert_eq!(output_width(true, None), 92);
    assert_eq!(output_width(true, Some(40)), 40);
    assert_eq!(output_width(true, Some(3)), 5);
    assert_eq!(output_width(true, Some(200)), 92);
    assert_eq!(
        print_box("X", &vec!["y".into()], true, Some(30)),
        box_text("X", &vec!["y".into()], 30)
    );
}

#[test]
fn failures_are_printed_in_a_box() {
    let error = Error::from_text("it broke");
    assert_eq!(
        App::print_error(&error, true, Some(20)),
        box_text("ERROR", &vec!["it broke".into()], 20)
    );
}
