use asciiart::AsciiArt;
use asciiart::AsciiArtUnprocessed;
use asciiart::TranscodeError;
use crossterm::style::Color;

fn raw(names: Vec<&str>, colors: Vec<Color>, width: u16, art: &str) -> AsciiArtUnprocessed {
    AsciiArtUnprocessed {
        name: names.into_iter().map(String::from).collect(),
        colors,
        width,
        art: String::from(art),
    }
}

#[test]
fn two_markers_two_segments() {
    let a = AsciiArt::try_from(raw(vec!["Icon"], vec![Color::Red, Color::Blue], 4, "${c1}AB${c2}CD")).unwrap();
    assert_eq!(a.art, vec![(1, String::from("AB")), (2, String::from("CD"))]);
    assert_eq!(a.height, 1);
    assert_eq!(a.width, 4);
}

#[test]
fn preamble_chunk_is_discarded() {
    let a = AsciiArt::try_from(raw(vec!["x"], vec![Color::Red], 1, "pre${c0}X")).unwrap();
    assert_eq!(a.art, vec![(0, String::from("X"))]);
}

#[test]
fn no_markers_no_segments() {
    let a = AsciiArt::try_from(raw(vec!["x"], vec![], 5, "plain text")).unwrap();
    assert!(a.art.is_empty());
    assert_eq!(a.height, 1);
}

#[test]
fn empty_template() {
    let a = AsciiArt::try_from(raw(vec!["x"], vec![], 0, "")).unwrap();
    assert!(a.art.is_empty());
    assert_eq!(a.height, 0);
}

#[test]
fn heights_count_partial_last_line() {
    let one = AsciiArt::try_from(raw(vec!["x"], vec![], 0, "a")).unwrap();
    assert_eq!(one.height, 1);
    let one_terminated = AsciiArt::try_from(raw(vec!["x"], vec![], 0, "a\n")).unwrap();
    assert_eq!(one_terminated.height, 1);
    let two = AsciiArt::try_from(raw(vec!["x"], vec![], 0, "a\nb")).unwrap();
    assert_eq!(two.height, 2);
    let three = AsciiArt::try_from(raw(vec!["x"], vec![], 0, "a\nb\nc")).unwrap();
    assert_eq!(three.height, 3);
    let blank = AsciiArt::try_from(raw(vec!["x"], vec![], 0, "\n")).unwrap();
    assert_eq!(blank.height, 1);
}

#[test]
fn marker_digits_above_u8_fail() {
    let r = AsciiArt::try_from(raw(vec!["x"], vec![], 1, "${c999}x"));
    assert_eq!(r.err(), Some(TranscodeError::MalformedMarker));
    let r = AsciiArt::try_from(raw(vec!["x"], vec![], 1, "${c256}x"));
    assert_eq!(r.err(), Some(TranscodeError::MalformedMarker));
    let ok = AsciiArt::try_from(raw(vec!["x"], vec![], 1, "${c255}x")).unwrap();
    assert_eq!(ok.art, vec![(255, String::from("x"))]);
}

#[test]
fn marker_value_ignores_leading_zeros() {
    let a = AsciiArt::try_from(raw(vec!["x"], vec![], 1, "${c007}x")).unwrap();
    assert_eq!(a.art, vec![(7, String::from("x"))]);
}

#[test]
fn marker_needs_at_least_one_digit() {
    // `${c}` is not a marker and passes through as literal text.
    let a = AsciiArt::try_from(raw(vec!["x"], vec![], 1, "${c}abc")).unwrap();
    assert!(a.art.is_empty());
}

#[test]
fn trailing_marker_owns_empty_chunk() {
    let a = AsciiArt::try_from(raw(vec!["x"], vec![], 1, "AB${c1}")).unwrap();
    assert_eq!(a.art, vec![(1, String::new())]);
}

#[test]
fn segments_rebuild_template_after_preamble() {
    let template = "${c1}AB\n${c2}CD${c1}";
    let a = AsciiArt::try_from(raw(vec!["x"], vec![], 2, template)).unwrap();
    let mut rebuilt = String::new();
    for (ci, text) in &a.art {
        rebuilt.push_str(&format!("${{c{ci}}}"));
        rebuilt.push_str(text);
    }
    assert_eq!(rebuilt, template);
}

#[test]
fn unicode_text_survives() {
    let a = AsciiArt::try_from(raw(vec!["x"], vec![], 1, "${c3}héllo▓\n░")).unwrap();
    assert_eq!(a.art, vec![(3, String::from("héllo▓\n░"))]);
    assert_eq!(a.height, 2);
}

#[test]
fn names_are_lowercased() {
    let a = AsciiArt::try_from(raw(vec!["FooBar", "BAZ"], vec![], 1, "")).unwrap();
    assert_eq!(a.name, vec![String::from("foobar"), String::from("baz")]);
}

#[test]
fn scan_reports_indices_and_all_chunks() {
    let (idx, chunks) = asciiart::marker::scan_template("a${c1}b${c2}c").unwrap();
    assert_eq!(idx, vec![1, 2]);
    assert_eq!(chunks, vec!["a", "b", "c"]);
    let (idx, chunks) = asciiart::marker::scan_template("").unwrap();
    assert!(idx.is_empty());
    assert_eq!(chunks, vec![""]);
}

#[test]
fn palette_passes_through_unchanged() {
    let colors = vec![Color::Red, Color::Rgb { r: 1, g: 2, b: 3 }, Color::AnsiValue(7)];
    let a = AsciiArt::try_from(raw(vec!["x"], colors.clone(), 9, "${c2}z")).unwrap();
    assert_eq!(a.colors, colors);
    assert_eq!(a.width, 9);
}
