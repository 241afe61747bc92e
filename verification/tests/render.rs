use linediff::render::{classify_line, render_line, LineClass, Paint, Palette};

#[test]
fn lines_are_classed_by_how_they_start() {
    assert_eq!(classify_line(2, "@@ -1,3 +1,3 @@"), LineClass::HunkHeader);
    assert_eq!(classify_line(3, " a"), LineClass::Plain);
    assert_eq!(classify_line(4, "-b"), LineClass::Removed);
    assert_eq!(classify_line(5, "+x"), LineClass::Added);
    assert_eq!(classify_line(6, ""), LineClass::Plain);
    assert_eq!(classify_line(7, "@ alone"), LineClass::Plain);
    assert_eq!(classify_line(8, "@"), LineClass::Plain);
    assert_eq!(classify_line(9, "@@"), LineClass::HunkHeader);
    assert_eq!(classify_line(10, "-"), LineClass::Removed);
    assert_eq!(classify_line(11, "+"), LineClass::Added);
    assert_eq!(classify_line(12, "é-"), LineClass::Plain);
}

#[test]
fn file_header_lines_are_plain() {
    assert_eq!(classify_line(0, "--- a/file"), LineClass::Plain);
    assert_eq!(classify_line(1, "+++ b/file"), LineClass::Plain);
    assert_eq!(classify_line(2, "--- a/file"), LineClass::Removed);
    assert_eq!(classify_line(2, "+++ b/file"), LineClass::Added);
}

#[test]
fn standard_palette_colours_three_classes() {
    let palette = Palette::standard();
    assert_eq!(palette.colour_for(LineClass::Removed), Some(Paint::Red));
    assert_eq!(palette.colour_for(LineClass::Added), Some(Paint::Green));
    assert_eq!(palette.colour_for(LineClass::HunkHeader), Some(Paint::Blue));
    assert_eq!(palette.colour_for(LineClass::Plain), None);
}

#[test]
fn lines_are_painted_in_the_colour_of_their_class() {
    let palette = Palette::standard();
    assert_eq!(render_line(3, "-gone", &palette), "\x1b[31m-gone\x1b[0m");
    assert_eq!(render_line(4, "+come", &palette), "\x1b[32m+come\x1b[0m");
    assert_eq!(render_line(2, "@@ -1,1 +1,1 @@", &palette), "\x1b[34m@@ -1,1 +1,1 @@\x1b[0m");
    assert_eq!(render_line(5, " kept", &palette), " kept");
    assert_eq!(render_line(0, "--- a/file", &palette), "--- a/file");
    assert_eq!(render_line(1, "+++ b/file", &palette), "+++ b/file");
}

#[test]
fn another_palette_paints_otherwise() {
    let palette = Palette {
        removed: None,
        added: Some(Paint::Blue),
        hunk_header: None,
        plain: Some(Paint::Red),
    };
    assert_eq!(render_line(3, "-gone", &palette), "-gone");
    assert_eq!(render_line(4, "+come", &palette), "\x1b[34m+come\x1b[0m");
    assert_eq!(render_line(2, "@@ -1,1 +1,1 @@", &palette), "@@ -1,1 +1,1 @@");
    assert_eq!(render_line(0, "--- a/file", &palette), "\x1b[31m--- a/file\x1b[0m");
}
