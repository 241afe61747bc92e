//! Classes of the lines of a unified diff, for display.

use vstd::prelude::*;

verus! {

/// How a line of a unified diff is to be shown.
#[derive(Clone, Copy, Debug, PartialEq, Eq, Structural)]
pub enum LineClass {
    /// A line that the patch removes.
    Removed,
    /// A line that the patch adds.
    Added,
    /// The header line of a hunk.
    HunkHeader,
    /// A context line or one of the two file header lines.
    Plain,
}

/// Number of lines that the file header takes at the top of a unified diff.
pub const FILE_HEADER_LINES: usize = 2;

/// The class of the line that stands at `index` in a unified diff. The file
/// header lines are plain, whatever they start with. Below them a line is
/// classed by how it starts: `-` removed, `+` added, `@@` hunk header, and
/// plain otherwise.
pub open spec fn line_class(index: nat, line: Seq<char>) -> LineClass {
    if index < FILE_HEADER_LINES || line.len() == 0 {
        LineClass::Plain
    } else if line[0] == '-' {
        LineClass::Removed
    } else if line[0] == '+' {
        LineClass::Added
    } else if line[0] == '@' && line.len() > 1 && line[1] == '@' {
        LineClass::HunkHeader
    } else {
        LineClass::Plain
    }
}

/// Classes the line that stands at `index` in a unified diff.
pub fn classify_line(index: usize, line: &str) -> (class: LineClass)
    ensures
        class == line_class(index as nat, line@),
{
    if index < FILE_HEADER_LINES || line.is_empty() {
        return LineClass::Plain;
    }
    let first = line.get_char(0);
    if first == '-' {
        LineClass::Removed
    } else if first == '+' {
        LineClass::Added
    } else if first == '@' && line.unicode_len() > 1 && line.get_char(1) == '@' {
        LineClass::HunkHeader
    } else {
        LineClass::Plain
    }
}

/// A colour in which a line can be shown.
#[derive(Clone, Copy, Debug, PartialEq, Eq, Structural)]
pub enum Paint {
    Red,
    Green,
    Blue,
}

/// Which colour, if any, the lines of each class are shown in.
#[derive(Clone, Copy, Debug, PartialEq, Eq, Structural)]
pub struct Palette {
    pub removed: Option<Paint>,
    pub added: Option<Paint>,
    pub hunk_header: Option<Paint>,
    pub plain: Option<Paint>,
}

impl Palette {
    /// The colour that the palette gives to a class of lines.
    pub open spec fn colour_of(self, class: LineClass) -> Option<Paint> {
        match class {
            LineClass::Removed => self.removed,
            LineClass::Added => self.added,
            LineClass::HunkHeader => self.hunk_header,
            LineClass::Plain => self.plain,
        }
    }

    /// The usual palette: removed lines red, added lines green, hunk headers
    /// blue, and the rest as it is.
    pub fn standard() -> (palette: Palette)
        ensures
            palette == (Palette {
                removed: Some(Paint::Red),
                added: Some(Paint::Green),
                hunk_header: Some(Paint::Blue),
                plain: None,
            }),
    {
        Palette {
            removed: Some(Paint::Red),
            added: Some(Paint::Green),
            hunk_header: Some(Paint::Blue),
            plain: None,
        }
    }

    /// Looks up the colour of a class of lines.
    pub fn colour_for(&self, class: LineClass) -> (colour: Option<Paint>)
        ensures
            colour == self.colour_of(class),
    {
        match class {
            LineClass::Removed => self.removed,
            LineClass::Added => self.added,
            LineClass::HunkHeader => self.hunk_header,
            LineClass::Plain => self.plain,
        }
    }
}

/// The number by which a terminal knows a colour as the colour of text.
pub open spec fn colour_code(colour: Paint) -> Seq<char> {
    match colour {
        Paint::Red => "31"@,
        Paint::Green => "32"@,
        Paint::Blue => "34"@,
    }
}

/// `text` between the escape sequence that switches to `colour` and the one
/// that resets the terminal.
pub open spec fn painted(colour: Paint, text: Seq<char>) -> Seq<char> {
    "\x1b["@ + colour_code(colour) + "m"@ + text + "\x1b[0m"@
}

/// A line as it is shown under a palette: painted if the palette has a
/// colour for its class, and as it is if not.
pub open spec fn shown_line(index: nat, line: Seq<char>, palette: Palette) -> Seq<char> {
    match palette.colour_of(line_class(index, line)) {
        Some(colour) => painted(colour, line),
        None => line,
    }
}

/// Calls `ansi_term::Colour::paint` on `text` with the colour that stands for
/// `colour`, and writes the result out as a string. As `ansi_term` has it, that
/// is the text after the escape sequence for the colour as a foreground colour
/// and before the reset sequence.
#[verifier::external_body]
fn paint(colour: Paint, text: &str) -> (out: String)
    ensures
        out@ == painted(colour, text@),
{
    let colour = match colour {
        Paint::Red => ansi_term::Colour::Red,
        Paint::Green => ansi_term::Colour::Green,
        Paint::Blue => ansi_term::Colour::Blue,
    };
    colour.paint(text).to_string()
}

/// Gives the line that stands at `index` in a unified diff as it is to be
/// shown under `palette`.
pub fn render_line(index: usize, line: &str, palette: &Palette) -> (shown: String)
    ensures
        shown@ == shown_line(index as nat, line@, *palette),
{
    match palette.colour_for(classify_line(index, line)) {
        Some(colour) => paint(colour, line),
        None => line.to_owned(),
    }
}

} // verus!
