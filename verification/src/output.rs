//! Human-readable run summary: section anchors, the Ube palette, and
//! decimal counts.
//!
//! Color escapes are emitted unconditionally; the stream the summary is
//! written through strips them when color is off. The one decision made
//! here is 24-bit color versus the 8-color fallback, keyed on the
//! terminal's truecolor support.

use vstd::prelude::*;

use crate::text::{chars_of, push_char, push_str};

verus! {

/// The decimal digit `d`, below ten.
pub open spec fn digit_char(d: int) -> char {
    "0123456789"@[d]
}

/// The decimal rendering of `n`, without leading zeros.
pub open spec fn decimal(n: nat) -> Seq<char>
    decreases n,
{
    if n < 10 {
        seq![digit_char(n as int)]
    } else {
        decimal(n / 10).push(digit_char((n % 10) as int))
    }
}

/// Appends the decimal rendering of `n` to `out`.
pub fn push_decimal(out: &mut String, n: u128)
    ensures
        final(out)@ == old(out)@ + decimal(n as nat),
    decreases n,
{
    let digits = chars_of("0123456789");
    proof {
        reveal_strlit("0123456789");
    }
    if n < 10 {
        push_char(out, digits[n as usize]);
        assert(old(out)@ + decimal(n as nat) =~= old(out)@.push(digit_char(n as int)));
    } else {
        push_decimal(out, n / 10);
        push_char(out, digits[(n % 10) as usize]);
        assert(old(out)@ + decimal(n as nat) =~= old(out)@ + decimal((n / 10) as nat) + seq![
            digit_char((n % 10) as int),
        ]);
    }
}

/// Stream-capability signals that gate framing independently of color:
/// `quiet` strips the anchor and color down to a bare count line, and a
/// non-TTY stdout leaves diff headers plain so the output stays a valid
/// patch.
#[derive(Clone, Copy, Debug)]
pub struct Presentation {
    pub quiet: bool,
    pub stdout_tty: bool,
}

impl Presentation {
    /// Whether a diff gets the decorated heading: only on a TTY, and
    /// never when quiet.
    pub fn decorate_diff(&self) -> (r: bool)
        ensures
            r == (self.stdout_tty && !self.quiet),
    {
        self.stdout_tty && !self.quiet
    }
}

/// The 8-color fallbacks the palette uses.
#[derive(Clone, Copy, Debug, PartialEq, Eq, Structural)]
pub enum Fallback {
    Red,
    Green,
    Magenta,
}

/// The SGR color number of a fallback.
pub open spec fn fallback_digit(f: Fallback) -> char {
    match f {
        Fallback::Red => '1',
        Fallback::Green => '2',
        Fallback::Magenta => '5',
    }
}

/// A palette color: its 24-bit value and its 8-color fallback.
#[derive(Clone, Copy, Debug, PartialEq, Eq, Structural)]
pub struct Tint {
    pub r: u8,
    pub g: u8,
    pub b: u8,
    pub fallback: Fallback,
}

/// The warm red of problems.
pub open spec fn apricot_spec() -> Tint {
    Tint { r: 0xe8, g: 0x87, b: 0x6f, fallback: Fallback::Red }
}

/// [`apricot_spec`] as a value.
pub fn apricot_tint() -> (t: Tint)
    ensures
        t == apricot_spec(),
{
    Tint { r: 0xe8, g: 0x87, b: 0x6f, fallback: Fallback::Red }
}

/// The soft green of a clean run.
pub open spec fn celadon_spec() -> Tint {
    Tint { r: 0x8c, g: 0xc5, b: 0xa3, fallback: Fallback::Green }
}

/// [`celadon_spec`] as a value.
pub fn celadon_tint() -> (t: Tint)
    ensures
        t == celadon_spec(),
{
    Tint { r: 0x8c, g: 0xc5, b: 0xa3, fallback: Fallback::Green }
}

/// The purple of anchors and headings.
pub open spec fn ube_spec() -> Tint {
    Tint { r: 0x8a, g: 0x80, b: 0xcb, fallback: Fallback::Magenta }
}

/// [`ube_spec`] as a value.
pub fn ube_tint() -> (t: Tint)
    ensures
        t == ube_spec(),
{
    Tint { r: 0x8a, g: 0x80, b: 0xcb, fallback: Fallback::Magenta }
}

/// The foreground escape `anstyle` renders for a 24-bit color.
pub open spec fn rgb_escape(r: u8, g: u8, b: u8) -> Seq<char> {
    "\x1b[38;2;"@ + decimal(r as nat) + ";"@ + decimal(g as nat) + ";"@ + decimal(b as nat) + "m"@
}

/// The foreground escape `anstyle` renders for an 8-color fallback.
pub open spec fn ansi_escape(f: Fallback) -> Seq<char> {
    seq!['\x1b', '[', '3', fallback_digit(f), 'm']
}

/// The escape `anstyle` renders for a reset.
pub open spec fn reset_escape() -> Seq<char> {
    seq!['\x1b', '[', '0', 'm']
}

/// `anstyle::Color::Rgb(..).render_fg()`, rendered: `ESC[38;2;r;g;bm`
/// with each component in decimal without leading zeros, as the crate's
/// `DisplayBuffer::write_code` writes it.
#[verifier::external_body]
fn render_rgb_fg(r: u8, g: u8, b: u8) -> (s: String)
    ensures
        s@ == rgb_escape(r, g, b),
{
    format!("{}", anstyle::Color::Rgb(anstyle::RgbColor(r, g, b)).render_fg())
}

/// `anstyle::Color::Ansi(..).render_fg()` for one of the fallbacks,
/// rendered: `ESC[3<n>m` with the color's number.
#[verifier::external_body]
fn render_ansi_fg(f: Fallback) -> (s: String)
    ensures
        s@ == ansi_escape(f),
{
    let color = match f {
        Fallback::Red => anstyle::AnsiColor::Red,
        Fallback::Green => anstyle::AnsiColor::Green,
        Fallback::Magenta => anstyle::AnsiColor::Magenta,
    };
    format!("{}", anstyle::Color::Ansi(color).render_fg())
}

/// `anstyle::Reset.render()`, rendered: `ESC[0m`.
#[verifier::external_body]
fn render_reset() -> (s: String)
    ensures
        s@ == reset_escape(),
{
    format!("{}", anstyle::Reset.render())
}

/// Whether the terminal supports 24-bit color, by
/// `anstyle_query::truecolor`, which reads the environment; nothing is
/// stated of the answer.
#[verifier::external_body]
fn truecolor() -> bool {
    anstyle_query::truecolor()
}

/// `text` painted in `tint`: the 24-bit escape under truecolor, the
/// fallback otherwise, then the text, then a reset.
pub open spec fn painted(text: Seq<char>, truecolor: bool, tint: Tint) -> Seq<char> {
    (if truecolor { rgb_escape(tint.r, tint.g, tint.b) } else { ansi_escape(tint.fallback) }) + text
        + reset_escape()
}

/// Paints `text` in `tint`, choosing the 24-bit or the fallback escape
/// by `truecolor`.
pub fn paint_with(text: &str, truecolor: bool, tint: Tint) -> (s: String)
    ensures
        s@ == painted(text@, truecolor, tint),
{
    let mut s = if truecolor {
        render_rgb_fg(tint.r, tint.g, tint.b)
    } else {
        render_ansi_fg(tint.fallback)
    };
    push_str(&mut s, text);
    let reset = render_reset();
    push_str(&mut s, reset.as_str());
    s
}

/// Paints `text` in `tint` as this terminal supports.
pub fn paint(text: &str, tint: Tint) -> (s: String)
    ensures
        s@ == painted(text@, true, tint) || s@ == painted(text@, false, tint),
{
    paint_with(text, truecolor(), tint)
}

/// `text` in Ube.
pub fn ube(text: &str) -> (s: String)
    ensures
        s@ == painted(text@, true, ube_spec()) || s@ == painted(text@, false, ube_spec()),
{
    paint(text, ube_tint())
}

/// `text` in Apricot.
pub fn apricot(text: &str) -> (s: String)
    ensures
        s@ == painted(text@, true, apricot_spec()) || s@ == painted(text@, false, apricot_spec()),
{
    paint(text, apricot_tint())
}

/// `text` in Celadon.
pub fn celadon(text: &str) -> (s: String)
    ensures
        s@ == painted(text@, true, celadon_spec()) || s@ == painted(text@, false, celadon_spec()),
{
    paint(text, celadon_tint())
}

/// `count noun`, with an `s` unless the count is one.
pub open spec fn pluralized(count: nat, noun: Seq<char>) -> Seq<char> {
    decimal(count) + " "@ + noun + if count == 1 { Seq::<char>::empty() } else { "s"@ }
}

/// Renders `count noun`, pluralizing the noun unless the count is one.
pub fn pluralize(count: usize, noun: &str) -> (s: String)
    ensures
        s@ == pluralized(count as nat, noun@),
{
    let mut s = String::new();
    push_decimal(&mut s, count as u128);
    push_str(&mut s, " ");
    push_str(&mut s, noun);
    if count != 1 {
        push_str(&mut s, "s");
    }
    assert(s@ =~= pluralized(count as nat, noun@));
    s
}

/// One run's outcome, resolved to a single anchored summary line.
#[derive(Clone, Copy, Debug, PartialEq, Eq, Structural)]
pub enum Summary {
    Clean,
    Diagnostics { files: usize, total: usize },
    Reformatted { files: usize },
    WouldReformat { files: usize },
}

/// The summary's sentence.
pub open spec fn message_spec(s: Summary) -> Seq<char> {
    match s {
        Summary::Clean => "All clean."@,
        Summary::Diagnostics { files, total } => pluralized(total as nat, "diagnostic"@) + " in "@ + pluralized(
            files as nat,
            "file"@,
        ) + "."@,
        Summary::Reformatted { files } => "Reformatted "@ + pluralized(files as nat, "file"@) + "."@,
        Summary::WouldReformat { files } => pluralized(files as nat, "file"@) + " would be reformatted."@,
    }
}

/// The tint of the summary's sentence: Celadon for a clean run,
/// Apricot otherwise.
pub open spec fn summary_tint(s: Summary) -> Tint {
    if s == Summary::Clean {
        celadon_spec()
    } else {
        apricot_spec()
    }
}

/// The summary's anchor glyph.
pub open spec fn anchor_spec(s: Summary) -> Seq<char> {
    match s {
        Summary::Clean => "🪻"@,
        Summary::Diagnostics { .. } => "☕"@,
        Summary::Reformatted { .. } | Summary::WouldReformat { .. } => "🗞️"@,
    }
}

impl Summary {
    /// The anchor glyph opening the summary line.
    pub fn anchor(&self) -> (a: &'static str)
        ensures
            a@ == anchor_spec(*self),
    {
        match self {
            Summary::Clean => "🪻",
            Summary::Diagnostics { .. } => "☕",
            Summary::Reformatted { .. } | Summary::WouldReformat { .. } => "🗞️",
        }
    }

    /// The summary's sentence.
    pub fn message(&self) -> (m: String)
        ensures
            m@ == message_spec(*self),
    {
        match *self {
            Summary::Clean => {
                let mut m = String::new();
                push_str(&mut m, "All clean.");
                m
            },
            Summary::Diagnostics { files, total } => {
                let mut m = pluralize(total, "diagnostic");
                push_str(&mut m, " in ");
                let f = pluralize(files, "file");
                push_str(&mut m, f.as_str());
                push_str(&mut m, ".");
                m
            },
            Summary::Reformatted { files } => {
                let mut m = String::new();
                push_str(&mut m, "Reformatted ");
                let f = pluralize(files, "file");
                push_str(&mut m, f.as_str());
                push_str(&mut m, ".");
                m
            },
            Summary::WouldReformat { files } => {
                let mut m = pluralize(files, "file");
                push_str(&mut m, " would be reformatted.");
                m
            },
        }
    }

    /// The sentence in Celadon for a clean run, in Apricot otherwise.
    pub fn tinted(&self) -> (t: String)
        ensures
            t@ == painted(message_spec(*self), true, summary_tint(*self)) || t@ == painted(
                message_spec(*self),
                false,
                summary_tint(*self),
            ),
    {
        let m = self.message();
        match self {
            Summary::Clean => celadon(m.as_str()),
            _ => apricot(m.as_str()),
        }
    }
}

/// Appends the closing summary line to `out`: the bare sentence when
/// quiet, otherwise the Ube anchor, a space and the tinted sentence.
pub fn report(out: &mut String, present: &Presentation, summary: &Summary)
    ensures
        present.quiet ==> final(out)@ == old(out)@ + message_spec(*summary) + "\n"@,
        !present.quiet ==> exists|a: bool, b: bool|
            #![trigger painted(anchor_spec(*summary), a, ube_spec()), painted(message_spec(*summary), b, summary_tint(*summary))]
            final(out)@ == old(out)@ + painted(anchor_spec(*summary), a, ube_spec()) + " "@ + painted(
                message_spec(*summary),
                b,
                summary_tint(*summary),
            ) + "\n"@,
{
    if present.quiet {
        let m = summary.message();
        push_str(out, m.as_str());
        push_str(out, "\n");
        return;
    }
    let anchor = ube(summary.anchor());
    let tinted = summary.tinted();
    push_str(out, anchor.as_str());
    push_str(out, " ");
    push_str(out, tinted.as_str());
    push_str(out, "\n");
    proof {
        let a = anchor@ == painted(anchor_spec(*summary), true, ube_spec());
        let b = tinted@ == painted(message_spec(*summary), true, summary_tint(*summary));
        assert(painted(anchor_spec(*summary), a, ube_spec()) == anchor@);
        assert(painted(message_spec(*summary), b, summary_tint(*summary)) == tinted@);
    }
}

} // verus!
