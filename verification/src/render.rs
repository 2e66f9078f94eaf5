//! Terminal styling and the text pieces of the report: durations and headings.
use vstd::prelude::*;
use crate::text::{
    digit_char, digits_of, int_text, push_int, push_int_right_aligned, push_int_zero_padded, push_repeat, repeat,
    right_aligned, zero_padded,
};

verus! {

broadcast use vstd::string::group_string_axioms;

/// Colour of ordinary text.
pub const FOREGROUND_COLOR: u8 = 251;
/// Colour of a month's name in its heading.
pub const HEADING_COLOR: u8 = 208;
/// Colour of the rule around a heading.
pub const HEADING_LINE_COLOR: u8 = 246;
/// Colour of numbers of hours and minutes.
pub const TIME_COLOR: u8 = 231;
/// Colour of the words around numbers of hours and minutes.
pub const TIME_TEXT_COLOR: u8 = 246;
/// Colour of a weekday's name.
pub const WEEKDAY_COLOR: u8 = 245;
/// Colour of a weekend day's name.
pub const WEEKEND_COLOR: u8 = 231;
/// Colour of a weekday's bars.
pub const BAR_COLOR: u8 = 28;
/// Colour of a weekend day's bars.
pub const BAR_WEEKEND_COLOR: u8 = 82;
/// Colour of a weekday's bars on a grid column.
pub const BAR_COLOR_GRID: u8 = 77;
/// Colour of a weekend day's bars on a grid column.
pub const BAR_WEEKEND_COLOR_GRID: u8 = 156;
/// Colour of the moon signs.
pub const NIGHT_COLOR: u8 = 51;
/// Colour of the morning sun sign.
pub const SUNRISE_COLOR: u8 = 228;
/// Colour of the noon sun sign.
pub const NOON_COLOR: u8 = 226;
/// Colour of the evening sun sign.
pub const SUNSET_COLOR: u8 = 214;
/// Colour of the grid.
pub const GRID_COLOR: u8 = 238;
/// Width of a heading, rule included.
pub const OUTPUT_WIDTH: usize = 61;

/// The sequence that ends all styling.
pub const RESET_SEQUENCE: &'static str = "\x1b[0m";

/// Writes text with or without terminal escape sequences.
pub struct Styler {
    pub use_escape_sequences: bool,
}

/// `prefix` and the colour number, when there is a colour.
pub open spec fn color_part(prefix: Seq<char>, color: Option<u8>) -> Seq<char> {
    match color {
        Some(c) => prefix + int_text(c as int),
        None => seq![],
    }
}

impl Styler {
    /// A styler that writes escape sequences exactly when `use_escape_sequences` holds.
    pub fn new(use_escape_sequences: bool) -> (s: Styler)
        ensures
            s.use_escape_sequences == use_escape_sequences,
    {
        Styler { use_escape_sequences }
    }

    /// The sequence that ends all styling, empty without escape sequences.
    pub open spec fn reset_text(self) -> Seq<char> {
        if self.use_escape_sequences {
            RESET_SEQUENCE@
        } else {
            seq![]
        }
    }

    /// The sequence that starts text in the given colours, bold or not.
    #[verifier::opaque]
    pub open spec fn escape_text(self, fg: Option<u8>, bg: Option<u8>, bold: bool) -> Seq<char> {
        if !self.use_escape_sequences {
            seq![]
        } else {
            self.reset_text() + "\x1b["@ + color_part("38;5;"@, fg) + color_part(";48;5;"@, bg) + (
            if bold {
                ";1"@
            } else {
                seq![]
            }) + "m"@
        }
    }

    /// `text` in the given colours, followed by the sequence back to ordinary text.
    #[verifier::opaque]
    pub open spec fn styled(self, text: Seq<char>, fg: Option<u8>, bg: Option<u8>, bold: bool) -> Seq<
        char,
    > {
        self.escape_text(fg, bg, bold) + text + self.escape_text(
            Some(FOREGROUND_COLOR),
            None,
            false,
        )
    }

    /// Returns the sequence that ends all styling.
    pub fn get_reset_sequence(&self) -> (s: &'static str)
        ensures
            s@ == self.reset_text(),
    {
        proof {
            reveal_strlit("");
        }
        if self.use_escape_sequences {
            RESET_SEQUENCE
        } else {
            ""
        }
    }

    /// Appends the sequence that starts text in the given colours.
    pub fn push_escape(&self, out: &mut String, fg: Option<u8>, bg: Option<u8>, bold: bool)
        ensures
            final(out)@ == old(out)@ + self.escape_text(fg, bg, bold),
    {
        reveal(Styler::escape_text);
        if self.use_escape_sequences {
            out.append(RESET_SEQUENCE);
            out.append("\x1b[");
            match fg {
                Some(c) => {
                    out.append("38;5;");
                    push_int(out, c as i64);
                },
                None => {},
            }
            match bg {
                Some(c) => {
                    out.append(";48;5;");
                    push_int(out, c as i64);
                },
                None => {},
            }
            if bold {
                out.append(";1");
            }
            out.append("m");
            assert(final(out)@ =~= old(out)@ + self.escape_text(fg, bg, bold));
        } else {
            assert(final(out)@ =~= old(out)@ + self.escape_text(fg, bg, bold));
        }
    }

    /// Returns the sequence that starts text in the given colours.
    pub fn get_escape_sequence(&self, fgcolor: Option<u8>, bgcolor: Option<u8>, bold: bool) -> (s:
        String)
        ensures
            s@ == self.escape_text(fgcolor, bgcolor, bold),
    {
        let mut s = String::new();
        self.push_escape(&mut s, fgcolor, bgcolor, bold);
        assert(s@ =~= self.escape_text(fgcolor, bgcolor, bold));
        s
    }

    /// Appends `text` in the given colours.
    pub fn push_styled(&self, out: &mut String, text: &str, fg: Option<u8>, bg: Option<u8>, bold: bool)
        ensures
            final(out)@ == old(out)@ + self.styled(text@, fg, bg, bold),
    {
        reveal(Styler::styled);
        self.push_escape(out, fg, bg, bold);
        out.append(text);
        self.push_escape(out, Some(FOREGROUND_COLOR), None, false);
        assert(final(out)@ =~= old(out)@ + self.styled(text@, fg, bg, bold));
    }

    /// Returns `text` in the given colours.
    pub fn style(&self, text: &str, fgcolor: Option<u8>, bgcolor: Option<u8>, bold: bool) -> (s:
        String)
        ensures
            s@ == self.styled(text@, fgcolor, bgcolor, bold),
    {
        let mut s = String::new();
        self.push_styled(&mut s, text, fgcolor, bgcolor, bold);
        assert(s@ =~= self.styled(text@, fgcolor, bgcolor, bold));
        s
    }
}

/// Whole hours and the minutes left over in a number of seconds.
pub struct DeltaFields {
    pub hours: i64,
    pub minutes: i64,
}

/// A negative number of seconds counts as none.
pub open spec fn clamp_seconds(total_seconds: int) -> int {
    if total_seconds > 0 { total_seconds } else { 0 }
}

/// Splits a number of seconds (none when negative) into whole hours and leftover minutes.
pub fn get_delta_fields(total_seconds: i64) -> (f: DeltaFields)
    ensures
        f.hours == clamp_seconds(total_seconds as int) / 3600,
        f.minutes == clamp_seconds(total_seconds as int) % 3600 / 60,
        0 <= f.minutes < 60,
        f.hours >= 0,
{
    let rounded = if total_seconds > 0 { total_seconds } else { 0 };
    let hours = rounded / 3600;
    let remainder = rounded % 3600;
    let minutes = remainder / 60;
    DeltaFields { hours, minutes }
}

/// A duration as `hhhh hours mm minutes`.
#[verifier::opaque]
pub open spec fn delta_text(st: Styler, total_seconds: int) -> Seq<char> {
    let h = clamp_seconds(total_seconds) / 3600;
    let m = clamp_seconds(total_seconds) % 3600 / 60;
    st.styled(right_aligned(int_text(h), 4), Some(TIME_COLOR), None, false) + st.styled(
        " hours "@,
        Some(TIME_TEXT_COLOR),
        None,
        false,
    ) + st.styled(right_aligned(int_text(m), 2), Some(TIME_COLOR), None, false) + st.styled(
        " minutes"@,
        Some(TIME_TEXT_COLOR),
        None,
        false,
    )
}

/// A duration as `hh:mm`, `  :mm` below an hour, nothing below a minute.
#[verifier::opaque]
pub open spec fn delta_short_text(st: Styler, total_seconds: int) -> Seq<char> {
    let h = clamp_seconds(total_seconds) / 3600;
    let m = clamp_seconds(total_seconds) % 3600 / 60;
    if h == 0 && m == 0 {
        seq![]
    } else if h == 0 {
        st.styled("  :"@, Some(TIME_TEXT_COLOR), None, false) + st.styled(
            zero_padded(m, 2),
            Some(TIME_COLOR),
            None,
            false,
        )
    } else {
        st.styled(right_aligned(int_text(h), 2), Some(TIME_COLOR), None, false) + st.styled(
            ":"@,
            Some(TIME_TEXT_COLOR),
            None,
            false,
        ) + st.styled(zero_padded(m, 2), Some(TIME_COLOR), None, false)
    }
}

/// Appends `n`, padded to `width` with zeros or spaces, in the colour `fg`.
fn push_styled_number(
    st: &Styler,
    out: &mut String,
    n: i64,
    width: usize,
    zero: bool,
    fg: Option<u8>,
) -> (ghost_text: Ghost<Seq<char>>)
    ensures
        ghost_text@ == (if zero {
            zero_padded(n as int, width as int)
        } else {
            right_aligned(int_text(n as int), width as int)
        }),
        final(out)@ == old(out)@ + st.styled(ghost_text@, fg, None, false),
{
    let mut piece = String::new();
    if zero {
        push_int_zero_padded(&mut piece, n, width);
    } else {
        push_int_right_aligned(&mut piece, n, width);
    }
    assert(piece@ =~= (if zero {
        zero_padded(n as int, width as int)
    } else {
        right_aligned(int_text(n as int), width as int)
    }));
    st.push_styled(out, piece.as_str(), fg, None, false);
    Ghost(piece@)
}

/// Appends a duration as `hhhh hours mm minutes`.
pub fn push_delta(st: &Styler, out: &mut String, total_seconds: i64)
    ensures
        final(out)@ == old(out)@ + delta_text(*st, total_seconds as int),
{
    reveal(delta_text);
    let fields = get_delta_fields(total_seconds);
    push_styled_number(st, out, fields.hours, 4, false, Some(TIME_COLOR));
    st.push_styled(out, " hours ", Some(TIME_TEXT_COLOR), None, false);
    push_styled_number(st, out, fields.minutes, 2, false, Some(TIME_COLOR));
    st.push_styled(out, " minutes", Some(TIME_TEXT_COLOR), None, false);
    assert(final(out)@ =~= old(out)@ + delta_text(*st, total_seconds as int));
}

/// Returns a duration as `hhhh hours mm minutes`.
pub fn format_delta(styler: &Styler, total_seconds: i64) -> (s: String)
    ensures
        s@ == delta_text(*styler, total_seconds as int),
{
    let mut s = String::new();
    push_delta(styler, &mut s, total_seconds);
    assert(s@ =~= delta_text(*styler, total_seconds as int));
    s
}

/// Appends a duration as `hh:mm`, `  :mm` below an hour, nothing below a minute.
pub fn push_delta_short(st: &Styler, out: &mut String, total_seconds: i64)
    ensures
        final(out)@ == old(out)@ + delta_short_text(*st, total_seconds as int),
{
    reveal(delta_short_text);
    let fields = get_delta_fields(total_seconds);
    if fields.hours == 0 && fields.minutes == 0 {
        assert(final(out)@ =~= old(out)@ + delta_short_text(*st, total_seconds as int));
        return ;
    }
    if fields.hours == 0 {
        st.push_styled(out, "  :", Some(TIME_TEXT_COLOR), None, false);
        push_styled_number(st, out, fields.minutes, 2, true, Some(TIME_COLOR));
    } else {
        push_styled_number(st, out, fields.hours, 2, false, Some(TIME_COLOR));
        st.push_styled(out, ":", Some(TIME_TEXT_COLOR), None, false);
        push_styled_number(st, out, fields.minutes, 2, true, Some(TIME_COLOR));
    }
    assert(final(out)@ =~= old(out)@ + delta_short_text(*st, total_seconds as int));
}

/// Returns a duration as `hh:mm`, `  :mm` below an hour, nothing below a minute.
pub fn format_delta_short(styler: &Styler, total_seconds: i64) -> (s: String)
    ensures
        s@ == delta_short_text(*styler, total_seconds as int),
{
    let mut s = String::new();
    push_delta_short(styler, &mut s, total_seconds);
    assert(s@ =~= delta_short_text(*styler, total_seconds as int));
    s
}

/// `a - b`, or 0 when `b` is larger.
pub open spec fn minus_or_zero(a: int, b: int) -> int {
    if a > b { a - b } else { 0 }
}

/// A heading centred in a rule of `OUTPUT_WIDTH` characters: `┌──── name ────┐`.
#[verifier::opaque]
pub open spec fn heading_text(st: Styler, heading: Seq<char>) -> Seq<char> {
    let padded = seq![' '] + heading + seq![' '];
    let left_len = minus_or_zero(OUTPUT_WIDTH as int, padded.len() as int) / 2;
    let right_len = minus_or_zero(OUTPUT_WIDTH as int, left_len + padded.len());
    st.styled(
        "┌"@ + repeat("─"@, left_len as nat),
        Some(HEADING_LINE_COLOR),
        None,
        false,
    ) + st.styled(padded, Some(HEADING_COLOR), None, false) + st.styled(
        repeat("─"@, right_len as nat) + "┐"@,
        Some(HEADING_LINE_COLOR),
        None,
        false,
    )
}

/// Appends a heading centred in a rule of `OUTPUT_WIDTH` characters.
pub fn push_heading(st: &Styler, out: &mut String, heading: &str)
    ensures
        final(out)@ == old(out)@ + heading_text(*st, heading@),
{
    reveal(heading_text);
    proof {
        reveal_strlit(" ");
    }
    let mut padded = String::new();
    padded.append(" ");
    padded.append(heading);
    padded.append(" ");
    let padded_len = padded.as_str().unicode_len();
    assert(padded@ =~= seq![' '] + heading@ + seq![' ']);
    let heading_pos: usize = if OUTPUT_WIDTH > padded_len { (OUTPUT_WIDTH - padded_len) / 2 } else { 0 };
    let right_pos: usize = if heading_pos <= OUTPUT_WIDTH && OUTPUT_WIDTH - heading_pos > padded_len {
        OUTPUT_WIDTH - heading_pos - padded_len
    } else {
        0
    };
    let mut left = String::new();
    left.append("┌");
    push_repeat(&mut left, "─", heading_pos);
    let mut right = String::new();
    push_repeat(&mut right, "─", right_pos);
    right.append("┐");
    st.push_styled(out, left.as_str(), Some(HEADING_LINE_COLOR), None, false);
    st.push_styled(out, padded.as_str(), Some(HEADING_COLOR), None, false);
    st.push_styled(out, right.as_str(), Some(HEADING_LINE_COLOR), None, false);
    assert(final(out)@ =~= old(out)@ + heading_text(*st, heading@));
}

/// Returns a heading centred in a rule of `OUTPUT_WIDTH` characters.
pub fn format_heading(styler: &Styler, heading: &str) -> (s: String)
    ensures
        s@ == heading_text(*styler, heading@),
{
    let mut s = String::new();
    push_heading(styler, &mut s, heading);
    assert(s@ =~= heading_text(*styler, heading@));
    s
}

/// `s` written `k` times is `k` times as long as `s`.
proof fn lemma_repeat_len(s: Seq<char>, k: nat)
    ensures
        repeat(s, k).len() == k * s.len(),
    decreases k,
{
    if k > 0 {
        lemma_repeat_len(s, (k - 1) as nat);
        assert(repeat(s, k) == repeat(s, (k - 1) as nat) + s);
        assert(k * s.len() == (k - 1) * s.len() + s.len()) by (nonlinear_arith)
            requires
                k > 0,
        ;
    } else {
        assert(repeat(s, k).len() == 0);
        assert(k * s.len() == 0) by (nonlinear_arith)
            requires
                k == 0,
        ;
    }
}

/// Law: without escape sequences, a heading that fits is drawn `OUTPUT_WIDTH` characters wide
/// between its two corners, centred (the rule on its right is as long as the one on its left,
/// or one character longer); a heading too long for that gets no rule at all.
pub proof fn lemma_heading_centred(st: Styler, heading: Seq<char>)
    requires
        !st.use_escape_sequences,
    ensures
        heading.len() + 2 <= OUTPUT_WIDTH ==> heading_text(st, heading).len() == OUTPUT_WIDTH + 2,
        heading.len() + 2 <= OUTPUT_WIDTH ==> exists|l: nat, r: nat|
            {
                &&& heading_text(st, heading) == "┌"@ + repeat("─"@, l) + seq![' '] + heading
                    + seq![' '] + repeat("─"@, r) + "┐"@
                &&& l + heading.len() + 2 + r == OUTPUT_WIDTH
                &&& l <= r <= l + 1
            },
        heading.len() + 2 > OUTPUT_WIDTH ==> heading_text(st, heading) == "┌"@ + seq![' ']
            + heading + seq![' '] + "┐"@,
{
    reveal(heading_text);
    reveal(Styler::styled);
    reveal(Styler::escape_text);
    reveal_strlit("┌");
    reveal_strlit("─");
    reveal_strlit("┐");
    let padded = seq![' '] + heading + seq![' '];
    let p = padded.len() as int;
    let l = (minus_or_zero(OUTPUT_WIDTH as int, p) / 2) as nat;
    let r = minus_or_zero(OUTPUT_WIDTH as int, l + p) as nat;
    assert(heading_text(st, heading) =~= "┌"@ + repeat("─"@, l) + padded + repeat("─"@, r) + "┐"@);
    lemma_repeat_len("─"@, l);
    lemma_repeat_len("─"@, r);
    if heading.len() + 2 <= OUTPUT_WIDTH {
        assert("┌"@ + repeat("─"@, l) + padded + repeat("─"@, r) + "┐"@ =~= "┌"@ + repeat("─"@, l)
            + seq![' '] + heading + seq![' '] + repeat("─"@, r) + "┐"@);
    } else {
        assert(repeat("─"@, l) =~= Seq::<char>::empty());
        assert(repeat("─"@, r) =~= Seq::<char>::empty());
        assert("┌"@ + repeat("─"@, l) + padded + repeat("─"@, r) + "┐"@ =~= "┌"@ + seq![' '] + heading
            + seq![' '] + "┐"@);
    }
}

/// `s` with every escape sequence (from an escape character up to the next `m`) taken out;
/// `inside` tells whether `s` starts within one.
pub open spec fn strip_escapes_from(s: Seq<char>, inside: bool) -> Seq<char>
    decreases s.len(),
{
    if s.len() == 0 {
        seq![]
    } else if inside {
        strip_escapes_from(s.drop_first(), s[0] != 'm')
    } else if s[0] == '\x1b' {
        strip_escapes_from(s.drop_first(), true)
    } else {
        seq![s[0]] + strip_escapes_from(s.drop_first(), false)
    }
}

/// `s` with every escape sequence taken out.
pub open spec fn without_escapes(s: Seq<char>) -> Seq<char> {
    strip_escapes_from(s, false)
}

/// `c` does not occur in `s`.
pub open spec fn lacks(s: Seq<char>, c: char) -> bool {
    forall|i: int| 0 <= i < s.len() ==> s[i] != c
}

/// Text without escape characters is kept as it is.
proof fn lemma_strip_plain(a: Seq<char>, r: Seq<char>)
    requires
        lacks(a, '\x1b'),
    ensures
        strip_escapes_from(a + r, false) == a + strip_escapes_from(r, false),
    decreases a.len(),
{
    if a.len() > 0 {
        assert((a + r).drop_first() =~= a.drop_first() + r);
        assert(a[0] != '\x1b');
        lemma_strip_plain(a.drop_first(), r);
        assert(a + strip_escapes_from(r, false) =~= seq![a[0]] + (a.drop_first()
            + strip_escapes_from(r, false)));
    } else {
        assert(a + r =~= r);
        assert(a + strip_escapes_from(r, false) =~= strip_escapes_from(r, false));
    }
}

/// Within an escape sequence, everything up to and including the next `m` is dropped.
proof fn lemma_strip_inside(body: Seq<char>, r: Seq<char>)
    requires
        lacks(body, 'm'),
    ensures
        strip_escapes_from(body + seq!['m'] + r, true) == strip_escapes_from(r, false),
    decreases body.len(),
{
    if body.len() > 0 {
        assert((body + seq!['m'] + r).drop_first() =~= body.drop_first() + seq!['m'] + r);
        assert(body[0] != 'm');
        lemma_strip_inside(body.drop_first(), r);
    } else {
        assert(body + seq!['m'] + r =~= seq!['m'] + r);
        assert((seq!['m'] + r).drop_first() =~= r);
    }
}

/// A whole escape sequence is dropped.
proof fn lemma_strip_escape(body: Seq<char>, r: Seq<char>)
    requires
        lacks(body, 'm'),
    ensures
        strip_escapes_from(seq!['\x1b'] + body + seq!['m'] + r, false) == strip_escapes_from(r, false),
{
    assert((seq!['\x1b'] + body + seq!['m'] + r).drop_first() =~= body + seq!['m'] + r);
    lemma_strip_inside(body, r);
}

/// Decimal digits hold no `m`.
proof fn lemma_digits_lack_m(n: nat)
    ensures
        lacks(digits_of(n), 'm'),
    decreases n,
{
    if n >= 10 {
        lemma_digits_lack_m(n / 10);
        assert(digit_char(n % 10) != 'm');
    }
}

proof fn lemma_color_part_lacks_m(prefix: Seq<char>, color: Option<u8>)
    requires
        lacks(prefix, 'm'),
    ensures
        lacks(color_part(prefix, color), 'm'),
{
    if let Some(c) = color {
        lemma_digits_lack_m(c as nat);
        assert(int_text(c as int) == digits_of(c as nat));
    }
}

/// An escape sequence, and all that follows it, is dropped down to what follows.
proof fn lemma_strip_escape_text(st: Styler, fg: Option<u8>, bg: Option<u8>, bold: bool, r: Seq<char>)
    ensures
        strip_escapes_from(st.escape_text(fg, bg, bold) + r, false) == strip_escapes_from(r, false),
{
    reveal(Styler::escape_text);
    if st.use_escape_sequences {
        reveal_strlit("\x1b[0m");
        reveal_strlit("\x1b[");
        reveal_strlit("38;5;");
        reveal_strlit(";48;5;");
        reveal_strlit(";1");
        reveal_strlit("m");
        assert(RESET_SEQUENCE@ =~= seq!['\x1b', '[', '0', 'm']);
        let bold_part = if bold { ";1"@ } else { Seq::<char>::empty() };
        lemma_color_part_lacks_m("38;5;"@, fg);
        lemma_color_part_lacks_m(";48;5;"@, bg);
        let body = seq!['['] + color_part("38;5;"@, fg) + color_part(";48;5;"@, bg) + bold_part;
        assert(lacks(body, 'm')) by {
            assert forall|i: int| 0 <= i < body.len() implies body[i] != 'm' by {
                let c1 = color_part("38;5;"@, fg);
                let c2 = color_part(";48;5;"@, bg);
                if i >= 1 && i < 1 + c1.len() {
                    assert(body[i] == c1[i - 1]);
                } else if i >= 1 + c1.len() && i < 1 + c1.len() + c2.len() {
                    assert(body[i] == c2[i - 1 - c1.len()]);
                } else if i >= 1 + c1.len() + c2.len() {
                    assert(body[i] == bold_part[i - 1 - c1.len() - c2.len()]);
                }
            }
        }
        let second = seq!['\x1b'] + body + seq!['m'] + r;
        assert(st.escape_text(fg, bg, bold) + r =~= seq!['\x1b'] + seq!['[', '0'] + seq!['m']
            + second);
        assert(lacks(seq!['[', '0'], 'm'));
        lemma_strip_escape(seq!['[', '0'], second);
        lemma_strip_escape(body, r);
    } else {
        assert(st.escape_text(fg, bg, bold) + r =~= r);
    }
}

/// Law: taking the escape sequences out of styled text gives back the text, which is exactly
/// what a styler without escape sequences writes.
pub proof fn lemma_styling_strips_back(
    st: Styler,
    text: Seq<char>,
    fg: Option<u8>,
    bg: Option<u8>,
    bold: bool,
)
    requires
        lacks(text, '\x1b'),
    ensures
        without_escapes(st.styled(text, fg, bg, bold)) == text,
        (Styler { use_escape_sequences: false }).styled(text, fg, bg, bold) == text,
{
    reveal(Styler::styled);
    reveal(Styler::escape_text);
    let e2 = st.escape_text(Some(FOREGROUND_COLOR), None, false);
    assert(st.styled(text, fg, bg, bold) =~= st.escape_text(fg, bg, bold) + (text + e2));
    lemma_strip_escape_text(st, fg, bg, bold, text + e2);
    lemma_strip_plain(text, e2);
    assert(e2 =~= e2 + Seq::<char>::empty());
    lemma_strip_escape_text(st, Some(FOREGROUND_COLOR), None, false, Seq::<char>::empty());
    assert(text + Seq::<char>::empty() =~= text);
    assert((Styler { use_escape_sequences: false }).styled(text, fg, bg, bold) =~= text);
}

/// Whole hours `h` and leftover minutes `m` of `c` seconds are the only ones with
/// `3600 h + 60 m <= c < 3600 h + 60 m + 60` and `0 <= m < 60`.
proof fn lemma_hours_minutes_unique(c: int, h: int, m: int)
    requires
        c >= 0,
        0 <= m < 60,
        3600 * h + 60 * m <= c < 3600 * h + 60 * m + 60,
    ensures
        h == c / 3600,
        m == c % 3600 / 60,
{
    vstd::arithmetic::div_mod::lemma_fundamental_div_mod(c, 3600);
    let r = c % 3600;
    assert(h == c / 3600);
    vstd::arithmetic::div_mod::lemma_fundamental_div_mod(r, 60);
    assert(r == 60 * m + (c - 3600 * h - 60 * m));
    assert(m == r / 60);
}

/// Law: without escape sequences, a duration reads `hhhh hours mm minutes`, where `hhhh` and `mm`
/// are the whole hours and the leftover whole minutes of the seconds (none when negative): the
/// `h` and `m` with `0 <= m < 60` and `3600 h + 60 m <= seconds < 3600 h + 60 m + 60`.
pub proof fn lemma_delta_text_plain(st: Styler, total_seconds: int, h: int, m: int)
    requires
        !st.use_escape_sequences,
        0 <= m < 60,
        3600 * h + 60 * m <= clamp_seconds(total_seconds) < 3600 * h + 60 * m + 60,
    ensures
        delta_text(st, total_seconds) == right_aligned(int_text(h), 4) + " hours "@ + right_aligned(
            int_text(m),
            2,
        ) + " minutes"@,
{
    reveal(delta_text);
    reveal(Styler::styled);
    reveal(Styler::escape_text);
    lemma_hours_minutes_unique(clamp_seconds(total_seconds), h, m);
    assert(delta_text(st, total_seconds) =~= right_aligned(int_text(h), 4) + " hours "@
        + right_aligned(int_text(m), 2) + " minutes"@);
}

/// Law: without escape sequences, a short duration is empty below a minute, reads `  :mm` below
/// an hour and `hh:mm` from an hour on, where `hh` and `mm` are the whole hours and the leftover
/// whole minutes of the seconds (none when negative).
pub proof fn lemma_delta_short_text_plain(st: Styler, total_seconds: int, h: int, m: int)
    requires
        !st.use_escape_sequences,
        0 <= m < 60,
        3600 * h + 60 * m <= clamp_seconds(total_seconds) < 3600 * h + 60 * m + 60,
    ensures
        h == 0 && m == 0 ==> delta_short_text(st, total_seconds) == Seq::<char>::empty(),
        h == 0 && m > 0 ==> delta_short_text(st, total_seconds) == "  :"@ + zero_padded(m, 2),
        h > 0 ==> delta_short_text(st, total_seconds) == right_aligned(int_text(h), 2) + ":"@
            + zero_padded(m, 2),
{
    reveal(delta_short_text);
    reveal(Styler::styled);
    reveal(Styler::escape_text);
    lemma_hours_minutes_unique(clamp_seconds(total_seconds), h, m);
    if h > 0 {
        assert(delta_short_text(st, total_seconds) =~= right_aligned(int_text(h), 2) + ":"@
            + zero_padded(m, 2));
    } else if m > 0 {
        assert(delta_short_text(st, total_seconds) =~= "  :"@ + zero_padded(m, 2));
    }
}

} // verus!
