use vstd::prelude::*;
use vstd::string::*;

use ansi_term::Colour;

verus! {

/// The terminal styles that listings use.
#[derive(Clone, Copy, Debug, PartialEq, Eq, Structural)]
pub enum Tone {
    Blue,
    CyanBold,
    BlackItalic,
    WhiteItalic,
}

/// The escape sequence that switches a terminal to a tone.
pub open spec fn tone_code(t: Tone) -> Seq<char> {
    match t {
        Tone::Blue => "\x1b[34m"@,
        Tone::CyanBold => "\x1b[1;36m"@,
        Tone::BlackItalic => "\x1b[3;30m"@,
        Tone::WhiteItalic => "\x1b[3;37m"@,
    }
}

/// The text shown in a tone, followed by the reset sequence.
pub open spec fn painted(t: Tone, s: Seq<char>) -> Seq<char> {
    tone_code(t) + s + "\x1b[0m"@
}

/// Relies on ansi_term: displaying a text painted with a style writes the
/// style's escape sequence (`ESC [` then the codes 1 for bold, 3 for italic
/// and 30 + n for the colour, joined by `;`, then `m`), the text, and the
/// reset sequence `ESC [0m`.
#[verifier::external_body]
pub(crate) fn paint(t: Tone, s: &str) -> (r: String)
    ensures
        r@ == painted(t, s@),
{
    let style = match t {
        Tone::Blue => Colour::Blue.normal(),
        Tone::CyanBold => Colour::Cyan.bold(),
        Tone::BlackItalic => Colour::Black.italic(),
        Tone::WhiteItalic => Colour::White.italic(),
    };
    style.paint(s).to_string()
}

/// The upper-case form of a text, as Unicode defines it.
pub uninterp spec fn upper_of(s: Seq<char>) -> Seq<char>;

/// Relies on str::to_uppercase: the result depends on the characters alone.
#[verifier::external_body]
pub(crate) fn uppercase(s: &str) -> (r: String)
    ensures
        r@ == upper_of(s@),
{
    s.to_uppercase()
}

pub open spec fn digit_char(d: nat) -> char {
    (('0' as u32) + d) as char
}

/// The decimal notation of a number.
pub open spec fn decimal(n: nat) -> Seq<char>
    decreases n,
{
    if n < 10 {
        seq![digit_char(n)]
    } else {
        decimal(n / 10).push(digit_char(n % 10))
    }
}

fn push_digit(s: &mut String, d: u8)
    requires
        d < 10,
    ensures
        final(s)@ == old(s)@.push(digit_char(d as nat)),
{
    let digits = "0123456789";
    proof {
        reveal_strlit("0123456789");
    }
    let one = digits.substring_char(d as usize, d as usize + 1);
    assert(one@ =~= seq![digit_char(d as nat)]);
    s.append(one);
}

/// The decimal notation of `n`.
pub fn decimal_text(n: u8) -> (r: String)
    ensures
        r@ == decimal(n as nat),
{
    let mut s = String::new();
    if n >= 100 {
        push_digit(&mut s, n / 100);
        assert(decimal((n / 100) as nat) =~= seq![digit_char((n / 100) as nat)]);
    }
    if n >= 10 {
        push_digit(&mut s, (n / 10) % 10);
        assert(decimal((n / 10) as nat) =~= s@);
    }
    push_digit(&mut s, n % 10);
    assert(s@ =~= decimal(n as nat));
    s
}

} // verus!
