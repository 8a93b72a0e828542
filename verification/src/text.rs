//! Building blocks for the one-line descriptions of events.

use vstd::prelude::*;

verus! {

/// The ten decimal digits, least first.
pub open spec fn digits() -> Seq<char> {
    seq!['0', '1', '2', '3', '4', '5', '6', '7', '8', '9']
}

/// The decimal numeral of `n`: no sign, no leading zero, `"0"` for zero.
pub open spec fn decimal(n: nat) -> Seq<char>
    decreases n,
{
    if n < 10 {
        seq![digits()[n as int]]
    } else {
        decimal(n / 10).push(digits()[(n % 10) as int])
    }
}

/// The numeral of a single digit, as a string slice.
fn digit_str(d: usize) -> (s: &'static str)
    requires
        d < 10,
    ensures
        s@ == seq![digits()[d as int]],
{
    proof {
        reveal_strlit("0");
        reveal_strlit("1");
        reveal_strlit("2");
        reveal_strlit("3");
        reveal_strlit("4");
        reveal_strlit("5");
        reveal_strlit("6");
        reveal_strlit("7");
        reveal_strlit("8");
        reveal_strlit("9");
    }
    let s = if d == 0 {
        "0"
    } else if d == 1 {
        "1"
    } else if d == 2 {
        "2"
    } else if d == 3 {
        "3"
    } else if d == 4 {
        "4"
    } else if d == 5 {
        "5"
    } else if d == 6 {
        "6"
    } else if d == 7 {
        "7"
    } else if d == 8 {
        "8"
    } else {
        "9"
    };
    s
}

/// Writes a count in decimal.
pub fn render_count(n: usize) -> (out: String)
    ensures
        out@ == decimal(n as nat),
    decreases n,
{
    if n < 10 {
        String::from_str(digit_str(n))
    } else {
        let mut out = render_count(n / 10);
        out.append(digit_str(n % 10));
        out
    }
}

/// Whether the text stays on one line: it holds neither a line feed nor a
/// carriage return.
pub open spec fn is_one_line(s: Seq<char>) -> bool {
    forall|i: int| 0 <= i < s.len() ==> s[i] != '\n' && s[i] != '\r'
}

/// The text brought onto one line: a space stands wherever a line feed or a
/// carriage return stood, and every other character is kept.
pub open spec fn one_line(s: Seq<char>) -> Seq<char> {
    s.map_values(
        |c: char|
            if c == '\n' || c == '\r' {
                ' '
            } else {
                c
            },
    )
}

/// What `one_line` gives stays on one line.
pub proof fn lemma_one_line_is_one_line(s: Seq<char>)
    ensures
        is_one_line(one_line(s)),
{
}

/// A text that stays on one line is its own one-line form.
pub proof fn lemma_one_line_keeps_one_line(s: Seq<char>)
    requires
        is_one_line(s),
    ensures
        one_line(s) == s,
{
}

/// A decimal numeral stays on one line.
pub proof fn lemma_decimal_is_one_line(n: nat)
    ensures
        is_one_line(decimal(n)),
    decreases n,
{
    if n >= 10 {
        lemma_decimal_is_one_line(n / 10);
    }
}

/// Brings a text of ASCII characters onto one line, in one pass.
fn single_line_ascii(s: &str) -> (out: String)
    requires
        s.is_ascii(),
    ensures
        out@ == one_line(s@),
{
    let n = s.unicode_len();
    let mut out = String::new();
    let mut i: usize = 0;
    while i < n
        invariant
            s.is_ascii(),
            n == s@.len(),
            i <= n,
            out@ == one_line(s@.take(i as int)),
        decreases n - i,
    {
        let b = s.get_ascii(i);
        proof {
            let c = s@[i as int];
            assert((b == 10u8) == (c == '\n') && (b == 13u8) == (c == '\r'));
            reveal_strlit(" ");
        }
        if b == 10 || b == 13 {
            out.append(" ");
        } else {
            out.append(s.substring_ascii(i, i + 1));
        }
        i += 1;
    }
    out
}

/// Brings any text onto one line, character by character.
fn single_line_chars(s: &str) -> (out: String)
    ensures
        out@ == one_line(s@),
{
    let n = s.unicode_len();
    let mut out = String::new();
    let mut i: usize = 0;
    while i < n
        invariant
            n == s@.len(),
            i <= n,
            out@ == one_line(s@.take(i as int)),
        decreases n - i,
    {
        let c = s.get_char(i);
        proof {
            reveal_strlit(" ");
        }
        if c == '\n' || c == '\r' {
            out.append(" ");
        } else {
            out.append(s.substring_char(i, i + 1));
        }
        i += 1;
    }
    out
}

/// Brings a text onto one line.
pub fn single_line(s: &str) -> (out: String)
    ensures
        out@ == one_line(s@),
{
    if s.is_ascii() {
        single_line_ascii(s)
    } else {
        single_line_chars(s)
    }
}

} // verus!
