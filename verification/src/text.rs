//! Building blocks for the text of a line: numerals and padding.

use vstd::prelude::*;
use vstd::string::StringExecFns;
use vstd::string::StrSliceExecFns;

verus! {

/// The character that writes the single digit `d`.
pub open spec fn digit_char(d: nat) -> char {
    if d == 0 {
        '0'
    } else if d == 1 {
        '1'
    } else if d == 2 {
        '2'
    } else if d == 3 {
        '3'
    } else if d == 4 {
        '4'
    } else if d == 5 {
        '5'
    } else if d == 6 {
        '6'
    } else if d == 7 {
        '7'
    } else if d == 8 {
        '8'
    } else {
        '9'
    }
}

/// The positional notation of `n` in the given base, most significant digit
/// first and without leading zeros; zero is written as a single `0`.
pub open spec fn numeral(n: nat, base: nat) -> Seq<char>
    decreases n,
    via numeral_decreases
{
    if base < 2 || n < base {
        seq![digit_char(n)]
    } else {
        numeral(n / base, base).push(digit_char(n % base))
    }
}

#[via_fn]
proof fn numeral_decreases(n: nat, base: nat) {
    if base >= 2 && n >= base {
        lemma_quotient_smaller(n, base);
    }
}

/// Dividing a positive number by a base of two or more makes it smaller.
pub proof fn lemma_quotient_smaller(n: nat, base: nat)
    by (nonlinear_arith)
    requires
        base >= 2,
        n >= 1,
    ensures
        n / base < n,
{
}

/// `n` in base ten.
pub open spec fn decimal(n: nat) -> Seq<char> {
    numeral(n, 10)
}

/// `n` in base eight.
pub open spec fn octal(n: nat) -> Seq<char> {
    numeral(n, 8)
}

/// `width` spaces.
pub open spec fn spaces(width: nat) -> Seq<char> {
    Seq::new(width, |i: int| ' ')
}

/// `text` right-aligned in a field of `width` characters: spaces are put in
/// front of a shorter text, a longer one is left as it is.
pub open spec fn pad_left(text: Seq<char>, width: nat) -> Seq<char> {
    if text.len() >= width {
        text
    } else {
        spaces((width - text.len()) as nat) + text
    }
}

/// The one-character text of a digit below ten.
pub(crate) fn digit_str(d: u128) -> (text: &'static str)
    requires
        d < 10,
    ensures
        text@ == seq![digit_char(d as nat)],
{
    proof {
        reveal_strlit("0");
        reveal_strlit("1");
        reveal_strlit("2");
        reveal_strlit("3");
        reveal_strlit("4");
        reveal_strlit("5");
        reveal_strlit("6");
        reveal_strlit("7");
        reveal_strlit("8");
        reveal_strlit("9");
    }
    let text = if d == 0 {
        "0"
    } else if d == 1 {
        "1"
    } else if d == 2 {
        "2"
    } else if d == 3 {
        "3"
    } else if d == 4 {
        "4"
    } else if d == 5 {
        "5"
    } else if d == 6 {
        "6"
    } else if d == 7 {
        "7"
    } else if d == 8 {
        "8"
    } else {
        "9"
    };
    assert(text@ =~= seq![digit_char(d as nat)]);
    text
}

/// Appends the numeral of `n` in the given base to `out`.
pub(crate) fn push_numeral(out: &mut String, n: u128, base: u128)
    requires
        2 <= base <= 10,
    ensures
        final(out)@ == old(out)@ + numeral(n as nat, base as nat),
    decreases n,
{
    if n >= base {
        proof {
            lemma_quotient_smaller(n as nat, base as nat);
        }
        push_numeral(out, n / base, base);
    }
    assert(n % base < base && (n < base ==> n % base == n)) by (nonlinear_arith)
        requires
            base >= 2,
    ;
    out.append(digit_str(n % base));
    proof {
        let tail = seq![digit_char((n % base) as nat)];
        if n >= base {
            let head = numeral((n / base) as nat, base as nat);
            assert(head.push(digit_char((n % base) as nat)) =~= head + tail);
            assert(out@ =~= old(out)@ + (head + tail));
        } else {
            assert(out@ =~= old(out)@ + tail);
        }
    }
}

/// Appends `width` spaces to `out`.
pub fn push_spaces(out: &mut String, width: usize)
    ensures
        final(out)@ == old(out)@ + spaces(width as nat),
{
    let mut done: usize = 0;
    while done < width
        invariant
            done <= width,
            out@ == old(out)@ + spaces(done as nat),
        decreases width - done,
    {
        proof {
            reveal_strlit(" ");
        }
        out.append(" ");
        done = done + 1;
        assert(out@ =~= old(out)@ + spaces(done as nat));
    }
}

/// Appends `text`, right-aligned in a field of `width` characters, to `out`.
pub fn push_padded(out: &mut String, text: &str, width: usize)
    ensures
        final(out)@ == old(out)@ + pad_left(text@, width as nat),
{
    let length: usize = text.unicode_len();
    if length < width {
        push_spaces(out, width - length);
    }
    out.append(text);
    assert(out@ =~= old(out)@ + pad_left(text@, width as nat));
}

/// The numeral of `n` in base ten.
pub fn decimal_string(n: u64) -> (text: String)
    ensures
        text@ == decimal(n as nat),
{
    let mut text = String::new();
    push_numeral(&mut text, n as u128, 10);
    assert(text@ =~= decimal(n as nat));
    text
}

/// The numeral of `n` in base eight.
pub fn octal_string(n: u32) -> (text: String)
    ensures
        text@ == octal(n as nat),
{
    let mut text = String::new();
    push_numeral(&mut text, n as u128, 8);
    assert(text@ =~= octal(n as nat));
    text
}

} // verus!
