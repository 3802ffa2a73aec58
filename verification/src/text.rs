//! Rendering of numbers and columns as text.

use vstd::prelude::*;
use vstd::string::*;

verus! {

/// The character for the decimal digit `d`.
pub open spec fn digit(d: nat) -> char {
    (48 + d) as char
}

/// `n` in decimal, without leading zeros.
pub open spec fn decimal(n: nat) -> Seq<char>
    decreases n,
{
    if n < 10 {
        seq![digit(n)]
    } else {
        decimal(n / 10).push(digit(n % 10))
    }
}

/// `n` spaces.
pub open spec fn spaces(n: nat) -> Seq<char> {
    Seq::new(n, |i: int| ' ')
}

/// The number of spaces that fill `text` up to `width`.
pub open spec fn fill(text: Seq<char>, width: nat) -> nat {
    if text.len() < width {
        (width - text.len()) as nat
    } else {
        0
    }
}

/// `text` at the left of a column of `width` characters. Text that does not fit sticks out.
pub open spec fn at_left(text: Seq<char>, width: nat) -> Seq<char> {
    text + spaces(fill(text, width))
}

/// `text` at the right of a column of `width` characters. Text that does not fit sticks out.
pub open spec fn at_right(text: Seq<char>, width: nat) -> Seq<char> {
    spaces(fill(text, width)) + text
}

/// One decimal digit as text.
fn digit_text(d: u64) -> (text: &'static str)
    requires
        d < 10,
    ensures
        text@ == seq![digit(d as nat)],
{
    proof {
        reveal_strlit("0");
        reveal_strlit("1");
        reveal_strlit("2");
        reveal_strlit("3");
        reveal_strlit("4");
        reveal_strlit("5");
        reveal_strlit("6");
        reveal_strlit("7");
        reveal_strlit("8");
        reveal_strlit("9");
    }
    let text = match d {
        0 => "0",
        1 => "1",
        2 => "2",
        3 => "3",
        4 => "4",
        5 => "5",
        6 => "6",
        7 => "7",
        8 => "8",
        _ => "9",
    };
    assert(text@ =~= seq![digit(d as nat)]);
    text
}

/// Renders `n` in decimal.
pub fn decimal_text(n: u64) -> (text: String)
    ensures
        text@ == decimal(n as nat),
    decreases n,
{
    if n < 10 {
        digit_text(n).to_owned()
    } else {
        let mut text = decimal_text(n / 10);
        text.append(digit_text(n % 10));
        assert(text@ =~= decimal(n as nat));
        text
    }
}

/// Appends `n` spaces to `text`.
fn append_spaces(text: &mut String, n: usize)
    ensures
        final(text)@ == old(text)@ + spaces(n as nat),
{
    let mut i: usize = 0;
    assert(text@ =~= old(text)@ + spaces(0));
    while i < n
        invariant
            i <= n,
            text@ == old(text)@ + spaces(i as nat),
        decreases n - i,
    {
        proof {
            reveal_strlit(" ");
        }
        text.append(" ");
        i = i + 1;
        assert(text@ =~= old(text)@ + spaces(i as nat));
    }
}

/// Puts `text` at the left of a column of `width` characters.
pub fn left_aligned(text: &str, width: usize) -> (column: String)
    ensures
        column@ == at_left(text@, width as nat),
{
    let mut column = text.to_owned();
    let len: usize = text.unicode_len();
    if len < width {
        append_spaces(&mut column, width - len);
    } else {
        assert(column@ =~= at_left(text@, width as nat));
    }
    column
}

/// Puts `text` at the right of a column of `width` characters.
pub fn right_aligned(text: &str, width: usize) -> (column: String)
    ensures
        column@ == at_right(text@, width as nat),
{
    let mut column = String::new();
    let len: usize = text.unicode_len();
    if len < width {
        append_spaces(&mut column, width - len);
    }
    column.append(text);
    assert(column@ =~= at_right(text@, width as nat));
    column
}

/// The number that a line of decimal digits spells.
pub open spec fn spelled(text: Seq<char>) -> nat
    decreases text.len(),
{
    if text.len() == 0 {
        0
    } else {
        spelled(text.drop_last()) * 10 + (text.last() as nat - '0' as nat) as nat
    }
}

/// Decimal text is made of digits, spells its number, and has no leading zero.
pub proof fn decimal_spells_the_number(n: nat)
    ensures
        decimal(n).len() > 0,
        forall|i: int| 0 <= i < decimal(n).len() ==> '0' <= #[trigger] decimal(n)[i] <= '9',
        spelled(decimal(n)) == n,
        n > 0 ==> decimal(n)[0] != '0',
        n == 0 ==> decimal(n) == seq!['0'],
    decreases n,
{
    reveal_with_fuel(spelled, 2);
    if n >= 10 {
        decimal_spells_the_number(n / 10);
        assert(decimal(n).drop_last() =~= decimal(n / 10));
        assert forall|i: int| 0 <= i < decimal(n).len() implies '0' <= #[trigger] decimal(n)[i]
            <= '9' by {
            if i < decimal(n).len() - 1 {
                assert(decimal(n)[i] == decimal(n / 10)[i]);
            }
        }
    } else {
        assert(decimal(n).drop_last() =~= Seq::empty());
    }
}

/// A column is as wide as it should be, or as its text where that is wider. It
/// holds the text at its side, and spaces everywhere else.
pub proof fn columns_hold_their_text(text: Seq<char>, width: nat)
    ensures
        ({
            let left = at_left(text, width);
            let right = at_right(text, width);
            let wide = if text.len() < width {
                width
            } else {
                text.len()
            };
            &&& left.len() == wide
            &&& right.len() == wide
            &&& left.take(text.len() as int) == text
            &&& right.skip(wide - text.len()) == text
            &&& forall|i: int| text.len() <= i < wide ==> #[trigger] left[i] == ' '
            &&& forall|i: int| 0 <= i < wide - text.len() ==> #[trigger] right[i] == ' '
        }),
{
    let wide = if text.len() < width {
        width
    } else {
        text.len()
    };
    assert(at_left(text, width).take(text.len() as int) =~= text);
    assert(at_right(text, width).skip(wide - text.len()) =~= text);
}

} // verus!
