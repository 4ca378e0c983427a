//! Rendering of the numbers that appear in messages.

use vstd::prelude::*;
use vstd::string::*;

verus! {

/// The decimal digit `d`.
pub open spec fn digit(d: nat) -> char {
    (48 + d) as char
}

/// `n` in decimal, without leading zeros.
pub open spec fn decimal(n: nat) -> Seq<char>
    decreases n,
{
    if n < 10 {
        seq![digit(n)]
    } else {
        decimal(n / 10).push(digit(n % 10))
    }
}

fn digit_text(d: u64) -> (text: &'static str)
    requires
        d < 10,
    ensures
        text@ == seq![digit(d as nat)],
{
    proof {
        reveal_strlit("0");
        reveal_strlit("1");
        reveal_strlit("2");
        reveal_strlit("3");
        reveal_strlit("4");
        reveal_strlit("5");
        reveal_strlit("6");
        reveal_strlit("7");
        reveal_strlit("8");
        reveal_strlit("9");
    }
    let text: &'static str = if d == 0 {
        "0"
    } else if d == 1 {
        "1"
    } else if d == 2 {
        "2"
    } else if d == 3 {
        "3"
    } else if d == 4 {
        "4"
    } else if d == 5 {
        "5"
    } else if d == 6 {
        "6"
    } else if d == 7 {
        "7"
    } else if d == 8 {
        "8"
    } else {
        "9"
    };
    assert(text@ =~= seq![digit(d as nat)]);
    text
}

/// Appends `n` in decimal.
pub fn append_decimal(out: &mut String, n: u64)
    ensures
        final(out)@ == old(out)@ + decimal(n as nat),
    decreases n,
{
    if n < 10 {
        out.append(digit_text(n));
    } else {
        append_decimal(out, n / 10);
        out.append(digit_text(n % 10));
        assert(out@ =~= old(out)@ + decimal(n as nat));
    }
}

/// The number a text of digits stands for.
pub open spec fn reading(text: Seq<char>) -> int
    decreases text.len(),
{
    if text.len() == 0 {
        0
    } else {
        10 * reading(text.drop_last()) + (text.last() as int - '0' as int)
    }
}

/// A decimal reads back as its number: it is made of digits, has no needless
/// zero in front, and no two numbers share one.
pub proof fn a_decimal_reads_back(n: nat)
    ensures
        reading(decimal(n)) == n,
        decimal(n).len() > 0,
        forall|i: int| 0 <= i < decimal(n).len() ==> '0' <= #[trigger] decimal(n)[i] <= '9',
        n > 0 ==> decimal(n)[0] != '0',
        n == 0 ==> decimal(n).len() == 1,
    decreases n,
{
    reveal_with_fuel(reading, 2);
    if n >= 10 {
        a_decimal_reads_back(n / 10);
        assert(decimal(n).drop_last() =~= decimal(n / 10));
    } else {
        assert(decimal(n).drop_last() =~= Seq::<char>::empty());
    }
}

/// `text` quotes `number`.
pub open spec fn quotes(text: Seq<char>, number: int) -> bool {
    exists|from: int, to: int|
        0 <= from < to <= text.len() && reading(#[trigger] text.subrange(from, to)) == number
            && forall|i: int| from <= i < to ==> '0' <= #[trigger] text[i] <= '9'
}

/// A text quotes the number that was written into it.
pub proof fn lemma_quotes(front: Seq<char>, number: nat, back: Seq<char>)
    ensures
        quotes(front + decimal(number) + back, number as int),
{
    let text = front + decimal(number) + back;
    let from = front.len() as int;
    let to = from + decimal(number).len();
    a_decimal_reads_back(number);
    assert(text.subrange(from, to) =~= decimal(number));
    assert forall|i: int| from <= i < to implies '0' <= #[trigger] text[i] <= '9' by {
        assert(text[i] == decimal(number)[i - from]);
    }
}

} // verus!
