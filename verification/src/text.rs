//! Text built character by character.

use vstd::prelude::*;

verus! {

/// The character of a decimal digit.
pub open spec fn digit(d: nat) -> char {
    (48 + d) as char
}

/// The decimal digits of a natural number.
pub open spec fn digits(n: nat) -> Seq<char>
    decreases n,
{
    if n < 10 {
        seq![digit(n)]
    } else {
        digits(n / 10).push(digit(n % 10))
    }
}

/// The decimal text of an integer.
pub open spec fn decimal(x: int) -> Seq<char> {
    if x < 0 {
        seq!['-'] + digits((-x) as nat)
    } else {
        digits(x as nat)
    }
}

/// The number that decimal digits spell.
pub open spec fn spelled(s: Seq<char>) -> int
    decreases s.len(),
{
    if s.len() == 0 {
        0
    } else {
        10 * spelled(s.drop_last()) + (s.last() as int - '0' as int)
    }
}

/// Nothing but decimal digits, and no zero in front of others.
pub open spec fn plain_digits(s: Seq<char>) -> bool {
    &&& s.len() > 0
    &&& forall|i: int| 0 <= i < s.len() ==> '0' <= #[trigger] s[i] <= '9'
    &&& s.len() > 1 ==> s[0] != '0'
}

/// The digits of a number.
proof fn lemma_digits(n: nat)
    ensures
        plain_digits(digits(n)),
        spelled(digits(n)) == n,
        n > 0 ==> digits(n)[0] != '0',
    decreases n,
{
    let s: Seq<char> = digits(n);
    reveal_with_fuel(spelled, 2);
    if n < 10 {
        assert(s.drop_last().len() == 0);
        assert(s[0] == digit(n));
    } else {
        lemma_digits(n / 10);
        let t: Seq<char> = digits(n / 10);
        assert(s.drop_last() =~= t);
        assert(s.last() == digit(n % 10));
        assert(s[0] == t[0]);
        assert forall|i: int| 0 <= i < s.len() implies '0' <= #[trigger] s[i] <= '9' by {
            if i < t.len() {
                assert(s[i] == t[i]);
            }
        }
    }
}

/// The decimal text of a number spells it: a minus sign where it is negative, then its
/// digits, without needless zeros.
pub proof fn law_decimal_spells(x: int)
    ensures
        x >= 0 ==> plain_digits(decimal(x)) && spelled(decimal(x)) == x,
        x < 0 ==> decimal(x)[0] == '-' && plain_digits(decimal(x).drop_first()) && spelled(
            decimal(x).drop_first(),
        ) == -x,
{
    if x < 0 {
        lemma_digits((-x) as nat);
        assert(decimal(x).drop_first() =~= digits((-x) as nat));
    } else {
        lemma_digits(x as nat);
    }
}

/// Appends a character. This calls `String::push`, of which it is claimed that it appends
/// the given character to the end of the string and changes nothing else.
#[verifier::external_body]
pub(crate) fn push(s: &mut String, c: char)
    ensures
        final(s)@ == old(s)@.push(c),
{
    s.push(c)
}

/// Appends a text.
pub fn push_text(s: &mut String, text: &str)
    ensures
        final(s)@ == old(s)@ + text@,
{
    let ghost start: Seq<char> = s@;
    let n: usize = text.unicode_len();
    let mut i: usize = 0;
    while i < n
        invariant
            n == text@.len(),
            i <= n,
            s@ == start + text@.subrange(0, i as int),
        decreases n - i,
    {
        let c: char = text.get_char(i);
        push(s, c);
        i = i + 1;
        assert(s@ =~= start + text@.subrange(0, i as int));
    }
    assert(text@.subrange(0, n as int) =~= text@);
}

/// The character of a decimal digit.
fn digit_char(d: u64) -> (c: char)
    requires
        d < 10,
    ensures
        c == digit(d as nat),
{
    (48 + d as u8) as char
}

/// Appends the decimal text of a word.
pub fn push_decimal(s: &mut String, n: u64)
    ensures
        final(s)@ == old(s)@ + decimal(n as int),
    decreases n,
{
    let ghost start: Seq<char> = s@;
    if n >= 10 {
        push_decimal(s, n / 10);
    }
    push(s, digit_char(n % 10));
    assert(s@ =~= start + decimal(n as int));
}

} // verus!
