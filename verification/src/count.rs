//! The item count on the wire: a single integer in decimal digits.

use vstd::prelude::*;
use vstd::std_specs::iter::IteratorSpec;
use vstd::string::StringExecFns;

verus! {

/// The value of a decimal digit, `None` for any other character.
pub open spec fn digit_of(c: char) -> Option<nat> {
    if c == '0' {
        Some(0)
    } else if c == '1' {
        Some(1)
    } else if c == '2' {
        Some(2)
    } else if c == '3' {
        Some(3)
    } else if c == '4' {
        Some(4)
    } else if c == '5' {
        Some(5)
    } else if c == '6' {
        Some(6)
    } else if c == '7' {
        Some(7)
    } else if c == '8' {
        Some(8)
    } else if c == '9' {
        Some(9)
    } else {
        None
    }
}

/// The digit that stands for a value below ten.
pub open spec fn digit_char(d: nat) -> char {
    if d == 0 {
        '0'
    } else if d == 1 {
        '1'
    } else if d == 2 {
        '2'
    } else if d == 3 {
        '3'
    } else if d == 4 {
        '4'
    } else if d == 5 {
        '5'
    } else if d == 6 {
        '6'
    } else if d == 7 {
        '7'
    } else if d == 8 {
        '8'
    } else {
        '9'
    }
}

/// Every character of `s` is a decimal digit.
pub open spec fn all_digits(s: Seq<char>) -> bool {
    forall|k: int| 0 <= k < s.len() ==> digit_of(#[trigger] s[k]) is Some
}

/// The number that a run of digits denotes; a character that is no digit
/// counts as zero.
pub open spec fn digits_value(s: Seq<char>) -> nat
    decreases s.len(),
{
    if s.len() == 0 {
        0
    } else {
        digits_value(s.drop_last()) * 10 + match digit_of(s.last()) {
            Some(d) => d,
            None => 0,
        }
    }
}

/// The count that a response body denotes: it has to be a non-empty run of
/// digits whose value fits.
pub open spec fn count_of(text: Seq<char>) -> Option<u32> {
    if text.len() > 0 && all_digits(text) && digits_value(text) <= u32::MAX {
        Some(digits_value(text) as u32)
    } else {
        None
    }
}

/// The decimal digits of `n`, without leading zeros.
pub open spec fn decimal(n: nat) -> Seq<char>
    decreases n,
{
    if n < 10 {
        seq![digit_char(n)]
    } else {
        decimal(n / 10).push(digit_char(n % 10))
    }
}

/// A longer run of digits never denotes less than its beginning.
pub proof fn lemma_value_grows(s: Seq<char>, i: int)
    requires
        0 <= i <= s.len(),
    ensures
        digits_value(s.take(i)) <= digits_value(s),
    decreases s.len(),
{
    if i < s.len() {
        lemma_value_grows(s.drop_last(), i);
        assert(s.drop_last().take(i) =~= s.take(i));
    } else {
        assert(s.take(i) =~= s);
    }
}

/// Writing a count and reading it back gives the count.
pub proof fn lemma_count_round_trip(n: u32)
    ensures
        count_of(decimal(n as nat)) == Some(n),
{
    lemma_decimal(n as nat);
}

/// The digits of `n` are digits, and denote `n`.
pub proof fn lemma_decimal(n: nat)
    ensures
        decimal(n).len() > 0,
        all_digits(decimal(n)),
        digits_value(decimal(n)) == n,
    decreases n,
{
    if n < 10 {
        assert(decimal(n).drop_last() =~= Seq::<char>::empty());
        assert(digits_value(decimal(n).drop_last()) == 0);
    } else {
        lemma_decimal(n / 10);
        let head = decimal(n / 10);
        assert(decimal(n).drop_last() =~= head);
        assert(decimal(n).last() == digit_char(n % 10));
        assert forall|k: int| 0 <= k < decimal(n).len() implies digit_of(
            #[trigger] decimal(n)[k],
        ) is Some by {
            if k < head.len() {
                assert(decimal(n)[k] == head[k]);
            }
        }
    }
}

fn digit_value(c: char) -> (r: Option<u8>)
    ensures
        match r {
            Some(d) => digit_of(c) == Some(d as nat) && d < 10,
            None => digit_of(c) is None,
        },
{
    if c == '0' {
        Some(0)
    } else if c == '1' {
        Some(1)
    } else if c == '2' {
        Some(2)
    } else if c == '3' {
        Some(3)
    } else if c == '4' {
        Some(4)
    } else if c == '5' {
        Some(5)
    } else if c == '6' {
        Some(6)
    } else if c == '7' {
        Some(7)
    } else if c == '8' {
        Some(8)
    } else if c == '9' {
        Some(9)
    } else {
        None
    }
}

fn digit_text(d: u8) -> (r: &'static str)
    requires
        d < 10,
    ensures
        r@ == seq![digit_char(d as nat)],
{
    proof {
        reveal_strlit("0");
        reveal_strlit("1");
        reveal_strlit("2");
        reveal_strlit("3");
        reveal_strlit("4");
        reveal_strlit("5");
        reveal_strlit("6");
        reveal_strlit("7");
        reveal_strlit("8");
        reveal_strlit("9");
    }
    let r = if d == 0 {
        "0"
    } else if d == 1 {
        "1"
    } else if d == 2 {
        "2"
    } else if d == 3 {
        "3"
    } else if d == 4 {
        "4"
    } else if d == 5 {
        "5"
    } else if d == 6 {
        "6"
    } else if d == 7 {
        "7"
    } else if d == 8 {
        "8"
    } else {
        "9"
    };
    assert(r@ =~= seq![digit_char(d as nat)]);
    r
}

/// Reads the body of an item count response.
pub fn parse_count(text: &str) -> (r: Option<u32>)
    ensures
        r == count_of(text@),
{
    let n: usize = text.unicode_len();
    if n == 0 {
        return None;
    }
    let mut it = text.chars();
    let mut i: usize = 0;
    let mut value: u64 = 0;
    loop
        invariant
            i <= n,
            n == text@.len(),
            n > 0,
            it.remaining() == text@.skip(i as int),
            all_digits(text@.take(i as int)),
            value == digits_value(text@.take(i as int)),
            value <= u32::MAX,
        decreases n - i,
    {
        match it.next() {
            Some(c) => {
                proof {
                    assert(text@.skip(i as int)[0] == text@[i as int]);
                    assert(text@.skip(i as int).drop_first() =~= text@.skip(i + 1));
                    assert(text@.take(i + 1).drop_last() =~= text@.take(i as int));
                    assert(text@.take(i + 1).last() == c);
                }
                match digit_value(c) {
                    Some(d) => {
                        value = value * 10 + d as u64;
                        proof {
                            assert forall|k: int| 0 <= k < text@.take(i + 1).len() implies digit_of(
                                #[trigger] text@.take(i + 1)[k],
                            ) is Some by {
                                if k < i {
                                    assert(text@.take(i as int)[k] == text@.take(i + 1)[k]);
                                }
                            }
                        }
                        if value > u32::MAX as u64 {
                            proof {
                                lemma_value_grows(text@, i + 1);
                            }
                            return None;
                        }
                    },
                    None => {
                        proof {
                            assert(digit_of(text@[i as int]) is None);
                        }
                        return None;
                    },
                }
                i += 1;
            },
            None => {
                proof {
                    assert(text@.skip(i as int).len() == 0);
                    assert(text@.take(i as int) =~= text@);
                }
                return Some(value as u32);
            },
        }
    }
}

/// The digits of a run of values below ten, last value first.
pub open spec fn reversed_digits(values: Seq<u8>) -> Seq<char> {
    Seq::new(values.len(), |k: int| digit_char(values[values.len() - 1 - k] as nat))
}

/// Writes the body of an item count response.
pub fn count_text(count: u32) -> (r: String)
    ensures
        r@ == decimal(count as nat),
{
    let mut values: Vec<u8> = Vec::new();
    values.push((count % 10) as u8);
    let mut rest: u32 = count / 10;
    proof {
        assert(reversed_digits(values@) =~= seq![digit_char((count % 10) as nat)]);
        if rest > 0 {
            assert(decimal(count as nat) =~= decimal(rest as nat) + reversed_digits(values@));
        }
    }
    while rest > 0
        invariant
            values@.len() > 0,
            forall|k: int| 0 <= k < values@.len() ==> #[trigger] values@[k] < 10,
            decimal(count as nat) == if rest > 0 {
                decimal(rest as nat) + reversed_digits(values@)
            } else {
                reversed_digits(values@)
            },
        decreases rest,
    {
        let ghost before = values@;
        let ghost was = rest;
        values.push((rest % 10) as u8);
        rest = rest / 10;
        proof {
            assert(reversed_digits(values@) =~= seq![digit_char((was % 10) as nat)]
                + reversed_digits(before));
            if rest > 0 {
                assert(decimal(was as nat) =~= decimal(rest as nat).push(
                    digit_char((was % 10) as nat),
                ));
                assert(decimal(count as nat) =~= decimal(rest as nat) + reversed_digits(values@));
            } else {
                assert(decimal(was as nat) =~= seq![digit_char((was % 10) as nat)]);
                assert(decimal(count as nat) =~= reversed_digits(values@));
            }
        }
    }
    let mut r = String::new();
    let mut k: usize = values.len();
    while k > 0
        invariant
            k <= values@.len(),
            forall|m: int| 0 <= m < values@.len() ==> #[trigger] values@[m] < 10,
            r@ == reversed_digits(values@).take(values@.len() - k),
        decreases k,
    {
        k -= 1;
        r.append(digit_text(values[k]));
        proof {
            assert(r@ =~= reversed_digits(values@).take(values@.len() - k));
        }
    }
    proof {
        assert(reversed_digits(values@).take(values@.len() as int) =~= reversed_digits(values@));
    }
    r
}

} // verus!
