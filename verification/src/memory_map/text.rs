//! Rendering of integers as text: the digit strings that the document renderer writes.
use vstd::prelude::*;

verus! {

/// The character that shows a digit value below sixteen; letters past nine are upper case.
pub open spec fn digit_char(d: nat) -> char {
    seq!['0', '1', '2', '3', '4', '5', '6', '7', '8', '9', 'A', 'B', 'C', 'D', 'E', 'F'][d as int]
}

/// The digits of `n` in the given base, most significant first, without leading zeros
/// (zero is the single digit `0`).
pub open spec fn digits(n: nat, base: nat) -> Seq<char>
    decreases n,
{
    if 2 <= base && n >= base {
        proof {
            vstd::arithmetic::div_mod::lemma_div_decreases(n as int, base as int);
        }
        digits(n / base, base).push(digit_char(n % base))
    } else {
        seq![digit_char(n)]
    }
}

/// `s` preceded by as many `0` characters as it takes to reach `width` characters.
pub open spec fn pad_zeros(s: Seq<char>, width: nat) -> Seq<char> {
    if s.len() >= width {
        s
    } else {
        Seq::new((width - s.len()) as nat, |i: int| '0') + s
    }
}

/// The decimal text of a signed integer: a minus sign before the digits of its magnitude when
/// it is negative.
pub open spec fn signed_decimal(n: int) -> Seq<char> {
    if n < 0 {
        seq!['-'] + digits((-n) as nat, 10)
    } else {
        digits(n as nat, 10)
    }
}

/// The text of one digit value below sixteen.
pub(crate) fn digit_str(d: u64) -> (s: &'static str)
    requires
        d < 16,
    ensures
        s@ == seq![digit_char(d as nat)],
{
    proof {
        reveal_strlit("0");
        reveal_strlit("1");
        reveal_strlit("2");
        reveal_strlit("3");
        reveal_strlit("4");
        reveal_strlit("5");
        reveal_strlit("6");
        reveal_strlit("7");
        reveal_strlit("8");
        reveal_strlit("9");
        reveal_strlit("A");
        reveal_strlit("B");
        reveal_strlit("C");
        reveal_strlit("D");
        reveal_strlit("E");
        reveal_strlit("F");
    }
    match d {
        0 => "0",
        1 => "1",
        2 => "2",
        3 => "3",
        4 => "4",
        5 => "5",
        6 => "6",
        7 => "7",
        8 => "8",
        9 => "9",
        10 => "A",
        11 => "B",
        12 => "C",
        13 => "D",
        14 => "E",
        _ => "F",
    }
}

/// Appends the digits of `n` in `base` to `out`.
pub(crate) fn push_digits(out: &mut String, n: u64, base: u64)
    requires
        2 <= base <= 16,
    ensures
        final(out)@ == old(out)@ + digits(n as nat, base as nat),
    decreases n,
{
    if n >= base {
        proof {
            vstd::arithmetic::div_mod::lemma_div_decreases(n as int, base as int);
        }
        push_digits(out, n / base, base);
    }
    proof {
        vstd::arithmetic::div_mod::lemma_mod_bound(n as int, base as int);
    }
    out.append(digit_str(n % base));
    proof {
        if n >= base {
            assert(old(out)@ + digits(n as nat, base as nat) =~= old(out)@ + digits(
                (n / base) as nat,
                base as nat,
            ) + seq![digit_char((n % base) as nat)]);
        } else {
            vstd::arithmetic::div_mod::lemma_small_mod(n as nat, base as nat);
        }
    }
}

/// Appends the digits of `n` in `base`, zero-padded on the left to at least `width`
/// characters, to `out`.
pub(crate) fn push_padded_digits(out: &mut String, n: u64, base: u64, width: usize)
    requires
        2 <= base <= 16,
    ensures
        final(out)@ == old(out)@ + pad_zeros(digits(n as nat, base as nat), width as nat),
{
    let mut d = String::new();
    push_digits(&mut d, n, base);
    assert(d@ =~= digits(n as nat, base as nat));
    let len = d.as_str().unicode_len();
    let ghost start = out@;
    if len < width {
        let mut i: usize = len;
        while i < width
            invariant
                len <= i <= width,
                out@ == start + Seq::new((i - len) as nat, |j: int| '0'),
            decreases width - i,
        {
            proof {
                reveal_strlit("0");
            }
            out.append("0");
            assert(Seq::new((i - len) as nat, |j: int| '0').push('0') =~= Seq::new(
                (i + 1 - len) as nat,
                |j: int| '0',
            ));
            i = i + 1;
        }
    }
    out.append(d.as_str());
    assert(out@ =~= start + pad_zeros(digits(n as nat, base as nat), width as nat));
}

/// Appends the decimal text of a signed integer to `out`.
pub(crate) fn push_signed_decimal(out: &mut String, n: i64)
    ensures
        final(out)@ == old(out)@ + signed_decimal(n as int),
{
    if n < 0 {
        proof {
            reveal_strlit("-");
        }
        out.append("-");
        let magnitude: u64 = if n == i64::MIN {
            9223372036854775808u64
        } else {
            (-n) as u64
        };
        push_digits(out, magnitude, 10);
        assert(out@ =~= old(out)@ + signed_decimal(n as int));
    } else {
        push_digits(out, n as u64, 10);
    }
}

} // verus!
