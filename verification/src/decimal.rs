use vstd::prelude::*;

verus! {

/// Whether `b` is one of the ASCII digits `0` to `9`.
pub open spec fn is_digit(b: u8) -> bool {
    48 <= b <= 57
}

/// Whether every byte of `s` is an ASCII digit.
pub open spec fn all_digits(s: Seq<u8>) -> bool {
    forall|i: int| 0 <= i < s.len() ==> is_digit(#[trigger] s[i])
}

/// The number that the ASCII digits `s` write in base ten; leading zeros count for nothing.
pub open spec fn digits_value(s: Seq<u8>) -> nat
    decreases s.len(),
{
    if s.len() == 0 {
        0
    } else {
        (digits_value(s.drop_last()) * 10 + (s.last() - 48)) as nat
    }
}

/// The shortest ASCII decimal text of `n`: no leading zero, and `0` for zero.
pub open spec fn decimal(n: nat) -> Seq<u8>
    decreases n,
{
    if n < 10 {
        seq![(48 + n) as u8]
    } else {
        decimal(n / 10).push((48 + n % 10) as u8)
    }
}

/// The decimal text of a signed integer: a `-` before the digits of a negative number.
pub open spec fn int_text(n: int) -> Seq<u8> {
    if n < 0 {
        seq![45u8] + decimal((-n) as nat)
    } else {
        decimal(n as nat)
    }
}

/// What a field of signed decimal text stands for: an optional `-`, then at least one digit and
/// nothing else. `None` for any other text.
pub open spec fn parse_int(s: Seq<u8>) -> Option<int> {
    if s.len() > 0 && s[0] == 45 {
        if s.len() > 1 && all_digits(s.skip(1)) {
            Some(-(digits_value(s.skip(1)) as int))
        } else {
            None
        }
    } else if s.len() > 0 && all_digits(s) {
        Some(digits_value(s) as int)
    } else {
        None
    }
}

/// The decimal text of a number is made of digits, at least one of them.
pub proof fn lemma_decimal_digits(n: nat)
    ensures
        decimal(n).len() >= 1,
        all_digits(decimal(n)),
    decreases n,
{
    if n >= 10 {
        lemma_decimal_digits(n / 10);
    }
}

/// Reading back the decimal text of a number gives the number.
pub proof fn lemma_decimal_value(n: nat)
    ensures
        digits_value(decimal(n)) == n,
    decreases n,
{
    if n < 10 {
        assert(decimal(n).drop_last() =~= Seq::<u8>::empty());
        assert(digits_value(decimal(n).drop_last()) == 0);
    } else {
        lemma_decimal_value(n / 10);
        assert(decimal(n).drop_last() =~= decimal(n / 10));
    }
}

/// Reading back the text of a signed integer gives the integer.
pub proof fn lemma_int_text_parses(n: int)
    ensures
        parse_int(int_text(n)) == Some(n),
{
    if n < 0 {
        let m = (-n) as nat;
        lemma_decimal_digits(m);
        lemma_decimal_value(m);
        assert(int_text(n).skip(1) =~= decimal(m));
    } else {
        lemma_decimal_digits(n as nat);
        lemma_decimal_value(n as nat);
        assert(is_digit(decimal(n as nat)[0]));
    }
}

/// Appends the decimal text of `n` to `out`.
pub fn push_decimal(out: &mut Vec<u8>, n: u64)
    ensures
        final(out)@ == old(out)@ + decimal(n as nat),
    decreases n,
{
    if n >= 10 {
        push_decimal(out, n / 10);
    }
    let digit: u8 = (n % 10) as u8;
    out.push(48 + digit);
    assert(final(out)@ =~= old(out)@ + decimal(n as nat));
}

/// Appends the decimal text of the signed integer `n` to `out`.
pub fn push_int(out: &mut Vec<u8>, n: i64)
    ensures
        final(out)@ == old(out)@ + int_text(n as int),
{
    if n < 0 {
        out.push(45);
        let magnitude: u64 = (-(n + 1)) as u64 + 1;
        push_decimal(out, magnitude);
        assert(final(out)@ =~= old(out)@ + int_text(n as int));
    } else {
        push_decimal(out, n as u64);
    }
}

/// What `read_digits` found in a field.
pub enum Digits {
    /// The field is empty or holds a byte that is no digit.
    Malformed,
    /// The field is a run of digits whose value is greater than `u64::MAX`.
    TooLarge,
    /// The field is a run of digits with this value.
    Number(u64),
}

/// Reads a field of unsigned decimal text.
pub fn read_digits(field: &[u8]) -> (r: Digits)
    ensures
        r is Malformed <==> !(field@.len() > 0 && all_digits(field@)),
        r is TooLarge ==> digits_value(field@) > u64::MAX,
        r matches Digits::Number(n) ==> digits_value(field@) == n,
{
    if field.len() == 0 {
        return Digits::Malformed;
    }
    let mut value: u64 = 0;
    let mut fits: bool = true;
    let mut i: usize = 0;
    while i < field.len()
        invariant
            0 <= i <= field@.len(),
            all_digits(field@.take(i as int)),
            fits ==> digits_value(field@.take(i as int)) == value,
            !fits ==> digits_value(field@.take(i as int)) > u64::MAX,
        decreases field@.len() - i,
    {
        let b: u8 = field[i];
        if b < 48 || b > 57 {
            assert(!is_digit(field@[i as int]));
            return Digits::Malformed;
        }
        let d: u64 = (b - 48) as u64;
        proof {
            assert(field@.take(i + 1).drop_last() =~= field@.take(i as int));
            assert(field@.take(i + 1).last() == b);
            assert forall|k: int| 0 <= k < i + 1 implies is_digit(
                #[trigger] field@.take(i + 1)[k],
            ) by {
                if k < i {
                    assert(field@.take(i as int)[k] == field@.take(i + 1)[k]);
                }
            }
        }
        if fits {
            if value > (u64::MAX - d) / 10 {
                fits = false;
            } else {
                value = value * 10 + d;
            }
        }
        i = i + 1;
    }
    assert(field@.take(i as int) =~= field@);
    if fits {
        Digits::Number(value)
    } else {
        Digits::TooLarge
    }
}

/// Reads a field of signed decimal text as an `i64`. `None` where the field is not such text, or
/// where its value does not fit.
pub fn read_i64(field: &[u8]) -> (r: Option<i64>)
    ensures
        r == match parse_int(field@) {
            Some(v) => if i64::MIN <= v <= i64::MAX {
                Some(v as i64)
            } else {
                None
            },
            None => None,
        },
{
    if field.len() > 0 && field[0] == 45 {
        let digits = &field[1..field.len()];
        assert(digits@ =~= field@.skip(1));
        match read_digits(digits) {
            Digits::Number(m) => {
                if m <= 0x7fff_ffff_ffff_ffff {
                    Some(-(m as i64))
                } else if m == 0x8000_0000_0000_0000 {
                    Some(i64::MIN)
                } else {
                    None
                }
            },
            _ => None,
        }
    } else {
        match read_digits(field) {
            Digits::Number(m) => {
                if m <= 0x7fff_ffff_ffff_ffff {
                    Some(m as i64)
                } else {
                    None
                }
            },
            _ => None,
        }
    }
}

} // verus!
