use vstd::prelude::*;

verus! {

/// Relies on `String::push`: appends one character at the end.
#[verifier::external_body]
pub(crate) fn push_char(s: &mut String, c: char)
    ensures
        final(s)@ == old(s)@.push(c),
{
    s.push(c)
}

/// The uppercase hexadecimal digit of a value below 16.
pub open spec fn hex_upper(n: u8) -> char {
    if n < 10 {
        (0x30 + n) as u8 as char
    } else {
        (0x37 + n) as u8 as char
    }
}

/// The uppercase hexadecimal digit of `n`, which is below 16.
pub fn hex_upper_digit(n: u8) -> (r: char)
    requires
        n < 16,
    ensures
        r == hex_upper(n),
{
    if n < 10 {
        (0x30 + n) as char
    } else {
        (0x37 + n) as char
    }
}

/// The character of a decimal digit below 10.
pub open spec fn digit_char(d: nat) -> char {
    ((d + 0x30) as u8) as char
}

/// The decimal digits of `n`, most significant first, with no leading zero.
pub open spec fn digits_text(n: nat) -> Seq<char>
    decreases n,
{
    if n < 10 {
        seq![digit_char(n)]
    } else {
        digits_text(n / 10).push(digit_char(n % 10))
    }
}

/// The decimal text of `v`: a minus sign for a negative value, then its digits.
pub open spec fn decimal_text(v: int) -> Seq<char> {
    if v < 0 {
        seq!['-'] + digits_text((-v) as nat)
    } else {
        digits_text(v as nat)
    }
}

/// The value of a sequence of decimal digit characters.
pub open spec fn digits_value(s: Seq<char>) -> int
    decreases s.len(),
{
    if s.len() == 0 {
        0
    } else {
        digits_value(s.drop_last()) * 10 + (s.last() as u32 - 0x30)
    }
}

/// The value of a decimal text with an optional leading minus sign.
pub open spec fn signed_value(s: Seq<char>) -> int {
    if s.len() > 0 && s[0] == '-' {
        -digits_value(s.drop_first())
    } else {
        digits_value(s)
    }
}

/// True for a non-empty run of decimal digit characters.
pub open spec fn all_digits(s: Seq<char>) -> bool {
    s.len() > 0 && forall|i: int| 0 <= i < s.len() ==> '0' <= #[trigger] s[i] <= '9'
}

proof fn lemma_digits_round_trip(n: nat)
    ensures
        all_digits(digits_text(n)),
        digits_value(digits_text(n)) == n,
    decreases n,
{
    let d = digit_char(n % 10);
    assert(d as u32 == (n % 10) + 0x30);
    if n >= 10 {
        lemma_digits_round_trip(n / 10);
        let s = digits_text(n);
        assert(s.drop_last() =~= digits_text(n / 10));
        assert(s.last() == d);
        assert(digits_value(s) == digits_value(s.drop_last()) * 10 + (s.last() as u32 - 0x30));
        assert((n / 10) * 10 + n % 10 == n) by (nonlinear_arith);
    } else {
        let s = digits_text(n);
        assert(s.drop_last() =~= Seq::<char>::empty());
        assert(s.last() == d);
        assert(digits_value(s) == digits_value(s.drop_last()) * 10 + (s.last() as u32 - 0x30));
    }
}

/// Decimal text reads back as the value it was made from, with or without a sign,
/// and zero is written as the single digit `0`.
pub proof fn lemma_decimal_round_trip(v: int)
    ensures
        signed_value(decimal_text(v)) == v,
        v >= 0 ==> all_digits(decimal_text(v)),
        v < 0 ==> decimal_text(v)[0] == '-' && all_digits(decimal_text(v).drop_first()),
        v == 0 ==> decimal_text(v) == seq!['0'],
{
    if v < 0 {
        lemma_digits_round_trip((-v) as nat);
        let t = decimal_text(v);
        assert(t.drop_first() =~= digits_text((-v) as nat));
    } else {
        lemma_digits_round_trip(v as nat);
        assert(digits_text(v as nat)[0] != '-');
    }
}

/// Appends the decimal digits of `n`.
pub fn push_digits(out: &mut String, n: u64)
    ensures
        final(out)@ == old(out)@ + digits_text(n as nat),
    decreases n,
{
    if n >= 10 {
        push_digits(out, n / 10);
    }
    push_char(out, (((n % 10) as u8) + 0x30) as char);
    proof {
        if n >= 10 {
            assert(old(out)@ + digits_text(n as nat) =~= old(out)@ + digits_text((n / 10) as nat)
                + seq![digit_char((n % 10) as nat)]);
        } else {
            assert(old(out)@ + digits_text(n as nat) =~= old(out)@.push(digit_char(n as nat)));
        }
    }
}

/// Appends the decimal text of `v`.
pub fn push_i32(out: &mut String, v: i32)
    ensures
        final(out)@ == old(out)@ + decimal_text(v as int),
{
    if v < 0 {
        push_char(out, '-');
        push_digits(out, (-(v as i64)) as u64);
        proof {
            assert(old(out)@ + decimal_text(v as int) =~= old(out)@.push('-') + digits_text(
                (-v) as nat,
            ));
        }
    } else {
        push_digits(out, v as u64);
    }
}

/// The lowercase hexadecimal digit of a value below 16.
pub open spec fn hex_lower(n: u8) -> char {
    if n < 10 {
        (0x30 + n) as u8 as char
    } else {
        (0x57 + n) as u8 as char
    }
}

/// How a byte stands in a quoted string of the module text.
pub open spec fn wat_byte(b: u8) -> Seq<char> {
    if b == 0x22 {
        seq!['\\', '"']
    } else if b == 0x5c {
        seq!['\\', '\\']
    } else if b == 0x0a {
        seq!['\\', 'n']
    } else if b == 0x0d {
        seq!['\\', 'r']
    } else if b == 0x09 {
        seq!['\\', 't']
    } else if 0x20 <= b <= 0x7e {
        seq![b as char]
    } else {
        seq!['\\', hex_lower(b / 16), hex_lower(b % 16)]
    }
}

/// The bytes `s` escaped for a quoted string of the module text.
pub open spec fn wat_escaped(s: Seq<u8>) -> Seq<char>
    decreases s.len(),
{
    if s.len() == 0 {
        seq![]
    } else {
        wat_escaped(s.drop_last()) + wat_byte(s.last())
    }
}

/// Appends the bytes `s`, escaped for a quoted string of the module text.
pub fn wat_escape(out: &mut String, s: &[u8])
    ensures
        final(out)@ == old(out)@ + wat_escaped(s@),
{
    let mut i: usize = 0;
    while i < s.len()
        invariant
            0 <= i <= s@.len(),
            out@ == old(out)@ + wat_escaped(s@.subrange(0, i as int)),
        decreases s@.len() - i,
    {
        let ghost before = out@;
        let b = s[i];
        if b == 0x22 {
            push_char(out, '\\');
            push_char(out, '"');
        } else if b == 0x5c {
            push_char(out, '\\');
            push_char(out, '\\');
        } else if b == 0x0a {
            push_char(out, '\\');
            push_char(out, 'n');
        } else if b == 0x0d {
            push_char(out, '\\');
            push_char(out, 'r');
        } else if b == 0x09 {
            push_char(out, '\\');
            push_char(out, 't');
        } else if 0x20 <= b && b <= 0x7e {
            push_char(out, b as char);
        } else {
            push_char(out, '\\');
            push_char(out, hex_lower_digit(b / 16));
            push_char(out, hex_lower_digit(b % 16));
        }
        proof {
            let t = s@.subrange(0, i + 1);
            assert(t.drop_last() =~= s@.subrange(0, i as int));
            assert(out@ =~= before + wat_byte(b));
        }
        i = i + 1;
    }
    proof {
        assert(s@.subrange(0, s@.len() as int) =~= s@);
    }
}

/// The lowercase hexadecimal digit of `n`, which is below 16.
pub fn hex_lower_digit(n: u8) -> (r: char)
    requires
        n < 16,
    ensures
        r == hex_lower(n),
{
    if n < 10 {
        (0x30 + n) as char
    } else {
        (0x57 + n) as char
    }
}

} // verus!
