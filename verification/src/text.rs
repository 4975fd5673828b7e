//! Rendering numbers and bytes as text: decimal numbers, and fixed-width
//! lowercase hexadecimal for ids.
use vstd::prelude::*;
use vstd::string::StringExecFns;

verus! {

/// The character of the digit `d` (below sixteen): `0`–`9`, then `a`–`f`.
pub open spec fn digit_char(d: nat) -> char {
    if d == 0 {
        '0'
    } else if d == 1 {
        '1'
    } else if d == 2 {
        '2'
    } else if d == 3 {
        '3'
    } else if d == 4 {
        '4'
    } else if d == 5 {
        '5'
    } else if d == 6 {
        '6'
    } else if d == 7 {
        '7'
    } else if d == 8 {
        '8'
    } else if d == 9 {
        '9'
    } else if d == 10 {
        'a'
    } else if d == 11 {
        'b'
    } else if d == 12 {
        'c'
    } else if d == 13 {
        'd'
    } else if d == 14 {
        'e'
    } else {
        'f'
    }
}

/// `n` in decimal, without leading zeros.
pub open spec fn dec_chars(n: nat) -> Seq<char>
    decreases n,
{
    if n < 10 {
        seq![digit_char(n)]
    } else {
        dec_chars(n / 10).push(digit_char(n % 10))
    }
}

/// The `n` low hexadecimal digits of `x`, most significant first.
pub open spec fn hex_word(x: nat, n: nat) -> Seq<char>
    decreases n,
{
    if n == 0 {
        Seq::empty()
    } else {
        hex_word(x / 16, (n - 1) as nat).push(digit_char(x % 16))
    }
}

/// Each byte of `s` as two hexadecimal digits.
pub open spec fn hex_bytes(s: Seq<u8>) -> Seq<char>
    decreases s.len(),
{
    if s.len() == 0 {
        Seq::empty()
    } else {
        hex_bytes(s.drop_last()) + hex_word(s.last() as nat, 2)
    }
}

/// The one-character text of the digit `d`.
fn digit_str(d: u64) -> (r: &'static str)
    requires
        d < 16,
    ensures
        r@ == seq![digit_char(d as nat)],
{
    proof {
        reveal_strlit("0");
        reveal_strlit("1");
        reveal_strlit("2");
        reveal_strlit("3");
        reveal_strlit("4");
        reveal_strlit("5");
        reveal_strlit("6");
        reveal_strlit("7");
        reveal_strlit("8");
        reveal_strlit("9");
        reveal_strlit("a");
        reveal_strlit("b");
        reveal_strlit("c");
        reveal_strlit("d");
        reveal_strlit("e");
        reveal_strlit("f");
    }
    match d {
        0 => "0",
        1 => "1",
        2 => "2",
        3 => "3",
        4 => "4",
        5 => "5",
        6 => "6",
        7 => "7",
        8 => "8",
        9 => "9",
        10 => "a",
        11 => "b",
        12 => "c",
        13 => "d",
        14 => "e",
        _ => "f",
    }
}

/// Append `n` in decimal.
pub fn push_dec(out: &mut String, n: u128)
    ensures
        final(out)@ == old(out)@ + dec_chars(n as nat),
    decreases n,
{
    if n >= 10 {
        push_dec(out, n / 10);
    }
    out.append(digit_str((n % 10) as u64));
    proof {
        if n >= 10 {
            assert(final(out)@ =~= old(out)@ + dec_chars(n as nat));
        } else {
            assert(final(out)@ =~= old(out)@ + dec_chars(n as nat));
        }
    }
}

/// Append the `n` low hexadecimal digits of `x`, most significant first.
pub fn push_hex(out: &mut String, x: u64, n: usize)
    ensures
        final(out)@ == old(out)@ + hex_word(x as nat, n as nat),
    decreases n,
{
    if n > 0 {
        push_hex(out, x / 16, n - 1);
        out.append(digit_str(x % 16));
        proof {
            assert(final(out)@ =~= old(out)@ + hex_word(x as nat, n as nat));
        }
    } else {
        proof {
            assert(final(out)@ =~= old(out)@ + hex_word(x as nat, n as nat));
        }
    }
}

/// Append each byte of `s` as two hexadecimal digits.
pub fn push_hex_bytes(out: &mut String, s: &[u8])
    ensures
        final(out)@ == old(out)@ + hex_bytes(s@),
{
    let ghost start = old(out)@;
    let mut i: usize = 0;
    proof {
        assert(s@.subrange(0, 0) =~= Seq::<u8>::empty());
        assert(out@ =~= start + hex_bytes(s@.subrange(0, 0)));
    }
    while i < s.len()
        invariant
            i <= s@.len(),
            out@ == start + hex_bytes(s@.subrange(0, i as int)),
        decreases s@.len() - i,
    {
        push_hex(out, s[i] as u64, 2);
        proof {
            let t = s@.subrange(0, i + 1);
            assert(t.drop_last() =~= s@.subrange(0, i as int));
            assert(out@ =~= start + hex_bytes(t));
        }
        i = i + 1;
    }
    proof {
        assert(s@.subrange(0, s@.len() as int) =~= s@);
    }
}

} // verus!
