//! Little-endian integer encodings used by the canonical block and
//! transaction formats.
use vstd::prelude::*;

verus! {

/// `256^n`.
pub open spec fn pow256(n: nat) -> nat
    decreases n,
{
    if n == 0 { 1 } else { 256 * pow256((n - 1) as nat) }
}

/// The `n` low bytes of `x`, least significant first.
pub open spec fn le_bytes(x: nat, n: nat) -> Seq<u8>
    decreases n,
{
    if n == 0 {
        Seq::empty()
    } else {
        le_bytes(x, (n - 1) as nat).push(((x / pow256((n - 1) as nat)) % 256) as u8)
    }
}

/// The number whose little-endian bytes are `s`.
pub open spec fn le_value(s: Seq<u8>) -> nat
    decreases s.len(),
{
    if s.len() == 0 {
        0
    } else {
        le_value(s.drop_last()) + (s.last() as nat) * pow256((s.len() - 1) as nat)
    }
}

pub proof fn lemma_pow256_pos(n: nat)
    ensures
        pow256(n) >= 1,
    decreases n,
{
    if n > 0 {
        lemma_pow256_pos((n - 1) as nat);
    }
}

pub proof fn lemma_pow256_mono(a: nat, b: nat)
    requires
        a <= b,
    ensures
        pow256(a) <= pow256(b),
    decreases b,
{
    if a < b {
        lemma_pow256_mono(a, (b - 1) as nat);
        lemma_pow256_pos((b - 1) as nat);
    }
}

pub proof fn lemma_le_bytes_len(x: nat, n: nat)
    ensures
        le_bytes(x, n).len() == n,
    decreases n,
{
    if n > 0 {
        lemma_le_bytes_len(x, (n - 1) as nat);
    }
}

/// Decoding the encoding gives the value back modulo `256^n`.
pub proof fn lemma_le_roundtrip(x: nat, n: nat)
    ensures
        le_value(le_bytes(x, n)) == x % pow256(n),
    decreases n,
{
    lemma_le_bytes_len(x, n);
    if n == 0 {
    } else {
        let m = (n - 1) as nat;
        lemma_le_roundtrip(x, m);
        lemma_le_bytes_len(x, m);
        let s = le_bytes(x, n);
        assert(s.drop_last() =~= le_bytes(x, m));
        lemma_pow256_pos(m);
        let c = pow256(m);
        assert(pow256(n) == c * 256);
        vstd::arithmetic::div_mod::lemma_mod_breakdown(x as int, c as int, 256);
        vstd::arithmetic::mul::lemma_mul_is_commutative(c as int, ((x / c) % 256) as int);
    }
}

/// Values below `256^n` round-trip exactly.
pub proof fn lemma_le_roundtrip_exact(x: nat, n: nat)
    requires
        x < pow256(n),
    ensures
        le_value(le_bytes(x, n)) == x,
{
    lemma_le_roundtrip(x, n);
    vstd::arithmetic::div_mod::lemma_small_mod(x, pow256(n));
}

/// The value of `n` bytes is below `256^n`.
pub proof fn lemma_le_value_bound(s: Seq<u8>)
    ensures
        le_value(s) < pow256(s.len()),
    decreases s.len(),
{
    if s.len() > 0 {
        lemma_le_value_bound(s.drop_last());
        let m = (s.len() - 1) as nat;
        let c = pow256(m);
        assert(le_value(s.drop_last()) < c);
        assert((s.last() as nat) <= 255);
        vstd::arithmetic::mul::lemma_mul_inequality(s.last() as int, 255, c as int);
        vstd::arithmetic::mul::lemma_mul_is_commutative(s.last() as int, c as int);
        vstd::arithmetic::mul::lemma_mul_is_commutative(255, c as int);
    }
}

/// `256^(a+b) == 256^a * 256^b`.
pub proof fn lemma_pow256_add(a: nat, b: nat)
    ensures
        pow256(a + b) == pow256(a) * pow256(b),
    decreases b,
{
    if b > 0 {
        let b1 = (b - 1) as nat;
        lemma_pow256_add(a, b1);
        let x = pow256(a) as int;
        let y = pow256(b1) as int;
        assert((a + b1) as nat == (a + b - 1) as nat);
        assert(pow256(a + b) == 256 * pow256(a + b1));
        assert(pow256(b) == 256 * y);
        assert(256 * (x * y) == x * (256 * y)) by (nonlinear_arith);
    } else {
        assert(pow256(0) == 1);
        assert(a + b == a);
    }
}

/// Byte `j` of the encoding is digit `j` of `x` in base 256.
pub proof fn lemma_le_bytes_index(x: nat, n: nat, j: int)
    requires
        0 <= j < n,
    ensures
        le_bytes(x, n)[j] == ((x / pow256(j as nat)) % 256) as u8,
    decreases n,
{
    lemma_le_bytes_len(x, (n - 1) as nat);
    if j < n - 1 {
        lemma_le_bytes_index(x, (n - 1) as nat, j);
    }
}

/// Digit `j` of the value of `s` in base 256 is `s[j]`.
pub proof fn lemma_le_value_digit(s: Seq<u8>, j: int)
    requires
        0 <= j < s.len(),
    ensures
        (le_value(s) / pow256(j as nat)) % 256 == s[j] as nat,
    decreases s.len(),
{
    let n = s.len();
    let m = (n - 1) as nat;
    let w = s.drop_last();
    let v0 = le_value(w);
    let l = s.last() as nat;
    let c = pow256(m);
    lemma_le_value_bound(w);
    lemma_pow256_pos(m);
    assert(le_value(s) == v0 + l * c);
    if j == n - 1 {
        vstd::arithmetic::div_mod::lemma_fundamental_div_mod_converse((v0 + l * c) as int, c as int, l as int, v0 as int);
        vstd::arithmetic::div_mod::lemma_small_mod(l, 256);
    } else {
        lemma_le_value_digit(w, j);
        assert(w[j] == s[j]);
        let d = pow256(j as nat);
        let e = pow256((m - j - 1) as nat);
        lemma_pow256_pos(j as nat);
        lemma_pow256_add(j as nat, (m - j) as nat);
        assert(pow256((m - j) as nat) == 256 * e);
        let q = v0 / d;
        let r = v0 % d;
        vstd::arithmetic::div_mod::lemma_fundamental_div_mod(v0 as int, d as int);
        assert(0 <= r < d) by {
            vstd::arithmetic::div_mod::lemma_mod_bound(v0 as int, d as int);
        }
        // v = (q + l * 256 * e) * d + r
        assert(l * c == (l * 256 * e) * d) by {
            assert(c == d * (256 * e));
            vstd::arithmetic::mul::lemma_mul_is_associative(l as int, 256, e as int);
            vstd::arithmetic::mul::lemma_mul_is_associative(l as int, d as int, (256 * e) as int);
            vstd::arithmetic::mul::lemma_mul_is_commutative(d as int, (l * (256 * e)) as int);
            vstd::arithmetic::mul::lemma_mul_is_associative(l as int, (256 * e) as int, d as int);
            vstd::arithmetic::mul::lemma_mul_is_commutative(d as int, (256 * e) as int);
        }
        assert(v0 == q * d + r) by {
            vstd::arithmetic::mul::lemma_mul_is_commutative(d as int, q as int);
        }
        assert(v0 + l * c == (q + l * 256 * e) * d + r) by {
            vstd::arithmetic::mul::lemma_mul_is_distributive_add_other_way(d as int, q as int, (l * 256 * e) as int);
        }
        vstd::arithmetic::div_mod::lemma_fundamental_div_mod_converse((v0 + l * c) as int, d as int, (q + l * 256 * e) as int, r as int);
        assert((q + l * 256 * e) == 256 * (l * e) + q) by {
            vstd::arithmetic::mul::lemma_mul_is_associative(l as int, 256, e as int);
            vstd::arithmetic::mul::lemma_mul_is_commutative(l as int, 256);
            vstd::arithmetic::mul::lemma_mul_is_associative(256, l as int, e as int);
        }
        vstd::arithmetic::div_mod::lemma_mod_multiples_vanish((l * e) as int, q as int, 256);
    }
}

/// Encoding the value of `s` in `s.len()` bytes gives `s` back.
pub proof fn lemma_le_bytes_value(s: Seq<u8>)
    ensures
        le_bytes(le_value(s), s.len()) == s,
{
    lemma_le_bytes_len(le_value(s), s.len());
    assert forall|j: int| 0 <= j < s.len() implies #[trigger] le_bytes(le_value(s), s.len())[j] == s[j] by {
        lemma_le_bytes_index(le_value(s), s.len(), j);
        lemma_le_value_digit(s, j);
    }
    assert(le_bytes(le_value(s), s.len()) =~= s);
}

/// Equal encodings of values that fit come from equal values.
pub proof fn lemma_le_bytes_inj(x: nat, y: nat, n: nat)
    requires
        x < pow256(n),
        y < pow256(n),
        le_bytes(x, n) == le_bytes(y, n),
    ensures
        x == y,
{
    lemma_le_roundtrip_exact(x, n);
    lemma_le_roundtrip_exact(y, n);
}

pub proof fn lemma_pow256_values()
    ensures
        pow256(2) == 0x1_0000,
        pow256(4) == 0x1_0000_0000,
        pow256(8) == 0x1_0000_0000_0000_0000,
        pow256(16) == 0x1_0000_0000_0000_0000_0000_0000_0000_0000,
{
    reveal_with_fuel(pow256, 17);
}

/// Append the `n` low little-endian bytes of `x` to `out`.
pub fn push_le(out: &mut Vec<u8>, x: u128, n: usize)
    requires
        n <= 16,
    ensures
        final(out)@ == old(out)@ + le_bytes(x as nat, n as nat),
{
    let mut v: u128 = x;
    let mut i: usize = 0;
    let ghost start = old(out)@;
    proof {
        assert(pow256(0) == 1);
        assert(out@ =~= start + le_bytes(x as nat, 0));
    }
    while i < n
        invariant
            i <= n,
            n <= 16,
            out@ == start + le_bytes(x as nat, i as nat),
            v as nat == (x as nat) / pow256(i as nat),
        decreases n - i,
    {
        let b: u8 = (v % 256) as u8;
        proof {
            lemma_pow256_pos(i as nat);
            vstd::arithmetic::div_mod::lemma_div_denominator(x as int, pow256(i as nat) as int, 256);
            assert(pow256((i + 1) as nat) == 256 * pow256(i as nat));
            vstd::arithmetic::mul::lemma_mul_is_commutative(256, pow256(i as nat) as int);
        }
        out.push(b);
        v = v / 256;
        i = i + 1;
        proof {
            assert(le_bytes(x as nat, i as nat) == le_bytes(x as nat, (i - 1) as nat).push(b));
        }
    }
}

/// The little-endian value of `bytes[pos..pos + n]`.
pub fn read_le(bytes: &[u8], pos: usize, n: usize) -> (r: u128)
    requires
        n <= 16,
        pos + n <= bytes@.len(),
    ensures
        r as nat == le_value(bytes@.subrange(pos as int, pos + n)),
{
    let mut acc: u128 = 0;
    let mut i: usize = n;
    let len = bytes.len();
    proof {
        lemma_pow256_pos(0);
    }
    while i > 0
        invariant
            len == bytes@.len(),
            i <= n,
            n <= 16,
            pos + n <= bytes@.len(),
            // `acc` holds the value of bytes[pos + i .. pos + n]
            acc as nat * pow256(i as nat) + le_value(bytes@.subrange(pos as int, pos + i))
                == le_value(bytes@.subrange(pos as int, pos + n)),
            acc < pow256((n - i) as nat),
        decreases i,
    {
        let j: usize = pos + i - 1;
        let b = bytes[j];
        let ghost prefix = bytes@.subrange(pos as int, pos + i);
        proof {
            assert(prefix.drop_last() =~= bytes@.subrange(pos as int, pos + i - 1));
            assert(prefix.last() == b);
            let c = pow256((i - 1) as nat);
            assert(pow256(i as nat) == 256 * c);
            assert(le_value(prefix) == le_value(prefix.drop_last()) + (b as nat) * c);
            let a = acc as int;
            let bb = b as int;
            let ci = c as int;
            assert((a * 256 + bb) * ci == a * (256 * ci) + bb * ci) by (nonlinear_arith);
            assert(pow256((n - i + 1) as nat) == 256 * pow256((n - i) as nat));
            lemma_pow256_mono((n - i + 1) as nat, 16);
            lemma_pow256_values();
        }
        acc = acc * 256 + b as u128;
        i = i - 1;
    }
    proof {
        assert(bytes@.subrange(pos as int, pos as int) =~= Seq::<u8>::empty());
        assert(pow256(0) == 1);
        assert(le_value(Seq::<u8>::empty()) == 0);
        assert(i == 0);
        assert(acc as nat * pow256(0) == acc as nat);
    }
    acc
}

} // verus!
