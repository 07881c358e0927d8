//! Little-endian byte arithmetic on integers of up to eight bytes.
use vstd::arithmetic::div_mod::{
    lemma_div_denominator, lemma_fundamental_div_mod, lemma_mod_breakdown, lemma_small_mod,
};
use vstd::prelude::*;

verus! {

/// `256` raised to the power `n`.
pub open spec fn pow256(n: nat) -> nat
    decreases n,
{
    if n == 0 {
        1
    } else {
        256 * pow256((n - 1) as nat)
    }
}

/// The `n` lowest bytes of `v`, least significant first.
pub open spec fn le_bytes(v: nat, n: nat) -> Seq<u8> {
    Seq::new(n, |i: int| ((v / pow256(i as nat)) % 256) as u8)
}

/// `n` zero bytes.
pub open spec fn zeros(n: nat) -> Seq<u8> {
    Seq::new(n, |i: int| 0u8)
}

/// The number whose bytes, least significant first, are `s`.
pub open spec fn le_value(s: Seq<u8>) -> nat
    decreases s.len(),
{
    if s.len() == 0 {
        0
    } else {
        s[0] as nat + 256 * le_value(s.drop_first())
    }
}

/// The unsigned number with the same `n`-byte two's-complement pattern as `v`.
pub open spec fn to_unsigned(v: int, n: nat) -> nat {
    if v >= 0 {
        v as nat
    } else {
        (v + pow256(n)) as nat
    }
}

/// The signed number whose `n`-byte two's-complement pattern is `u`.
pub open spec fn to_signed(u: nat, n: nat) -> int {
    if u < pow256(n) / 2 {
        u as int
    } else {
        u - pow256(n)
    }
}

/// Powers of 256 are positive.
pub proof fn lemma_pow256_positive(n: nat)
    ensures
        pow256(n) > 0,
    decreases n,
{
    if n > 0 {
        lemma_pow256_positive((n - 1) as nat);
    }
}

/// The powers of 256 that the integer widths use.
pub proof fn lemma_pow256_values()
    ensures
        pow256(1) == 0x100,
        pow256(2) == 0x1_0000,
        pow256(4) == 0x1_0000_0000,
        pow256(7) == 0x100_0000_0000_0000,
        pow256(8) == 0x1_0000_0000_0000_0000,
{
    reveal_with_fuel(pow256, 9);
}

/// Dropping the lowest byte of `v` shifts its byte sequence by one.
proof fn lemma_le_bytes_shift(v: nat, n: nat)
    requires
        n > 0,
    ensures
        le_bytes(v, n) == seq![(v % 256) as u8] + le_bytes(v / 256, (n - 1) as nat),
{
    let rest = le_bytes(v / 256, (n - 1) as nat);
    assert(pow256(0) == 1 && v / 1 == v);
    assert(le_bytes(v, n)[0] == (v % 256) as u8);
    assert forall|i: int| 0 < i < n implies le_bytes(v, n)[i] == rest[i - 1] by {
        assert(pow256(i as nat) == 256 * pow256((i - 1) as nat));
        lemma_pow256_positive((i - 1) as nat);
        lemma_div_denominator(v as int, 256, pow256((i - 1) as nat) as int);
    }
    assert(le_bytes(v, n) =~= seq![(v % 256) as u8] + rest);
}

/// Reading back the `n` lowest bytes of `v` gives `v` modulo `256^n`.
pub proof fn lemma_le_value_of_bytes(v: nat, n: nat)
    ensures
        le_value(le_bytes(v, n)) == v % pow256(n),
    decreases n,
{
    if n == 0 {
        assert(le_bytes(v, n) =~= Seq::<u8>::empty());
    } else {
        lemma_le_bytes_shift(v, n);
        let s = le_bytes(v, n);
        assert(s.drop_first() =~= le_bytes(v / 256, (n - 1) as nat));
        lemma_le_value_of_bytes(v / 256, (n - 1) as nat);
        lemma_pow256_positive((n - 1) as nat);
        lemma_mod_breakdown(v as int, 256, pow256((n - 1) as nat) as int);
    }
}

/// A value read from `s` fits in `s.len()` bytes.
pub proof fn lemma_le_value_bound(s: Seq<u8>)
    ensures
        le_value(s) < pow256(s.len()),
    decreases s.len(),
{
    if s.len() > 0 {
        lemma_le_value_bound(s.drop_first());
        let n = (s.len() - 1) as nat;
        assert(le_value(s.drop_first()) + 1 <= pow256(n));
        assert(256 * (le_value(s.drop_first()) + 1) <= 256 * pow256(n)) by (nonlinear_arith)
            requires
                le_value(s.drop_first()) + 1 <= pow256(n),
        ;
    }
}

/// Writing out the value read from `s` gives `s` back.
pub proof fn lemma_le_bytes_of_value(s: Seq<u8>)
    ensures
        le_bytes(le_value(s), s.len()) == s,
    decreases s.len(),
{
    if s.len() == 0 {
        assert(le_bytes(le_value(s), 0) =~= s);
    } else {
        let v = le_value(s);
        let rest = le_value(s.drop_first());
        lemma_le_bytes_shift(v, s.len());
        assert(v % 256 == s[0] as nat && v / 256 == rest) by {
            lemma_fundamental_div_mod(v as int, 256);
        }
        lemma_le_bytes_of_value(s.drop_first());
        assert(le_bytes(v, s.len()) =~= s);
    }
}

/// Two's-complement conversion is undone by its inverse.
pub proof fn lemma_signed_round_trip(v: int, n: nat)
    requires
        n > 0,
        -(pow256(n) / 2) <= v < pow256(n) / 2,
    ensures
        to_unsigned(v, n) < pow256(n),
        to_signed(to_unsigned(v, n), n) == v,
{
    lemma_pow256_positive((n - 1) as nat);
}

/// Distinct numbers below `256^n` have distinct `n`-byte sequences.
pub proof fn lemma_le_bytes_injective(a: nat, b: nat, n: nat)
    requires
        a < pow256(n),
        b < pow256(n),
        le_bytes(a, n) == le_bytes(b, n),
    ensures
        a == b,
{
    lemma_le_value_of_bytes(a, n);
    lemma_le_value_of_bytes(b, n);
    lemma_small_mod(a, pow256(n));
    lemma_small_mod(b, pow256(n));
}

/// Every byte sequence is the sequence of the number read from it.
pub proof fn lemma_le_value_exact(s: Seq<u8>)
    ensures
        le_value(s) < pow256(s.len()),
        le_bytes(le_value(s), s.len()) == s,
{
    lemma_le_value_bound(s);
    lemma_le_bytes_of_value(s);
}

/// Two's-complement patterns of distinct numbers differ.
pub proof fn lemma_signed_injective(a: int, b: int, n: nat)
    requires
        n > 0,
        -(pow256(n) / 2) <= a < pow256(n) / 2,
        -(pow256(n) / 2) <= b < pow256(n) / 2,
        le_bytes(to_unsigned(a, n), n) == le_bytes(to_unsigned(b, n), n),
    ensures
        a == b,
{
    lemma_signed_round_trip(a, n);
    lemma_signed_round_trip(b, n);
    lemma_le_bytes_injective(to_unsigned(a, n), to_unsigned(b, n), n);
}

/// Every `n`-byte pattern is the pattern of the signed number read from it.
pub proof fn lemma_unsigned_round_trip(u: nat, n: nat)
    requires
        n > 0,
        u < pow256(n),
    ensures
        -(pow256(n) / 2) <= to_signed(u, n) < pow256(n) / 2,
        to_unsigned(to_signed(u, n), n) == u,
{
    lemma_pow256_positive((n - 1) as nat);
}

/// Zero is stored as zero bytes.
pub proof fn lemma_le_bytes_zero(n: nat)
    ensures
        le_bytes(0, n) == zeros(n),
{
    assert forall|i: int| 0 <= i < n implies le_bytes(0, n)[i] == 0u8 by {
        lemma_pow256_positive(i as nat);
    }
    assert(le_bytes(0, n) =~= zeros(n));
}

/// Appends the `n` lowest bytes of `v` to `out`, least significant first.
pub fn push_le(out: &mut Vec<u8>, v: u64, n: usize)
    requires
        n <= 8,
    ensures
        final(out)@ == old(out)@ + le_bytes(v as nat, n as nat),
{
    let ghost start = old(out)@;
    assert(pow256(0) == 1);
    assert(le_bytes(v as nat, 0) =~= Seq::<u8>::empty());
    let mut rest: u64 = v;
    let mut i: usize = 0;
    while i < n
        invariant
            i <= n,
            rest as nat == v as nat / pow256(i as nat),
            out@ == start + le_bytes(v as nat, i as nat),
        decreases n - i,
    {
        proof {
            lemma_pow256_positive(i as nat);
            lemma_div_denominator(v as int, pow256(i as nat) as int, 256);
        }
        out.push((rest % 256) as u8);
        rest = rest / 256;
        i = i + 1;
        assert(out@ =~= start + le_bytes(v as nat, i as nat));
    }
}

/// Reads the number stored least significant byte first in `bytes[start .. start + n]`.
pub fn read_le(bytes: &[u8], start: usize, n: usize) -> (r: u64)
    requires
        n <= 8,
        start + n <= bytes@.len(),
    ensures
        r as nat == le_value(bytes@.subrange(start as int, start + n)),
{
    let ghost s = bytes@.subrange(start as int, start + n);
    let len = bytes.len();
    let mut acc: u64 = 0;
    let mut i: usize = n;
    while i > 0
        invariant
            i <= n,
            n <= 8,
            start + n <= bytes@.len(),
            bytes@.len() == len,
            s == bytes@.subrange(start as int, start + n),
            acc as nat == le_value(s.subrange(i as int, n as int)),
        decreases i,
    {
        i = i - 1;
        let ghost tail = s.subrange(i + 1, n as int);
        proof {
            assert(s.subrange(i as int, n as int).drop_first() =~= tail);
            lemma_le_value_bound(tail);
            lemma_pow256_values();
            lemma_pow256_monotone(tail.len(), 7);
        }
        acc = bytes[start + i] as u64 + 256 * acc;
    }
    assert(s.subrange(0, n as int) =~= s);
    acc
}

/// Powers of 256 grow with the exponent.
proof fn lemma_pow256_monotone(m: nat, n: nat)
    requires
        m <= n,
    ensures
        pow256(m) <= pow256(n),
    decreases n,
{
    if m < n {
        lemma_pow256_monotone(m, (n - 1) as nat);
        lemma_pow256_positive((n - 1) as nat);
    }
}

} // verus!
