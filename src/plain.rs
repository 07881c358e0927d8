//! Plain values: values whose bytes alone make up the whole value.
use crate::le::{
    lemma_le_bytes_injective, lemma_le_bytes_zero, lemma_le_value_exact, lemma_pow256_values,
    lemma_signed_injective, lemma_unsigned_round_trip, le_bytes, push_le, read_le, to_unsigned,
    zeros,
};
use crate::sequence::{
    lemma_chunk_bounds, lemma_chunk_offset, lemma_seq_repr_chunk, lemma_seq_repr_push, seq_repr,
};
use vstd::arithmetic::div_mod::{lemma_fundamental_div_mod, lemma_mod_bound};
use vstd::prelude::*;

verus! {

/// A type whose values are fully described by a fixed number of bytes, own
/// nothing outside themselves, and can be duplicated by copying those bytes.
///
/// Every sequence of `width()` bytes is the representation of exactly one value.
/// The width is the size of the type in memory. Integers are represented least
/// significant byte first, which is their layout in memory on little-endian machines;
/// arrays by the representations of their items, one after another.
pub trait Plain: Sized {
    /// Number of bytes in the representation of a value.
    spec fn width() -> nat;

    /// The bytes that represent `self`; integers store their least significant byte first.
    spec fn repr(self) -> Seq<u8>;

    proof fn lemma_repr_len(self)
        ensures
            self.repr().len() == Self::width(),
    ;

    proof fn lemma_repr_injective(self, other: Self)
        requires
            self.repr() == other.repr(),
        ensures
            self == other,
    ;

    /// The width, provided that it does not exceed `limit`.
    fn width_within(limit: usize) -> (r: Option<usize>)
        ensures
            r == (if Self::width() <= limit {
                Some(Self::width() as usize)
            } else {
                None::<usize>
            }),
    ;

    /// The value whose representation is all zero bytes.
    fn zeroed() -> (r: Self)
        ensures
            r.repr() == zeros(Self::width()),
    ;

    /// Appends the representation of `self` to `out`.
    fn append_repr(&self, out: &mut Vec<u8>)
        ensures
            final(out)@ == old(out)@ + self.repr(),
    ;

    /// Reads the value represented by the `width()` bytes of `bytes` at `start`.
    fn read_repr(bytes: &[u8], start: usize) -> (r: Self)
        requires
            start + Self::width() <= bytes@.len(),
        ensures
            r.repr() == bytes@.subrange(start as int, start + Self::width()),
    ;
}

impl Plain for () {
    open spec fn width() -> nat {
        0
    }

    open spec fn repr(self) -> Seq<u8> {
        Seq::empty()
    }

    proof fn lemma_repr_len(self) {
    }

    proof fn lemma_repr_injective(self, other: Self) {
    }

    fn width_within(limit: usize) -> (r: Option<usize>) {
        Some(0)
    }

    fn zeroed() -> (r: Self) {
        assert(zeros(0) =~= Seq::<u8>::empty());
    }

    fn append_repr(&self, out: &mut Vec<u8>) {
        assert(out@ + Seq::<u8>::empty() =~= out@);
    }

    fn read_repr(bytes: &[u8], start: usize) -> (r: Self) {
        assert(bytes@.subrange(start as int, start as int) =~= Seq::<u8>::empty());
    }
}

impl Plain for u8 {
    open spec fn width() -> nat {
        1
    }

    open spec fn repr(self) -> Seq<u8> {
        le_bytes(self as nat, 1)
    }

    proof fn lemma_repr_len(self) {
    }

    proof fn lemma_repr_injective(self, other: Self) {
        lemma_pow256_values();
        lemma_le_bytes_injective(self as nat, other as nat, 1);
    }

    fn width_within(limit: usize) -> (r: Option<usize>) {
        if limit >= 1 {
            Some(1)
        } else {
            None
        }
    }

    fn zeroed() -> (r: Self) {
        proof {
            lemma_le_bytes_zero(1);
        }
        0
    }

    fn append_repr(&self, out: &mut Vec<u8>) {
        push_le(out, *self as u64, 1);
    }

    fn read_repr(bytes: &[u8], start: usize) -> (r: Self) {
        let v = read_le(bytes, start, 1);
        proof {
            lemma_pow256_values();
            lemma_le_value_exact(bytes@.subrange(start as int, start + 1));
        }
        v as u8
    }
}

impl Plain for u16 {
    open spec fn width() -> nat {
        2
    }

    open spec fn repr(self) -> Seq<u8> {
        le_bytes(self as nat, 2)
    }

    proof fn lemma_repr_len(self) {
    }

    proof fn lemma_repr_injective(self, other: Self) {
        lemma_pow256_values();
        lemma_le_bytes_injective(self as nat, other as nat, 2);
    }

    fn width_within(limit: usize) -> (r: Option<usize>) {
        if limit >= 2 {
            Some(2)
        } else {
            None
        }
    }

    fn zeroed() -> (r: Self) {
        proof {
            lemma_le_bytes_zero(2);
        }
        0
    }

    fn append_repr(&self, out: &mut Vec<u8>) {
        push_le(out, *self as u64, 2);
    }

    fn read_repr(bytes: &[u8], start: usize) -> (r: Self) {
        let v = read_le(bytes, start, 2);
        proof {
            lemma_pow256_values();
            lemma_le_value_exact(bytes@.subrange(start as int, start + 2));
        }
        v as u16
    }
}

impl Plain for u32 {
    open spec fn width() -> nat {
        4
    }

    open spec fn repr(self) -> Seq<u8> {
        le_bytes(self as nat, 4)
    }

    proof fn lemma_repr_len(self) {
    }

    proof fn lemma_repr_injective(self, other: Self) {
        lemma_pow256_values();
        lemma_le_bytes_injective(self as nat, other as nat, 4);
    }

    fn width_within(limit: usize) -> (r: Option<usize>) {
        if limit >= 4 {
            Some(4)
        } else {
            None
        }
    }

    fn zeroed() -> (r: Self) {
        proof {
            lemma_le_bytes_zero(4);
        }
        0
    }

    fn append_repr(&self, out: &mut Vec<u8>) {
        push_le(out, *self as u64, 4);
    }

    fn read_repr(bytes: &[u8], start: usize) -> (r: Self) {
        let v = read_le(bytes, start, 4);
        proof {
            lemma_pow256_values();
            lemma_le_value_exact(bytes@.subrange(start as int, start + 4));
        }
        v as u32
    }
}

impl Plain for u64 {
    open spec fn width() -> nat {
        8
    }

    open spec fn repr(self) -> Seq<u8> {
        le_bytes(self as nat, 8)
    }

    proof fn lemma_repr_len(self) {
    }

    proof fn lemma_repr_injective(self, other: Self) {
        lemma_pow256_values();
        lemma_le_bytes_injective(self as nat, other as nat, 8);
    }

    fn width_within(limit: usize) -> (r: Option<usize>) {
        if limit >= 8 {
            Some(8)
        } else {
            None
        }
    }

    fn zeroed() -> (r: Self) {
        proof {
            lemma_le_bytes_zero(8);
        }
        0
    }

    fn append_repr(&self, out: &mut Vec<u8>) {
        push_le(out, *self, 8);
    }

    fn read_repr(bytes: &[u8], start: usize) -> (r: Self) {
        let v = read_le(bytes, start, 8);
        proof {
            lemma_le_value_exact(bytes@.subrange(start as int, start + 8));
        }
        v
    }
}

impl Plain for i8 {
    open spec fn width() -> nat {
        1
    }

    open spec fn repr(self) -> Seq<u8> {
        le_bytes(to_unsigned(self as int, 1), 1)
    }

    proof fn lemma_repr_len(self) {
    }

    proof fn lemma_repr_injective(self, other: Self) {
        lemma_pow256_values();
        lemma_signed_injective(self as int, other as int, 1);
    }

    fn width_within(limit: usize) -> (r: Option<usize>) {
        if limit >= 1 {
            Some(1)
        } else {
            None
        }
    }

    fn zeroed() -> (r: Self) {
        proof {
            lemma_le_bytes_zero(1);
        }
        0
    }

    fn append_repr(&self, out: &mut Vec<u8>) {
        proof {
            lemma_pow256_values();
        }
        let u: u64 = if *self >= 0 { *self as u64 } else { (*self as i64 + 0x100) as u64 };
        push_le(out, u, 1);
    }

    fn read_repr(bytes: &[u8], start: usize) -> (r: Self) {
        let u = read_le(bytes, start, 1);
        proof {
            lemma_pow256_values();
            lemma_le_value_exact(bytes@.subrange(start as int, start + 1));
            lemma_unsigned_round_trip(u as nat, 1);
        }
        if u < 0x80 { u as i8 } else { (u as i64 - 0x100) as i8 }
    }
}

impl Plain for i16 {
    open spec fn width() -> nat {
        2
    }

    open spec fn repr(self) -> Seq<u8> {
        le_bytes(to_unsigned(self as int, 2), 2)
    }

    proof fn lemma_repr_len(self) {
    }

    proof fn lemma_repr_injective(self, other: Self) {
        lemma_pow256_values();
        lemma_signed_injective(self as int, other as int, 2);
    }

    fn width_within(limit: usize) -> (r: Option<usize>) {
        if limit >= 2 {
            Some(2)
        } else {
            None
        }
    }

    fn zeroed() -> (r: Self) {
        proof {
            lemma_le_bytes_zero(2);
        }
        0
    }

    fn append_repr(&self, out: &mut Vec<u8>) {
        proof {
            lemma_pow256_values();
        }
        let u: u64 = if *self >= 0 { *self as u64 } else { (*self as i64 + 0x1_0000) as u64 };
        push_le(out, u, 2);
    }

    fn read_repr(bytes: &[u8], start: usize) -> (r: Self) {
        let u = read_le(bytes, start, 2);
        proof {
            lemma_pow256_values();
            lemma_le_value_exact(bytes@.subrange(start as int, start + 2));
            lemma_unsigned_round_trip(u as nat, 2);
        }
        if u < 0x8000 { u as i16 } else { (u as i64 - 0x1_0000) as i16 }
    }
}

impl Plain for i32 {
    open spec fn width() -> nat {
        4
    }

    open spec fn repr(self) -> Seq<u8> {
        le_bytes(to_unsigned(self as int, 4), 4)
    }

    proof fn lemma_repr_len(self) {
    }

    proof fn lemma_repr_injective(self, other: Self) {
        lemma_pow256_values();
        lemma_signed_injective(self as int, other as int, 4);
    }

    fn width_within(limit: usize) -> (r: Option<usize>) {
        if limit >= 4 {
            Some(4)
        } else {
            None
        }
    }

    fn zeroed() -> (r: Self) {
        proof {
            lemma_le_bytes_zero(4);
        }
        0
    }

    fn append_repr(&self, out: &mut Vec<u8>) {
        proof {
            lemma_pow256_values();
        }
        let u: u64 = if *self >= 0 { *self as u64 } else { (*self as i64 + 0x1_0000_0000) as u64 };
        push_le(out, u, 4);
    }

    fn read_repr(bytes: &[u8], start: usize) -> (r: Self) {
        let u = read_le(bytes, start, 4);
        proof {
            lemma_pow256_values();
            lemma_le_value_exact(bytes@.subrange(start as int, start + 4));
            lemma_unsigned_round_trip(u as nat, 4);
        }
        if u < 0x8000_0000 { u as i32 } else { (u as i64 - 0x1_0000_0000) as i32 }
    }
}

impl Plain for i64 {
    open spec fn width() -> nat {
        8
    }

    open spec fn repr(self) -> Seq<u8> {
        le_bytes(to_unsigned(self as int, 8), 8)
    }

    proof fn lemma_repr_len(self) {
    }

    proof fn lemma_repr_injective(self, other: Self) {
        lemma_pow256_values();
        lemma_signed_injective(self as int, other as int, 8);
    }

    fn width_within(limit: usize) -> (r: Option<usize>) {
        if limit >= 8 {
            Some(8)
        } else {
            None
        }
    }

    fn zeroed() -> (r: Self) {
        proof {
            lemma_le_bytes_zero(8);
        }
        0
    }

    fn append_repr(&self, out: &mut Vec<u8>) {
        proof {
            lemma_pow256_values();
        }
        let u: u64 = if *self >= 0 {
            *self as u64
        } else {
            ((*self + 1 + i64::MAX) as u64) + (i64::MAX as u64) + 1
        };
        push_le(out, u, 8);
    }

    fn read_repr(bytes: &[u8], start: usize) -> (r: Self) {
        let u = read_le(bytes, start, 8);
        proof {
            lemma_pow256_values();
            lemma_le_value_exact(bytes@.subrange(start as int, start + 8));
            lemma_unsigned_round_trip(u as nat, 8);
        }
        if u < 0x8000_0000_0000_0000 {
            u as i64
        } else {
            ((u - 0x8000_0000_0000_0000) as i64) + i64::MIN
        }
    }
}

impl<T: Plain + Copy, const N: usize> Plain for [T; N] {
    open spec fn width() -> nat {
        (N * T::width()) as nat
    }

    open spec fn repr(self) -> Seq<u8> {
        seq_repr(self@)
    }

    proof fn lemma_repr_len(self) {
    }

    proof fn lemma_repr_injective(self, other: Self) {
        assert forall|i: int| 0 <= i < N implies self[i] == other[i] by {
            lemma_seq_repr_chunk(self@, i);
            lemma_seq_repr_chunk(other@, i);
            self@[i].lemma_repr_injective(other@[i]);
        }
        assert(self =~= other);
    }

    fn width_within(limit: usize) -> (r: Option<usize>) {
        if N == 0 {
            return Some(0);
        }
        match T::width_within(limit) {
            None => {
                proof {
                    assert(N * T::width() >= T::width()) by (nonlinear_arith)
                        requires
                            N >= 1,
                    ;
                }
                None
            },
            Some(w) => {
                if w == 0 {
                    Some(0)
                } else if N <= limit / w {
                    proof {
                        lemma_fundamental_div_mod(limit as int, w as int);
                        assert(N * w <= (limit / w) * w) by (nonlinear_arith)
                            requires
                                N <= limit / w,
                                w > 0,
                        ;
                        assert((limit / w) * w == w * (limit / w)) by (nonlinear_arith);
                    }
                    Some(N * w)
                } else {
                    proof {
                        lemma_fundamental_div_mod(limit as int, w as int);
                        lemma_mod_bound(limit as int, w as int);
                        assert(N * w >= (limit / w + 1) * w) by (nonlinear_arith)
                            requires
                                N >= limit / w + 1,
                                w > 0,
                        ;
                        assert((limit / w + 1) * w == w * (limit / w) + w) by (nonlinear_arith);
                    }
                    None
                }
            },
        }
    }

    fn zeroed() -> (r: Self) {
        let z = T::zeroed();
        let a = [z; N];
        proof {
            let w = T::width() as int;
            z.lemma_repr_len();
            assert forall|k: int| 0 <= k < N * w implies #[trigger] seq_repr(a@)[k] == 0u8 by {
                lemma_fundamental_div_mod(k, w);
                lemma_mod_bound(k, w);
                assert(k / w < N) by (nonlinear_arith)
                    requires
                        k == w * (k / w) + k % w,
                        0 <= k % w,
                        0 <= k < N * w,
                ;
                assert(0 <= k / w) by (nonlinear_arith)
                    requires
                        k == w * (k / w) + k % w,
                        k % w < w,
                        0 <= k,
                ;
            }
            assert(seq_repr(a@) =~= zeros(Self::width()));
        }
        a
    }

    fn append_repr(&self, out: &mut Vec<u8>) {
        let ghost start = old(out)@;
        let mut i: usize = 0;
        assert(seq_repr(self@.take(0)) =~= Seq::<u8>::empty());
        assert(start + Seq::<u8>::empty() =~= start);
        while i < N
            invariant
                i <= N,
                out@ == start + seq_repr(self@.take(i as int)),
            decreases N - i,
        {
            proof {
                lemma_seq_repr_push(self@.take(i as int), self@[i as int]);
                assert(self@.take(i + 1) =~= self@.take(i as int).push(self@[i as int]));
            }
            self[i].append_repr(out);
            i = i + 1;
            assert(out@ =~= start + seq_repr(self@.take(i as int)));
        }
        assert(self@.take(N as int) =~= self@);
    }

    fn read_repr(bytes: &[u8], start: usize) -> (r: Self) {
        let mut a = [T::zeroed(); N];
        if N == 0 {
            assert(seq_repr(a@) =~= bytes@.subrange(start as int, start as int));
            return a;
        }
        let len = bytes.len();
        proof {
            assert(N * T::width() >= T::width()) by (nonlinear_arith)
                requires
                    N >= 1,
            ;
        }
        let w = match T::width_within(len) {
            Some(w) => w,
            None => {
                return a;
            },
        };
        let ghost total = N * T::width();
        let mut i: usize = 0;
        while i < N
            invariant
                i <= N,
                w == T::width(),
                start + total <= bytes@.len(),
                bytes@.len() == len,
                total == N * w,
                a@.len() == N,
                forall|j: int|
                    0 <= j < i ==> #[trigger] a@[j].repr() == bytes@.subrange(
                        start + j * w,
                        start + (j + 1) * w,
                    ),
            decreases N - i,
        {
            proof {
                lemma_chunk_bounds(i as int, w as int, N as int);
            }
            let v = T::read_repr(bytes, start + i * w);
            a[i] = v;
            i = i + 1;
        }
        proof {
            let sub = bytes@.subrange(start as int, start + total);
            assert forall|k: int| 0 <= k < total implies #[trigger] seq_repr(a@)[k] == sub[k] by {
                let q = k / w as int;
                let m = k % w as int;
                lemma_fundamental_div_mod(k, w as int);
                lemma_mod_bound(k, w as int);
                assert(0 <= q < N) by (nonlinear_arith)
                    requires
                        k == w * q + m,
                        0 <= m < w,
                        0 <= k < N * w,
                ;
                assert(w * q == q * w) by (nonlinear_arith);
                lemma_chunk_offset(q, m, w as int, N as int);
                a@[q].lemma_repr_len();
            }
            assert(seq_repr(a@) =~= sub);
        }
        a
    }
}

} // verus!
