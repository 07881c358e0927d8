//! Runs of plain values and the bytes that represent them.
use crate::plain::Plain;
use vstd::arithmetic::div_mod::{
    lemma_fundamental_div_mod, lemma_fundamental_div_mod_converse, lemma_mod_bound,
};
use vstd::prelude::*;

verus! {

/// The representations of the items of `s`, one after another.
pub open spec fn seq_repr<T: Plain>(s: Seq<T>) -> Seq<u8> {
    Seq::new(
        s.len() * T::width(),
        |k: int| s[k / T::width() as int].repr()[k % T::width() as int],
    )
}

/// The value represented by the first `T::width()` bytes of `bytes`.
pub open spec fn decode<T: Plain>(bytes: Seq<u8>) -> T {
    choose|v: T| v.repr() == bytes.take(T::width() as int)
}

/// The values represented by the successive `T::width()`-byte chunks of
/// `bytes`; bytes after the last whole chunk belong to no value.
pub open spec fn seq_decode<T: Plain>(bytes: Seq<u8>) -> Seq<T> {
    Seq::new(
        bytes.len() / T::width(),
        |i: int| decode::<T>(bytes.subrange(i * T::width(), (i + 1) * T::width())),
    )
}

/// Where chunk `i` lies among `n` chunks of `w` bytes.
pub proof fn lemma_chunk_bounds(i: int, w: int, n: int)
    requires
        0 <= i < n,
        0 <= w,
    ensures
        0 <= i * w,
        i * w + w == (i + 1) * w,
        (i + 1) * w <= n * w,
{
    assert(0 <= i * w && i * w + w == (i + 1) * w && (i + 1) * w <= n * w) by (nonlinear_arith)
        requires
            0 <= i < n,
            0 <= w,
    ;
}

/// Position arithmetic for byte `j` of chunk `i`, with `n` chunks of `w` bytes.
pub proof fn lemma_chunk_offset(i: int, j: int, w: int, n: int)
    requires
        0 <= i < n,
        0 <= j < w,
    ensures
        0 <= i * w,
        i * w + w == (i + 1) * w,
        (i + 1) * w <= n * w,
        (i * w + j) / w == i,
        (i * w + j) % w == j,
{
    lemma_chunk_bounds(i, w, n);
    lemma_fundamental_div_mod_converse(i * w + j, w, i, j);
}

/// The bytes of `v` decode to `v`.
pub proof fn lemma_decode_repr<T: Plain>(v: T)
    ensures
        decode::<T>(v.repr()) == v,
{
    v.lemma_repr_len();
    assert(v.repr().take(T::width() as int) =~= v.repr());
    let d = decode::<T>(v.repr());
    assert(d.repr() == v.repr());
    d.lemma_repr_injective(v);
}

/// A value whose representation opens `bytes` is what `bytes` decode to.
pub proof fn lemma_decode_unique<T: Plain>(bytes: Seq<u8>, v: T)
    requires
        v.repr() == bytes.take(T::width() as int),
    ensures
        decode::<T>(bytes) == v,
{
    let d = decode::<T>(bytes);
    assert(d.repr() == bytes.take(T::width() as int));
    d.lemma_repr_injective(v);
}

/// Chunk `i` of the bytes of `s` is the representation of `s[i]`.
pub proof fn lemma_seq_repr_chunk<T: Plain>(s: Seq<T>, i: int)
    requires
        0 <= i < s.len(),
    ensures
        0 <= i * T::width(),
        (i + 1) * T::width() <= seq_repr(s).len(),
        seq_repr(s).subrange(i * T::width(), (i + 1) * T::width()) == s[i].repr(),
{
    let w = T::width() as int;
    s[i].lemma_repr_len();
    lemma_chunk_bounds(i, w, s.len() as int);
    assert forall|j: int| 0 <= j < w implies seq_repr(s)[i * w + j] == s[i].repr()[j] by {
        lemma_chunk_offset(i, j, w, s.len() as int);
    }
    assert(seq_repr(s).subrange(i * w, (i + 1) * w) =~= s[i].repr());
}

/// Adding an item to a run adds its bytes at the end.
pub proof fn lemma_seq_repr_push<T: Plain>(s: Seq<T>, x: T)
    ensures
        seq_repr(s.push(x)) == seq_repr(s) + x.repr(),
{
    let w = T::width() as int;
    let n = s.len() as int;
    let t = s.push(x);
    x.lemma_repr_len();
    assert((n + 1) * w == n * w + w) by (nonlinear_arith);
    assert forall|k: int| 0 <= k < (n + 1) * w implies #[trigger] seq_repr(t)[k] == (seq_repr(s)
        + x.repr())[k] by {
        let i = k / w;
        let j = k % w;
        assert(w > 0) by (nonlinear_arith)
            requires
                0 <= k < (n + 1) * w,
                0 <= n,
                0 <= w,
        ;
        lemma_fundamental_div_mod(k, w);
        assert(0 <= j < w) by {
            lemma_mod_bound(k, w);
        }
        assert(0 <= i <= n) by (nonlinear_arith)
            requires
                k == w * i + j,
                0 <= j < w,
                0 <= k < (n + 1) * w,
        ;
        assert(w * i == i * w) by (nonlinear_arith);
        if i < n {
            lemma_chunk_offset(i, j, w, n);
        }
    }
    assert(seq_repr(t) =~= seq_repr(s) + x.repr());
}

/// Decoding the bytes of a run of values of non-zero width gives the run back.
pub proof fn lemma_seq_decode_repr<T: Plain>(s: Seq<T>)
    requires
        T::width() > 0,
    ensures
        seq_decode::<T>(seq_repr(s)) == s,
{
    let w = T::width() as int;
    let bytes = seq_repr(s);
    lemma_fundamental_div_mod_converse(s.len() * w, w, s.len() as int, 0);
    assert forall|i: int| 0 <= i < s.len() implies #[trigger] seq_decode::<T>(bytes)[i] == s[i] by {
        lemma_seq_repr_chunk(s, i);
        lemma_decode_repr(s[i]);
    }
    assert(seq_decode::<T>(bytes) =~= s);
}

} // verus!
