//! Conversions between plain values, or runs of them, and byte buffers.
use crate::plain::Plain;
use crate::sequence::{
    decode, lemma_chunk_bounds, lemma_decode_repr, lemma_decode_unique, lemma_seq_decode_repr,
    lemma_seq_repr_push, seq_decode, seq_repr,
};
use vstd::arithmetic::div_mod::{lemma_basic_div, lemma_fundamental_div_mod, lemma_mod_bound};
use vstd::prelude::*;

verus! {

/// Conversion into the bytes that represent a value.
pub trait AsBytes {
    /// The bytes that represent `self`.
    spec fn byte_view(&self) -> Seq<u8>;

    /// Returns the bytes that represent `self`.
    fn as_bytes(&self) -> (r: Vec<u8>)
        ensures
            r@ == self.byte_view(),
    ;
}

/// Conversion from bytes, trusting the caller that the buffer suits the type.
pub trait WithBytes: Sized {
    /// Whether a buffer holding `bytes` may be read.
    spec fn readable(bytes: Seq<u8>) -> bool;

    /// Whether `v` is what a buffer holding `bytes` is read as.
    spec fn read_from(bytes: Seq<u8>, v: Self) -> bool;

    /// Returns what `bytes` represent.
    fn with_bytes(bytes: &[u8]) -> (r: Self)
        requires
            Self::readable(bytes@),
        ensures
            Self::read_from(bytes@, r),
    ;
}

/// Conversion from bytes that first checks that the buffer suits the type.
pub trait TryWithBytes: WithBytes {
    /// Whether a buffer holding `bytes` is accepted.
    spec fn accepts(bytes: Seq<u8>) -> bool;

    /// Returns what `bytes` represent, or `None` where the buffer is not accepted.
    fn try_with_bytes(bytes: &[u8]) -> (r: Option<Self>)
        ensures
            (match r {
                Some(v) => Self::accepts(bytes@) && Self::read_from(bytes@, v),
                None => !Self::accepts(bytes@),
            }),
    ;
}

impl<T: Plain> AsBytes for T {
    open spec fn byte_view(&self) -> Seq<u8> {
        self.repr()
    }

    fn as_bytes(&self) -> (r: Vec<u8>) {
        let mut out: Vec<u8> = Vec::new();
        self.append_repr(&mut out);
        assert(out@ =~= self.repr());
        out
    }
}

/// A run of values is represented by the representations of its items, one after another.
impl<T: Plain> AsBytes for [T] {
    open spec fn byte_view(&self) -> Seq<u8> {
        seq_repr(self@)
    }

    fn as_bytes(&self) -> (r: Vec<u8>) {
        let mut out: Vec<u8> = Vec::new();
        let mut i: usize = 0;
        assert(self@.take(0).len() == 0);
        assert(seq_repr(self@.take(0)) =~= Seq::<u8>::empty());
        while i < self.len()
            invariant
                i <= self@.len(),
                out@ == seq_repr(self@.take(i as int)),
            decreases self@.len() - i,
        {
            proof {
                lemma_seq_repr_push(self@.take(i as int), self@[i as int]);
                assert(self@.take(i + 1) =~= self@.take(i as int).push(self@[i as int]));
            }
            self[i].append_repr(&mut out);
            i = i + 1;
        }
        assert(self@.take(self@.len() as int) =~= self@);
        out
    }
}

/// A value is read from the first `T::width()` bytes; the buffer must hold that many.
/// A zero-width value is read from any buffer.
impl<T: Plain> WithBytes for T {
    open spec fn readable(bytes: Seq<u8>) -> bool {
        bytes.len() >= T::width()
    }

    open spec fn read_from(bytes: Seq<u8>, v: T) -> bool {
        v == decode::<T>(bytes)
    }

    fn with_bytes(bytes: &[u8]) -> (r: T)
        ensures
            r == decode::<T>(bytes@),
    {
        let r = T::read_repr(bytes, 0);
        proof {
            assert(bytes@.subrange(0, T::width() as int) =~= bytes@.take(T::width() as int));
            lemma_decode_unique(bytes@, r);
        }
        r
    }
}

/// A run is read from as many whole `T::width()`-byte chunks as the buffer holds;
/// the bytes after the last whole chunk are left out. The width must not be zero.
impl<T: Plain> WithBytes for Vec<T> {
    open spec fn readable(bytes: Seq<u8>) -> bool {
        T::width() > 0
    }

    open spec fn read_from(bytes: Seq<u8>, v: Vec<T>) -> bool {
        v@ == seq_decode::<T>(bytes)
    }

    fn with_bytes(bytes: &[u8]) -> (r: Vec<T>)
        ensures
            r@ == seq_decode::<T>(bytes@),
            r@.len() == bytes@.len() / T::width(),
    {
        let len = bytes.len();
        let mut out: Vec<T> = Vec::new();
        let w = match T::width_within(len) {
            Some(w) => w,
            None => {
                proof {
                    lemma_basic_div(len as int, T::width() as int);
                    assert(seq_decode::<T>(bytes@) =~= Seq::<T>::empty());
                }
                return out;
            },
        };
        let count = len / w;
        proof {
            lemma_fundamental_div_mod(len as int, w as int);
            lemma_mod_bound(len as int, w as int);
            assert(count * w <= len) by (nonlinear_arith)
                requires
                    len == w * (len / w) + len % w,
                    0 <= len % w,
                    count == len / w,
            ;
        }
        let mut i: usize = 0;
        while i < count
            invariant
                i <= count,
                count == len / w,
                count * w <= len,
                len == bytes@.len(),
                w == T::width(),
                w > 0,
                out@ == seq_decode::<T>(bytes@).take(i as int),
            decreases count - i,
        {
            proof {
                lemma_chunk_bounds(i as int, w as int, count as int);
            }
            let v = T::read_repr(bytes, i * w);
            proof {
                let chunk = bytes@.subrange(i * w, (i + 1) * w);
                assert(chunk.take(w as int) =~= chunk);
                lemma_decode_unique(chunk, v);
            }
            out.push(v);
            i = i + 1;
            assert(out@ =~= seq_decode::<T>(bytes@).take(i as int));
        }
        assert(seq_decode::<T>(bytes@).take(count as int) =~= seq_decode::<T>(bytes@));
        out
    }
}

/// A value is accepted where the buffer holds its width in bytes and that width is not zero.
impl<T: Plain> TryWithBytes for T {
    open spec fn accepts(bytes: Seq<u8>) -> bool {
        T::width() > 0 && bytes.len() >= T::width()
    }

    fn try_with_bytes(bytes: &[u8]) -> (r: Option<T>)
        ensures
            r == (if T::width() > 0 && bytes@.len() >= T::width() {
                Some(decode::<T>(bytes@))
            } else {
                None::<T>
            }),
    {
        match T::width_within(bytes.len()) {
            Some(w) => {
                if w > 0 {
                    Some(T::with_bytes(bytes))
                } else {
                    None
                }
            },
            None => None,
        }
    }
}

/// A run is accepted from any buffer, short ones giving an empty run, unless the
/// item width is zero.
impl<T: Plain> TryWithBytes for Vec<T> {
    open spec fn accepts(bytes: Seq<u8>) -> bool {
        T::width() > 0
    }

    fn try_with_bytes(bytes: &[u8]) -> (r: Option<Vec<T>>)
        ensures
            T::width() == 0 ==> r is None,
            T::width() > 0 ==> (r matches Some(v) && v@ == seq_decode::<T>(bytes@)),
    {
        match T::width_within(0) {
            Some(_) => None,
            None => Some(<Vec<T>>::with_bytes(bytes)),
        }
    }
}

/// Reading back the bytes of a plain value is allowed and gives the value.
pub proof fn lemma_round_trip<T: Plain>(v: T)
    ensures
        <T as WithBytes>::readable(v.byte_view()),
        <T as WithBytes>::read_from(v.byte_view(), v),
{
    v.lemma_repr_len();
    lemma_decode_repr(v);
}

/// Reading back the bytes of a run of values of non-zero width is allowed and
/// gives the run, item for item.
pub proof fn lemma_sequence_round_trip<T: Plain>(s: Seq<T>)
    requires
        T::width() > 0,
    ensures
        <Vec<T> as WithBytes>::readable(seq_repr(s)),
        forall|r: Vec<T>| <Vec<T> as WithBytes>::read_from(seq_repr(s), r) <==> r@ == s,
{
    lemma_seq_decode_repr(s);
}

/// Where the checked read of a value accepts a buffer, the unchecked read may read it
/// too; both read it as the value that `read_from` names.
pub proof fn lemma_checked_agrees<T: Plain>(bytes: Seq<u8>)
    requires
        <T as TryWithBytes>::accepts(bytes),
    ensures
        <T as WithBytes>::readable(bytes),
        forall|v: T| <T as WithBytes>::read_from(bytes, v) <==> v == decode::<T>(bytes),
{
}

} // verus!
