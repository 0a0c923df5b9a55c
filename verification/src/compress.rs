//! The serialization capability: the interface a type implements so that its
//! values can be stored in the packed container.

use vstd::prelude::*;

verus! {

/// The serialization capability. A value reports its exact encoded size,
/// writes itself into a byte destination, reconstructs itself from a byte
/// source, and reports the encoded size of a value sitting at a byte source
/// without fully decoding it.
///
/// The encoding must be self-describing: the bytes at a valid element start
/// determine the value and its byte span exactly, so that an offset table
/// fully describes the layout of a packed buffer. That is what
/// `lemma_enc_unique` demands of every implementation.
///
/// The contracts are written out over `enc` directly; the spec function
/// `encoded_at` abbreviates the same condition for everybody else.
pub trait Compress: Sized {
    /// The exact byte encoding of this value.
    spec fn enc(&self) -> Seq<u8>;

    /// The encoding is self-describing: if the encodings of `a` and `b` both
    /// start at the same position of the same byte stream, then `a` and `b`
    /// are the same value (and in particular occupy the same byte span).
    proof fn lemma_enc_unique(s: Seq<u8>, pos: int, a: Self, b: Self)
        requires
            0 <= pos,
            pos + a.enc().len() <= s.len(),
            s.subrange(pos, pos + a.enc().len() as int) == a.enc(),
            pos + b.enc().len() <= s.len(),
            s.subrange(pos, pos + b.enc().len() as int) == b.enc(),
        ensures
            a == b,
    ;

    /// The number of bytes this value occupies when encoded. The encoded
    /// length of a storable value always fits the machine word.
    fn size(&self) -> (r: usize)
        requires
            self.enc().len() <= usize::MAX,
        ensures
            r == self.enc().len(),
    ;

    /// Writes exactly `self.enc().len()` bytes starting at `dest[pos]`;
    /// never reads or writes outside that range.
    fn compress(&self, dest: &mut Vec<u8>, pos: usize)
        requires
            pos + self.enc().len() <= old(dest).len(),
        ensures
            final(dest).len() == old(dest).len(),
            final(dest)@.subrange(pos as int, pos + self.enc().len()) == self.enc(),
            forall|k: int| 0 <= k < pos ==> final(dest)@[k] == old(dest)@[k],
            forall|k: int|
                pos + self.enc().len() <= k < old(dest)@.len() ==> final(dest)@[k] == old(
                    dest,
                )@[k],
    ;

    /// Reconstructs the value whose encoding starts at `src[pos]`, consuming
    /// exactly as many bytes as that value's encoded size.
    fn uncompress(src: &Vec<u8>, pos: usize) -> (r: Self)
        requires
            0 <= pos,
            exists|v: Self|
                pos + v.enc().len() <= src@.len() && src@.subrange(
                    pos as int,
                    pos + v.enc().len() as int,
                ) == v.enc(),
        ensures
            pos + r.enc().len() <= src@.len(),
            src@.subrange(pos as int, pos + r.enc().len() as int) == r.enc(),
    ;

    /// The encoded size of the value located at `src[pos]`, read by
    /// inspecting only the minimum bytes required, without fully decoding.
    fn read_size(src: &Vec<u8>, pos: usize) -> (r: usize)
        requires
            0 <= pos,
            exists|v: Self|
                pos + v.enc().len() <= src@.len() && src@.subrange(
                    pos as int,
                    pos + v.enc().len() as int,
                ) == v.enc(),
        ensures
            forall|v: Self|
                pos + v.enc().len() <= src@.len() && src@.subrange(
                    pos as int,
                    pos + v.enc().len() as int,
                ) == v.enc() ==> r == v.enc().len(),
    ;
}

/// Holds when the bytes of `s` starting at `pos` are exactly the encoding of `v`.
pub open spec fn encoded_at<T: Compress>(s: Seq<u8>, pos: int, v: T) -> bool {
    &&& 0 <= pos
    &&& pos + v.enc().len() <= s.len()
    &&& s.subrange(pos, pos + v.enc().len() as int) == v.enc()
}

/// Round trip: decoding bytes that hold the encoding of `v` yields `v` and
/// nothing else. `Compress::uncompress` returns some value whose encoding
/// stands at the given position; this law says that value is exactly the one
/// that was encoded there.
pub proof fn lemma_round_trip<T: Compress>(s: Seq<u8>, pos: int, v: T, r: T)
    requires
        encoded_at(s, pos, v),
        encoded_at(s, pos, r),
    ensures
        r == v,
{
    T::lemma_enc_unique(s, pos, v, r);
}

/// Splitting a concatenation found inside a byte stream: if `x + y` stands at
/// `pos`, then `x` stands at `pos` and `y` stands right after it.
pub proof fn lemma_concat_split(s: Seq<u8>, pos: int, x: Seq<u8>, y: Seq<u8>)
    requires
        0 <= pos,
        pos + x.len() + y.len() <= s.len(),
        s.subrange(pos, pos + x.len() + y.len()) == x.add(y),
    ensures
        s.subrange(pos, pos + x.len() as int) == x,
        s.subrange(pos + x.len(), pos + x.len() + y.len()) == y,
{
    let xy = s.subrange(pos, pos + x.len() + y.len());
    assert forall|k: int| 0 <= k < x.len() implies s[pos + k] == x[k] by {
        assert(xy[k] == x.add(y)[k]);
    }
    assert forall|k: int| 0 <= k < y.len() implies s[pos + x.len() + k] == y[k] by {
        assert(xy[x.len() + k] == x.add(y)[x.len() + k]);
    }
    assert(s.subrange(pos, pos + x.len() as int) =~= x);
    assert(s.subrange(pos + x.len(), pos + x.len() + y.len()) =~= y);
}

/// Joining two adjacent byte spans: if `x` stands at `pos` and `y` right
/// after it, then `x + y` stands at `pos`.
pub proof fn lemma_concat_join(s: Seq<u8>, pos: int, x: Seq<u8>, y: Seq<u8>)
    requires
        0 <= pos,
        pos + x.len() + y.len() <= s.len(),
        s.subrange(pos, pos + x.len() as int) == x,
        s.subrange(pos + x.len(), pos + x.len() + y.len()) == y,
    ensures
        s.subrange(pos, pos + x.len() + y.len()) == x.add(y),
{
    assert(s.subrange(pos, pos + x.len() + y.len()) =~= x.add(y));
}

} // verus!
