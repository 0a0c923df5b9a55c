//! The packed heterogeneous-length vector.
//!
//! Elements are stored back to back, with no padding, in one growable byte
//! buffer. An offset index records where each element's encoding starts; a
//! write cursor marks the first unused byte. Because the elements are
//! packed, a size-changing update at one position shifts every following
//! element's bytes by a constant delta and adjusts their offsets uniformly.

use vstd::prelude::*;

use crate::compress::encoded_at;
use crate::compress::Compress;

verus! {

/// The number of bytes the elements of `es` occupy when packed back to back.
pub open spec fn total_size<T: Compress>(es: Seq<T>) -> nat
    decreases es.len(),
{
    if es.len() == 0 {
        0
    } else {
        total_size(es.drop_last()) + es.last().enc().len()
    }
}

/// Packing one more element costs exactly its encoded size.
pub proof fn lemma_total_size_push<T: Compress>(es: Seq<T>, v: T)
    ensures
        total_size(es.push(v)) == total_size(es) + v.enc().len(),
{
    assert(es.push(v).drop_last() =~= es);
    assert(es.push(v).last() == v);
}

/// The packed size of the first `i + 1` elements is the packed size of the
/// first `i` plus the size of element `i`.
pub proof fn lemma_total_size_take_succ<T: Compress>(es: Seq<T>, i: int)
    requires
        0 <= i < es.len(),
    ensures
        total_size(es.take(i + 1)) == total_size(es.take(i)) + es[i].enc().len(),
{
    assert(es.take(i + 1).drop_last() =~= es.take(i));
    assert(es.take(i + 1).last() == es[i]);
}

/// Packed prefixes only grow.
pub proof fn lemma_total_size_take_mono<T: Compress>(es: Seq<T>, i: int, j: int)
    requires
        0 <= i <= j <= es.len(),
    ensures
        total_size(es.take(i)) <= total_size(es.take(j)),
    decreases j - i,
{
    if i < j {
        lemma_total_size_take_mono(es, i, j - 1);
        lemma_total_size_take_succ(es, j - 1);
    }
}

/// The whole sequence is its own longest prefix.
pub proof fn lemma_total_size_take_all<T: Compress>(es: Seq<T>)
    ensures
        total_size(es.take(es.len() as int)) == total_size(es),
{
    assert(es.take(es.len() as int) =~= es);
}

/// Replacing element `i` by `w` changes the packed size of every prefix
/// beyond `i` by the difference of the two encoded sizes.
pub proof fn lemma_total_size_update<T: Compress>(es: Seq<T>, i: int, w: T, j: int)
    requires
        0 <= i < j <= es.len(),
    ensures
        total_size(es.update(i, w).take(j)) + es[i].enc().len() == total_size(es.take(j))
            + w.enc().len(),
    decreases j,
{
    let es2 = es.update(i, w);
    if j == i + 1 {
        assert(es2.take(j).drop_last() =~= es.take(i));
        assert(es2.take(j).last() == w);
        lemma_total_size_take_succ(es, i);
    } else {
        lemma_total_size_update(es, i, w, j - 1);
        lemma_total_size_take_succ(es, j - 1);
        assert(es2.take(j).drop_last() =~= es2.take(j - 1));
        assert(es2.take(j).last() == es[j - 1]);
    }
}

/// Grows `buf` to exactly `target` bytes by appending zeroes.
fn extend_zeroes(buf: &mut Vec<u8>, target: usize)
    requires
        old(buf).len() <= target,
    ensures
        final(buf).len() == target,
        forall|k: int| 0 <= k < old(buf)@.len() ==> final(buf)@[k] == old(buf)@[k],
        forall|k: int| old(buf)@.len() <= k < target ==> final(buf)@[k] == 0,
{
    let ghost buf0 = buf@;
    while buf.len() < target
        invariant
            buf0.len() <= buf@.len() <= target,
            forall|k: int| 0 <= k < buf0.len() ==> buf@[k] == buf0[k],
            forall|k: int| buf0.len() <= k < buf@.len() ==> buf@[k] == 0,
        decreases target - buf@.len(),
    {
        buf.push(0);
    }
}

/// Copies `count` bytes from `buf[src..]` to `buf[dst..]` for `src <= dst`,
/// moving from the last byte down so an overlap cannot clobber unread bytes.
fn copy_up(buf: &mut Vec<u8>, src: usize, dst: usize, count: usize)
    requires
        src <= dst,
        dst + count <= old(buf).len(),
    ensures
        final(buf).len() == old(buf).len(),
        forall|k: int| 0 <= k < dst ==> final(buf)@[k] == old(buf)@[k],
        forall|k: int| dst + count <= k < old(buf)@.len() ==> final(buf)@[k] == old(buf)@[k],
        forall|k: int| dst <= k < dst + count ==> final(buf)@[k] == old(buf)@[k - dst + src],
{
    let ghost buf0 = buf@;
    let buf_len = buf.len();
    let mut i: usize = count;
    while i > 0
        invariant
            i <= count,
            src <= dst,
            dst + count <= buf@.len(),
            buf@.len() == buf_len,
            buf@.len() == buf0.len(),
            forall|k: int| 0 <= k < dst + i ==> buf@[k] == buf0[k],
            forall|k: int| dst + count <= k < buf0.len() ==> buf@[k] == buf0[k],
            forall|k: int| dst + i <= k < dst + count ==> buf@[k] == buf0[k - dst + src],
        decreases i,
    {
        i = i - 1;
        let b = buf[src + i];
        buf.set(dst + i, b);
    }
}

/// Copies `count` bytes from `buf[src..]` to `buf[dst..]` for `dst <= src`,
/// moving from the first byte up so an overlap cannot clobber unread bytes.
fn copy_down(buf: &mut Vec<u8>, src: usize, dst: usize, count: usize)
    requires
        dst <= src,
        src + count <= old(buf).len(),
    ensures
        final(buf).len() == old(buf).len(),
        forall|k: int| 0 <= k < dst ==> final(buf)@[k] == old(buf)@[k],
        forall|k: int| dst + count <= k < old(buf)@.len() ==> final(buf)@[k] == old(buf)@[k],
        forall|k: int| dst <= k < dst + count ==> final(buf)@[k] == old(buf)@[k - dst + src],
{
    let ghost buf0 = buf@;
    let buf_len = buf.len();
    let mut i: usize = 0;
    while i < count
        invariant
            i <= count,
            dst <= src,
            src + count <= buf@.len(),
            buf@.len() == buf_len,
            buf@.len() == buf0.len(),
            forall|k: int| 0 <= k < dst ==> buf@[k] == buf0[k],
            forall|k: int| dst + i <= k < buf0.len() ==> buf@[k] == buf0[k],
            forall|k: int| dst <= k < dst + i ==> buf@[k] == buf0[k - dst + src],
        decreases count - i,
    {
        let b = buf[src + i];
        buf.set(dst + i, b);
        i = i + 1;
    }
}

/// Overwrites `count` bytes at `buf[start..]` with zeroes.
fn zero_range(buf: &mut Vec<u8>, start: usize, count: usize)
    requires
        start + count <= old(buf).len(),
    ensures
        final(buf).len() == old(buf).len(),
        forall|k: int| 0 <= k < start ==> final(buf)@[k] == old(buf)@[k],
        forall|k: int| start + count <= k < old(buf)@.len() ==> final(buf)@[k] == old(buf)@[k],
        forall|k: int| start <= k < start + count ==> final(buf)@[k] == 0,
{
    let ghost buf0 = buf@;
    let buf_len = buf.len();
    let mut i: usize = 0;
    while i < count
        invariant
            i <= count,
            start + count <= buf@.len(),
            buf@.len() == buf_len,
            buf@.len() == buf0.len(),
            forall|k: int| 0 <= k < start ==> buf@[k] == buf0[k],
            forall|k: int| start + i <= k < buf0.len() ==> buf@[k] == buf0[k],
            forall|k: int| start <= k < start + i ==> buf@[k] == 0,
        decreases count - i,
    {
        buf.set(start + i, 0);
        i = i + 1;
    }
}

/// Adds `delta` to every entry of `offs` from position `from` on; `bound`
/// caps the grown entries so the additions cannot overflow.
fn bump_up(offs: &mut Vec<usize>, from: usize, delta: usize, bound: usize)
    requires
        from <= old(offs).len(),
        forall|j: int| from <= j < old(offs)@.len() ==> old(offs)@[j] + delta <= bound,
        bound <= usize::MAX,
    ensures
        final(offs).len() == old(offs).len(),
        forall|j: int| 0 <= j < from ==> final(offs)@[j] == old(offs)@[j],
        forall|j: int| from <= j < old(offs)@.len() ==> final(offs)@[j] == old(offs)@[j] + delta,
{
    let ghost o0 = offs@;
    let n = offs.len();
    let mut j: usize = from;
    while j < n
        invariant
            from <= j <= n,
            n == offs@.len(),
            offs@.len() == o0.len(),
            bound <= usize::MAX,
            forall|k: int| from <= k < o0.len() ==> o0[k] + delta <= bound,
            forall|k: int| 0 <= k < from ==> offs@[k] == o0[k],
            forall|k: int| j <= k < n ==> offs@[k] == o0[k],
            forall|k: int| from <= k < j ==> offs@[k] == o0[k] + delta,
        decreases n - j,
    {
        proof {
            assert(offs@[j as int] == o0[j as int]);
            assert(o0[j as int] + delta <= bound);
        }
        let v = offs[j] + delta;
        offs.set(j, v);
        j = j + 1;
    }
}

/// Subtracts `delta` from every entry of `offs` from position `from` on.
fn bump_down(offs: &mut Vec<usize>, from: usize, delta: usize)
    requires
        from <= old(offs).len(),
        forall|j: int| from <= j < old(offs)@.len() ==> delta <= old(offs)@[j],
    ensures
        final(offs).len() == old(offs).len(),
        forall|j: int| 0 <= j < from ==> final(offs)@[j] == old(offs)@[j],
        forall|j: int| from <= j < old(offs)@.len() ==> final(offs)@[j] == old(offs)@[j] - delta,
{
    let ghost o0 = offs@;
    let n = offs.len();
    let mut j: usize = from;
    while j < n
        invariant
            from <= j <= n,
            n == offs@.len(),
            offs@.len() == o0.len(),
            forall|k: int| from <= k < o0.len() ==> delta <= o0[k],
            forall|k: int| 0 <= k < from ==> offs@[k] == o0[k],
            forall|k: int| j <= k < n ==> offs@[k] == o0[k],
            forall|k: int| from <= k < j ==> offs@[k] == o0[k] - delta,
        decreases n - j,
    {
        proof {
            assert(offs@[j as int] == o0[j as int]);
            assert(delta <= o0[j as int]);
        }
        let v = offs[j] - delta;
        offs.set(j, v);
        j = j + 1;
    }
}

/// If every byte below the cursor kept its value when the buffer was
/// exchanged (it grew), every element's encoding still stands at its offset.
proof fn lemma_layout_preserved<T: Compress>(
    es: Seq<T>,
    offs0: Seq<usize>,
    buf_old: Seq<u8>,
    buf_new: Seq<u8>,
)
    requires
        offs0.len() == es.len(),
        total_size(es) <= buf_old.len(),
        buf_new.len() >= buf_old.len(),
        forall|k: int| 0 <= k < buf_old.len() ==> buf_new[k] == buf_old[k],
        forall|i: int| 0 <= i < es.len() ==> #[trigger] offs0[i] == total_size(es.take(i)),
        forall|i: int| 0 <= i < es.len() ==> encoded_at(buf_old, offs0[i] as int, #[trigger] es[i]),
    ensures
        forall|i: int| 0 <= i < es.len() ==> encoded_at(buf_new, offs0[i] as int, #[trigger] es[i]),
{
    assert forall|i: int| 0 <= i < es.len() implies encoded_at(
        buf_new,
        offs0[i] as int,
        #[trigger] es[i],
    ) by {
        assert(buf_new.subrange(offs0[i] as int, offs0[i] + es[i].enc().len()) =~= buf_old.subrange(
            offs0[i] as int,
            offs0[i] + es[i].enc().len(),
        ));
    }
}

/// How the container's parts stand to one another right after the bytes of
/// element `index` were replaced by the encoding of `val`: the trailing
/// bytes moved by the size difference, the trailing offsets were adjusted
/// by the same difference, and everything before `index` kept its place.
spec fn replace_shape<T: Compress>(
    es: Seq<T>,
    val: T,
    index: int,
    offs0: Seq<usize>,
    offs: Seq<usize>,
    buf_old: Seq<u8>,
    buf_new: Seq<u8>,
    cursor0: int,
) -> bool {
    &&& 0 <= index < es.len()
    &&& offs0.len() == es.len()
    &&& offs.len() == es.len()
    &&& cursor0 == total_size(es)
    &&& cursor0 <= buf_old.len()
    &&& (forall|i: int| 0 <= i < es.len() ==> #[trigger] offs0[i] == total_size(es.take(i)))
    &&& (forall|i: int|
        0 <= i < es.len() ==> encoded_at(buf_old, offs0[i] as int, #[trigger] es[i]))
    &&& (forall|j: int| 0 <= j <= index ==> #[trigger] offs[j] == offs0[j])
    &&& (forall|j: int|
        index < j < es.len() ==> #[trigger] offs[j] == offs0[j] + val.enc().len()
            - es[index].enc().len())
    &&& buf_new.len() >= cursor0 + val.enc().len() - es[index].enc().len()
    &&& (forall|k: int| 0 <= k < offs0[index] ==> buf_new[k] == buf_old[k])
    &&& buf_new.subrange(offs0[index] as int, offs0[index] + val.enc().len()) == val.enc()
    &&& (forall|k: int|
        offs0[index] + val.enc().len() <= k < cursor0 + val.enc().len() - es[index].enc().len()
            ==> buf_new[k] == buf_old[k - (val.enc().len() - es[index].enc().len())])
}

/// In the replace shape, the offset index mirrors the packed layout of the
/// updated element sequence, whose packed size changed by the difference of
/// the two encoded sizes.
#[verifier::rlimit(100)]
proof fn lemma_replace_offsets<T: Compress>(
    es: Seq<T>,
    val: T,
    index: int,
    offs0: Seq<usize>,
    offs: Seq<usize>,
    buf_old: Seq<u8>,
    buf_new: Seq<u8>,
    cursor0: int,
)
    requires
        replace_shape(es, val, index, offs0, offs, buf_old, buf_new, cursor0),
    ensures
        total_size(es.update(index, val)) == cursor0 + val.enc().len() - es[index].enc().len(),
        forall|j: int|
            0 <= j < es.len() ==> #[trigger] offs[j] == total_size(es.update(index, val).take(j)),
{
    let es2 = es.update(index, val);
    lemma_total_size_update(es, index, val, es.len() as int);
    lemma_total_size_take_all(es);
    assert(es2.take(es.len() as int) =~= es2);
    assert forall|j: int| 0 <= j < es.len() implies #[trigger] offs[j] == total_size(
        es2.take(j),
    ) by {
        if j <= index {
            assert(es2.take(j) =~= es.take(j));
        } else {
            lemma_total_size_update(es, index, val, j);
        }
    }
}

/// In the replace shape, the encoding of every element up to and including
/// `index` stands at its (unchanged) offset in the new buffer.
#[verifier::rlimit(100)]
proof fn lemma_replace_front<T: Compress>(
    es: Seq<T>,
    val: T,
    index: int,
    offs0: Seq<usize>,
    offs: Seq<usize>,
    buf_old: Seq<u8>,
    buf_new: Seq<u8>,
    cursor0: int,
)
    requires
        replace_shape(es, val, index, offs0, offs, buf_old, buf_new, cursor0),
    ensures
        forall|j: int|
            0 <= j <= index ==> encoded_at(
                buf_new,
                offs[j] as int,
                #[trigger] es.update(index, val)[j],
            ),
{
    let es2 = es.update(index, val);
    let start = offs0[index] as int;
    lemma_total_size_take_succ(es, index);
    lemma_total_size_take_mono(es, index + 1, es.len() as int);
    lemma_total_size_take_all(es);
    assert forall|j: int| 0 <= j <= index implies encoded_at(
        buf_new,
        offs[j] as int,
        #[trigger] es2[j],
    ) by {
        if j < index {
            lemma_total_size_take_succ(es, j);
            lemma_total_size_take_mono(es, j + 1, index);
            assert(offs0[j] + es[j].enc().len() <= start);
            assert(buf_new.subrange(offs0[j] as int, offs0[j] + es[j].enc().len())
                =~= buf_old.subrange(offs0[j] as int, offs0[j] + es[j].enc().len()));
        } else {
            assert(offs[j] == start);
        }
    }
}

/// In the replace shape, the encoding of every element beyond `index`
/// stands at its shifted offset in the new buffer.
#[verifier::rlimit(100)]
proof fn lemma_replace_back<T: Compress>(
    es: Seq<T>,
    val: T,
    index: int,
    offs0: Seq<usize>,
    offs: Seq<usize>,
    buf_old: Seq<u8>,
    buf_new: Seq<u8>,
    cursor0: int,
)
    requires
        replace_shape(es, val, index, offs0, offs, buf_old, buf_new, cursor0),
    ensures
        forall|j: int|
            index < j < es.len() ==> encoded_at(
                buf_new,
                offs[j] as int,
                #[trigger] es.update(index, val)[j],
            ),
{
    let es2 = es.update(index, val);
    let start = offs0[index] as int;
    let d = val.enc().len() - es[index].enc().len();
    lemma_total_size_take_succ(es, index);
    assert forall|j: int| index < j < es.len() implies encoded_at(
        buf_new,
        offs[j] as int,
        #[trigger] es2[j],
    ) by {
        lemma_total_size_take_succ(es, j);
        lemma_total_size_take_mono(es, index + 1, j);
        lemma_total_size_take_mono(es, j + 1, es.len() as int);
        lemma_total_size_take_all(es);
        assert(start + es[index].enc().len() <= offs0[j]);
        assert(offs0[j] + es[j].enc().len() <= cursor0);
        assert forall|k: int|
            offs0[j] + d <= k < offs0[j] + d + es[j].enc().len() implies buf_new[k] == buf_old[k
            - d] by {
            assert(start + val.enc().len() <= k);
        }
        assert(buf_new.subrange(offs0[j] + d, offs0[j] + d + es[j].enc().len())
            =~= buf_old.subrange(offs0[j] as int, offs0[j] + es[j].enc().len()));
    }
}

/// The heart of the replace algorithm: when buffer and offset index stand
/// in the replace shape, the layout invariant holds again for the updated
/// element sequence.
proof fn lemma_replace_layout<T: Compress>(
    es: Seq<T>,
    val: T,
    index: int,
    offs0: Seq<usize>,
    offs: Seq<usize>,
    buf_old: Seq<u8>,
    buf_new: Seq<u8>,
    cursor0: int,
)
    requires
        replace_shape(es, val, index, offs0, offs, buf_old, buf_new, cursor0),
    ensures
        total_size(es.update(index, val)) == cursor0 + val.enc().len() - es[index].enc().len(),
        forall|j: int|
            0 <= j < es.len() ==> #[trigger] offs[j] == total_size(es.update(index, val).take(j)),
        forall|j: int|
            0 <= j < es.len() ==> encoded_at(
                buf_new,
                offs[j] as int,
                #[trigger] es.update(index, val)[j],
            ),
{
    lemma_replace_offsets(es, val, index, offs0, offs, buf_old, buf_new, cursor0);
    lemma_replace_front(es, val, index, offs0, offs, buf_old, buf_new, cursor0);
    lemma_replace_back(es, val, index, offs0, offs, buf_old, buf_new, cursor0);
}

/// Push/get correctness: pushing appends. After a push every element that
/// was stored keeps its value and position, the pushed value stands at the
/// end, and the container is one element longer. Together with `push`'s
/// contract (the view gains the pushed value) and `get`'s (the element at
/// `i` is the view at `i`, and nothing is found past the end), this pins
/// down every `get` after any sequence of pushes.
pub proof fn lemma_push_get<T>(s: Seq<T>, v: T, i: int)
    requires
        0 <= i < s.len(),
    ensures
        s.push(v).len() == s.len() + 1,
        s.push(v)[i] == s[i],
        s.push(v)[s.len() as int] == v,
{
}

/// Update identity: replacing an element by the value already stored at its
/// position leaves the whole sequence unchanged. Together with `update`'s
/// contract this says that updating with the identity transform changes
/// neither the element nor any of its neighbours.
pub proof fn lemma_update_identity<T>(s: Seq<T>, i: int)
    requires
        0 <= i < s.len(),
    ensures
        s.update(i, s[i]) == s,
{
    assert(s.update(i, s[i]) =~= s);
}

/// The packed heterogeneous-length vector: a growable byte buffer holding
/// the encodings of the elements back to back, the offset of each element's
/// first byte, and the write cursor marking the first unused byte.
pub struct Compressed<T: Compress> {
    buf: Vec<u8>,
    len: usize,
    cursor: usize,
    offsets: Vec<usize>,
    elems: Ghost<Seq<T>>,
}

/// The capacity a freshly created container starts with.
pub const START_CAP: usize = 32;

impl<T: Compress> View for Compressed<T> {
    type V = Seq<T>;

    /// A container is seen as the sequence of elements it stores.
    closed spec fn view(&self) -> Seq<T> {
        self.elems@
    }
}

impl<T: Compress> Compressed<T> {
    /// The capacity of the backing buffer, in bytes.
    pub closed spec fn cap(&self) -> nat {
        self.buf@.len()
    }

    /// The container's invariant: the offset index mirrors the packed
    /// layout of the stored elements, the cursor sits right after the last
    /// encoded byte, the buffer is large enough, and each element's
    /// encoding stands at its offset.
    pub closed spec fn wf(&self) -> bool {
        &&& self.offsets@.len() == self.elems@.len()
        &&& self.len == self.elems@.len()
        &&& self.cursor == total_size(self.elems@)
        &&& self.cursor <= self.buf@.len()
        &&& forall|i: int|
            0 <= i < self.elems@.len() ==> #[trigger] self.offsets@[i] == total_size(
                self.elems@.take(i),
            )
        &&& forall|i: int|
            0 <= i < self.elems@.len() ==> encoded_at(
                self.buf@,
                self.offsets@[i] as int,
                #[trigger] self.elems@[i],
            )
    }

    /// A well-formed container never overruns its buffer: the occupied
    /// bytes always fit the capacity, after any sequence of operations.
    pub proof fn lemma_fits(&self)
        requires
            self.wf(),
        ensures
            total_size(self@) <= self.cap(),
    {
    }

    /// Element `i` of a well-formed container lies between its offset and
    /// the offset of its successor (or the cursor), inside the buffer.
    proof fn lemma_extent(&self, i: int)
        requires
            self.wf(),
            0 <= i < self@.len(),
        ensures
            self.offsets@[i] == total_size(self@.take(i)),
            self.offsets@[i] + self@[i].enc().len() == total_size(self@.take(i + 1)),
            total_size(self@.take(i + 1)) <= self.cursor,
            i + 1 < self@.len() ==> self.offsets@[i + 1] == total_size(self@.take(i + 1)),
    {
        lemma_total_size_take_succ(self.elems@, i);
        lemma_total_size_take_mono(self.elems@, i + 1, self.elems@.len() as int);
        lemma_total_size_take_all(self.elems@);
    }

    /// Creates an empty container with the default initial capacity.
    pub fn new() -> (s: Self)
        ensures
            s.wf(),
            s@ == Seq::<T>::empty(),
            s.cap() == START_CAP,
    {
        Self::with_capacity(START_CAP)
    }

    /// Creates an empty container whose buffer holds `cap` bytes.
    pub fn with_capacity(cap: usize) -> (s: Self)
        ensures
            s.wf(),
            s@ == Seq::<T>::empty(),
            s.cap() == cap,
    {
        let mut buf: Vec<u8> = Vec::new();
        extend_zeroes(&mut buf, cap);
        let s = Self {
            buf,
            len: 0,
            cursor: 0,
            offsets: Vec::new(),
            elems: Ghost(Seq::empty()),
        };
        s
    }

    /// The number of elements currently stored.
    pub fn len(&self) -> (r: usize)
        requires
            self.wf(),
        ensures
            r == self@.len(),
    {
        self.len
    }

    /// The capacity of the backing buffer, in bytes.
    pub fn capacity(&self) -> (r: usize)
        ensures
            r == self.cap(),
    {
        self.buf.len()
    }

    /// The number of occupied bytes: the write cursor, which equals the
    /// packed size of the stored elements.
    pub fn occupied(&self) -> (r: usize)
        requires
            self.wf(),
        ensures
            r == total_size(self@),
    {
        self.cursor
    }

    /// Grows the buffer, doubling the capacity (repeatedly, if one doubling
    /// is not enough) until it strictly exceeds `needed` bytes. The logical
    /// contents are untouched.
    fn grow(&mut self, needed: usize)
        requires
            needed < usize::MAX,
        ensures
            final(self).buf@.len() > needed,
            final(self).buf@.len() >= old(self).buf@.len(),
            forall|k: int| 0 <= k < old(self).buf@.len() ==> final(self).buf@[k] == old(
                self,
            ).buf@[k],
            final(self).len == old(self).len,
            final(self).cursor == old(self).cursor,
            final(self).offsets == old(self).offsets,
            final(self).elems == old(self).elems,
    {
        let mut new_cap: usize = self.buf.len();
        if new_cap == 0 {
            new_cap = 1;
        }
        while new_cap <= needed
            invariant
                needed < usize::MAX,
                new_cap >= 1,
            decreases usize::MAX - new_cap,
        {
            if new_cap <= usize::MAX / 2 {
                new_cap = new_cap * 2;
            } else {
                new_cap = usize::MAX;
            }
        }
        if new_cap > self.buf.len() {
            extend_zeroes(&mut self.buf, new_cap);
        }
    }

    /// Appends `val`: encodes it at the cursor (growing the buffer first if
    /// the encoding would not leave room), records its offset, and advances
    /// the cursor past it.
    #[verifier::rlimit(50)]
    pub fn push(&mut self, val: T)
        requires
            old(self).wf(),
            old(self)@.len() < usize::MAX,
            total_size(old(self)@) + val.enc().len() < usize::MAX,
        ensures
            final(self).wf(),
            final(self)@ == old(self)@.push(val),
            total_size(final(self)@) == total_size(old(self)@) + val.enc().len(),
            final(self).cap() >= old(self).cap(),
    {
        let ghost es = self.elems@;
        let size = val.size();
        if self.cursor + size >= self.buf.len() {
            self.grow(self.cursor + size);
        }
        let ghost buf1 = self.buf@;
        proof {
            assert forall|i: int| 0 <= i < es.len() implies encoded_at(
                buf1,
                self.offsets@[i] as int,
                es[i],
            ) by {
                old(self).lemma_extent(i);
                assert(old(self).buf@.subrange(
                    self.offsets@[i] as int,
                    self.offsets@[i] + es[i].enc().len(),
                ) == es[i].enc());
                assert(buf1.subrange(
                    self.offsets@[i] as int,
                    self.offsets@[i] + es[i].enc().len(),
                ) =~= old(self).buf@.subrange(
                    self.offsets@[i] as int,
                    self.offsets@[i] + es[i].enc().len(),
                ));
            }
        }
        val.compress(&mut self.buf, self.cursor);
        self.offsets.push(self.cursor);
        self.cursor = self.cursor + size;
        self.len = self.len + 1;
        proof {
            self.elems@ = es.push(val);
            lemma_total_size_push(es, val);
            lemma_total_size_take_all(es);
            assert(es.push(val).take(es.len() as int) =~= es);
            assert forall|i: int| 0 <= i < self.elems@.len() implies #[trigger] self.offsets@[i]
                == total_size(self.elems@.take(i)) by {
                if i < es.len() {
                    assert(self.elems@.take(i) =~= es.take(i));
                    assert(old(self).offsets@[i] == total_size(es.take(i)));
                } else {
                    assert(self.elems@.take(i) =~= es);
                }
            }
            assert forall|i: int| 0 <= i < self.elems@.len() implies encoded_at(
                self.buf@,
                self.offsets@[i] as int,
                #[trigger] self.elems@[i],
            ) by {
                if i < es.len() {
                    lemma_total_size_take_succ(es, i);
                    lemma_total_size_take_mono(es, i + 1, es.len() as int);
                    assert(self.offsets@[i] + es[i].enc().len() <= total_size(es));
                    assert(self.buf@.subrange(
                        self.offsets@[i] as int,
                        self.offsets@[i] + es[i].enc().len(),
                    ) =~= buf1.subrange(
                        self.offsets@[i] as int,
                        self.offsets@[i] + es[i].enc().len(),
                    ));
                } else {
                    assert(self.elems@[i] == val);
                    assert(self.offsets@[i] == old(self).cursor);
                }
            }
        }
    }

    /// Returns the element at `index`, decoded afresh from the buffer, or
    /// nothing when `index` is out of range. Never mutates the container.
    pub fn get(&self, index: usize) -> (r: Option<T>)
        requires
            self.wf(),
        ensures
            index < self@.len() ==> r == Some(self@[index as int]),
            self@.len() <= index ==> r is None,
    {
        if index < self.len {
            proof {
                self.lemma_extent(index as int);
            }
            let v = T::uncompress(&self.buf, self.offsets[index]);
            proof {
                T::lemma_enc_unique(
                    self.buf@,
                    self.offsets@[index as int] as int,
                    v,
                    self.elems@[index as int],
                );
            }
            Some(v)
        } else {
            None
        }
    }

    /// Replaces element `index` by `val`, whose encoding may be wider or
    /// narrower than the `old_size` bytes stored there. A size change at
    /// `index` shifts the bytes of every following element by the constant
    /// difference and adjusts their offsets uniformly; the buffer grows
    /// first when a wider encoding would not leave room.
    fn replace(&mut self, index: usize, old_size: usize, val: T)
        requires
            old(self).wf(),
            index < old(self)@.len(),
            old_size == old(self)@[index as int].enc().len(),
            val.enc().len() > old_size ==> total_size(old(self)@) + val.enc().len() - old_size
                < usize::MAX,
        ensures
            final(self).wf(),
            final(self)@ == old(self)@.update(index as int, val),
            final(self).cap() >= old(self).cap(),
    {
        proof {
            old(self).lemma_extent(index as int);
            lemma_total_size_take_all(old(self)@);
            assert(old(self)@[index as int].enc().len() <= total_size(old(self)@));
        }
        let new_size = val.size();
        if new_size > old_size {
            self.replace_wider(index, old_size, val);
        } else if new_size < old_size {
            self.replace_narrower(index, old_size, val);
        } else {
            self.replace_same(index, old_size, val);
        }
    }

    /// The growing arm of the replace algorithm: the new encoding is wider,
    /// so the trailing bytes move forward by the size difference (none
    /// follow when `index` is the last element) before the new encoding is
    /// written over the old one.
    #[verifier::rlimit(100)]
    fn replace_wider(&mut self, index: usize, old_size: usize, val: T)
        requires
            old(self).wf(),
            index < old(self)@.len(),
            old_size == old(self)@[index as int].enc().len(),
            val.enc().len() > old_size,
            total_size(old(self)@) + val.enc().len() - old_size < usize::MAX,
        ensures
            final(self).wf(),
            final(self)@ == old(self)@.update(index as int, val),
            final(self).cap() >= old(self).cap(),
    {
        let ghost es = old(self).elems@;
        let ghost offs0 = old(self).offsets@;
        let ghost cursor0 = old(self).cursor as int;
        proof {
            old(self).lemma_extent(index as int);
            lemma_total_size_take_all(es);
        }
        let new_size = val.size();
        let delta = new_size - old_size;
        let ghost d = new_size - old_size as int;
        if self.cursor + delta >= self.buf.len() {
            self.grow(self.cursor + delta);
        }
        let ghost buf1 = self.buf@;
        let start = self.offsets[index];
        let ghost startg = start as int;
        if index + 1 < self.len {
            proof {
                old(self).lemma_extent(index as int + 1);
            }
            let src = start + old_size;
            let dst = start + new_size;
            let count = self.cursor - self.offsets[index + 1];
            copy_up(&mut self.buf, src, dst, count);
            proof {
                assert forall|j: int| index + 1 <= j < offs0.len() implies offs0[j] + delta
                    <= cursor0 + delta by {
                    old(self).lemma_extent(j);
                    lemma_total_size_take_mono(es, j, es.len() as int);
                }
            }
            bump_up(&mut self.offsets, index + 1, delta, self.cursor + delta);
        } else {
            proof {
                lemma_total_size_take_succ(es, index as int);
                assert(cursor0 == startg + old_size);
            }
            zero_range(&mut self.buf, start, old_size);
        }
        self.cursor = self.cursor + delta;
        val.compress(&mut self.buf, start);
        proof {
            self.elems@ = es.update(index as int, val);
            let nl = val.enc().len() as int;
            assert forall|k: int| 0 <= k < startg implies self.buf@[k] == buf1[k] by {}
            assert(self.buf@.subrange(startg, startg + nl) =~= val.enc());
            assert forall|k: int| startg + nl <= k < cursor0 + d implies self.buf@[k] == buf1[k
                - d] by {}
            lemma_layout_preserved(es, offs0, old(self).buf@, buf1);
            lemma_replace_layout(
                es,
                val,
                index as int,
                offs0,
                self.offsets@,
                buf1,
                self.buf@,
                cursor0,
            );
            assert(final(self)@ =~= old(self)@.update(index as int, val));
        }
    }

    /// The shrinking arm of the replace algorithm: the new encoding is
    /// narrower, so after it is written the trailing bytes move backward by
    /// the size difference and the freed bytes at the end are zeroed (only
    /// the freed bytes, when `index` is the last element).
    #[verifier::rlimit(100)]
    fn replace_narrower(&mut self, index: usize, old_size: usize, val: T)
        requires
            old(self).wf(),
            index < old(self)@.len(),
            old_size == old(self)@[index as int].enc().len(),
            val.enc().len() < old_size,
        ensures
            final(self).wf(),
            final(self)@ == old(self)@.update(index as int, val),
            final(self).cap() >= old(self).cap(),
    {
        let ghost es = old(self).elems@;
        let ghost offs0 = old(self).offsets@;
        let ghost cursor0 = old(self).cursor as int;
        let ghost buf1 = self.buf@;
        let new_size = val.size();
        let delta = old_size - new_size;
        let ghost d = new_size - old_size as int;
        proof {
            old(self).lemma_extent(index as int);
            lemma_total_size_take_all(es);
        }
        let start = self.offsets[index];
        let ghost startg = start as int;
        val.compress(&mut self.buf, start);
        let ghost buf2 = self.buf@;
        proof {
            assert(buf2.len() == buf1.len());
            assert(buf2.subrange(startg, startg + new_size as int) == val.enc());
        }
        if index + 1 < self.len {
            proof {
                old(self).lemma_extent(index as int + 1);
            }
            let src = start + old_size;
            let dst = start + new_size;
            let count = self.cursor - self.offsets[index + 1];
            copy_down(&mut self.buf, src, dst, count);
            zero_range(&mut self.buf, dst + count, delta);
            proof {
                assert forall|k: int| 0 <= k < startg + new_size implies self.buf@[k]
                    == buf2[k] by {}
                assert forall|k: int| startg + new_size <= k < cursor0 + d implies self.buf@[k]
                    == buf2[k + delta] by {}
                assert forall|j: int| index + 1 <= j < offs0.len() implies delta <= offs0[j] by {
                    old(self).lemma_extent(j);
                    lemma_total_size_take_mono(es, index as int + 1, j);
                }
            }
            bump_down(&mut self.offsets, index + 1, delta);
        } else {
            proof {
                lemma_total_size_take_succ(es, index as int);
                assert(cursor0 == startg + old_size);
            }
            zero_range(&mut self.buf, start + new_size, delta);
            proof {
                assert forall|k: int| 0 <= k < startg + new_size implies self.buf@[k]
                    == buf2[k] by {}
                assert forall|k: int| startg + new_size <= k < cursor0 + d implies self.buf@[k]
                    == buf2[k + delta] by {}
            }
        }
        self.cursor = self.cursor - delta;
        proof {
            self.elems@ = es.update(index as int, val);
            let nl = val.enc().len() as int;
            assert forall|k: int| 0 <= k < startg implies self.buf@[k] == buf1[k] by {
                assert(self.buf@[k] == buf2[k]);
            }
            assert(self.buf@.subrange(startg, startg + nl) =~= val.enc());
            assert forall|k: int| startg + nl <= k < cursor0 + d implies self.buf@[k] == buf1[k
                - d] by {
                assert(self.buf@[k] == buf2[k + delta]);
                assert(startg + old_size <= k + delta < buf1.len());
            }
            lemma_replace_layout(
                es,
                val,
                index as int,
                offs0,
                self.offsets@,
                buf1,
                self.buf@,
                cursor0,
            );
            assert(final(self)@ =~= old(self)@.update(index as int, val));
        }
    }

    /// The equal-size arm of the replace algorithm: the new encoding is
    /// written over the old one; nothing shifts, no offset changes.
    #[verifier::rlimit(100)]
    fn replace_same(&mut self, index: usize, old_size: usize, val: T)
        requires
            old(self).wf(),
            index < old(self)@.len(),
            old_size == old(self)@[index as int].enc().len(),
            val.enc().len() == old_size,
        ensures
            final(self).wf(),
            final(self)@ == old(self)@.update(index as int, val),
            final(self).cap() >= old(self).cap(),
    {
        let ghost es = old(self).elems@;
        let ghost offs0 = old(self).offsets@;
        let ghost cursor0 = old(self).cursor as int;
        let ghost buf1 = self.buf@;
        proof {
            old(self).lemma_extent(index as int);
            lemma_total_size_take_all(es);
        }
        let start = self.offsets[index];
        let ghost startg = start as int;
        val.compress(&mut self.buf, start);
        proof {
            self.elems@ = es.update(index as int, val);
            let nl = val.enc().len() as int;
            assert(self.buf@.subrange(startg, startg + nl) =~= val.enc());
            lemma_replace_layout(
                es,
                val,
                index as int,
                offs0,
                self.offsets@,
                buf1,
                self.buf@,
                cursor0,
            );
            assert(final(self)@ =~= old(self)@.update(index as int, val));
        }
    }

    /// Applies the pure transform `f` to the element at `index`, storing
    /// the result in place of the old value; every other element keeps its
    /// value. Does nothing when `index` is out of range.
    pub fn update<F: FnOnce(&T) -> T>(&mut self, index: usize, f: F)
        requires
            old(self).wf(),
            index < old(self)@.len() ==> call_requires(f, (&old(self)@[index as int],)),
            forall|w: T|
                index < old(self)@.len() && #[trigger] call_ensures(
                    f,
                    (&old(self)@[index as int],),
                    w,
                ) && w.enc().len() > old(self)@[index as int].enc().len() ==> total_size(
                    old(self)@,
                ) + w.enc().len() - old(self)@[index as int].enc().len() < usize::MAX,
        ensures
            final(self).wf(),
            old(self)@.len() <= index ==> final(self)@ == old(self)@,
            index < old(self)@.len() ==> exists|w: T|
                #[trigger] call_ensures(f, (&old(self)@[index as int],), w) && final(self)@ == old(
                    self,
                )@.update(index as int, w),
            final(self).cap() >= old(self).cap(),
    {
        if index >= self.len {
            return ;
        }
        proof {
            self.lemma_extent(index as int);
        }
        let before = T::uncompress(&self.buf, self.offsets[index]);
        proof {
            T::lemma_enc_unique(
                self.buf@,
                self.offsets@[index as int] as int,
                before,
                self.elems@[index as int],
            );
            assert(before == old(self)@[index as int]);
        }
        let old_size = before.size();
        let after = f(&before);
        self.replace(index, old_size, after);
    }
}

} // verus!
