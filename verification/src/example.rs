//! Example stored types: a tagged union whose variants encode to different
//! widths, and a few plain aggregates. A sum type encodes as one
//! discriminant byte followed by the encodings of the variant's fields in
//! declaration order; a unit variant is the tag byte alone. A product type
//! encodes as the concatenation of its fields' encodings, with no header.

use vstd::prelude::*;

use crate::bytes::lemma_le_bytes_len;
use crate::compress::lemma_concat_join;
use crate::compress::lemma_concat_split;
use crate::compress::Compress;

verus! {

/// A tagged union with variants of several encoded widths: a unit variant,
/// fixed-width integers, and payloads of a further storable type.
#[derive(Debug, Clone, PartialEq)]
pub enum Test<T: Compress> {
    Unit,
    Int8(u8),
    Int16(u16),
    Int32(u32),
    Int64(u64),
    T2(T),
    T3(T, u8),
    T4 { a: T, b: u8 },
}

/// The discriminant byte of a variant: its position in the declaration.
spec fn tag_of<T: Compress>(v: Test<T>) -> u8 {
    match v {
        Test::Unit => 0,
        Test::Int8(_) => 1,
        Test::Int16(_) => 2,
        Test::Int32(_) => 3,
        Test::Int64(_) => 4,
        Test::T2(_) => 5,
        Test::T3(_, _) => 6,
        Test::T4 { .. } => 7,
    }
}

proof fn lemma_u8_len(x: u8)
    ensures
        x.enc().len() == 1,
{
    lemma_le_bytes_len(x as nat, 1);
}

proof fn lemma_u16_len(x: u16)
    ensures
        x.enc().len() == 2,
{
    lemma_le_bytes_len(x as nat, 2);
}

proof fn lemma_u32_len(x: u32)
    ensures
        x.enc().len() == 4,
{
    lemma_le_bytes_len(x as nat, 4);
}

proof fn lemma_u64_len(x: u64)
    ensures
        x.enc().len() == 8,
{
    lemma_le_bytes_len(x as nat, 8);
}

/// Every encoding of the tagged union starts with its discriminant byte.
proof fn lemma_test_first<T: Compress>(v: Test<T>)
    ensures
        v.enc().len() >= 1,
        v.enc()[0] == tag_of(v),
{
}

impl<T: Compress> Compress for Test<T> {
    open spec fn enc(&self) -> Seq<u8> {
        match self {
            Test::Unit => seq![0u8],
            Test::Int8(x) => seq![1u8].add(x.enc()),
            Test::Int16(x) => seq![2u8].add(x.enc()),
            Test::Int32(x) => seq![3u8].add(x.enc()),
            Test::Int64(x) => seq![4u8].add(x.enc()),
            Test::T2(t) => seq![5u8].add(t.enc()),
            Test::T3(t, b) => seq![6u8].add(t.enc()).add(b.enc()),
            Test::T4 { a, b } => seq![7u8].add(a.enc()).add(b.enc()),
        }
    }

    #[verifier::rlimit(100)]
    proof fn lemma_enc_unique(s: Seq<u8>, pos: int, a: Self, b: Self) {
        lemma_test_first(a);
        lemma_test_first(b);
        assert(a.enc()[0] == s[pos]) by {
            assert(s.subrange(pos, pos + a.enc().len() as int)[0] == s[pos]);
        }
        assert(b.enc()[0] == s[pos]) by {
            assert(s.subrange(pos, pos + b.enc().len() as int)[0] == s[pos]);
        }
        assert(tag_of(a) == tag_of(b));
        match (a, b) {
            (Test::Unit, Test::Unit) => {
            }
            (Test::Int8(x), Test::Int8(y)) => {
                lemma_u8_len(x);
                lemma_u8_len(y);
                lemma_concat_split(s, pos, seq![1u8], x.enc());
                lemma_concat_split(s, pos, seq![1u8], y.enc());
                u8::lemma_enc_unique(s, pos + 1, x, y);
            }
            (Test::Int16(x), Test::Int16(y)) => {
                lemma_u16_len(x);
                lemma_u16_len(y);
                lemma_concat_split(s, pos, seq![2u8], x.enc());
                lemma_concat_split(s, pos, seq![2u8], y.enc());
                u16::lemma_enc_unique(s, pos + 1, x, y);
            }
            (Test::Int32(x), Test::Int32(y)) => {
                lemma_u32_len(x);
                lemma_u32_len(y);
                lemma_concat_split(s, pos, seq![3u8], x.enc());
                lemma_concat_split(s, pos, seq![3u8], y.enc());
                u32::lemma_enc_unique(s, pos + 1, x, y);
            }
            (Test::Int64(x), Test::Int64(y)) => {
                lemma_u64_len(x);
                lemma_u64_len(y);
                lemma_concat_split(s, pos, seq![4u8], x.enc());
                lemma_concat_split(s, pos, seq![4u8], y.enc());
                u64::lemma_enc_unique(s, pos + 1, x, y);
            }
            (Test::T2(x), Test::T2(y)) => {
                lemma_concat_split(s, pos, seq![5u8], x.enc());
                lemma_concat_split(s, pos, seq![5u8], y.enc());
                T::lemma_enc_unique(s, pos + 1, x, y);
            }
            (Test::T3(x, p), Test::T3(y, q)) => {
                lemma_u8_len(p);
                lemma_u8_len(q);
                assert(a.enc() =~= seq![6u8].add(x.enc().add(p.enc())));
                assert(b.enc() =~= seq![6u8].add(y.enc().add(q.enc())));
                lemma_concat_split(s, pos, seq![6u8], x.enc().add(p.enc()));
                lemma_concat_split(s, pos + 1, x.enc(), p.enc());
                lemma_concat_split(s, pos, seq![6u8], y.enc().add(q.enc()));
                lemma_concat_split(s, pos + 1, y.enc(), q.enc());
                T::lemma_enc_unique(s, pos + 1, x, y);
                u8::lemma_enc_unique(s, pos + 1 + x.enc().len(), p, q);
            }
            (Test::T4 { a: x, b: p }, Test::T4 { a: y, b: q }) => {
                lemma_u8_len(p);
                lemma_u8_len(q);
                assert(a.enc() =~= seq![7u8].add(x.enc().add(p.enc())));
                assert(b.enc() =~= seq![7u8].add(y.enc().add(q.enc())));
                lemma_concat_split(s, pos, seq![7u8], x.enc().add(p.enc()));
                lemma_concat_split(s, pos + 1, x.enc(), p.enc());
                lemma_concat_split(s, pos, seq![7u8], y.enc().add(q.enc()));
                lemma_concat_split(s, pos + 1, y.enc(), q.enc());
                T::lemma_enc_unique(s, pos + 1, x, y);
                u8::lemma_enc_unique(s, pos + 1 + x.enc().len(), p, q);
            }
            _ => {
                assert(false);
            }
        }
    }

    fn size(&self) -> (r: usize) {
        match self {
            Test::Unit => 1,
            Test::Int8(x) => {
                proof {
                    lemma_u8_len(*x);
                }
                1 + x.size()
            }
            Test::Int16(x) => {
                proof {
                    lemma_u16_len(*x);
                }
                1 + x.size()
            }
            Test::Int32(x) => {
                proof {
                    lemma_u32_len(*x);
                }
                1 + x.size()
            }
            Test::Int64(x) => {
                proof {
                    lemma_u64_len(*x);
                }
                1 + x.size()
            }
            Test::T2(t) => 1 + t.size(),
            Test::T3(t, b) => {
                proof {
                    lemma_u8_len(*b);
                }
                let st = t.size();
                1 + st + b.size()
            }
            Test::T4 { a, b } => {
                proof {
                    lemma_u8_len(*b);
                }
                let st = a.size();
                1 + st + b.size()
            }
        }
    }

    #[verifier::rlimit(100)]
    fn compress(&self, dest: &mut Vec<u8>, pos: usize) {
        match self {
            Test::Unit => {
                dest.set(pos, 0);
                proof {
                    assert(dest@.subrange(pos as int, pos + 1) =~= self.enc());
                }
            }
            Test::Int8(x) => {
                proof {
                    lemma_u8_len(*x);
                }
                dest.set(pos, 1);
                x.compress(dest, pos + 1);
                proof {
                    assert(dest@.subrange(pos as int, pos + 2) =~= self.enc());
                }
            }
            Test::Int16(x) => {
                proof {
                    lemma_u16_len(*x);
                }
                dest.set(pos, 2);
                x.compress(dest, pos + 1);
                proof {
                    assert(dest@.subrange(pos as int, pos + 3) =~= self.enc());
                }
            }
            Test::Int32(x) => {
                proof {
                    lemma_u32_len(*x);
                }
                dest.set(pos, 3);
                x.compress(dest, pos + 1);
                proof {
                    assert(dest@.subrange(pos as int, pos + 5) =~= self.enc());
                }
            }
            Test::Int64(x) => {
                proof {
                    lemma_u64_len(*x);
                }
                dest.set(pos, 4);
                x.compress(dest, pos + 1);
                proof {
                    assert(dest@.subrange(pos as int, pos + 9) =~= self.enc());
                }
            }
            Test::T2(t) => {
                dest.set(pos, 5);
                t.compress(dest, pos + 1);
                proof {
                    assert(dest@.subrange(pos as int, pos + self.enc().len()) =~= self.enc());
                }
            }
            Test::T3(t, b) => {
                proof {
                    lemma_u8_len(*b);
                }
                dest.set(pos, 6);
                t.compress(dest, pos + 1);
                let ghost mid = dest@;
                let st = t.size();
                b.compress(dest, pos + 1 + st);
                proof {
                    assert(dest@.subrange(pos as int + 1, pos + 1 + t.enc().len() as int)
                        =~= mid.subrange(pos as int + 1, pos + 1 + t.enc().len() as int));
                    assert(dest@.subrange(pos as int, pos + self.enc().len()) =~= self.enc());
                }
            }
            Test::T4 { a, b } => {
                proof {
                    lemma_u8_len(*b);
                }
                dest.set(pos, 7);
                a.compress(dest, pos + 1);
                let ghost mid = dest@;
                let st = a.size();
                b.compress(dest, pos + 1 + st);
                proof {
                    assert(dest@.subrange(pos as int + 1, pos + 1 + a.enc().len() as int)
                        =~= mid.subrange(pos as int + 1, pos + 1 + a.enc().len() as int));
                    assert(dest@.subrange(pos as int, pos + self.enc().len()) =~= self.enc());
                }
            }
        }
    }

    #[verifier::rlimit(100)]
    fn uncompress(src: &Vec<u8>, pos: usize) -> (r: Self) {
        let ghost w = choose|v: Test<T>|
            pos + v.enc().len() <= src@.len() && src@.subrange(
                pos as int,
                pos + v.enc().len() as int,
            ) == v.enc();
        proof {
            lemma_test_first(w);
            assert(src@.subrange(pos as int, pos + w.enc().len() as int)[0] == src@[pos as int]);
            assert(src@[pos as int] == tag_of(w));
        }
        let n = src.len();
        let tag = src[pos];
        if tag == 0 {
            proof {
                match w {
                    Test::Unit => {
                    }
                    _ => {
                        assert(false);
                    }
                }
            }
            Test::Unit
        } else if tag == 1 {
            proof {
                match w {
                    Test::Int8(x0) => {
                        lemma_u8_len(x0);
                        lemma_concat_split(src@, pos as int, seq![1u8], x0.enc());
                    }
                    _ => {
                        assert(false);
                    }
                }
            }
            let x = u8::uncompress(src, pos + 1);
            proof {
                lemma_u8_len(x);
                assert(src@.subrange(pos as int, pos + 1) =~= seq![1u8]);
                lemma_concat_join(src@, pos as int, seq![1u8], x.enc());
            }
            Test::Int8(x)
        } else if tag == 2 {
            proof {
                match w {
                    Test::Int16(x0) => {
                        lemma_u16_len(x0);
                        lemma_concat_split(src@, pos as int, seq![2u8], x0.enc());
                    }
                    _ => {
                        assert(false);
                    }
                }
            }
            let x = u16::uncompress(src, pos + 1);
            proof {
                lemma_u16_len(x);
                assert(src@.subrange(pos as int, pos + 1) =~= seq![2u8]);
                lemma_concat_join(src@, pos as int, seq![2u8], x.enc());
            }
            Test::Int16(x)
        } else if tag == 3 {
            proof {
                match w {
                    Test::Int32(x0) => {
                        lemma_u32_len(x0);
                        lemma_concat_split(src@, pos as int, seq![3u8], x0.enc());
                    }
                    _ => {
                        assert(false);
                    }
                }
            }
            let x = u32::uncompress(src, pos + 1);
            proof {
                lemma_u32_len(x);
                assert(src@.subrange(pos as int, pos + 1) =~= seq![3u8]);
                lemma_concat_join(src@, pos as int, seq![3u8], x.enc());
            }
            Test::Int32(x)
        } else if tag == 4 {
            proof {
                match w {
                    Test::Int64(x0) => {
                        lemma_u64_len(x0);
                        lemma_concat_split(src@, pos as int, seq![4u8], x0.enc());
                    }
                    _ => {
                        assert(false);
                    }
                }
            }
            let x = u64::uncompress(src, pos + 1);
            proof {
                lemma_u64_len(x);
                assert(src@.subrange(pos as int, pos + 1) =~= seq![4u8]);
                lemma_concat_join(src@, pos as int, seq![4u8], x.enc());
            }
            Test::Int64(x)
        } else if tag == 5 {
            proof {
                match w {
                    Test::T2(t0) => {
                        lemma_concat_split(src@, pos as int, seq![5u8], t0.enc());
                    }
                    _ => {
                        assert(false);
                    }
                }
            }
            let t = T::uncompress(src, pos + 1);
            proof {
                assert(src@.subrange(pos as int, pos + 1) =~= seq![5u8]);
                lemma_concat_join(src@, pos as int, seq![5u8], t.enc());
            }
            Test::T2(t)
        } else if tag == 6 {
            proof {
                match w {
                    Test::T3(t0, b0) => {
                        assert(w.enc() =~= seq![6u8].add(t0.enc().add(b0.enc())));
                        lemma_concat_split(src@, pos as int, seq![6u8], t0.enc().add(b0.enc()));
                        lemma_concat_split(src@, pos as int + 1, t0.enc(), b0.enc());
                    }
                    _ => {
                        assert(false);
                    }
                }
            }
            let t = T::uncompress(src, pos + 1);
            proof {
                match w {
                    Test::T3(t0, b0) => {
                        lemma_u8_len(b0);
                        lemma_concat_split(src@, pos as int, seq![6u8], t0.enc().add(b0.enc()));
                        lemma_concat_split(src@, pos as int + 1, t0.enc(), b0.enc());
                        T::lemma_enc_unique(src@, pos as int + 1, t, t0);
                    }
                    _ => {
                        assert(false);
                    }
                }
            }
            let st = t.size();
            let b = u8::uncompress(src, pos + 1 + st);
            proof {
                lemma_u8_len(b);
                lemma_concat_join(src@, pos as int + 1, t.enc(), b.enc());
                assert(src@.subrange(pos as int, pos + 1) =~= seq![6u8]);
                lemma_concat_join(src@, pos as int, seq![6u8], t.enc().add(b.enc()));
                assert(Test::T3(t, b).enc() =~= seq![6u8].add(t.enc().add(b.enc())));
            }
            Test::T3(t, b)
        } else {
            proof {
                match w {
                    Test::T4 { a: t0, b: b0 } => {
                        assert(w.enc() =~= seq![7u8].add(t0.enc().add(b0.enc())));
                        lemma_concat_split(src@, pos as int, seq![7u8], t0.enc().add(b0.enc()));
                        lemma_concat_split(src@, pos as int + 1, t0.enc(), b0.enc());
                    }
                    _ => {
                        assert(false);
                    }
                }
            }
            let t = T::uncompress(src, pos + 1);
            proof {
                match w {
                    Test::T4 { a: t0, b: b0 } => {
                        lemma_u8_len(b0);
                        lemma_concat_split(src@, pos as int, seq![7u8], t0.enc().add(b0.enc()));
                        lemma_concat_split(src@, pos as int + 1, t0.enc(), b0.enc());
                        T::lemma_enc_unique(src@, pos as int + 1, t, t0);
                    }
                    _ => {
                        assert(false);
                    }
                }
            }
            let st = t.size();
            let b = u8::uncompress(src, pos + 1 + st);
            proof {
                lemma_u8_len(b);
                lemma_concat_join(src@, pos as int + 1, t.enc(), b.enc());
                assert(src@.subrange(pos as int, pos + 1) =~= seq![7u8]);
                lemma_concat_join(src@, pos as int, seq![7u8], t.enc().add(b.enc()));
                assert((Test::T4 { a: t, b }).enc() =~= seq![7u8].add(t.enc().add(b.enc())));
            }
            Test::T4 { a: t, b }
        }
    }

    #[verifier::rlimit(100)]
    fn read_size(src: &Vec<u8>, pos: usize) -> (r: usize) {
        let ghost w = choose|v: Test<T>|
            pos + v.enc().len() <= src@.len() && src@.subrange(
                pos as int,
                pos + v.enc().len() as int,
            ) == v.enc();
        proof {
            lemma_test_first(w);
            assert(src@.subrange(pos as int, pos + w.enc().len() as int)[0] == src@[pos as int]);
            assert(src@[pos as int] == tag_of(w));
        }
        let n = src.len();
        let tag = src[pos];
        let r: usize = if tag == 0 {
            1
        } else if tag == 1 {
            proof {
                match w {
                    Test::Int8(x0) => {
                        lemma_u8_len(x0);
                    }
                    _ => {
                        assert(false);
                    }
                }
            }
            2
        } else if tag == 2 {
            proof {
                match w {
                    Test::Int16(x0) => {
                        lemma_u16_len(x0);
                    }
                    _ => {
                        assert(false);
                    }
                }
            }
            3
        } else if tag == 3 {
            proof {
                match w {
                    Test::Int32(x0) => {
                        lemma_u32_len(x0);
                    }
                    _ => {
                        assert(false);
                    }
                }
            }
            5
        } else if tag == 4 {
            proof {
                match w {
                    Test::Int64(x0) => {
                        lemma_u64_len(x0);
                    }
                    _ => {
                        assert(false);
                    }
                }
            }
            9
        } else if tag == 5 {
            proof {
                match w {
                    Test::T2(t0) => {
                        lemma_concat_split(src@, pos as int, seq![5u8], t0.enc());
                    }
                    _ => {
                        assert(false);
                    }
                }
            }
            let st = T::read_size(src, pos + 1);
            proof {
                match w {
                    Test::T2(t0) => {
                        lemma_concat_split(src@, pos as int, seq![5u8], t0.enc());
                        assert(st == t0.enc().len());
                    }
                    _ => {
                        assert(false);
                    }
                }
            }
            1 + st
        } else if tag == 6 {
            proof {
                match w {
                    Test::T3(t0, b0) => {
                        assert(w.enc() =~= seq![6u8].add(t0.enc().add(b0.enc())));
                        lemma_concat_split(src@, pos as int, seq![6u8], t0.enc().add(b0.enc()));
                        lemma_concat_split(src@, pos as int + 1, t0.enc(), b0.enc());
                    }
                    _ => {
                        assert(false);
                    }
                }
            }
            let st = T::read_size(src, pos + 1);
            proof {
                match w {
                    Test::T3(t0, b0) => {
                        lemma_u8_len(b0);
                        assert(w.enc() =~= seq![6u8].add(t0.enc().add(b0.enc())));
                        lemma_concat_split(src@, pos as int, seq![6u8], t0.enc().add(b0.enc()));
                        lemma_concat_split(src@, pos as int + 1, t0.enc(), b0.enc());
                        assert(st == t0.enc().len());
                    }
                    _ => {
                        assert(false);
                    }
                }
            }
            2 + st
        } else {
            proof {
                match w {
                    Test::T4 { a: t0, b: b0 } => {
                        assert(w.enc() =~= seq![7u8].add(t0.enc().add(b0.enc())));
                        lemma_concat_split(src@, pos as int, seq![7u8], t0.enc().add(b0.enc()));
                        lemma_concat_split(src@, pos as int + 1, t0.enc(), b0.enc());
                    }
                    _ => {
                        assert(false);
                    }
                }
            }
            let st = T::read_size(src, pos + 1);
            proof {
                match w {
                    Test::T4 { a: t0, b: b0 } => {
                        lemma_u8_len(b0);
                        assert(w.enc() =~= seq![7u8].add(t0.enc().add(b0.enc())));
                        lemma_concat_split(src@, pos as int, seq![7u8], t0.enc().add(b0.enc()));
                        lemma_concat_split(src@, pos as int + 1, t0.enc(), b0.enc());
                        assert(st == t0.enc().len());
                    }
                    _ => {
                        assert(false);
                    }
                }
            }
            2 + st
        };
        proof {
            assert(r == w.enc().len());
            assert forall|v: Test<T>|
                pos + v.enc().len() <= src@.len() && src@.subrange(
                    pos as int,
                    pos + v.enc().len() as int,
                ) == v.enc() implies r == v.enc().len() by {
                Self::lemma_enc_unique(src@, pos as int, v, w);
            }
        }
        r
    }
}

/// A plain aggregate of three bytes; it encodes as their concatenation,
/// with no header byte.
#[derive(Debug, Clone, PartialEq)]
pub struct NamedStruct {
    pub a: u8,
    pub b: u8,
    pub c: u8,
}

impl Compress for NamedStruct {
    open spec fn enc(&self) -> Seq<u8> {
        self.a.enc().add(self.b.enc()).add(self.c.enc())
    }

    #[verifier::rlimit(100)]
    proof fn lemma_enc_unique(s: Seq<u8>, pos: int, a: Self, b: Self) {
        lemma_u8_len(a.a);
        lemma_u8_len(a.b);
        lemma_u8_len(a.c);
        lemma_u8_len(b.a);
        lemma_u8_len(b.b);
        lemma_u8_len(b.c);
        lemma_concat_split(s, pos, a.a.enc().add(a.b.enc()), a.c.enc());
        lemma_concat_split(s, pos, a.a.enc(), a.b.enc());
        lemma_concat_split(s, pos, b.a.enc().add(b.b.enc()), b.c.enc());
        lemma_concat_split(s, pos, b.a.enc(), b.b.enc());
        u8::lemma_enc_unique(s, pos, a.a, b.a);
        u8::lemma_enc_unique(s, pos + 1, a.b, b.b);
        u8::lemma_enc_unique(s, pos + 2, a.c, b.c);
    }

    fn size(&self) -> (r: usize) {
        proof {
            lemma_u8_len(self.a);
            lemma_u8_len(self.b);
            lemma_u8_len(self.c);
        }
        self.a.size() + self.b.size() + self.c.size()
    }

    #[verifier::rlimit(100)]
    fn compress(&self, dest: &mut Vec<u8>, pos: usize) {
        proof {
            lemma_u8_len(self.a);
            lemma_u8_len(self.b);
            lemma_u8_len(self.c);
        }
        self.a.compress(dest, pos);
        self.b.compress(dest, pos + 1);
        let ghost mid = dest@;
        self.c.compress(dest, pos + 2);
        proof {
            assert(dest@.subrange(pos as int, pos + 1) =~= mid.subrange(pos as int, pos + 1));
            assert(dest@.subrange(pos as int, pos + 3) =~= self.enc());
        }
    }

    #[verifier::rlimit(100)]
    fn uncompress(src: &Vec<u8>, pos: usize) -> (r: Self) {
        let ghost w = choose|v: NamedStruct|
            pos + v.enc().len() <= src@.len() && src@.subrange(
                pos as int,
                pos + v.enc().len() as int,
            ) == v.enc();
        proof {
            lemma_u8_len(w.a);
            lemma_u8_len(w.b);
            lemma_u8_len(w.c);
            lemma_concat_split(src@, pos as int, w.a.enc().add(w.b.enc()), w.c.enc());
            lemma_concat_split(src@, pos as int, w.a.enc(), w.b.enc());
        }
        let n = src.len();
        let fa = u8::uncompress(src, pos);
        let fb = u8::uncompress(src, pos + 1);
        let fc = u8::uncompress(src, pos + 2);
        proof {
            lemma_u8_len(fa);
            lemma_u8_len(fb);
            lemma_u8_len(fc);
            lemma_concat_join(src@, pos as int, fa.enc(), fb.enc());
            lemma_concat_join(src@, pos as int, fa.enc().add(fb.enc()), fc.enc());
        }
        NamedStruct { a: fa, b: fb, c: fc }
    }

    fn read_size(src: &Vec<u8>, pos: usize) -> (r: usize) {
        proof {
            assert forall|v: NamedStruct| true implies v.enc().len() == 3 by {
                lemma_u8_len(v.a);
                lemma_u8_len(v.b);
                lemma_u8_len(v.c);
            }
        }
        3
    }
}

/// A plain aggregate with no fields; it encodes as no bytes at all.
#[derive(Debug, Clone, PartialEq)]
pub struct EmptyStruct;

impl Compress for EmptyStruct {
    open spec fn enc(&self) -> Seq<u8> {
        Seq::empty()
    }

    proof fn lemma_enc_unique(s: Seq<u8>, pos: int, a: Self, b: Self) {
    }

    fn size(&self) -> (r: usize) {
        0
    }

    fn compress(&self, dest: &mut Vec<u8>, pos: usize) {
        proof {
            assert(dest@.subrange(pos as int, pos as int) =~= Seq::<u8>::empty());
        }
    }

    fn uncompress(src: &Vec<u8>, pos: usize) -> (r: Self) {
        proof {
            assert(src@.subrange(pos as int, pos as int) =~= Seq::<u8>::empty());
        }
        EmptyStruct
    }

    fn read_size(src: &Vec<u8>, pos: usize) -> (r: usize) {
        0
    }
}

/// A plain aggregate of four integers of growing width; it encodes as the
/// concatenation of their encodings, fifteen bytes in all.
#[derive(Debug, Clone, PartialEq)]
pub struct UnnamedStruct(pub u8, pub u16, pub u32, pub u64);

impl Compress for UnnamedStruct {
    open spec fn enc(&self) -> Seq<u8> {
        self.0.enc().add(self.1.enc()).add(self.2.enc()).add(self.3.enc())
    }

    #[verifier::rlimit(100)]
    proof fn lemma_enc_unique(s: Seq<u8>, pos: int, a: Self, b: Self) {
        lemma_u8_len(a.0);
        lemma_u16_len(a.1);
        lemma_u32_len(a.2);
        lemma_u64_len(a.3);
        lemma_u8_len(b.0);
        lemma_u16_len(b.1);
        lemma_u32_len(b.2);
        lemma_u64_len(b.3);
        lemma_concat_split(s, pos, a.0.enc().add(a.1.enc()).add(a.2.enc()), a.3.enc());
        lemma_concat_split(s, pos, a.0.enc().add(a.1.enc()), a.2.enc());
        lemma_concat_split(s, pos, a.0.enc(), a.1.enc());
        lemma_concat_split(s, pos, b.0.enc().add(b.1.enc()).add(b.2.enc()), b.3.enc());
        lemma_concat_split(s, pos, b.0.enc().add(b.1.enc()), b.2.enc());
        lemma_concat_split(s, pos, b.0.enc(), b.1.enc());
        u8::lemma_enc_unique(s, pos, a.0, b.0);
        u16::lemma_enc_unique(s, pos + 1, a.1, b.1);
        u32::lemma_enc_unique(s, pos + 3, a.2, b.2);
        u64::lemma_enc_unique(s, pos + 7, a.3, b.3);
    }

    fn size(&self) -> (r: usize) {
        proof {
            lemma_u8_len(self.0);
            lemma_u16_len(self.1);
            lemma_u32_len(self.2);
            lemma_u64_len(self.3);
        }
        self.0.size() + self.1.size() + self.2.size() + self.3.size()
    }

    #[verifier::rlimit(100)]
    fn compress(&self, dest: &mut Vec<u8>, pos: usize) {
        proof {
            lemma_u8_len(self.0);
            lemma_u16_len(self.1);
            lemma_u32_len(self.2);
            lemma_u64_len(self.3);
        }
        self.0.compress(dest, pos);
        self.1.compress(dest, pos + 1);
        let ghost mid1 = dest@;
        self.2.compress(dest, pos + 3);
        let ghost mid2 = dest@;
        self.3.compress(dest, pos + 7);
        proof {
            assert(mid2.subrange(pos as int, pos + 3) =~= mid1.subrange(pos as int, pos + 3));
            assert(dest@.subrange(pos as int, pos + 7) =~= mid2.subrange(pos as int, pos + 7));
            assert(dest@.subrange(pos as int, pos + 15) =~= self.enc());
        }
    }

    #[verifier::rlimit(100)]
    fn uncompress(src: &Vec<u8>, pos: usize) -> (r: Self) {
        let ghost w = choose|v: UnnamedStruct|
            pos + v.enc().len() <= src@.len() && src@.subrange(
                pos as int,
                pos + v.enc().len() as int,
            ) == v.enc();
        proof {
            lemma_u8_len(w.0);
            lemma_u16_len(w.1);
            lemma_u32_len(w.2);
            lemma_u64_len(w.3);
            lemma_concat_split(src@, pos as int, w.0.enc().add(w.1.enc()).add(w.2.enc()), w.3.enc());
            lemma_concat_split(src@, pos as int, w.0.enc().add(w.1.enc()), w.2.enc());
            lemma_concat_split(src@, pos as int, w.0.enc(), w.1.enc());
        }
        let n = src.len();
        let f0 = u8::uncompress(src, pos);
        let f1 = u16::uncompress(src, pos + 1);
        let f2 = u32::uncompress(src, pos + 3);
        let f3 = u64::uncompress(src, pos + 7);
        proof {
            lemma_u8_len(f0);
            lemma_u16_len(f1);
            lemma_u32_len(f2);
            lemma_u64_len(f3);
            lemma_concat_join(src@, pos as int, f0.enc(), f1.enc());
            lemma_concat_join(src@, pos as int, f0.enc().add(f1.enc()), f2.enc());
            lemma_concat_join(src@, pos as int, f0.enc().add(f1.enc()).add(f2.enc()), f3.enc());
        }
        UnnamedStruct(f0, f1, f2, f3)
    }

    fn read_size(src: &Vec<u8>, pos: usize) -> (r: usize) {
        proof {
            assert forall|v: UnnamedStruct| true implies v.enc().len() == 15 by {
                lemma_u8_len(v.0);
                lemma_u16_len(v.1);
                lemma_u32_len(v.2);
                lemma_u64_len(v.3);
            }
        }
        15
    }
}

} // verus!
