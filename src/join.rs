//! Joins the decompressed parts into one continuous byte stream, decompressing
//! each part only when the reader gets to it.

use vstd::prelude::*;
use crate::gzip::{gunzip, gz_decompress};

verus! {

/// The decompressed contents of a sequence of parts, joined in order; `None`
/// if some part does not decompress.
pub open spec fn joined(parts: Seq<Seq<u8>>) -> Option<Seq<u8>>
    decreases parts.len(),
{
    if parts.len() == 0 {
        Some(Seq::empty())
    } else {
        match (gunzip(parts[0]), joined(parts.drop_first())) {
            (Some(a), Some(b)) => Some(a + b),
            _ => None,
        }
    }
}

/// Joining one more part appends what it decompresses to.
pub proof fn lemma_joined_push(parts: Seq<Seq<u8>>, p: Seq<u8>, a: Seq<u8>, d: Seq<u8>)
    requires
        joined(parts) == Some(a),
        gunzip(p) == Some(d),
    ensures
        joined(parts.push(p)) == Some(a + d),
    decreases parts.len(),
{
    if parts.len() == 0 {
        assert(parts.push(p).drop_first() =~= Seq::<Seq<u8>>::empty());
        assert(parts.push(p)[0] == p);
        assert(joined(Seq::<Seq<u8>>::empty()) == Some(Seq::<u8>::empty()));
        assert(a =~= Seq::<u8>::empty());
        assert(Seq::<u8>::empty() + d =~= d);
        assert(d + Seq::<u8>::empty() =~= d);
    } else {
        let a0 = gunzip(parts[0])->0;
        let rest = joined(parts.drop_first())->0;
        lemma_joined_push(parts.drop_first(), p, rest, d);
        assert(parts.push(p).drop_first() =~= parts.drop_first().push(p));
        assert(parts.push(p)[0] == parts[0]);
        assert(a0 + (rest + d) =~= (a0 + rest) + d);
    }
}

/// Joining one more part fails if the parts before it fail, or if it does.
pub proof fn lemma_joined_push_none(parts: Seq<Seq<u8>>, p: Seq<u8>)
    requires
        joined(parts) is None || gunzip(p) is None,
    ensures
        joined(parts.push(p)) is None,
    decreases parts.len(),
{
    if parts.len() == 0 {
        assert(parts.push(p)[0] == p);
    } else {
        assert(parts.push(p).drop_first() =~= parts.drop_first().push(p));
        assert(parts.push(p)[0] == parts[0]);
        if gunzip(parts[0]) is Some {
            lemma_joined_push_none(parts.drop_first(), p);
        }
    }
}

proof fn lemma_joined_skip(parts: Seq<Seq<u8>>, i: int)
    requires
        0 <= i < parts.len(),
    ensures
        joined(parts.skip(i)) == match (gunzip(parts[i]), joined(parts.skip(i + 1))) {
            (Some(a), Some(b)) => Some(a + b),
            _ => None,
        },
{
    assert(parts.skip(i).drop_first() =~= parts.skip(i + 1));
    assert(parts.skip(i)[0] == parts[i]);
}

/// A sequence of compressed parts read as the single stream of their
/// decompressed contents. Parts can be added while it is read; a part is let
/// go of once it has been decompressed.
pub struct Join {
    parts: Vec<Vec<u8>>,
    next: usize,
    current: Vec<u8>,
    pos: usize,
}

impl Join {
    pub closed spec fn wf(&self) -> bool {
        &&& self.pos <= self.current@.len()
        &&& self.next <= self.parts@.len()
    }

    /// The bytes not read yet, or `None` if a part still to be read does not
    /// decompress.
    pub closed spec fn stream(&self) -> Option<Seq<u8>> {
        match joined(self.parts.deep_view().skip(self.next as int)) {
            Some(s) => Some(self.current@.skip(self.pos as int) + s),
            None => None,
        }
    }

    /// Parts not opened yet.
    pub closed spec fn pending(&self) -> nat {
        (self.parts@.len() - self.next) as nat
    }

    /// Bytes left in the part being read.
    pub closed spec fn left(&self) -> nat {
        (self.current@.len() - self.pos) as nat
    }

    /// `self` is further along than `other`.
    pub open spec fn ahead_of(&self, other: &Join) -> bool {
        ||| self.pending() < other.pending()
        ||| (self.pending() == other.pending() && self.left() < other.left())
    }

    /// The joined stream of `parts`.
    pub fn new(parts: Vec<Vec<u8>>) -> (r: Join)
        ensures
            r.wf(),
            r.stream() == match joined(parts.deep_view()) {
                Some(s) => Some(s),
                None => None::<Seq<u8>>,
            },
    {
        let r = Join { parts, next: 0, current: Vec::new(), pos: 0 };
        proof {
            assert(r.parts.deep_view().skip(0) =~= r.parts.deep_view());
            if let Some(s) = joined(r.parts.deep_view()) {
                assert(r.current@.skip(0) + s =~= s);
            }
        }
        r
    }

    /// Appends a part to the sequence.
    pub fn push_part(&mut self, part: Vec<u8>)
        requires
            old(self).wf(),
        ensures
            final(self).wf(),
            old(self).stream() is Some && gunzip(part@) is Some ==> final(self).stream() == Some(
                old(self).stream()->0 + gunzip(part@)->0,
            ),
            old(self).stream() is None || gunzip(part@) is None ==> final(self).stream() is None,
    {
        let ghost before = self.parts.deep_view();
        let ghost pv = part@;
        self.parts.push(part);
        proof {
            let i = self.next as int;
            assert(self.parts@.last().deep_view() =~= pv);
            assert(self.parts.deep_view() =~= before.push(pv));
            assert(before.push(pv).skip(i) =~= before.skip(i).push(pv));
            if joined(before.skip(i)) is Some && gunzip(pv) is Some {
                let a = joined(before.skip(i))->0;
                lemma_joined_push(before.skip(i), pv, a, gunzip(pv)->0);
                assert(self.current@.skip(self.pos as int) + (a + gunzip(pv)->0) =~= (self.current@.skip(
                    self.pos as int,
                ) + a) + gunzip(pv)->0);
            } else {
                lemma_joined_push_none(before.skip(i), pv);
            }
        }
    }

    /// Reads the next byte of the joined stream, opening parts as needed.
    pub fn read_byte(&mut self) -> (r: Result<Option<u8>, std::io::Error>)
        requires
            old(self).wf(),
        ensures
            final(self).wf(),
            old(self).stream() is Some && old(self).stream()->0.len() == 0 ==> r matches Ok(None),
            old(self).stream() is Some && old(self).stream()->0.len() > 0 ==> (r matches Ok(Some(b))
                && b == old(self).stream()->0[0] && final(self).stream() == Some(old(self).stream()->0.drop_first())),
            old(self).stream() is None ==> (r is Err || (r matches Ok(Some(_)) && final(self).stream() is None)),
            r matches Ok(Some(_)) ==> final(self).ahead_of(old(self)),
    {
        while self.pos == self.current.len()
            invariant
                self.wf(),
                self.stream() == old(self).stream(),
                self.parts@.len() == old(self).parts@.len(),
                self.pending() < old(self).pending() || (self.pending() == old(self).pending() && self.left() == old(self).left()),
            decreases self.parts@.len() - self.next,
        {
            if self.next == self.parts.len() {
                proof {
                    assert(self.parts.deep_view().skip(self.next as int) =~= Seq::<Seq<u8>>::empty());
                    assert(self.current@.skip(self.pos as int) + Seq::<u8>::empty() =~= Seq::<u8>::empty());
                }
                return Ok(None);
            }
            let ghost ps = self.parts.deep_view();
            proof {
                lemma_joined_skip(ps, self.next as int);
                assert(self.current@.skip(self.pos as int) =~= Seq::<u8>::empty());
                assert(ps[self.next as int] == self.parts@[self.next as int]@);
            }
            let mut part: Vec<u8> = Vec::new();
            self.parts.set_and_swap(self.next, &mut part);
            proof {
                assert(part.deep_view() =~= ps[self.next as int]);
                assert(part@ =~= ps[self.next as int]);
                assert(self.parts.deep_view().skip(self.next + 1) =~= ps.skip(self.next + 1));
            }
            match gz_decompress(part.as_slice()) {
                Ok(v) => {
                    self.current = v;
                    self.pos = 0;
                    self.next = self.next + 1;
                    proof {
                        assert(self.current@.skip(0) =~= self.current@);
                    }
                },
                Err(e) => {
                    return Err(e);
                },
            }
        }
        let ghost before = self.stream();
        let b = self.current[self.pos];
        self.pos = self.pos + 1;
        proof {
            if let Some(s) = before {
                let rest = joined(self.parts.deep_view().skip(self.next as int))->0;
                assert(s.drop_first() =~= self.current@.skip(self.pos as int) + rest);
            }
        }
        Ok(Some(b))
    }
}

} // verus!
