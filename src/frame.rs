//! The framed stream: each record is written as a LEB128 length marker
//! followed by the record's bytes, frames back to back with no padding.

use vstd::prelude::*;

verus! {

/// Longest length marker accepted when reading: ten groups of seven bits
/// cover every `u64`.
pub const MAX_MARKER_LEN: usize = 10;

/// The LEB128 encoding of `n`: seven bits per byte, least significant group
/// first, the high bit set on every byte but the last.
pub open spec fn varint(n: nat) -> Seq<u8>
    decreases n,
{
    if n < 128 {
        seq![n as u8]
    } else {
        seq![((n % 128) + 128) as u8] + varint(n / 128)
    }
}

/// One frame: the record's length marker, then the record itself.
pub open spec fn frame(r: Seq<u8>) -> Seq<u8> {
    varint(r.len()) + r
}

/// The framed stream of a whole record sequence.
pub open spec fn framed(rs: Seq<Seq<u8>>) -> Seq<u8>
    decreases rs.len(),
{
    if rs.len() == 0 {
        Seq::empty()
    } else {
        frame(rs[0]) + framed(rs.drop_first())
    }
}

/// The number represented by marker bytes, least significant group first.
pub open spec fn marker_value(s: Seq<u8>) -> nat
    decreases s.len(),
{
    if s.len() == 0 {
        0
    } else {
        (s[0] % 128) as nat + 128 * marker_value(s.drop_first())
    }
}

/// Length of the marker at the start of `s`: up to and including the first
/// byte whose high bit is clear (`None` if there is no such byte).
pub open spec fn marker_len(s: Seq<u8>) -> Option<nat>
    decreases s.len(),
{
    if s.len() == 0 {
        None
    } else if s[0] < 128 {
        Some(1)
    } else {
        match marker_len(s.drop_first()) {
            Some(k) => Some(k + 1),
            None => None,
        }
    }
}

/// The frame at the start of a non-empty stream: the record and the number of
/// bytes the frame takes. `None` when the stream is malformed there: the
/// marker is unterminated, longer than `MAX_MARKER_LEN` bytes or above
/// `u64::MAX`, or fewer bytes follow it than it declares.
pub open spec fn parse_frame(s: Seq<u8>) -> Option<(Seq<u8>, nat)> {
    match marker_len(s) {
        Some(k) => {
            let n = marker_value(s.take(k as int));
            if k <= MAX_MARKER_LEN && n <= u64::MAX && k + n <= s.len() {
                Some((s.subrange(k as int, (k + n) as int), k + n))
            } else {
                None
            }
        },
        None => None,
    }
}

/// The records of a framed stream, or `None` if it is malformed anywhere.
pub open spec fn unframe(s: Seq<u8>) -> Option<Seq<Seq<u8>>>
    decreases s.len(),
{
    if s.len() == 0 {
        Some(Seq::empty())
    } else {
        match parse_frame(s) {
            Some((r, k)) => if 0 < k <= s.len() {
                match unframe(s.skip(k as int)) {
                    Some(rest) => Some(seq![r] + rest),
                    None => None,
                }
            } else {
                None
            },
            None => None,
        }
    }
}

/// `128` to the power `k`.
pub open spec fn pow128(k: nat) -> nat
    decreases k,
{
    if k == 0 {
        1
    } else {
        128 * pow128((k - 1) as nat)
    }
}

proof fn lemma_varint_len(n: nat, k: nat)
    requires
        k >= 1,
        n < pow128(k),
    ensures
        1 <= varint(n).len() <= k,
    decreases n,
{
    if n >= 128 {
        assert(k >= 2) by {
            if k == 1 {
                reveal_with_fuel(pow128, 2);
            }
        }
        assert(n / 128 < pow128((k - 1) as nat)) by (nonlinear_arith)
            requires
                n < 128 * pow128((k - 1) as nat),
        ;
        lemma_varint_len(n / 128, (k - 1) as nat);
    }
}

/// Every `u64` has a marker of at most `MAX_MARKER_LEN` bytes.
pub proof fn lemma_marker_fits(n: nat)
    requires
        n <= u64::MAX,
    ensures
        1 <= varint(n).len() <= MAX_MARKER_LEN,
{
    reveal_with_fuel(pow128, 11);
    lemma_varint_len(n, 10);
}

/// A marker is read back as the number it encodes, whatever follows it.
pub proof fn lemma_marker_roundtrip(n: nat, rest: Seq<u8>)
    ensures
        marker_len(varint(n) + rest) == Some(varint(n).len()),
        (varint(n) + rest).take(varint(n).len() as int) == varint(n),
        marker_value(varint(n)) == n,
    decreases n,
{
    let s = varint(n) + rest;
    if n < 128 {
        assert(s[0] == n as u8);
        assert(s.take(1) =~= varint(n));
        assert(varint(n).drop_first() =~= Seq::<u8>::empty());
        assert(marker_value(Seq::<u8>::empty()) == 0);
    } else {
        lemma_marker_roundtrip(n / 128, rest);
        let b = ((n % 128) + 128) as u8;
        assert(s[0] == b);
        assert(s.drop_first() =~= varint(n / 128) + rest);
        assert(s.take(varint(n).len() as int) =~= varint(n));
        assert(varint(n).drop_first() =~= varint(n / 128));
        assert(varint(n)[0] % 128 == n % 128);
        assert(n == n % 128 + 128 * (n / 128)) by (nonlinear_arith);
    }
}

/// The frame of a record is read back as that record, whatever follows it.
pub proof fn lemma_parse_frame(r: Seq<u8>, rest: Seq<u8>)
    requires
        r.len() <= u64::MAX,
    ensures
        parse_frame(frame(r) + rest) == Some((r, frame(r).len())),
{
    let s = frame(r) + rest;
    let m = varint(r.len());
    lemma_marker_fits(r.len());
    lemma_marker_roundtrip(r.len(), r + rest);
    assert(s =~= m + (r + rest));
    assert(s.subrange(m.len() as int, (m.len() + r.len()) as int) =~= r);
}

/// A framed stream with one byte cut from its end is malformed, as long as
/// the last record is not empty (the frame of an empty record is one byte).
pub proof fn lemma_unframe_truncated(rs: Seq<Seq<u8>>)
    requires
        rs.len() > 0,
        rs.last().len() > 0,
        forall|i: int| 0 <= i < rs.len() ==> (#[trigger] rs[i]).len() <= u64::MAX,
    ensures
        unframe(framed(rs).drop_last()) is None,
    decreases rs.len(),
{
    let r0 = rs[0];
    let tail = rs.drop_first();
    let f = frame(r0);
    let s = framed(rs).drop_last();
    if tail.len() == 0 {
        assert(framed(tail) =~= Seq::<u8>::empty());
        let m = varint(r0.len());
        lemma_marker_fits(r0.len());
        lemma_marker_roundtrip(r0.len(), r0.drop_last());
        assert(s =~= m + r0.drop_last());
    } else {
        assert(tail.last() == rs.last());
        lemma_unframe_truncated(tail);
        lemma_parse_frame(r0, framed(tail).drop_last());
        assert(s =~= f + framed(tail).drop_last());
        assert(s.skip(f.len() as int) =~= framed(tail).drop_last());
    }
}

/// A framed stream is empty exactly when there are no records.
pub proof fn lemma_framed_empty(rs: Seq<Seq<u8>>)
    ensures
        framed(rs).len() == 0 <==> rs.len() == 0,
{
    if rs.len() > 0 {
        assert(varint(rs[0].len()).len() >= 1);
    }
}

/// Unframing the framed stream of a record sequence gives back the sequence.
pub proof fn lemma_unframe_framed(rs: Seq<Seq<u8>>)
    requires
        forall|i: int| 0 <= i < rs.len() ==> (#[trigger] rs[i]).len() <= u64::MAX,
    ensures
        unframe(framed(rs)) == Some(rs),
    decreases rs.len(),
{
    if rs.len() > 0 {
        let tail = rs.drop_first();
        let f = frame(rs[0]);
        lemma_unframe_framed(tail);
        lemma_parse_frame(rs[0], framed(tail));
        lemma_marker_fits(rs[0].len());
        assert((f + framed(tail)).skip(f.len() as int) =~= framed(tail));
        assert(seq![rs[0]] + tail =~= rs);
    } else {
        assert(rs =~= Seq::<Seq<u8>>::empty());
    }
}

/// Appends the length marker of `n` to `out`.
pub fn write_marker(out: &mut Vec<u8>, n: u64)
    ensures
        final(out)@ == old(out)@ + varint(n as nat),
{
    let mut m: u64 = n;
    while m >= 128
        invariant
            out@ + varint(m as nat) == old(out)@ + varint(n as nat),
        decreases m,
    {
        let b: u8 = ((m % 128) + 128) as u8;
        proof {
            assert(varint(m as nat) == seq![b] + varint((m / 128) as nat));
            assert(out@.push(b) + varint((m / 128) as nat) == out@ + varint(m as nat));
        }
        out.push(b);
        m = m / 128;
    }
    proof {
        assert(varint(m as nat) == seq![m as u8]);
        assert(out@.push(m as u8) == out@ + varint(m as nat));
    }
    out.push(m as u8);
}

/// The frame of one record: its length marker followed by its bytes.
pub fn frame_record(record: &Vec<u8>) -> (r: Vec<u8>)
    ensures
        r@ == frame(record@),
{
    let mut out: Vec<u8> = Vec::new();
    write_marker(&mut out, record.len() as u64);
    let mut i: usize = 0;
    while i < record.len()
        invariant
            out@ == varint(record@.len()) + record@.take(i as int),
            i <= record@.len(),
        decreases record@.len() - i,
    {
        proof {
            assert(record@.take(i + 1) == record@.take(i as int).push(record@[i as int]));
        }
        out.push(record[i]);
        i = i + 1;
    }
    proof {
        assert(record@.take(i as int) == record@);
    }
    out
}

/// What `marker_len` finds: the first byte whose high bit is clear.
pub proof fn lemma_marker_len_shape(s: Seq<u8>)
    ensures
        marker_len(s) matches Some(k) ==> (1 <= k <= s.len() && s[k - 1] < 128
            && forall|j: int| 0 <= j < k - 1 ==> s[j] >= 128),
    decreases s.len(),
{
    if s.len() > 0 && s[0] >= 128 {
        let t = s.drop_first();
        lemma_marker_len_shape(t);
        if let Some(k) = marker_len(t) {
            assert forall|j: int| 0 <= j < k implies s[j] >= 128 by {
                if j > 0 {
                    assert(s[j] == t[j - 1]);
                }
            }
        }
    }
}

/// A run of bytes with the high bit set, closed by one with it clear, is a
/// marker of that length.
pub proof fn lemma_marker_len_at(s: Seq<u8>, k: nat)
    requires
        1 <= k <= s.len(),
        s[k - 1] < 128,
        forall|j: int| 0 <= j < k - 1 ==> s[j] >= 128,
    ensures
        marker_len(s) == Some(k),
    decreases k,
{
    if k > 1 {
        let t = s.drop_first();
        assert(s[0] >= 128);
        assert forall|j: int| 0 <= j < k - 2 implies t[j] >= 128 by {
            assert(t[j] == s[j + 1]);
        }
        lemma_marker_len_at(t, (k - 1) as nat);
    }
}

/// One more marker byte, read from the high end.
pub proof fn lemma_marker_value_step(t: Seq<u8>, j: int)
    requires
        0 <= j < t.len(),
    ensures
        marker_value(t.skip(j)) == (t[j] % 128) as nat + 128 * marker_value(t.skip(j + 1)),
{
    assert(t.skip(j).drop_first() =~= t.skip(j + 1));
    assert(t.skip(j)[0] == t[j]);
}

/// Dropping low groups never makes a marker's value larger.
pub proof fn lemma_marker_value_mono(t: Seq<u8>, j: int)
    requires
        0 <= j <= t.len(),
    ensures
        marker_value(t) >= marker_value(t.skip(j)),
    decreases j,
{
    if j == 0 {
        assert(t.skip(0) =~= t);
    } else {
        lemma_marker_value_mono(t, j - 1);
        lemma_marker_value_step(t, j - 1);
    }
}

/// A frame read from the front of a stream takes at least one byte of it.
pub proof fn lemma_parse_frame_len(s: Seq<u8>)
    ensures
        parse_frame(s) matches Some((r, k)) ==> (0 < k <= s.len() && r.len() < k),
{
    lemma_marker_len_shape(s);
}

proof fn lemma_framed_skip(rs: Seq<Seq<u8>>, i: int)
    requires
        0 <= i < rs.len(),
    ensures
        framed(rs.skip(i)) == frame(rs[i]) + framed(rs.skip(i + 1)),
{
    assert(rs.skip(i).drop_first() =~= rs.skip(i + 1));
}

/// Framing one more record appends its frame.
pub proof fn lemma_framed_push(rs: Seq<Seq<u8>>, r: Seq<u8>)
    ensures
        framed(rs.push(r)) == framed(rs) + frame(r),
    decreases rs.len(),
{
    if rs.len() == 0 {
        assert(rs.push(r).drop_first() =~= Seq::<Seq<u8>>::empty());
        assert(framed(rs.push(r).drop_first()) == Seq::<u8>::empty());
        assert(frame(r) + Seq::<u8>::empty() =~= Seq::<u8>::empty() + frame(r));
    } else {
        lemma_framed_push(rs.drop_first(), r);
        assert(rs.push(r).drop_first() =~= rs.drop_first().push(r));
        assert(rs.push(r)[0] == rs[0]);
        assert(frame(rs[0]) + (framed(rs.drop_first()) + frame(r)) =~= (frame(rs[0]) + framed(
            rs.drop_first(),
        )) + frame(r));
    }
}

/// The framed stream of a record sequence as a byte source, producing one
/// frame at a time as it is read. Records can be added while it is read; a
/// record is let go of once its frame has been started.
pub struct FrameSource {
    records: Vec<Vec<u8>>,
    next: usize,
    current: Vec<u8>,
    pos: usize,
}

impl View for FrameSource {
    type V = Seq<u8>;

    /// The bytes not read yet.
    closed spec fn view(&self) -> Seq<u8> {
        self.current@.skip(self.pos as int) + framed(self.records.deep_view().skip(self.next as int))
    }
}

impl FrameSource {
    pub closed spec fn wf(&self) -> bool {
        &&& self.pos <= self.current@.len()
        &&& self.next <= self.records@.len()
    }

    /// How many records the source has been given.
    pub closed spec fn records_len(&self) -> nat {
        self.records@.len()
    }

    /// The source of the framed stream of `records`.
    pub fn new(records: Vec<Vec<u8>>) -> (r: FrameSource)
        ensures
            r.wf(),
            r@ == framed(records.deep_view()),
    {
        let r = FrameSource { records, next: 0, current: Vec::new(), pos: 0 };
        proof {
            assert(r.current@.skip(0) =~= Seq::<u8>::empty());
            assert(r.records.deep_view().skip(0) =~= r.records.deep_view());
        }
        r
    }

    /// Appends the frame of `record` to the stream.
    pub fn push(&mut self, record: Vec<u8>)
        requires
            old(self).wf(),
        ensures
            final(self).wf(),
            final(self).records_len() == old(self).records_len() + 1,
            final(self)@ == old(self)@ + frame(record@),
    {
        let ghost before = self.records.deep_view();
        let ghost rv = record@;
        self.records.push(record);
        proof {
            let i = self.next as int;
            assert(self.records@.last().deep_view() =~= rv);
            assert(self.records.deep_view() =~= before.push(rv));
            assert(before.push(rv).skip(i) =~= before.skip(i).push(rv));
            lemma_framed_push(before.skip(i), rv);
        }
    }

    /// Reads at most `max` bytes from the front of the stream; reads nothing
    /// only at its end.
    pub fn read(&mut self, max: usize) -> (r: Vec<u8>)
        requires
            old(self).wf(),
            max > 0,
        ensures
            final(self).wf(),
            final(self).records_len() == old(self).records_len(),
            r@.len() <= max,
            old(self)@ == r@ + final(self)@,
            old(self)@.len() > 0 ==> r@.len() > 0,
    {
        if self.pos == self.current.len() && self.next < self.records.len() {
            proof {
                let rs = self.records.deep_view();
                lemma_framed_skip(rs, self.next as int);
                assert(self.current@.skip(self.pos as int) =~= Seq::<u8>::empty());
            }
            let ghost before = self.records.deep_view();
            let mut record: Vec<u8> = Vec::new();
            self.records.set_and_swap(self.next, &mut record);
            proof {
                assert(record.deep_view() =~= before[self.next as int]);
                assert(self.records.deep_view().skip(self.next + 1) =~= before.skip(self.next + 1));
                assert(record@ =~= before[self.next as int]);
            }
            self.current = frame_record(&record);
            self.next = self.next + 1;
            self.pos = 0;
            proof {
                assert(self.current@.skip(0) =~= self.current@);
            }
        }
        let ghost before = self@;
        let ghost tail = framed(self.records.deep_view().skip(self.next as int));
        let mut out: Vec<u8> = Vec::new();
        if self.pos == self.current.len() {
            proof {
                assert(self.next == self.records@.len());
                assert(self.records.deep_view().skip(self.next as int) =~= Seq::<Seq<u8>>::empty());
                assert(before =~= Seq::<u8>::empty());
            }
            return out;
        }
        let avail: usize = self.current.len() - self.pos;
        let n: usize = if avail < max { avail } else { max };
        let start: usize = self.pos;
        let mut i: usize = 0;
        while i < n
            invariant
                self.wf(),
                start + n <= self.current@.len() <= usize::MAX,
                self.pos == start + i,
                i <= n,
                out@ == self.current@.subrange(start as int, (start + i) as int),
                self.records@.len() == old(self).records@.len(),
                before == self.current@.skip(start as int) + tail,
                tail == framed(self.records.deep_view().skip(self.next as int)),
            decreases n - i,
        {
            out.push(self.current[self.pos]);
            self.pos = self.pos + 1;
            i = i + 1;
            proof {
                assert(out@ =~= self.current@.subrange(start as int, (start + i) as int));
            }
        }
        proof {
            assert(before =~= out@ + (self.current@.skip(self.pos as int) + tail));
        }
        out
    }
}

} // verus!
