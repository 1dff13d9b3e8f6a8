//! The gzchunked format: a framed record stream cut into parts, each part an
//! independent gzip member whose compressed size is kept near a target.
//!
//! encode(records) = map(gzip, partition(frame(records)))
//! decode(parts) = unframe(join(map(gunzip, parts)))

use vstd::prelude::*;
use crate::frame::{
    frame, framed, parse_frame, unframe, marker_value, FrameSource, MAX_MARKER_LEN, lemma_framed_empty,
    lemma_marker_len_at, lemma_marker_len_shape, lemma_marker_value_mono, lemma_marker_value_step,
    lemma_parse_frame_len, lemma_unframe_framed, lemma_unframe_truncated,
};
use crate::join::{joined, lemma_joined_push, lemma_joined_push_none, Join};
use crate::gzip::{gunzip, gz_input, gz_output, gz_encoder, gz_write_all, gz_output_len, gz_finish, PartWriter};

verus! {

/// How many bytes one step of the bounded copy moves from the framed stream
/// into the compressor; the compressor's output is held against the target
/// after each step.
pub const COPY_CHUNK: usize = 8192;

/// The default compression level.
pub const DEFAULT_LEVEL: u32 = 5;

/// The default target size of a part: one mebibyte.
pub const DEFAULT_PART_SIZE: u64 = 1048576;

/// A compression level: 0 stores the data, higher levels trade time for a
/// smaller output, up to 9.
#[derive(Clone, Copy, Debug)]
pub struct Compression {
    level: u32,
}

impl View for Compression {
    type V = u32;

    closed spec fn view(&self) -> u32 {
        self.level
    }
}

impl Compression {
    /// Levels run from 0 to 9.
    #[verifier::type_invariant]
    spec fn inv(&self) -> bool {
        self.level <= 9
    }

    /// Compression at the given level, from 0 to 9.
    pub fn new(level: u32) -> (r: Compression)
        requires
            level <= 9,
        ensures
            r@ == level,
    {
        Compression { level }
    }

    /// No compression: the data is stored.
    pub fn none() -> (r: Compression)
        ensures
            r@ == 0,
    {
        Compression { level: 0 }
    }

    /// The highest compression.
    pub fn best() -> (r: Compression)
        ensures
            r@ == 9,
    {
        Compression { level: 9 }
    }

    /// The level of this descriptor.
    pub fn level(&self) -> (r: u32)
        ensures
            r == self@,
            r <= 9,
    {
        proof {
            use_type_invariant(self);
        }
        self.level
    }
}

impl Default for Compression {
    fn default() -> (r: Compression)
        ensures
            r@ == DEFAULT_LEVEL,
    {
        Compression { level: DEFAULT_LEVEL }
    }
}

/// Options of the encoder.
#[derive(Clone, Copy, Debug)]
pub struct EncodeOpts {
    /// Compression level of every part.
    pub compression: Compression,
    /// Target compressed size of a part, a soft ceiling.
    pub part_size: u64,
}

impl Default for EncodeOpts {
    fn default() -> (r: EncodeOpts)
        ensures
            r.compression@ == DEFAULT_LEVEL,
            r.part_size == DEFAULT_PART_SIZE,
    {
        EncodeOpts { compression: Compression::default(), part_size: DEFAULT_PART_SIZE }
    }
}

/// The bytes moved from a source that went from `before` to `after`.
pub open spec fn consumed(before: Seq<u8>, after: Seq<u8>) -> Seq<u8> {
    before.take(before.len() - after.len())
}

/// `w` is the compressor as it stood before the last step of a part that
/// holds `d` and emitted `out`: that step moved at most `COPY_CHUNK` bytes, and
/// unless it was the first step the output was still below `limit` before it.
pub open spec fn before_last_step(w: PartWriter, d: Seq<u8>, out: Seq<u8>, limit: u64) -> bool {
    &&& gz_input(w).len() < d.len() <= gz_input(w).len() + COPY_CHUNK
    &&& gz_input(w) == d.take(gz_input(w).len() as int)
    &&& (gz_input(w).len() == 0 || gz_output(w).len() < limit)
    &&& gz_output(w).is_prefix_of(out)
}

/// Copies the framed stream into a fresh compressor a step at a time, until
/// the stream ends or the compressor's output has reached `limit` bytes.
/// Returns how many bytes were copied, saturating at `u64::MAX`.
fn copy_until(source: &mut FrameSource, sink: &mut PartWriter, limit: u64) -> (r: Result<u64, std::io::Error>)
    requires
        old(source).wf(),
        gz_input(*old(sink)) == Seq::<u8>::empty(),
        gz_output(*old(sink)) == Seq::<u8>::empty(),
    ensures
        final(source).wf(),
        final(source).records_len() == old(source).records_len(),
        r is Ok,
        final(source)@.len() <= old(source)@.len(),
        old(source)@ == consumed(old(source)@, final(source)@) + final(source)@,
        gz_input(*final(sink)) == consumed(old(source)@, final(source)@),
        r matches Ok(n) && n == (if consumed(old(source)@, final(source)@).len() <= u64::MAX {
            consumed(old(source)@, final(source)@).len()
        } else {
            u64::MAX as nat
        }),
        r matches Ok(n) ==> (n == 0 <==> old(source)@.len() == 0),
        final(source)@.len() == 0 || gz_output(*final(sink)).len() >= limit,
        consumed(old(source)@, final(source)@).len() > 0 ==> exists|w: PartWriter| #[trigger] before_last_step(
            w,
            consumed(old(source)@, final(source)@),
            gz_output(*final(sink)),
            limit,
        ),
{
    let ghost s0 = source@;
    let ghost mut last: PartWriter = *sink;
    let mut total: u64 = 0;
    loop
        invariant
            source.wf(),
            source.records_len() == old(source).records_len(),
            s0 == old(source)@,
            source@.len() <= s0.len(),
            s0 == consumed(s0, source@) + source@,
            gz_input(*sink) == consumed(s0, source@),
            total == (if consumed(s0, source@).len() <= u64::MAX {
                consumed(s0, source@).len()
            } else {
                u64::MAX as nat
            }),
            consumed(s0, source@).len() > 0 ==> gz_output(*sink).len() < limit,
            consumed(s0, source@).len() > 0 ==> before_last_step(last, consumed(s0, source@), gz_output(*sink), limit),
            consumed(s0, source@).len() == 0 ==> gz_output(*sink) == Seq::<u8>::empty(),
        decreases source@.len(),
    {
        let ghost s1 = source@;
        let ghost w = *sink;
        let chunk = source.read(COPY_CHUNK);
        if chunk.len() == 0 {
            proof {
                assert(source@ =~= s1);
                if consumed(s0, source@).len() > 0 {
                    assert(before_last_step(last, consumed(s0, source@), gz_output(*sink), limit));
                }
            }
            return Ok(total);
        }
        proof {
            assert(consumed(s0, source@) =~= consumed(s0, s1) + chunk@);
        }
        match gz_write_all(sink, chunk.as_slice()) {
            Ok(()) => {},
            Err(e) => {
                return Err(e);
            },
        }
        proof {
            last = w;
            let d = consumed(s0, source@);
            assert(gz_input(w) == consumed(s0, s1));
            assert(d.take(consumed(s0, s1).len() as int) =~= consumed(s0, s1));
            if consumed(s0, s1).len() == 0 {
                assert(gz_output(w) =~= Seq::<u8>::empty());
            }
            assert(before_last_step(last, d, gz_output(*sink), limit));
        }
        total = total.saturating_add(chunk.len() as u64);
        if gz_output_len(sink) as u64 >= limit {
            return Ok(total);
        }
    }
}

/// Streaming encoder: produces the parts one at a time.
pub struct Encode {
    source: FrameSource,
    opts: EncodeOpts,
}

impl View for Encode {
    type V = Seq<u8>;

    /// The part of the framed stream not yet put into a part.
    closed spec fn view(&self) -> Seq<u8> {
        self.source@
    }
}

impl Encode {
    pub closed spec fn wf(&self) -> bool {
        self.source.wf()
    }

    /// The options this encoder was made with.
    pub closed spec fn options(&self) -> EncodeOpts {
        self.opts
    }

    /// An encoder of `records` with the given options.
    pub fn with_opts(records: Vec<Vec<u8>>, opts: EncodeOpts) -> (r: Encode)
        ensures
            r.wf(),
            r@ == framed(records.deep_view()),
            r.options() == opts,
    {
        Encode { source: FrameSource::new(records), opts }
    }

    /// Adds a record after those given so far: its frame is appended to the
    /// stream still to be put into parts. Records can be added between calls
    /// of `next_part`, so the whole sequence never has to be held at once.
    pub fn push_record(&mut self, record: Vec<u8>)
        requires
            old(self).wf(),
        ensures
            final(self).wf(),
            final(self).options() == old(self).options(),
            final(self)@ == old(self)@ + frame(record@),
    {
        self.source.push(record);
    }

    /// The next part, or `None` once the framed stream has been used up. A
    /// part decompresses to the next non-empty stretch of the framed stream.
    /// Every part but the last has reached the target size; the target is a
    /// soft ceiling, which the compressor's buffering can overshoot.
    pub fn next_part(&mut self) -> (r: Result<Option<Vec<u8>>, std::io::Error>)
        requires
            old(self).wf(),
        ensures
            final(self).wf(),
            final(self).options() == old(self).options(),
            old(self)@.len() == 0 ==> (r matches Ok(None) && final(self)@ == old(self)@),
            old(self)@.len() > 0 ==> r matches Ok(Some(_)),
            r matches Ok(Some(p)) ==> (gunzip(p@) matches Some(d) && d.len() > 0 && old(self)@ == d + final(self)@),
            r matches Ok(Some(p)) ==> (final(self)@.len() > 0 ==> p@.len() >= old(self).options().part_size),
            r matches Ok(Some(p)) ==> gunzip(p@.drop_last()) is None,
            r matches Ok(Some(p)) ==> exists|w: PartWriter| #[trigger] before_last_step(
                w,
                gunzip(p@)->0,
                p@,
                old(self).options().part_size,
            ),
    {
        let mut writer = gz_encoder(self.opts.compression.level());
        let len = match copy_until(&mut self.source, &mut writer, self.opts.part_size) {
            Ok(n) => n,
            Err(e) => {
                return Err(e);
            },
        };
        if len == 0 {
            return Ok(None);
        }
        let ghost d = consumed(old(self)@, self.source@);
        let ghost emitted = gz_output(writer);
        let ghost limit = self.opts.part_size;
        match gz_finish(writer) {
            Ok(p) => {
                proof {
                    assert(emitted.len() <= p@.len());
                    let w = choose|w: PartWriter| #[trigger] before_last_step(w, d, emitted, limit);
                    let o = gz_output(w);
                    assert(o =~= p@.take(o.len() as int)) by {
                        assert forall|i: int| 0 <= i < o.len() implies o[i] == p@[i] by {
                            assert(o[i] == emitted[i]);
                            assert(emitted[i] == p@[i]);
                        }
                    }
                    assert(before_last_step(w, gunzip(p@)->0, p@, limit));
                }
                Ok(Some(p))
            },
            Err(e) => Err(e),
        }
    }

    /// `next_part` in the shape of an iterator step.
    pub fn next(&mut self) -> (r: Option<Result<Vec<u8>, std::io::Error>>)
        requires
            old(self).wf(),
        ensures
            final(self).wf(),
            final(self).options() == old(self).options(),
            old(self)@.len() == 0 ==> (r is None && final(self)@ == old(self)@),
            old(self)@.len() > 0 ==> r matches Some(Ok(_)),
            r matches Some(Ok(p)) ==> (gunzip(p@) matches Some(d) && d.len() > 0 && old(self)@ == d + final(self)@),
    {
        match self.next_part() {
            Ok(Some(p)) => Some(Ok(p)),
            Ok(None) => None,
            Err(e) => Some(Err(e)),
        }
    }
}

/// An encoder of `records` with the default options.
pub fn encode(records: Vec<Vec<u8>>) -> (r: Encode)
    ensures
        r.wf(),
        r@ == framed(records.deep_view()),
        r.options().compression@ == DEFAULT_LEVEL,
        r.options().part_size == DEFAULT_PART_SIZE,
{
    encode_with_opts(records, EncodeOpts::default())
}

/// An encoder of `records` with the given options.
pub fn encode_with_opts(records: Vec<Vec<u8>>, opts: EncodeOpts) -> (r: Encode)
    ensures
        r.wf(),
        r@ == framed(records.deep_view()),
        r.options() == opts,
{
    Encode::with_opts(records, opts)
}

/// All the parts of `records`, in order. Whatever the options, the parts
/// decompress and join to exactly the framed stream of the records; there
/// are none exactly when there are no records, and every part but the last
/// has reached the target size.
pub fn encode_all(records: Vec<Vec<u8>>, opts: EncodeOpts) -> (r: Result<Vec<Vec<u8>>, std::io::Error>)
    ensures
        r is Ok,
        r matches Ok(parts) ==> joined(parts.deep_view()) == Some(framed(records.deep_view())),
        r matches Ok(parts) ==> (parts@.len() == 0 <==> records@.len() == 0),
        records@.len() == 0 ==> (r matches Ok(parts) && parts@.len() == 0),
        r matches Ok(parts) ==> forall|i: int| 0 <= i < parts@.len() - 1 ==> #[trigger] parts@[i]@.len() >= opts.part_size,
        r matches Ok(parts) ==> forall|i: int| 0 <= i < parts@.len() ==> gunzip(#[trigger] parts@[i]@.drop_last()) is None,
{
    let ghost rs = records.deep_view();
    let mut enc = Encode::with_opts(records, opts);
    let mut parts: Vec<Vec<u8>> = Vec::new();
    proof {
        lemma_framed_empty(rs);
        assert(framed(rs).take(0) =~= Seq::<u8>::empty());
        assert(parts.deep_view() =~= Seq::<Seq<u8>>::empty());
    }
    loop
        invariant
            enc.wf(),
            rs == records.deep_view(),
            enc.options() == opts,
            forall|i: int| 0 <= i < parts@.len() ==> gunzip(#[trigger] parts@[i]@.drop_last()) is None,
            forall|i: int| 0 <= i < parts@.len() ==> (#[trigger] parts@[i]@.len() >= opts.part_size
                || (i == parts@.len() - 1 && enc@.len() == 0)),
            enc@.len() <= framed(rs).len(),
            framed(rs) == framed(rs).take(framed(rs).len() - enc@.len()) + enc@,
            joined(parts.deep_view()) == Some(framed(rs).take(framed(rs).len() - enc@.len())),
            parts@.len() == 0 <==> enc@.len() == framed(rs).len(),
            framed(rs).len() == 0 <==> rs.len() == 0,
        decreases enc@.len(),
    {
        let ghost e0 = enc@;
        let ghost a = framed(rs).take(framed(rs).len() - e0.len());
        match enc.next_part() {
            Ok(Some(p)) => {
                let ghost d = gunzip(p@)->0;
                let ghost before = parts.deep_view();
                let ghost pv = p@;
                proof {
                    lemma_joined_push(before, p@, a, d);
                }
                parts.push(p);
                proof {
                    assert(parts@.last().deep_view() =~= pv);
                    assert(parts.deep_view() =~= before.push(p@));
                    assert(a + d =~= framed(rs).take(framed(rs).len() - enc@.len()));
                }
            },
            Ok(None) => {
                proof {
                    assert(a =~= framed(rs));
                }
                return Ok(parts);
            },
            Err(e) => {
                return Err(e);
            },
        }
    }
}

/// Why decoding stopped before the end of the stream.
#[derive(Debug)]
pub enum DecodeError {
    /// A part did not decompress.
    Decompress(std::io::Error),
    /// The joined stream ends inside a frame, or holds an invalid length marker.
    Malformed,
}

/// Streaming decoder: recovers the records one at a time.
pub struct Decode {
    join: Join,
}

impl Decode {
    pub closed spec fn wf(&self) -> bool {
        self.join.wf()
    }

    /// The joined stream not decoded yet, or `None` if a part still to be read
    /// does not decompress.
    pub closed spec fn stream(&self) -> Option<Seq<u8>> {
        self.join.stream()
    }

    /// Parts not opened yet.
    pub closed spec fn pending(&self) -> nat {
        self.join.pending()
    }

    /// Bytes left in the part being read.
    pub closed spec fn left(&self) -> nat {
        self.join.left()
    }

    /// `self` is further along than `other`.
    pub open spec fn ahead_of(&self, other: &Decode) -> bool {
        ||| self.pending() < other.pending()
        ||| (self.pending() == other.pending() && self.left() < other.left())
    }

    /// Adds a part after those given so far; the stream grows by what it
    /// decompresses to. Parts can be added between calls of `next_record`.
    pub fn push_part(&mut self, part: Vec<u8>)
        requires
            old(self).wf(),
        ensures
            final(self).wf(),
            old(self).stream() is Some && gunzip(part@) is Some ==> final(self).stream() == Some(
                old(self).stream()->0 + gunzip(part@)->0,
            ),
            old(self).stream() is None || gunzip(part@) is None ==> final(self).stream() is None,
    {
        self.join.push_part(part);
    }

    /// The next record, `None` at a clean end of the stream.
    pub fn next_record(&mut self) -> (r: Result<Option<Vec<u8>>, DecodeError>)
        requires
            old(self).wf(),
        ensures
            final(self).wf(),
            old(self).stream() is Some && old(self).stream()->0.len() == 0 ==> r matches Ok(None),
            old(self).stream() is Some && old(self).stream()->0.len() > 0 ==> match parse_frame(old(self).stream()->0) {
                Some((rec, k)) => r matches Ok(Some(v)) && v@ == rec
                    && final(self).stream() == Some(old(self).stream()->0.skip(k as int)),
                None => r matches Err(DecodeError::Malformed),
            },
            old(self).stream() is None ==> (r is Err || (r matches Ok(Some(_)) && final(self).stream() is None)),
            r matches Ok(Some(_)) ==> final(self).ahead_of(old(self)),
    {
        let ghost s0 = self.join.stream();
        let ghost s = s0->0;
        let first = match self.join.read_byte() {
            Ok(Some(b)) => b,
            Ok(None) => {
                return Ok(None);
            },
            Err(e) => {
                return Err(DecodeError::Decompress(e));
            },
        };
        let mut marker: Vec<u8> = Vec::new();
        marker.push(first);
        let mut last: u8 = first;
        proof {
            if s0 is Some {
                assert(marker@ =~= s.take(1));
            }
        }
        while last >= 128
            invariant
                self.join.wf(),
                s0 == old(self).join.stream(),
                s == s0->0,
                1 <= marker@.len() <= MAX_MARKER_LEN,
                last == marker@[marker@.len() - 1],
                forall|j: int| 0 <= j < marker@.len() - 1 ==> marker@[j] >= 128,
                self.ahead_of(old(self)),
                s0 is Some ==> (s.len() >= marker@.len() && marker@ == s.take(marker@.len() as int)
                    && self.join.stream() == Some(s.skip(marker@.len() as int))),
                s0 is None ==> self.join.stream() is None,
            decreases MAX_MARKER_LEN - marker@.len(),
        {
            if marker.len() == MAX_MARKER_LEN {
                proof {
                    if s0 is Some {
                        lemma_marker_len_shape(s);
                        assert forall|j: int| 0 <= j < MAX_MARKER_LEN implies s[j] >= 128 by {
                            assert(s[j] == marker@[j]);
                        }
                    }
                }
                return Err(DecodeError::Malformed);
            }
            let ghost m0 = marker@;
            match self.join.read_byte() {
                Ok(Some(b)) => {
                    marker.push(b);
                    last = b;
                    proof {
                        if s0 is Some {
                            assert(s.skip(m0.len() as int)[0] == s[m0.len() as int]);
                            assert(marker@ =~= s.take(marker@.len() as int));
                            assert(s.skip(m0.len() as int).drop_first() =~= s.skip(marker@.len() as int));
                        }
                    }
                },
                Ok(None) => {
                    proof {
                        if s0 is Some {
                            assert(s.len() == m0.len());
                            lemma_marker_len_shape(s);
                            assert forall|j: int| 0 <= j < s.len() implies s[j] >= 128 by {
                                assert(s[j] == m0[j]);
                            }
                        }
                    }
                    return Err(DecodeError::Malformed);
                },
                Err(e) => {
                    return Err(DecodeError::Decompress(e));
                },
            }
        }
        let k: usize = marker.len();
        proof {
            if s0 is Some {
                assert forall|j: int| 0 <= j < k - 1 implies s[j] >= 128 by {
                    assert(s[j] == marker@[j]);
                }
                lemma_marker_len_at(s, k as nat);
            }
        }
        let mut value: u64 = 0;
        let mut j: usize = k;
        proof {
            assert(marker@.skip(k as int) =~= Seq::<u8>::empty());
        }
        while j > 0
            invariant
                self.join.wf(),
                s0 == old(self).join.stream(),
                s == s0->0,
                self.ahead_of(old(self)),
                s0 is Some ==> (crate::frame::marker_len(s) == Some(k as nat) && s.take(k as int) == marker@
                    && k <= s.len() && self.join.stream() == Some(s.skip(k as int))),
                s0 is None ==> self.join.stream() is None,
                j <= marker@.len(),
                k == marker@.len(),
                value == marker_value(marker@.skip(j as int)),
            decreases j,
        {
            let digit: u64 = (marker[j - 1] % 128) as u64;
            proof {
                lemma_marker_value_step(marker@, j - 1);
            }
            if value > (u64::MAX - digit) / 128 {
                proof {
                    assert(digit + 128 * value > u64::MAX) by (nonlinear_arith)
                        requires
                            value > (u64::MAX - digit) / 128,
                            digit < 128,
                    ;
                    lemma_marker_value_mono(marker@, j - 1);
                    assert(marker@.skip(0) =~= marker@);
                }
                return Err(DecodeError::Malformed);
            }
            proof {
                assert(value * 128 + digit <= u64::MAX) by (nonlinear_arith)
                    requires
                        value <= (u64::MAX - digit) / 128,
                        digit < 128,
                ;
            }
            value = value * 128 + digit;
            j = j - 1;
        }
        proof {
            assert(marker@.skip(0) =~= marker@);
        }
        let mut rec: Vec<u8> = Vec::new();
        let mut i: u64 = 0;
        while i < value
            invariant
                self.join.wf(),
                s0 == old(self).join.stream(),
                s == s0->0,
                i <= value,
                value == marker_value(marker@),
                self.ahead_of(old(self)),
                s0 is Some ==> (crate::frame::marker_len(s) == Some(k as nat) && s.take(k as int) == marker@
                    && k + i <= s.len() && rec@ == s.subrange(k as int, k + i)
                    && self.join.stream() == Some(s.skip(k + i))),
                s0 is None ==> self.join.stream() is None,
            decreases value - i,
        {
            let ghost r0 = rec@;
            match self.join.read_byte() {
                Ok(Some(b)) => {
                    rec.push(b);
                    proof {
                        if s0 is Some {
                            assert(s.skip(k + i)[0] == s[k + i]);
                            assert(rec@ =~= s.subrange(k as int, k + i + 1));
                            assert(s.skip(k + i).drop_first() =~= s.skip(k + i + 1));
                        }
                    }
                    i = i + 1;
                },
                Ok(None) => {
                    return Err(DecodeError::Malformed);
                },
                Err(e) => {
                    return Err(DecodeError::Decompress(e));
                },
            }
        }
        Ok(Some(rec))
    }

    /// `next_record` in the shape of an iterator step.
    pub fn next(&mut self) -> (r: Option<Result<Vec<u8>, DecodeError>>)
        requires
            old(self).wf(),
        ensures
            final(self).wf(),
            old(self).stream() is Some && old(self).stream()->0.len() == 0 ==> r is None,
            old(self).stream() is Some && old(self).stream()->0.len() > 0 ==> match parse_frame(old(self).stream()->0) {
                Some((rec, k)) => r matches Some(Ok(v)) && v@ == rec
                    && final(self).stream() == Some(old(self).stream()->0.skip(k as int)),
                None => r matches Some(Err(DecodeError::Malformed)),
            },
            old(self).stream() is None ==> r is Some,
    {
        match self.next_record() {
            Ok(Some(v)) => Some(Ok(v)),
            Ok(None) => None,
            Err(e) => Some(Err(e)),
        }
    }
}

/// A decoder of the parts, which must come in the order they were produced.
pub fn decode(parts: Vec<Vec<u8>>) -> (r: Decode)
    ensures
        r.wf(),
        r.stream() == joined(parts.deep_view()),
{
    Decode { join: Join::new(parts) }
}

/// All the records in the parts, in order. Fails with `Malformed` exactly when
/// the parts decompress but their joined contents are not a framed stream.
pub fn decode_all(parts: Vec<Vec<u8>>) -> (r: Result<Vec<Vec<u8>>, DecodeError>)
    ensures
        parts@.len() == 0 ==> (r matches Ok(v) && v@.len() == 0),
        joined(parts.deep_view()) is None ==> r is Err,
        joined(parts.deep_view()) is Some && unframe(joined(parts.deep_view())->0) is Some ==> (r matches Ok(v)
            && v.deep_view() == unframe(joined(parts.deep_view())->0)->0),
        joined(parts.deep_view()) is Some && unframe(joined(parts.deep_view())->0) is None ==> r matches Err(
            DecodeError::Malformed,
        ),
{
    let ghost ps = parts.deep_view();
    proof {
        if parts@.len() == 0 {
            assert(ps =~= Seq::<Seq<u8>>::empty());
        }
    }
    let mut dec = decode(parts);
    let mut out: Vec<Vec<u8>> = Vec::new();
    proof {
        if let Some(all) = joined(ps) {
            if let Some(rs) = unframe(all) {
                assert(out.deep_view() + rs =~= rs);
            }
        }
    }
    loop
        invariant
            dec.wf(),
            ps == parts.deep_view(),
            joined(ps) is None ==> dec.stream() is None,
            joined(ps) is Some ==> (dec.stream() is Some && match unframe(dec.stream()->0) {
                Some(rest) => unframe(joined(ps)->0) == Some(out.deep_view() + rest),
                None => unframe(joined(ps)->0) is None,
            }),
        decreases dec.pending(), dec.left(),
    {
        let ghost t = dec.stream()->0;
        proof {
            lemma_parse_frame_len(t);
        }
        match dec.next_record() {
            Ok(Some(rec)) => {
                let ghost before = out.deep_view();
                let ghost rv = rec@;
                out.push(rec);
                proof {
                    assert(out@.last().deep_view() =~= rv);
                    assert(out.deep_view() =~= before.push(rv));
                    if joined(ps) is Some {
                        let frame_at = parse_frame(t)->0;
                        let k = frame_at.1;
                        if let Some(rest) = unframe(t.skip(k as int)) {
                            assert(before + (seq![rv] + rest) =~= out.deep_view() + rest);
                        }
                    }
                }
            },
            Ok(None) => {
                proof {
                    if joined(ps) is Some {
                        assert(t.len() == 0);
                        assert(out.deep_view() + Seq::<Seq<u8>>::empty() =~= out.deep_view());
                    }
                }
                return Ok(out);
            },
            Err(e) => {
                return Err(e);
            },
        }
    }
}

/// Parts pulled one after another join back to the whole stream, whatever
/// the part size and the compression: if each part `i` decompresses to what
/// separates the stream before the pull (`streams[i]`) from the stream after
/// it (`streams[i + 1]`), as `next_part` ensures, and the stream is used up at
/// the end, the parts join to exactly `streams[0]`, the framed records the
/// encoder was given.
pub proof fn lemma_pulled_parts_join(parts: Seq<Seq<u8>>, streams: Seq<Seq<u8>>)
    requires
        streams.len() == parts.len() + 1,
        streams.last().len() == 0,
        forall|i: int| 0 <= i < parts.len() ==> (#[trigger] gunzip(parts[i])) is Some && streams[i] == gunzip(
            parts[i],
        )->0 + streams[i + 1],
    ensures
        joined(parts) == Some(streams[0]),
    decreases parts.len(),
{
    if parts.len() == 0 {
        assert(streams[0] =~= Seq::<u8>::empty());
    } else {
        let tail = parts.drop_first();
        let rest = streams.drop_first();
        assert forall|i: int| 0 <= i < tail.len() implies (#[trigger] gunzip(tail[i])) is Some && rest[i] == gunzip(
            tail[i],
        )->0 + rest[i + 1] by {
            assert(tail[i] == parts[i + 1]);
            assert(gunzip(parts[i + 1]) is Some);
        }
        lemma_pulled_parts_join(tail, rest);
        assert(gunzip(parts[0]) is Some);
    }
}

/// A last part cut by one byte is rejected: when the last part does not
/// decompress once its last byte is dropped, as every part of `next_part` and
/// `encode_all`, the shortened parts do not join, so `decode_all` fails
/// rather than returning fewer records.
pub proof fn lemma_truncated_part_rejected(parts: Seq<Seq<u8>>)
    requires
        parts.len() > 0,
        gunzip(parts.last().drop_last()) is None,
    ensures
        joined(parts.drop_last().push(parts.last().drop_last())) is None,
{
    lemma_joined_push_none(parts.drop_last(), parts.last().drop_last());
}

/// Decoding what encoding produced gives back the records, in order: when
/// the parts join to the framed stream of `records` (as `encode_all` ensures
/// for any options), unframing the joined stream yields exactly `records`, so
/// `decode_all` returns them.
pub proof fn lemma_round_trip(records: Seq<Seq<u8>>, parts: Seq<Seq<u8>>)
    requires
        forall|i: int| 0 <= i < records.len() ==> (#[trigger] records[i]).len() <= u64::MAX,
        joined(parts) == Some(framed(records)),
    ensures
        unframe(joined(parts)->0) == Some(records),
{
    lemma_unframe_framed(records);
}

/// A stream cut one byte short is rejected, not read as fewer records: when
/// the parts join to the framed stream of `records` less its last byte,
/// unframing fails, so `decode_all` returns `Malformed`. This needs the last
/// record to be non-empty: the frame of an empty record is a single byte, and
/// without it the stream is the well-formed framing of the records before it.
pub proof fn lemma_truncation_rejected(records: Seq<Seq<u8>>, parts: Seq<Seq<u8>>)
    requires
        forall|i: int| 0 <= i < records.len() ==> (#[trigger] records[i]).len() <= u64::MAX,
        records.len() > 0,
        records.last().len() > 0,
        joined(parts) == Some(framed(records).drop_last()),
    ensures
        unframe(joined(parts)->0) is None,
{
    lemma_unframe_truncated(records);
}

} // verus!
