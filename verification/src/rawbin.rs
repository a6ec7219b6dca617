//! The flat three-channel sample file: samples interleaved `E N Z E N Z ...`,
//! each a little-endian IEEE-754 single, plus the bookkeeping its JSON
//! sidecar reports (sample count, NaN count per channel, and the segment
//! table that restarts the time axis at every discontinuity).
//!
//! Samples enter as the bit patterns of their single-precision values; the
//! start epoch of a segment is carried as an opaque `T` the layout never
//! inspects.

use vstd::prelude::*;

verus! {

/// The single-precision bit pattern `bits` is a NaN: all exponent bits set
/// and a non-zero fraction.
pub open spec fn is_nan_bits(bits: u32) -> bool {
    &&& bits & 0x7f80_0000u32 == 0x7f80_0000u32
    &&& bits & 0x007f_ffffu32 != 0
}

/// Whether a single-precision bit pattern is a NaN.
pub fn f32_bits_is_nan(bits: u32) -> (r: bool)
    ensures
        r == is_nan_bits(bits),
{
    bits & 0x7f80_0000u32 == 0x7f80_0000u32 && bits & 0x007f_ffffu32 != 0
}

/// Number of NaN patterns among the first `k` entries of `s`.
pub open spec fn nan_count_prefix(s: Seq<u32>, k: int) -> nat
    decreases k,
{
    if k <= 0 {
        0
    } else {
        nan_count_prefix(s, k - 1) + if is_nan_bits(s[k - 1]) {
            1nat
        } else {
            0nat
        }
    }
}

/// `nan_count_prefix` is a count, not a flag: it is the number of NaN
/// patterns among the first `k` entries, i.e. the length of those entries
/// filtered down to the NaNs.
pub proof fn lemma_nan_count_is_filter_len(s: Seq<u32>, k: int)
    requires
        0 <= k <= s.len(),
    ensures
        nan_count_prefix(s, k) == s.take(k).filter(|b: u32| is_nan_bits(b)).len(),
    decreases k,
{
    reveal(Seq::filter);
    if k > 0 {
        lemma_nan_count_is_filter_len(s, k - 1);
        assert(s.take(k).drop_last() =~= s.take(k - 1));
        assert(s.take(k).last() == s[k - 1]);
    }
}

/// When the first `k` entries are all NaN the count is `k`; when none is, it
/// is 0.
pub proof fn lemma_nan_count_extremes(s: Seq<u32>, k: int)
    requires
        0 <= k <= s.len(),
    ensures
        (forall|i: int| 0 <= i < k ==> is_nan_bits(#[trigger] s[i])) ==> nan_count_prefix(s, k) == k,
        (forall|i: int| 0 <= i < k ==> !is_nan_bits(#[trigger] s[i])) ==> nan_count_prefix(s, k) == 0,
    decreases k,
{
    if k > 0 {
        lemma_nan_count_extremes(s, k - 1);
    }
}

/// Byte `k` (0 = least significant) of the little-endian encoding of `bits`.
pub open spec fn le_byte(bits: u32, k: int) -> u8 {
    if k == 0 {
        (bits & 0xffu32) as u8
    } else if k == 1 {
        ((bits >> 8u32) & 0xffu32) as u8
    } else if k == 2 {
        ((bits >> 16u32) & 0xffu32) as u8
    } else {
        ((bits >> 24u32) & 0xffu32) as u8
    }
}

/// The value of four little-endian bytes.
pub open spec fn le_value(b0: u8, b1: u8, b2: u8, b3: u8) -> u32 {
    (b0 as u32) | ((b1 as u32) << 8u32) | ((b2 as u32) << 16u32) | ((b3 as u32) << 24u32)
}

/// Reading back the four bytes written for a value gives the value.
pub proof fn lemma_le_round_trip(bits: u32)
    ensures
        le_value(le_byte(bits, 0), le_byte(bits, 1), le_byte(bits, 2), le_byte(bits, 3)) == bits,
{
    assert(((bits & 0xffu32) as u8) as u32 | ((((bits >> 8u32) & 0xffu32) as u8) as u32) << 8u32
        | ((((bits >> 16u32) & 0xffu32) as u8) as u32) << 16u32 | ((((bits >> 24u32) & 0xffu32) as u8)
        as u32) << 24u32 == bits) by (bit_vector);
}

/// Bytes `4 * slot .. 4 * slot + 4` of `bytes` hold `bits`, little-endian.
pub open spec fn holds_le(bytes: Seq<u8>, slot: int, bits: u32) -> bool {
    &&& bytes[4 * slot] == le_byte(bits, 0)
    &&& bytes[4 * slot + 1] == le_byte(bits, 1)
    &&& bytes[4 * slot + 2] == le_byte(bits, 2)
    &&& bytes[4 * slot + 3] == le_byte(bits, 3)
}

/// `bytes` is the interleaved file content for the first `len` samples of
/// `e`, `n`, `z`: sample `i` of channel `c` is the little-endian word in slot
/// `3 * i + c`.
pub open spec fn frame_bytes_ok(bytes: Seq<u8>, e: Seq<u32>, n: Seq<u32>, z: Seq<u32>, len: int) -> bool {
    &&& bytes.len() == 12 * len
    &&& forall|i: int| 0 <= i < len ==> #[trigger] sample_bytes_ok(bytes, e, n, z, i)
}

/// Sample `i` of each channel sits in its slot.
pub open spec fn sample_bytes_ok(bytes: Seq<u8>, e: Seq<u32>, n: Seq<u32>, z: Seq<u32>, i: int) -> bool {
    &&& holds_le(bytes, 3 * i, e[i])
    &&& holds_le(bytes, 3 * i + 1, n[i])
    &&& holds_le(bytes, 3 * i + 2, z[i])
}

/// Reading the file back word by word gives the samples that were written:
/// slot `3 * i + c` decodes to sample `i` of channel `c`.
pub proof fn lemma_frame_decodes(bytes: Seq<u8>, e: Seq<u32>, n: Seq<u32>, z: Seq<u32>, len: int, i: int)
    requires
        frame_bytes_ok(bytes, e, n, z, len),
        0 <= i < len,
    ensures
        le_value(bytes[12 * i], bytes[12 * i + 1], bytes[12 * i + 2], bytes[12 * i + 3]) == e[i],
        le_value(bytes[12 * i + 4], bytes[12 * i + 5], bytes[12 * i + 6], bytes[12 * i + 7]) == n[i],
        le_value(bytes[12 * i + 8], bytes[12 * i + 9], bytes[12 * i + 10], bytes[12 * i + 11]) == z[i],
{
    assert(sample_bytes_ok(bytes, e, n, z, i));
    lemma_le_round_trip(e[i]);
    lemma_le_round_trip(n[i]);
    lemma_le_round_trip(z[i]);
}

fn push_le(out: &mut Vec<u8>, bits: u32)
    ensures
        final(out)@ == old(out)@ + seq![le_byte(bits, 0), le_byte(bits, 1), le_byte(bits, 2), le_byte(bits, 3)],
{
    out.push((bits & 0xffu32) as u8);
    out.push(((bits >> 8u32) & 0xffu32) as u8);
    out.push(((bits >> 16u32) & 0xffu32) as u8);
    out.push(((bits >> 24u32) & 0xffu32) as u8);
    assert(final(out)@ =~= old(out)@ + seq![le_byte(bits, 0), le_byte(bits, 1), le_byte(bits, 2), le_byte(bits, 3)]);
}

/// The number of samples a chunk contributes: the shortest of its three
/// channels.
pub open spec fn common_len(e: nat, n: nat, z: nat) -> nat {
    if e <= n && e <= z {
        e
    } else if n <= z {
        n
    } else {
        z
    }
}

/// One contiguous run of samples with a known start time.
#[derive(Clone, Copy)]
pub struct Segment<T> {
    /// Index of the run's first sample in the file.
    pub sample_offset: u64,
    /// When that sample was taken.
    pub start_epoch: T,
}

/// Where a chunk of `len` samples starting at `start_epoch` leaves the
/// segment table, given whether its start continues the last segment.
pub open spec fn segments_after<T>(segments: Seq<Segment<T>>, samples: nat, len: nat, continues: bool, start_epoch: T) -> Seq<Segment<T>> {
    if len == 0 || (segments.len() > 0 && continues) {
        segments
    } else {
        segments.push(Segment { sample_offset: samples as u64, start_epoch })
    }
}

/// Everything the sidecar reports about the samples written so far.
pub struct SampleLayout<T> {
    samples: u64,
    segments: Vec<Segment<T>>,
    nan_e: u64,
    nan_n: u64,
    nan_z: u64,
}

impl<T: Copy> SampleLayout<T> {
    /// Samples (per channel) written so far.
    pub closed spec fn sample_count(&self) -> nat {
        self.samples as nat
    }

    /// The segment table.
    pub closed spec fn segment_table(&self) -> Seq<Segment<T>> {
        self.segments@
    }

    /// NaN samples written so far on channel `c` (0 = E, 1 = N, 2 = Z).
    pub closed spec fn nan_count(&self, c: int) -> nat {
        if c == 0 {
            self.nan_e as nat
        } else if c == 1 {
            self.nan_n as nat
        } else {
            self.nan_z as nat
        }
    }

    /// The table starts at sample 0, offsets strictly increase, every segment
    /// holds at least one sample, and NaN counts never exceed the samples.
    pub open spec fn wf(&self) -> bool {
        &&& (self.segment_table().len() == 0) == (self.sample_count() == 0)
        &&& self.segment_table().len() > 0 ==> self.segment_table()[0].sample_offset == 0
        &&& forall|a: int, b: int|
            0 <= a < b < self.segment_table().len() ==> #[trigger] self.segment_table()[a].sample_offset
                < #[trigger] self.segment_table()[b].sample_offset
        &&& forall|a: int|
            0 <= a < self.segment_table().len() ==> #[trigger] self.segment_table()[a].sample_offset
                < self.sample_count()
        &&& self.nan_count(0) <= self.sample_count()
        &&& self.nan_count(1) <= self.sample_count()
        &&& self.nan_count(2) <= self.sample_count()
    }

    pub fn new() -> (l: Self)
        ensures
            l.wf(),
            l.sample_count() == 0,
            l.segment_table().len() == 0,
            l.nan_count(0) == 0,
            l.nan_count(1) == 0,
            l.nan_count(2) == 0,
    {
        SampleLayout { samples: 0, segments: Vec::new(), nan_e: 0, nan_n: 0, nan_z: 0 }
    }

    pub fn samples(&self) -> (n: u64)
        ensures
            n == self.sample_count(),
    {
        self.samples
    }

    /// NaN counts of the E, N and Z channels.
    pub fn nan_counts(&self) -> (c: (u64, u64, u64))
        ensures
            c.0 == self.nan_count(0),
            c.1 == self.nan_count(1),
            c.2 == self.nan_count(2),
    {
        (self.nan_e, self.nan_n, self.nan_z)
    }

    pub fn segments(&self) -> (s: &Vec<Segment<T>>)
        ensures
            s@ == self.segment_table(),
    {
        &self.segments
    }

    /// The segment currently being extended, if any.
    pub fn last_segment(&self) -> (s: Option<Segment<T>>)
        ensures
            s == (if self.segment_table().len() == 0 {
                None
            } else {
                Some(self.segment_table().last())
            }),
    {
        let k = self.segments.len();
        if k == 0 {
            None
        } else {
            Some(self.segments[k - 1])
        }
    }

    /// Appends a chunk: the first `len = min(e.len(), n.len(), z.len())`
    /// samples of each channel. Returns the bytes to append to the file. An
    /// empty chunk changes nothing. Otherwise a new segment starting at the
    /// chunk is opened unless `continues` says its start time carries on the
    /// last segment; NaNs are counted per channel.
    pub fn write_chunk(&mut self, e: &[u32], n: &[u32], z: &[u32], continues: bool, start_epoch: T) -> (bytes: Vec<u8>)
        requires
            old(self).wf(),
            old(self).sample_count() + common_len(e@.len(), n@.len(), z@.len()) <= u64::MAX,
        ensures
            ({
                let len = common_len(e@.len(), n@.len(), z@.len());
                &&& final(self).wf()
                &&& frame_bytes_ok(bytes@, e@, n@, z@, len as int)
                &&& final(self).sample_count() == old(self).sample_count() + len
                &&& final(self).segment_table() == segments_after(
                    old(self).segment_table(),
                    old(self).sample_count(),
                    len,
                    continues,
                    start_epoch,
                )
                &&& final(self).nan_count(0) == old(self).nan_count(0) + nan_count_prefix(e@, len as int)
                &&& final(self).nan_count(1) == old(self).nan_count(1) + nan_count_prefix(n@, len as int)
                &&& final(self).nan_count(2) == old(self).nan_count(2) + nan_count_prefix(z@, len as int)
                &&& final(self).nan_count(0) == old(self).nan_count(0) + e@.take(len as int).filter(
                    |b: u32| is_nan_bits(b),
                ).len()
                &&& final(self).nan_count(1) == old(self).nan_count(1) + n@.take(len as int).filter(
                    |b: u32| is_nan_bits(b),
                ).len()
                &&& final(self).nan_count(2) == old(self).nan_count(2) + z@.take(len as int).filter(
                    |b: u32| is_nan_bits(b),
                ).len()
            }),
    {
        let len = if e.len() <= n.len() && e.len() <= z.len() {
            e.len()
        } else if n.len() <= z.len() {
            n.len()
        } else {
            z.len()
        };
        let mut bytes: Vec<u8> = Vec::new();
        if len == 0 {
            return bytes;
        }
        if self.segments.len() == 0 || !continues {
            self.segments.push(Segment { sample_offset: self.samples, start_epoch });
        }
        let mut ce: u64 = 0;
        let mut cn: u64 = 0;
        let mut cz: u64 = 0;
        let mut i: usize = 0;
        while i < len
            invariant
                len <= e@.len(),
                len <= n@.len(),
                len <= z@.len(),
                i <= len,
                bytes@.len() == 12 * i,
                forall|j: int| 0 <= j < i ==> #[trigger] sample_bytes_ok(bytes@, e@, n@, z@, j),
                ce == nan_count_prefix(e@, i as int),
                cn == nan_count_prefix(n@, i as int),
                cz == nan_count_prefix(z@, i as int),
                ce <= i,
                cn <= i,
                cz <= i,
            decreases len - i,
        {
            let ghost before = bytes@;
            push_le(&mut bytes, e[i]);
            push_le(&mut bytes, n[i]);
            push_le(&mut bytes, z[i]);
            assert forall|j: int| 0 <= j < i + 1 implies #[trigger] sample_bytes_ok(bytes@, e@, n@, z@, j) by {
                if j < i {
                    assert(sample_bytes_ok(before, e@, n@, z@, j));
                    assert forall|q: int| 0 <= q < 12 * i implies bytes@[q] == before[q] by {}
                }
            }
            if f32_bits_is_nan(e[i]) {
                ce = ce + 1;
            }
            if f32_bits_is_nan(n[i]) {
                cn = cn + 1;
            }
            if f32_bits_is_nan(z[i]) {
                cz = cz + 1;
            }
            i = i + 1;
        }
        assert(frame_bytes_ok(bytes@, e@, n@, z@, len as int));
        self.nan_e = self.nan_e + ce;
        self.nan_n = self.nan_n + cn;
        self.nan_z = self.nan_z + cz;
        self.samples = self.samples + len as u64;
        proof {
            let segs = self.segments@;
            assert forall|a: int| 0 <= a < segs.len() implies #[trigger] segs[a].sample_offset
                < self.samples by {
                if a < segs.len() - 1 || (old(self).segments@.len() > 0 && continues) {
                    assert(segs[a] == old(self).segments@[a]);
                }
            }
            assert forall|a: int, b: int|
                0 <= a < b < segs.len() implies #[trigger] segs[a].sample_offset
                < #[trigger] segs[b].sample_offset by {
                assert(segs[a] == old(self).segments@[a]);
                if b < old(self).segments@.len() {
                    assert(segs[b] == old(self).segments@[b]);
                }
            }
            if old(self).segments@.len() > 0 {
                assert(segs[0] == old(self).segments@[0]);
            }
            lemma_nan_count_is_filter_len(e@, len as int);
            lemma_nan_count_is_filter_len(n@, len as int);
            lemma_nan_count_is_filter_len(z@, len as int);
        }
        bytes
    }
}

/// When every chunk after the first continues the previous one, the table
/// holds a single segment starting at sample 0: writing a chunk that
/// continues a non-empty table leaves the table as it was.
pub proof fn lemma_continuing_chunk_keeps_table<T>(segments: Seq<Segment<T>>, samples: nat, len: nat, start_epoch: T)
    requires
        segments.len() > 0,
    ensures
        segments_after(segments, samples, len, true, start_epoch) == segments,
{
}

/// A non-empty chunk that does not continue the last segment opens a new one
/// at the current sample count, carrying the chunk's start time.
pub proof fn lemma_gap_opens_segment<T>(segments: Seq<Segment<T>>, samples: nat, len: nat, start_epoch: T)
    requires
        len > 0,
    ensures
        segments_after(segments, samples, len, false, start_epoch).len() == segments.len() + 1,
        segments_after(segments, samples, len, false, start_epoch).last() == (Segment {
            sample_offset: samples as u64,
            start_epoch,
        }),
{
}

proof fn last_segment_at_or_before<T>(segs: Seq<Segment<T>>, i: nat, s: int) -> (r: int)
    requires
        0 <= s < segs.len(),
        segs[s].sample_offset <= i,
    ensures
        s <= r < segs.len(),
        segs[r].sample_offset <= i,
        r + 1 == segs.len() || i < segs[r + 1].sample_offset,
    decreases segs.len() - s,
{
    if s + 1 < segs.len() && segs[s + 1].sample_offset <= i {
        last_segment_at_or_before(segs, i, s + 1)
    } else {
        s
    }
}

/// The segment table covers every sample exactly once: each written sample
/// `i` belongs to exactly one segment, the last one starting at or before it,
/// so its time is that segment's start plus `(i - sample_offset) / fs`.
pub proof fn lemma_each_sample_in_one_segment<T: Copy>(layout: &SampleLayout<T>, i: nat)
    requires
        layout.wf(),
        i < layout.sample_count(),
    ensures
        exists|s: int|
            0 <= s < layout.segment_table().len() && #[trigger] layout.segment_table()[s].sample_offset
                <= i && (s + 1 == layout.segment_table().len() || i
                < layout.segment_table()[s + 1].sample_offset),
        forall|s: int, t: int|
            0 <= s < layout.segment_table().len() && 0 <= t < layout.segment_table().len() && (
            #[trigger] layout.segment_table()[s]).sample_offset <= i && (s + 1
                == layout.segment_table().len() || i < layout.segment_table()[s + 1].sample_offset)
                && (#[trigger] layout.segment_table()[t]).sample_offset <= i && (t + 1
                == layout.segment_table().len() || i < layout.segment_table()[t + 1].sample_offset)
                ==> s == t,
{
    let segs = layout.segment_table();
    let n = segs.len() as int;
    assert(n > 0);
    assert(segs[0].sample_offset == 0);
    let s = last_segment_at_or_before(segs, i, 0);
    assert(segs[s].sample_offset <= i && (s + 1 == n || i < segs[s + 1].sample_offset));
    assert forall|a: int, b: int|
        0 <= a < n && 0 <= b < n && (#[trigger] segs[a]).sample_offset <= i && (a + 1 == n || i
            < segs[a + 1].sample_offset) && (#[trigger] segs[b]).sample_offset <= i && (b + 1 == n
            || i < segs[b + 1].sample_offset) implies a == b by {
        if a < b {
            if a + 1 < b {
                assert(segs[a + 1].sample_offset < segs[b].sample_offset);
            }
        } else if b < a {
            if b + 1 < a {
                assert(segs[b + 1].sample_offset < segs[a].sample_offset);
            }
        }
    }
}

} // verus!
