//! Write-ahead-log record framing and recovery.
//!
//! A segment is a flat byte image divided into records. Each record is a
//! fixed-size header (payload length, series type tag, payload checksum)
//! followed immediately by the payload bytes. Offsets inside a segment are
//! pre-allocated by a monotone counter, so concurrent writers always write
//! disjoint byte ranges. Recovery scans from offset zero and stops at the
//! first header that fails validation: everything before that point is
//! durable, everything at or after it is an incomplete tail.

use vstd::prelude::*;
use vstd::bytes::*;
use vstd::slice::*;
use vstd::pervasive::VecAdditionalExecFns;
use crate::storage::SeriesDataType;
use crate::storage::spec_tag;
use crate::storage::spec_decode_tag;

verus! {

/// Number of bytes in a record header: payload length (4), type tag (1),
/// payload checksum (4).
pub const HEADER_LEN: usize = 9;

/// The payload checksum: the bytes summed into a 32-bit accumulator with
/// wrap-around. Any single flipped payload byte changes the sum.
pub open spec fn checksum_of(s: Seq<u8>) -> u32
    decreases s.len(),
{
    if s.len() == 0 {
        0u32
    } else {
        checksum_of(s.drop_last()).wrapping_add(s.last() as u32)
    }
}

/// Compute the checksum of `data`.
pub fn checksum(data: &[u8]) -> (r: u32)
    ensures
        r == checksum_of(data@),
{
    let mut acc: u32 = 0;
    let mut i: usize = 0;
    while i < data.len()
        invariant
            i <= data@.len(),
            acc == checksum_of(data@.subrange(0, i as int)),
        decreases data@.len() - i,
    {
        acc = acc.wrapping_add(*slice_index_get(data, i) as u32);
        i = i + 1;
        proof {
            assert(data@.subrange(0, i as int).drop_last() =~= data@.subrange(0, i - 1));
            assert(data@.subrange(0, i as int).last() == data@[i - 1]);
        }
    }
    proof {
        assert(data@.subrange(0, data@.len() as int) =~= data@);
    }
    acc
}

/// The plain integer sum of a payload's bytes.
pub open spec fn byte_sum(s: Seq<u8>) -> int
    decreases s.len(),
{
    if s.len() == 0 {
        0
    } else {
        byte_sum(s.drop_last()) + s.last()
    }
}

/// The checksum is the byte sum reduced modulo 2^32.
pub proof fn lemma_checksum_is_mod_sum(s: Seq<u8>)
    ensures
        0 <= byte_sum(s),
        checksum_of(s) == byte_sum(s) % 0x1_0000_0000,
    decreases s.len(),
{
    if s.len() == 0 {
    } else {
        lemma_checksum_is_mod_sum(s.drop_last());
        let m = 0x1_0000_0000int;
        let bs0 = byte_sum(s.drop_last());
        let x = s.last() as int;
        vstd::arithmetic::div_mod::lemma_small_mod(x as nat, m as nat);
        vstd::arithmetic::div_mod::lemma_add_mod_noop(bs0, x, m);
        let c = bs0 % m;
        if c + x < m {
            vstd::arithmetic::div_mod::lemma_small_mod((c + x) as nat, m as nat);
        } else {
            vstd::arithmetic::div_mod::lemma_mod_add_multiples_vanish(c + x - m, m);
            vstd::arithmetic::div_mod::lemma_small_mod((c + x - m) as nat, m as nat);
        }
    }
}

/// Shifting a non-negative number by less than one modulus moves its residue.
proof fn lemma_mod_shift_distinct(x: int, d: int, m: int)
    requires
        0 <= x,
        0 < d < m,
    ensures
        (x + d) % m != x % m,
{
    vstd::arithmetic::div_mod::lemma_mod_bound(x, m);
    vstd::arithmetic::div_mod::lemma_add_mod_noop(x, d, m);
    vstd::arithmetic::div_mod::lemma_small_mod(d as nat, m as nat);
    let c = x % m;
    if c + d < m {
        vstd::arithmetic::div_mod::lemma_small_mod((c + d) as nat, m as nat);
    } else {
        vstd::arithmetic::div_mod::lemma_mod_add_multiples_vanish(c + d - m, m);
        vstd::arithmetic::div_mod::lemma_small_mod((c + d - m) as nat, m as nat);
    }
}

/// Two equal-length payloads that differ in exactly the byte at `i` have
/// byte sums exactly that byte's difference apart.
proof fn lemma_byte_sum_flip(a: Seq<u8>, b: Seq<u8>, i: int)
    requires
        a.len() == b.len(),
        0 <= i < a.len(),
        forall|j: int| 0 <= j < a.len() && j != i ==> a[j] == #[trigger] b[j],
    ensures
        byte_sum(a) - byte_sum(b) == a[i] - b[i],
    decreases a.len(),
{
    if i == a.len() - 1 {
        assert(a.drop_last() =~= b.drop_last());
    } else {
        assert(a.last() == b.last());
        assert forall|j: int|
            0 <= j < a.drop_last().len() && j != i implies a.drop_last()[j] == #[trigger] b.drop_last()[j] by {
            assert(a[j] == b[j]);
        }
        lemma_byte_sum_flip(a.drop_last(), b.drop_last(), i);
    }
}

/// A single corrupted payload byte never goes unnoticed: two payloads of
/// one length that differ in exactly one byte have different checksums, so
/// a record whose payload was altered after framing fails validation.
pub proof fn lemma_checksum_detects_byte_flip(a: Seq<u8>, b: Seq<u8>, i: int)
    requires
        a.len() == b.len(),
        0 <= i < a.len(),
        a[i] != b[i],
        forall|j: int| 0 <= j < a.len() && j != i ==> a[j] == #[trigger] b[j],
    ensures
        checksum_of(a) != checksum_of(b),
{
    lemma_checksum_is_mod_sum(a);
    lemma_checksum_is_mod_sum(b);
    lemma_byte_sum_flip(a, b, i);
    let m = 0x1_0000_0000int;
    if a[i] > b[i] {
        lemma_mod_shift_distinct(byte_sum(b), a[i] - b[i], m);
    } else {
        lemma_mod_shift_distinct(byte_sum(a), b[i] - a[i], m);
    }
}

/// The nine header bytes for a record: little-endian payload length,
/// the series type tag byte, little-endian payload checksum.
pub open spec fn spec_header(len: u32, tag: SeriesDataType, sum: u32) -> Seq<u8> {
    spec_u32_to_le_bytes(len) + seq![spec_tag(tag)] + spec_u32_to_le_bytes(sum)
}

/// A whole framed record: header bytes followed by the payload bytes.
pub open spec fn spec_frame(tag: SeriesDataType, payload: Seq<u8>) -> Seq<u8>
    recommends
        payload.len() <= u32::MAX,
{
    spec_header(payload.len() as u32, tag, checksum_of(payload)) + payload
}

/// Build the header announcing `payload` under type `tag`.
pub fn record_header(tag: SeriesDataType, payload: &[u8]) -> (h: Vec<u8>)
    requires
        payload@.len() <= u32::MAX,
    ensures
        h@ == spec_header(payload@.len() as u32, tag, checksum_of(payload@)),
        h@.len() == HEADER_LEN,
{
    let sum = checksum(payload);
    let mut h = u32_to_le_bytes(payload.len() as u32);
    h.push(u8::from(tag));
    let mut sum_bytes = u32_to_le_bytes(sum);
    h.append(&mut sum_bytes);
    proof {
        assert(h@ =~= spec_header(payload@.len() as u32, tag, checksum_of(payload@)));
    }
    h
}

/// Build the whole framed record, header and payload in one buffer.
pub fn frame_record(tag: SeriesDataType, payload: &[u8]) -> (f: Vec<u8>)
    requires
        payload@.len() <= u32::MAX,
    ensures
        f@ == spec_frame(tag, payload@),
        f@.len() == HEADER_LEN + payload@.len(),
{
    let mut f = record_header(tag, payload);
    f.extend_from_slice(payload);
    proof {
        assert forall|i: int| 0 <= i < f@.len() implies f@[i] == spec_frame(tag, payload@)[i] by {
            if i >= HEADER_LEN {
                assert(cloned(payload@[i - HEADER_LEN], f@[i]));
            }
        }
        assert(f@ =~= spec_frame(tag, payload@));
    }
    f
}

/// A record as returned by recovery: the series type tag announced by the
/// header and the payload bytes the checksum vouched for.
#[derive(Debug, Clone)]
pub struct Record {
    pub tag: SeriesDataType,
    pub payload: Vec<u8>,
}

/// The mathematical image of a [`Record`].
pub struct RecordModel {
    pub tag: SeriesDataType,
    pub payload: Seq<u8>,
}

impl View for Record {
    type V = RecordModel;

    open spec fn view(&self) -> RecordModel {
        RecordModel { tag: self.tag, payload: self.payload@ }
    }
}

/// The models of a sequence of records.
pub open spec fn models_of(rs: Seq<Record>) -> Seq<RecordModel> {
    rs.map_values(|r: Record| r@)
}

/// The payload length a header at `off` announces.
pub open spec fn header_len_at(bytes: Seq<u8>, off: int) -> u32 {
    spec_u32_from_le_bytes(bytes.subrange(off, off + 4))
}

/// The series type the tag byte of a header at `off` decodes to, if any.
pub open spec fn header_tag_at(bytes: Seq<u8>, off: int) -> Option<SeriesDataType> {
    spec_decode_tag(bytes[off + 4])
}

/// The payload checksum a header at `off` announces.
pub open spec fn header_sum_at(bytes: Seq<u8>, off: int) -> u32 {
    spec_u32_from_le_bytes(bytes.subrange(off + 5, off + 9))
}

/// The payload bytes belonging to the header at `off`.
pub open spec fn payload_at(bytes: Seq<u8>, off: int) -> Seq<u8> {
    bytes.subrange(off + HEADER_LEN, off + HEADER_LEN + header_len_at(bytes, off))
}

/// Whether a complete, validating record starts at `off`: the whole header
/// is present, the tag byte is known, the announced payload fits in the
/// segment, and the payload checksum matches the announced one.
pub open spec fn valid_record_at(bytes: Seq<u8>, off: int) -> bool {
    &&& 0 <= off
    &&& off + HEADER_LEN <= bytes.len()
    &&& header_tag_at(bytes, off) is Some
    &&& off + HEADER_LEN + header_len_at(bytes, off) <= bytes.len()
    &&& checksum_of(payload_at(bytes, off)) == header_sum_at(bytes, off)
}

/// The record starting at `off`, assuming one validates there.
pub open spec fn record_at(bytes: Seq<u8>, off: int) -> RecordModel
    recommends
        valid_record_at(bytes, off),
{
    RecordModel { tag: header_tag_at(bytes, off)->Some_0, payload: payload_at(bytes, off) }
}

/// The records recovery yields from `off` on: the longest chain of
/// back-to-back validating records, stopping at the first offset where no
/// record validates.
pub open spec fn records_from(bytes: Seq<u8>, off: int) -> Seq<RecordModel>
    decreases bytes.len() - off,
{
    if valid_record_at(bytes, off) {
        seq![record_at(bytes, off)] + records_from(
            bytes,
            off + HEADER_LEN + header_len_at(bytes, off),
        )
    } else {
        Seq::empty()
    }
}

/// Scan a segment image from `off`, returning every record of the valid
/// chain starting there.
fn recover_from(bytes: &[u8], off: usize) -> (r: Vec<Record>)
    requires
        off <= bytes@.len(),
    ensures
        models_of(r@) == records_from(bytes@, off as int),
    decreases bytes@.len() - off,
{
    let n = bytes.len();
    if n - off < HEADER_LEN {
        assert(models_of(Seq::<Record>::empty()) =~= Seq::<RecordModel>::empty());
        return Vec::new();
    }
    let len32 = u32_from_le_bytes(slice_subrange(bytes, off, off + 4));
    let tag_byte = *slice_index_get(bytes, off + 4);
    let sum = u32_from_le_bytes(slice_subrange(bytes, off + 5, off + HEADER_LEN));
    proof {
        assert(len32 == header_len_at(bytes@, off as int));
        assert(sum == header_sum_at(bytes@, off as int));
    }
    let tag = match SeriesDataType::try_from(tag_byte) {
        Ok(t) => t,
        Err(_) => {
            assert(!valid_record_at(bytes@, off as int));
            assert(models_of(Seq::<Record>::empty()) =~= Seq::<RecordModel>::empty());
            return Vec::new();
        },
    };
    let len = len32 as usize;
    if len > n - off - HEADER_LEN {
        assert(!valid_record_at(bytes@, off as int));
        assert(models_of(Seq::<Record>::empty()) =~= Seq::<RecordModel>::empty());
        return Vec::new();
    }
    let payload_slice = slice_subrange(bytes, off + HEADER_LEN, off + HEADER_LEN + len);
    let actual = checksum(payload_slice);
    if actual != sum {
        assert(!valid_record_at(bytes@, off as int));
        assert(models_of(Seq::<Record>::empty()) =~= Seq::<RecordModel>::empty());
        return Vec::new();
    }
    assert(valid_record_at(bytes@, off as int));
    let payload = slice_to_vec(payload_slice);
    let rec = Record { tag, payload };
    let mut rest = recover_from(bytes, off + HEADER_LEN + len);
    let ghost rest_models = models_of(rest@);
    let mut out: Vec<Record> = Vec::new();
    out.push(rec);
    out.append(&mut rest);
    proof {
        assert(models_of(out@) =~= seq![record_at(bytes@, off as int)] + rest_models);
    }
    out
}

/// Recovery scan of a whole segment image: read records from offset zero,
/// validating each checksum, and stop at the first record that fails to
/// validate or runs past the end. Everything before the stop point is
/// returned; everything at or after it is discarded as an incomplete tail.
pub fn recover(bytes: &[u8]) -> (r: Vec<Record>)
    ensures
        models_of(r@) == records_from(bytes@, 0),
{
    recover_from(bytes, 0)
}

/// Hands out the byte range every record of a segment will occupy. The
/// counter only ever moves forward, by exactly the framed size of each
/// accepted record, so no two allocations ever overlap; allocation is
/// decoupled from the physical write and never blocks on I/O. Writers of
/// one segment must share one allocator behind a serializing step.
pub struct OffsetAllocator {
    /// The offset the next record will be placed at.
    pub next: u64,
}

impl OffsetAllocator {
    /// A fresh allocator for an empty segment: allocation starts at offset zero.
    pub fn new() -> (a: Self)
        ensures
            a.next == 0,
    {
        OffsetAllocator { next: 0 }
    }

    /// Reserve `len` bytes: the caller owns `[off, off + len)` exclusively,
    /// and every later allocation starts at or after `off + len`.
    pub fn allocate(&mut self, len: u64) -> (off: u64)
        requires
            old(self).next + len <= u64::MAX,
        ensures
            off == old(self).next,
            final(self).next == old(self).next + len,
    {
        let off = self.next;
        self.next = self.next + len;
        off
    }

    /// Reserve the range a record with `payload_len` payload bytes will
    /// occupy: the counter advances by exactly the record's framed size,
    /// header included, whether or not the physical write has happened yet.
    pub fn allocate_record(&mut self, payload_len: u32) -> (off: u64)
        requires
            old(self).next + HEADER_LEN + payload_len <= u64::MAX,
        ensures
            off == old(self).next,
            final(self).next == old(self).next + HEADER_LEN + payload_len,
    {
        self.allocate(HEADER_LEN as u64 + payload_len as u64)
    }
}

/// Whether the byte ranges `[o1, o1 + l1)` and `[o2, o2 + l2)` share no byte.
pub open spec fn ranges_disjoint(o1: int, l1: int, o2: int, l2: int) -> bool {
    o1 + l1 <= o2 || o2 + l2 <= o1
}

/// Byte ranges handed out by one allocator never overlap: the earlier one
/// ends at or before the later one starts.
pub proof fn lemma_allocated_ranges_disjoint(o1: u64, l1: u64, o2: u64, l2: u64)
    requires
        o1 + l1 <= o2,
    ensures
        ranges_disjoint(o1 as int, l1 as int, o2 as int, l2 as int),
{
}

/// The segment image after a positioned write of `d` at `off`: the bytes of
/// `[off, off + d.len())` are replaced, every other byte is untouched, and
/// the length does not change.
pub open spec fn write_at(s: Seq<u8>, off: int, d: Seq<u8>) -> Seq<u8>
    recommends
        0 <= off,
        off + d.len() <= s.len(),
{
    s.subrange(0, off) + d + s.subrange(off + d.len(), s.len() as int)
}

/// A positioned write on an in-memory segment image.
pub fn store_at(seg: &mut Vec<u8>, off: usize, data: &[u8])
    requires
        off + data@.len() <= old(seg)@.len(),
    ensures
        final(seg)@ == write_at(old(seg)@, off as int, data@),
{
    let n = seg.len();
    let mut i: usize = 0;
    while i < data.len()
        invariant
            i <= data@.len(),
            off + data@.len() <= n,
            n == seg@.len(),
            seg@.len() == old(seg)@.len(),
            forall|j: int|
                0 <= j < seg@.len() ==> seg@[j] == if off <= j < off + i {
                    data@[j - off]
                } else {
                    old(seg)@[j]
                },
        decreases data@.len() - i,
    {
        seg.set(off + i, *slice_index_get(data, i));
        i = i + 1;
    }
    proof {
        assert(seg@ =~= write_at(old(seg)@, off as int, data@));
    }
}

/// `write_at` keeps the segment length.
pub proof fn lemma_write_at_len(s: Seq<u8>, off: int, d: Seq<u8>)
    requires
        0 <= off,
        off + d.len() <= s.len(),
    ensures
        write_at(s, off, d).len() == s.len(),
{
}

/// After a positioned write, the written range reads back exactly the data.
pub proof fn lemma_write_at_reads_back(s: Seq<u8>, off: int, d: Seq<u8>)
    requires
        0 <= off,
        off + d.len() <= s.len(),
    ensures
        write_at(s, off, d).subrange(off, off + d.len()) == d,
{
    assert(write_at(s, off, d).subrange(off, off + d.len()) =~= d);
}

/// A positioned write leaves every disjoint range of the segment unchanged.
pub proof fn lemma_write_at_preserves_disjoint(s: Seq<u8>, off: int, d: Seq<u8>, a: int, b: int)
    requires
        0 <= off,
        off + d.len() <= s.len(),
        0 <= a <= b <= s.len(),
        ranges_disjoint(off, d.len() as int, a, b - a),
    ensures
        write_at(s, off, d).subrange(a, b) == s.subrange(a, b),
{
    assert(write_at(s, off, d).subrange(a, b) =~= s.subrange(a, b));
}

/// Positioned writes to disjoint ranges commute: the segment image does not
/// depend on the order in which the writers' system calls land.
pub proof fn lemma_write_at_disjoint_commutes(
    s: Seq<u8>,
    o1: int,
    d1: Seq<u8>,
    o2: int,
    d2: Seq<u8>,
)
    requires
        0 <= o1,
        o1 + d1.len() <= s.len(),
        0 <= o2,
        o2 + d2.len() <= s.len(),
        ranges_disjoint(o1, d1.len() as int, o2, d2.len() as int),
    ensures
        write_at(write_at(s, o1, d1), o2, d2) == write_at(write_at(s, o2, d2), o1, d1),
{
    assert(write_at(write_at(s, o1, d1), o2, d2) =~= write_at(write_at(s, o2, d2), o1, d1));
}

/// One writer's positioned write, as allocated for it: a byte range of the
/// segment and the data that goes there.
pub struct WriteOp {
    pub off: int,
    pub data: Seq<u8>,
}

/// Every write lands inside a segment of length `n`.
pub open spec fn ops_in_bounds(ops: Seq<WriteOp>, n: int) -> bool {
    forall|i: int|
        0 <= i < ops.len() ==> 0 <= #[trigger] ops[i].off && ops[i].off + ops[i].data.len() <= n
}

/// No two writes share a byte: what a correct offset allocator guarantees.
pub open spec fn ops_pairwise_disjoint(ops: Seq<WriteOp>) -> bool {
    forall|i: int, j: int|
        0 <= i < j < ops.len() ==> ranges_disjoint(
            #[trigger] ops[i].off,
            ops[i].data.len() as int,
            #[trigger] ops[j].off,
            ops[j].data.len() as int,
        )
}

/// The segment image after the writes land one after another, in the order
/// given.
pub open spec fn apply_writes(s: Seq<u8>, ops: Seq<WriteOp>) -> Seq<u8>
    decreases ops.len(),
{
    if ops.len() == 0 {
        s
    } else {
        apply_writes(write_at(s, ops[0].off, ops[0].data), ops.drop_first())
    }
}

/// Writes that are all disjoint from a byte range leave that range unchanged.
pub proof fn lemma_apply_writes_preserves_disjoint(s: Seq<u8>, ops: Seq<WriteOp>, a: int, b: int)
    requires
        ops_in_bounds(ops, s.len() as int),
        0 <= a <= b <= s.len(),
        forall|i: int|
            0 <= i < ops.len() ==> ranges_disjoint(
                #[trigger] ops[i].off,
                ops[i].data.len() as int,
                a,
                b - a,
            ),
    ensures
        apply_writes(s, ops).len() == s.len(),
        apply_writes(s, ops).subrange(a, b) == s.subrange(a, b),
    decreases ops.len(),
{
    if ops.len() == 0 {
    } else {
        let s1 = write_at(s, ops[0].off, ops[0].data);
        lemma_write_at_len(s, ops[0].off, ops[0].data);
        lemma_write_at_preserves_disjoint(s, ops[0].off, ops[0].data, a, b);
        assert(forall|i: int| 0 <= i < ops.drop_first().len() ==> ops.drop_first()[i] == ops[i + 1]);
        lemma_apply_writes_preserves_disjoint(s1, ops.drop_first(), a, b);
    }
}

/// Concurrent writers at allocator-assigned offsets never corrupt each
/// other: whatever order their positioned writes land in, every writer's
/// byte range reads back exactly the bytes that writer put there.
pub proof fn lemma_disjoint_writes_all_readable(s: Seq<u8>, ops: Seq<WriteOp>, k: int)
    requires
        ops_in_bounds(ops, s.len() as int),
        ops_pairwise_disjoint(ops),
        0 <= k < ops.len(),
    ensures
        apply_writes(s, ops).len() == s.len(),
        apply_writes(s, ops).subrange(ops[k].off, ops[k].off + ops[k].data.len()) == ops[k].data,
    decreases ops.len(),
{
    let s1 = write_at(s, ops[0].off, ops[0].data);
    lemma_write_at_len(s, ops[0].off, ops[0].data);
    let rest = ops.drop_first();
    assert(forall|i: int| 0 <= i < rest.len() ==> rest[i] == ops[i + 1]);
    if k == 0 {
        lemma_write_at_reads_back(s, ops[0].off, ops[0].data);
        lemma_apply_writes_preserves_disjoint(
            s1,
            rest,
            ops[0].off,
            ops[0].off + ops[0].data.len(),
        );
    } else {
        lemma_disjoint_writes_all_readable(s1, rest, k - 1);
    }
}

/// A complete header+payload pair, landed contiguously at its offset,
/// always validates and parses back to exactly the record that was framed.
/// This is what the fallback write path's process-wide lock buys: the pair
/// is placed as one unbroken unit, so the only record that can ever fail
/// validation is one whose tail was genuinely never completed.
pub proof fn lemma_frame_parses_at(s: Seq<u8>, off: int, tag: SeriesDataType, payload: Seq<u8>)
    requires
        0 <= off,
        payload.len() <= u32::MAX,
        off + HEADER_LEN + payload.len() <= s.len(),
        s.subrange(off, off + HEADER_LEN + payload.len()) == spec_frame(tag, payload),
    ensures
        valid_record_at(s, off),
        record_at(s, off) == (RecordModel { tag, payload }),
        header_len_at(s, off) == payload.len(),
{
    lemma_auto_spec_u32_to_from_le_bytes();
    let len32 = payload.len() as u32;
    let sum = checksum_of(payload);
    let f = spec_frame(tag, payload);
    let h = spec_header(len32, tag, sum);
    assert(spec_u32_to_le_bytes(len32).len() == 4);
    assert(spec_u32_to_le_bytes(sum).len() == 4);
    assert(h.len() == HEADER_LEN);
    assert(f.len() == HEADER_LEN + payload.len());
    assert forall|i: int| 0 <= i < HEADER_LEN + payload.len() implies s[off + i] == f[i] by {
        assert(s.subrange(off, off + HEADER_LEN + payload.len())[i] == s[off + i]);
    }
    assert(s.subrange(off, off + 4) =~= spec_u32_to_le_bytes(len32));
    assert(header_len_at(s, off) == len32);
    assert(h[4] == spec_tag(tag));
    assert(f[4] == h[4]);
    assert(s[off + 4] == f[4]);
    assert(header_tag_at(s, off) == Some(tag));
    assert forall|j: int| 0 <= j < 4 implies s[off + 5 + j] == spec_u32_to_le_bytes(sum)[j] by {
        assert(h[5 + j] == spec_u32_to_le_bytes(sum)[j]);
        assert(f[5 + j] == h[5 + j]);
        assert(s[off + (5 + j)] == f[5 + j]);
    }
    assert(s.subrange(off + 5, off + 9) =~= spec_u32_to_le_bytes(sum));
    assert(header_sum_at(s, off) == sum);
    assert forall|j: int| 0 <= j < payload.len() implies payload_at(s, off)[j] == payload[j] by {
        assert(f[HEADER_LEN + j] == payload[j]);
        assert(s[off + (HEADER_LEN + j)] == f[HEADER_LEN + j]);
    }
    assert(payload_at(s, off) =~= payload);
}

/// Whether every record of a sequence can be framed: each payload length
/// fits the header's length field.
pub open spec fn wf_records(rs: Seq<RecordModel>) -> bool {
    forall|i: int| 0 <= i < rs.len() ==> (#[trigger] rs[i]).payload.len() <= u32::MAX
}

/// The byte image of a sequence of records framed back to back from offset
/// zero, as a fully written segment holds them.
pub open spec fn frames_of(rs: Seq<RecordModel>) -> Seq<u8>
    decreases rs.len(),
{
    if rs.len() == 0 {
        Seq::empty()
    } else {
        spec_frame(rs[0].tag, rs[0].payload) + frames_of(rs.drop_first())
    }
}

/// Scanning from an offset sees exactly the bytes from that offset on.
pub proof fn lemma_records_from_shift(s: Seq<u8>, off: int)
    requires
        0 <= off <= s.len(),
    ensures
        records_from(s, off) == records_from(s.subrange(off, s.len() as int), 0),
    decreases s.len() - off,
{
    let sub = s.subrange(off, s.len() as int);
    if off + HEADER_LEN <= s.len() {
        assert(s.subrange(off, off + 4) =~= sub.subrange(0, 4));
        assert(s[off + 4] == sub[4]);
        assert(s.subrange(off + 5, off + 9) =~= sub.subrange(5, 9));
        assert(header_len_at(s, off) == header_len_at(sub, 0));
        assert(header_tag_at(s, off) == header_tag_at(sub, 0));
        assert(header_sum_at(s, off) == header_sum_at(sub, 0));
        let l = header_len_at(s, off) as int;
        if off + HEADER_LEN + l <= s.len() {
            assert(s.subrange(off + HEADER_LEN, off + HEADER_LEN + l) =~= sub.subrange(
                HEADER_LEN as int,
                HEADER_LEN + l,
            ));
            assert(payload_at(s, off) == payload_at(sub, 0));
        }
        assert(valid_record_at(s, off) == valid_record_at(sub, 0));
        if valid_record_at(s, off) {
            assert(record_at(s, off) == record_at(sub, 0));
            let off2 = off + HEADER_LEN + l;
            lemma_records_from_shift(s, off2);
            lemma_records_from_shift(sub, HEADER_LEN + l);
            assert(s.subrange(off2, s.len() as int) =~= sub.subrange(
                HEADER_LEN + l,
                sub.len() as int,
            ));
        }
    } else {
        assert(!valid_record_at(s, off));
        assert(!valid_record_at(sub, 0));
    }
}

/// Recovery of a segment that holds a fully valid prefix of records and
/// then an incomplete tail returns exactly the prefix: every record framed
/// before the tail, none of the tail. The tail being "incomplete" is
/// precisely that no record validates at its start, which covers a header
/// cut short, a payload shorter than its header announces, an unknown tag
/// byte, and a checksum that does not match.
pub proof fn lemma_recovery_returns_valid_prefix(rs: Seq<RecordModel>, tail: Seq<u8>)
    requires
        wf_records(rs),
        !valid_record_at(tail, 0),
    ensures
        records_from(frames_of(rs) + tail, 0) == rs,
    decreases rs.len(),
{
    lemma_auto_spec_u32_to_from_le_bytes();
    if rs.len() == 0 {
        assert(frames_of(rs) + tail =~= tail);
        assert(records_from(tail, 0) =~= rs);
    } else {
        let r0 = rs[0];
        assert(spec_frame(r0.tag, r0.payload).len() == HEADER_LEN + r0.payload.len());
        let rest = rs.drop_first();
        let flen0 = HEADER_LEN + r0.payload.len();
        let restbytes = frames_of(rest) + tail;
        let full = frames_of(rs) + tail;
        let full2 = spec_frame(r0.tag, r0.payload) + restbytes;
        assert(full =~= full2);
        assert(full2.subrange(0, flen0 as int) =~= spec_frame(r0.tag, r0.payload));
        lemma_frame_parses_at(full2, 0, r0.tag, r0.payload);
        lemma_records_from_shift(full2, flen0 as int);
        assert(full2.subrange(flen0 as int, full2.len() as int) =~= restbytes);
        lemma_recovery_returns_valid_prefix(rest, tail);
        assert(records_from(full2, 0) == seq![record_at(full2, 0)] + records_from(
            full2,
            flen0 as int,
        ));
        assert(seq![r0] + rest =~= rs);
    }
}

/// Framing and recovery round-trip: scanning a segment that holds exactly
/// a sequence of framed records returns that sequence, record for record.
pub proof fn lemma_recovery_round_trip(rs: Seq<RecordModel>)
    requires
        wf_records(rs),
    ensures
        records_from(frames_of(rs), 0) == rs,
{
    let tail = Seq::<u8>::empty();
    assert(!valid_record_at(tail, 0));
    lemma_recovery_returns_valid_prefix(rs, tail);
    assert(frames_of(rs) + tail =~= frames_of(rs));
}

/// The two concurrency guarantees combined, stated per record: start from
/// any segment image, let any number of writers place whole framed records
/// at allocator-assigned (hence pairwise disjoint) offsets, in any landing
/// order; then every one of those records validates in the final image and
/// parses back to exactly what its writer framed.
pub proof fn lemma_concurrent_framed_writes_recoverable(
    s: Seq<u8>,
    ops: Seq<WriteOp>,
    k: int,
    tag: SeriesDataType,
    payload: Seq<u8>,
)
    requires
        ops_in_bounds(ops, s.len() as int),
        ops_pairwise_disjoint(ops),
        0 <= k < ops.len(),
        payload.len() <= u32::MAX,
        ops[k].data == spec_frame(tag, payload),
    ensures
        valid_record_at(apply_writes(s, ops), ops[k].off),
        record_at(apply_writes(s, ops), ops[k].off) == (RecordModel { tag, payload }),
{
    lemma_auto_spec_u32_to_from_le_bytes();
    let done = apply_writes(s, ops);
    lemma_disjoint_writes_all_readable(s, ops, k);
    assert(ops[k].data.len() == HEADER_LEN + payload.len());
    lemma_frame_parses_at(done, ops[k].off, tag, payload);
}

} // verus!
