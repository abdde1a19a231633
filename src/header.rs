//! The byte-exact header at the start of a map buffer, the bucket geometry
//! it describes, and what a well-formed map buffer is.
use crate::layout::{is_power_of_two, total_size_of, HEADER_SIZE};
use vstd::prelude::*;

verus! {

/// Magic byte stored in every header.
pub const SECRET_CODE: u8 = 0x3d;

pub const STATUS_EMPTY: u8 = 0;
pub const STATUS_TOMBSTONE: u8 = 1;
pub const STATUS_OCCUPIED: u8 = 2;

/// The state of one bucket; its first byte holds the encoding.
#[derive(Copy, Clone, PartialEq, Eq, Debug, Structural)]
pub enum BucketStatus {
    Empty,
    Tombstone,
    Occupied,
}

pub open spec fn status_byte(st: BucketStatus) -> u8 {
    match st {
        BucketStatus::Empty => STATUS_EMPTY,
        BucketStatus::Tombstone => STATUS_TOMBSTONE,
        BucketStatus::Occupied => STATUS_OCCUPIED,
    }
}

impl BucketStatus {
    /// The byte that encodes this status in a bucket.
    pub fn as_byte(self) -> (r: u8)
        ensures
            r == status_byte(self),
    {
        match self {
            BucketStatus::Empty => STATUS_EMPTY,
            BucketStatus::Tombstone => STATUS_TOMBSTONE,
            BucketStatus::Occupied => STATUS_OCCUPIED,
        }
    }

    /// The status that a byte encodes, if any.
    pub fn from_byte(b: u8) -> (r: Option<BucketStatus>)
        ensures
            b <= 2 ==> (r matches Some(st) && status_byte(st) == b),
            b > 2 ==> r is None,
    {
        if b == STATUS_EMPTY {
            Some(BucketStatus::Empty)
        } else if b == STATUS_TOMBSTONE {
            Some(BucketStatus::Tombstone)
        } else if b == STATUS_OCCUPIED {
            Some(BucketStatus::Occupied)
        } else {
            None
        }
    }
}

/// The header fields, in the order in which they are stored.
#[derive(Copy, Clone, Debug)]
pub struct MapHeader {
    pub capacity: u16,
    pub element_count: u16,
    pub key_size: u32,
    pub value_size: u32,
    pub value_offset: u32,
    pub bucket_size: u32,
    pub logical_limit: u16,
    pub key_offset: u8,
    pub padding_and_secret_code: u8,
}

pub const CAPACITY_AT: usize = 0;
pub const ELEMENT_COUNT_AT: usize = 2;
pub const KEY_SIZE_AT: usize = 4;
pub const VALUE_SIZE_AT: usize = 8;
pub const VALUE_OFFSET_AT: usize = 12;
pub const BUCKET_SIZE_AT: usize = 16;
pub const LOGICAL_LIMIT_AT: usize = 20;
pub const KEY_OFFSET_AT: usize = 22;
pub const SECRET_CODE_AT: usize = 23;

/// Little-endian `u16` stored at `o`.
pub open spec fn u16_at(s: Seq<u8>, o: int) -> int {
    s[o] as int + s[o + 1] as int * 256
}

/// Little-endian `u32` stored at `o`.
pub open spec fn u32_at(s: Seq<u8>, o: int) -> int {
    s[o] as int + s[o + 1] as int * 256 + s[o + 2] as int * 65536 + s[o + 3] as int * 16777216
}

/// The header that the first bytes of `s` encode.
pub open spec fn header_of(s: Seq<u8>) -> MapHeader {
    MapHeader {
        capacity: u16_at(s, CAPACITY_AT as int) as u16,
        element_count: u16_at(s, ELEMENT_COUNT_AT as int) as u16,
        key_size: u32_at(s, KEY_SIZE_AT as int) as u32,
        value_size: u32_at(s, VALUE_SIZE_AT as int) as u32,
        value_offset: u32_at(s, VALUE_OFFSET_AT as int) as u32,
        bucket_size: u32_at(s, BUCKET_SIZE_AT as int) as u32,
        logical_limit: u16_at(s, LOGICAL_LIMIT_AT as int) as u16,
        key_offset: s[KEY_OFFSET_AT as int],
        padding_and_secret_code: s[SECRET_CODE_AT as int],
    }
}

/// `s` with the little-endian `v` written at `o`.
pub open spec fn with_u16(s: Seq<u8>, o: int, v: int) -> Seq<u8> {
    s.update(o, (v % 256) as u8).update(o + 1, (v / 256) as u8)
}

/// `s` with the bytes of `src` written from `at` on.
pub open spec fn splice(s: Seq<u8>, at: int, src: Seq<u8>) -> Seq<u8> {
    Seq::new(
        s.len(),
        |j: int|
            if at <= j < at + src.len() {
                src[j - at]
            } else {
                s[j]
            },
    )
}

/// The header fields describe a usable bucket geometry.
pub open spec fn header_ok(h: MapHeader) -> bool {
    &&& is_power_of_two(h.capacity as int)
    &&& h.key_size > 0
    &&& 1 <= h.key_offset
    &&& h.key_offset as int + h.key_size as int <= h.value_offset as int
    &&& h.value_offset as int + h.value_size as int <= h.bucket_size as int
    &&& h.logical_limit <= h.capacity
    &&& h.padding_and_secret_code == SECRET_CODE
}

/// Offset in the buffer of bucket `i`.
pub open spec fn bucket_start(h: MapHeader, i: int) -> int {
    HEADER_SIZE as int + i * h.bucket_size as int
}

pub open spec fn key_location(h: MapHeader, i: int) -> int {
    bucket_start(h, i) + h.key_offset as int
}

pub open spec fn value_location(h: MapHeader, i: int) -> int {
    bucket_start(h, i) + h.value_offset as int
}

pub open spec fn status_at(s: Seq<u8>, h: MapHeader, i: int) -> u8 {
    s[bucket_start(h, i)]
}

pub open spec fn key_at(s: Seq<u8>, h: MapHeader, i: int) -> Seq<u8> {
    s.subrange(key_location(h, i), key_location(h, i) + h.key_size as int)
}

pub open spec fn value_at(s: Seq<u8>, h: MapHeader, i: int) -> Seq<u8> {
    s.subrange(value_location(h, i), value_location(h, i) + h.value_size as int)
}

/// Number of buckets among the first `n` that are occupied.
pub open spec fn occupied_count(s: Seq<u8>, h: MapHeader, n: int) -> int
    decreases n,
{
    if n <= 0 {
        0
    } else {
        occupied_count(s, h, n - 1) + if status_at(s, h, n - 1) == STATUS_OCCUPIED {
            1int
        } else {
            0
        }
    }
}

/// `s` is an initialised map buffer: a usable header, room for every
/// bucket, a known status in each bucket, and an element count that equals
/// the number of occupied buckets.
pub open spec fn is_map(s: Seq<u8>) -> bool {
    let h = header_of(s);
    &&& s.len() >= HEADER_SIZE
    &&& header_ok(h)
    &&& total_size_of(h.capacity as int, h.bucket_size as int) <= s.len()
    &&& forall|i: int| 0 <= i < h.capacity ==> #[trigger] status_at(s, h, i) <= STATUS_OCCUPIED
    &&& h.element_count == occupied_count(s, h, h.capacity as int)
}

pub fn read_u16(buf: &[u8], o: usize) -> (r: u16)
    requires
        o + 2 <= buf@.len(),
    ensures
        r as int == u16_at(buf@, o as int),
{
    buf[o] as u16 + buf[o + 1] as u16 * 256
}

pub fn read_u32(buf: &[u8], o: usize) -> (r: u32)
    requires
        o + 4 <= buf@.len(),
    ensures
        r as int == u32_at(buf@, o as int),
{
    buf[o] as u32 + buf[o + 1] as u32 * 256 + buf[o + 2] as u32 * 65536 + buf[o + 3] as u32
        * 16777216
}

/// Decodes the header at the start of `buf`.
pub fn read_header(buf: &[u8]) -> (r: MapHeader)
    requires
        buf@.len() >= HEADER_SIZE,
    ensures
        r == header_of(buf@),
{
    MapHeader {
        capacity: read_u16(buf, CAPACITY_AT),
        element_count: read_u16(buf, ELEMENT_COUNT_AT),
        key_size: read_u32(buf, KEY_SIZE_AT),
        value_size: read_u32(buf, VALUE_SIZE_AT),
        value_offset: read_u32(buf, VALUE_OFFSET_AT),
        bucket_size: read_u32(buf, BUCKET_SIZE_AT),
        logical_limit: read_u16(buf, LOGICAL_LIMIT_AT),
        key_offset: buf[KEY_OFFSET_AT],
        padding_and_secret_code: buf[SECRET_CODE_AT],
    }
}

pub fn write_u16(buf: &mut Vec<u8>, o: usize, v: u16)
    requires
        o + 2 <= old(buf)@.len(),
    ensures
        final(buf)@ == with_u16(old(buf)@, o as int, v as int),
        u16_at(final(buf)@, o as int) == v,
{
    let len = buf.len();
    assert(o + 1 < len);
    let o1 = o + 1;
    buf[o] = (v % 256) as u8;
    buf[o1] = (v / 256) as u8;
}

pub fn write_u32(buf: &mut Vec<u8>, o: usize, v: u32)
    requires
        o + 4 <= old(buf)@.len(),
    ensures
        final(buf)@.len() == old(buf)@.len(),
        forall|j: int| 0 <= j < old(buf)@.len() && !(o <= j < o + 4) ==> final(buf)@[j] == old(buf)@[j],
        u32_at(final(buf)@, o as int) == v,
{
    let len = buf.len();
    assert(o + 3 < len);
    let (o1, o2, o3) = (o + 1, o + 2, o + 3);
    buf[o] = (v % 256) as u8;
    buf[o1] = ((v / 256) % 256) as u8;
    buf[o2] = ((v / 65536) % 256) as u8;
    buf[o3] = (v / 16777216) as u8;
}

/// Encodes `h` at the start of `buf`, leaving the buckets alone.
pub fn write_header(buf: &mut Vec<u8>, h: &MapHeader)
    requires
        old(buf)@.len() >= HEADER_SIZE,
    ensures
        final(buf)@.len() == old(buf)@.len(),
        header_of(final(buf)@) == *h,
        forall|j: int| HEADER_SIZE <= j < old(buf)@.len() ==> final(buf)@[j] == old(buf)@[j],
{
    write_u16(buf, CAPACITY_AT, h.capacity);
    write_u16(buf, ELEMENT_COUNT_AT, h.element_count);
    write_u32(buf, KEY_SIZE_AT, h.key_size);
    write_u32(buf, VALUE_SIZE_AT, h.value_size);
    write_u32(buf, VALUE_OFFSET_AT, h.value_offset);
    write_u32(buf, BUCKET_SIZE_AT, h.bucket_size);
    write_u16(buf, LOGICAL_LIMIT_AT, h.logical_limit);
    buf[KEY_OFFSET_AT] = h.key_offset;
    buf[SECRET_CODE_AT] = h.padding_and_secret_code;
}

/// Buckets lie after the header and inside the bucket array.
pub proof fn lemma_bucket_in_bounds(h: MapHeader, i: int)
    requires
        0 <= i < h.capacity,
    ensures
        HEADER_SIZE <= bucket_start(h, i),
        bucket_start(h, i) + h.bucket_size <= total_size_of(h.capacity as int, h.bucket_size as int),
{
    let bs = h.bucket_size as int;
    let cap = h.capacity as int;
    assert(i * bs + bs <= cap * bs) by (nonlinear_arith)
        requires
            0 <= i < cap,
            0 <= bs,
    ;
    assert(0 <= i * bs) by (nonlinear_arith)
        requires
            0 <= i,
            0 <= bs,
    ;
}

/// Distinct positions inside the buckets are distinct bytes of the buffer.
pub proof fn lemma_positions_distinct(bs: int, i: int, p: int, a: int, b: int)
    requires
        0 <= i,
        0 <= p,
        0 <= a < bs,
        0 <= b < bs,
        i != p || a != b,
    ensures
        i * bs + a != p * bs + b,
{
    if i < p {
        assert(i * bs + bs <= p * bs) by (nonlinear_arith)
            requires
                i < p,
                0 <= bs,
        ;
    } else if i > p {
        assert(p * bs + bs <= i * bs) by (nonlinear_arith)
            requires
                p < i,
                0 <= bs,
        ;
    }
}

pub proof fn lemma_count_bounds(s: Seq<u8>, h: MapHeader, n: int)
    requires
        0 <= n,
    ensures
        0 <= occupied_count(s, h, n) <= n,
    decreases n,
{
    if n > 0 {
        lemma_count_bounds(s, h, n - 1);
    }
}

/// A bucket that is not occupied leaves the count below the bucket number.
pub proof fn lemma_count_below(s: Seq<u8>, h: MapHeader, n: int, p: int)
    requires
        0 <= p < n,
        status_at(s, h, p) != STATUS_OCCUPIED,
    ensures
        occupied_count(s, h, n) < n,
    decreases n,
{
    if p < n - 1 {
        lemma_count_below(s, h, n - 1, p);
    } else {
        lemma_count_bounds(s, h, n - 1);
    }
}

/// Changing the status of bucket `p` alone changes the count by the change
/// in whether `p` is occupied.
pub proof fn lemma_count_update(s: Seq<u8>, t: Seq<u8>, h: MapHeader, g: MapHeader, n: int, p: int)
    requires
        0 <= n,
        g.bucket_size == h.bucket_size,
        forall|i: int| 0 <= i < n && i != p ==> status_at(t, g, i) == status_at(s, h, i),
    ensures
        occupied_count(t, g, n) == occupied_count(s, h, n) + if 0 <= p < n {
            (if status_at(t, g, p) == STATUS_OCCUPIED { 1int } else { 0 }) - (if status_at(
                s,
                h,
                p,
            ) == STATUS_OCCUPIED {
                1int
            } else {
                0
            })
        } else {
            0
        },
    decreases n,
{
    if n > 0 {
        lemma_count_update(s, t, h, g, n - 1, p);
    }
}

} // verus!
