//! Layout arithmetic for the network's shared stream regions.
use vstd::prelude::*;

verus! {

/// `value` rounded up to the next multiple of `alignment`.
pub open spec fn rounded_up(value: u32, alignment: u32) -> int {
    if value % alignment == 0 {
        value as int
    } else {
        value + alignment - value % alignment
    }
}

/// Round `value` up to a multiple of `alignment`.
pub fn align_up(value: u32, alignment: u32) -> (r: u32)
    requires
        alignment != 0,
        rounded_up(value, alignment) <= u32::MAX,
    ensures
        r == rounded_up(value, alignment),
        r % alignment == 0,
        value <= r < value + alignment,
{
    let rem = value % alignment;
    if rem == 0 {
        value
    } else {
        let r = value + (alignment - rem);
        assert(r % alignment == 0) by (nonlinear_arith)
            requires
                alignment != 0,
                rem == value % alignment,
                rem != 0,
                r == value + (alignment - rem),
        {
            assert(value == (value / alignment) * alignment + rem);
            assert(r == (value / alignment + 1) * alignment);
        }
        r
    }
}

/// Where the parts of a duplex stream region go: a multi-memory header,
/// then the inbound ring, then the outbound ring, each ring starting on an
/// 8-byte boundary.
#[derive(Clone, Copy, Debug, PartialEq, Eq, Structural)]
pub struct StreamLayout {
    /// Bytes of one ring: its header plus its data.
    pub ring_region_len: u32,
    /// Bytes of the multi-memory header (two entries).
    pub header_size: u32,
    /// Bytes of the whole region.
    pub total_capacity: u32,
    /// Offset of the inbound ring.
    pub inbound_offset: u64,
    /// Offset of the outbound ring.
    pub outbound_offset: u64,
}

/// `x` rounded up to a multiple of 8.
pub open spec fn align8(x: int) -> int {
    if x % 8 == 0 {
        x
    } else {
        x + 8 - x % 8
    }
}

/// The layout for the given header and ring sizes, in unbounded integers.
pub open spec fn layout_of(ring_header: int, entry_offset: int, entry_size: int, ring_capacity: int) -> (int, int, int, int, int) {
    let ring = ring_header + ring_capacity;
    let header = entry_offset + 2 * entry_size;
    let total = align8(header + align8(header + ring) + ring);
    let inbound = align8(header);
    let outbound = align8(inbound + ring);
    (ring, header, total, inbound, outbound)
}

proof fn lemma_align8(x: int)
    requires
        x >= 0,
    ensures
        x <= align8(x) < x + 8,
        align8(x) % 8 == 0,
{
    assert(align8(x) % 8 == 0) by (nonlinear_arith)
        requires
            x >= 0,
    {
    }
}

proof fn lemma_align8_monotone(x: int, y: int)
    requires
        0 <= x <= y,
    ensures
        align8(x) <= align8(y),
{
    lemma_align8(x);
    lemma_align8(y);
    assert(align8(x) <= align8(y)) by (nonlinear_arith)
        requires
            x <= y,
            align8(x) % 8 == 0,
            align8(y) % 8 == 0,
            x <= align8(x) < x + 8,
            y <= align8(y) < y + 8,
    {
    }
}

proof fn lemma_align8_shift(a: int, x: int)
    requires
        a >= 0,
        x >= 0,
        a % 8 == 0,
    ensures
        align8(a + x) == a + align8(x),
{
    assert((a + x) % 8 == x % 8) by (nonlinear_arith)
        requires
            a % 8 == 0,
            a >= 0,
            x >= 0,
    {
    }
}

/// With a header of at least 8 bytes, the outbound ring ends within the
/// region.
proof fn lemma_fits(h: int, ring: int)
    requires
        h >= 8,
        ring >= 0,
    ensures
        align8(align8(h) + ring) + ring <= align8(h + align8(h + ring) + ring),
{
    lemma_align8(h);
    lemma_align8(ring);
    lemma_align8_shift(align8(h), ring);
    lemma_align8_shift(8, ring);
    lemma_align8_monotone(ring + 8, h + ring);
    lemma_align8(h + align8(h + ring) + ring);
}

/// Lays out a duplex stream region from the ring header size, the
/// multi-memory header's entry offset and entry size, and the ring data
/// capacity, with the arithmetic done in `u32` as the region requires.
pub fn stream_layout(ring_header: u32, entry_offset: u32, entry_size: u32, ring_capacity: u32) -> (r: StreamLayout)
    requires
        layout_of(ring_header as int, entry_offset as int, entry_size as int, ring_capacity as int).2 <= u32::MAX,
    ensures
        ({
            let l = layout_of(ring_header as int, entry_offset as int, entry_size as int, ring_capacity as int);
            &&& r.ring_region_len == l.0
            &&& r.header_size == l.1
            &&& r.total_capacity == l.2
            &&& r.inbound_offset == l.3
            &&& r.outbound_offset == l.4
        }),
        r.inbound_offset % 8 == 0,
        r.outbound_offset % 8 == 0,
        r.header_size <= r.inbound_offset,
        r.inbound_offset + r.ring_region_len <= r.outbound_offset,
        r.header_size >= 8 ==> r.outbound_offset + r.ring_region_len <= r.total_capacity,
{
    let ghost l = layout_of(ring_header as int, entry_offset as int, entry_size as int, ring_capacity as int);
    proof {
        let ring = l.0;
        let header = l.1;
        lemma_align8(header + ring);
        lemma_align8(header + align8(header + ring) + ring);
        lemma_align8(header);
        lemma_align8(align8(header) + ring);
    }
    let ring_region_len = ring_header + ring_capacity;
    let header_size = entry_offset + 2 * entry_size;
    let total_capacity = align_up(header_size + align_up(header_size + ring_region_len, 8) + ring_region_len, 8);
    let inbound = align_up(header_size, 8);
    proof {
        lemma_align8(l.3 + l.0);
        lemma_align8_monotone(l.3 + l.0, l.1 + align8(l.1 + l.0) + l.0);
        assert(l.3 + l.0 <= l.1 + align8(l.1 + l.0) + l.0);
    }
    let outbound = align_up(inbound + ring_region_len, 8);
    proof {
        if l.1 >= 8 {
            lemma_fits(l.1, l.0);
        }
    }
    StreamLayout {
        ring_region_len,
        header_size,
        total_capacity,
        inbound_offset: inbound as u64,
        outbound_offset: outbound as u64,
    }
}

} // verus!
