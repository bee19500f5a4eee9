use vstd::prelude::*;

verus! {

/// Access rights of a 32-bit task-state segment.
pub const AR_TSS32: i32 = 0x0089;

/// Access rights of a local descriptor table.
pub const AR_LDT: i32 = 0x0082;

/// Access rights of a 32-bit interrupt gate.
pub const AR_INTGATE32: i32 = 0x008e;

/// Limit above which a segment is counted in 4 KiB pages.
pub const LIMIT_BYTES_MAX: u32 = 0xfffff;

/// Granularity bit of the access rights.
pub const AR_GRANULARITY: i32 = 0x8000;

/// One entry of a global or local descriptor table, in its hardware layout.
#[derive(Debug, Clone, Copy)]
pub struct SegmentDescriptor {
    pub limit_low: u16,
    pub base_low: u16,
    pub base_mid: u8,
    pub access_right: u8,
    pub limit_high: u8,
    pub base_high: u8,
}

/// The limit as stored: in pages when it does not fit in 20 bits.
pub open spec fn stored_limit(limit: u32) -> u32 {
    if limit > LIMIT_BYTES_MAX {
        limit / 0x1000
    } else {
        limit
    }
}

/// The access rights as stored: with the granularity bit for a limit in pages.
pub open spec fn stored_rights(limit: u32, ar: i32) -> i32 {
    if limit > LIMIT_BYTES_MAX {
        ar | AR_GRANULARITY
    } else {
        ar
    }
}

impl SegmentDescriptor {
    /// The descriptor of a segment at `base` with the given limit and rights:
    /// the base split into bytes 0-1, 2 and 3, the stored limit into bits
    /// 0-15 and 16-19, the stored rights into their low byte and the high
    /// nibble of their second byte.
    pub fn new(limit: u32, base: i32, ar: i32) -> (r: SegmentDescriptor)
        ensures
            ({
                let lim = stored_limit(limit) as int;
                let b = base as u32 as int;
                let a = stored_rights(limit, ar) as u32 as int;
                &&& r.limit_low == lim % 0x10000
                &&& r.base_low == b % 0x10000
                &&& r.base_mid == b / 0x10000 % 0x100
                &&& r.base_high == b / 0x100_0000
                &&& r.access_right == a % 0x100
                &&& r.limit_high == lim / 0x10000 % 0x10 + a / 0x100 % 0x100 / 0x10 * 0x10
            }),
    {
        let mut limit = limit;
        let mut ar = ar;
        if limit > LIMIT_BYTES_MAX {
            ar = ar | AR_GRANULARITY;
            limit = limit / 0x1000;
        }
        let b = base as u32;
        let a = ar as u32;
        let limit_low = (limit & 0xffff) as u16;
        let base_low = (b & 0xffff) as u16;
        let base_mid = ((b >> 16u32) & 0xff) as u8;
        let base_high = (b >> 24u32) as u8;
        let access_right = (a & 0xff) as u8;
        let limit_high = (((limit >> 16u32) & 0x0f) | ((a >> 8u32) & 0xf0)) as u8;
        proof {
            assert(limit & 0xffff == limit % 0x10000) by (bit_vector);
            assert(b & 0xffff == b % 0x10000) by (bit_vector);
            assert((b >> 16u32) & 0xff == b / 0x10000 % 0x100) by (bit_vector);
            assert(b >> 24u32 == b / 0x100_0000) by (bit_vector);
            assert(a & 0xff == a % 0x100) by (bit_vector);
            assert(((limit >> 16u32) & 0x0f) | ((a >> 8u32) & 0xf0) == limit / 0x10000 % 0x10 + a
                / 0x100 % 0x100 / 0x10 * 0x10) by (bit_vector);
        }
        SegmentDescriptor { limit_low, base_low, base_mid, access_right, limit_high, base_high }
    }
}

/// One entry of the interrupt descriptor table, in its hardware layout.
#[derive(Debug, Clone, Copy)]
pub struct GateDescriptor {
    pub offset_low: u16,
    pub selector: u16,
    pub dw_count: u8,
    pub access_right: u8,
    pub offset_high: u16,
}

impl GateDescriptor {
    /// Descriptor that sends an interrupt to `offset` within code segment `selector`.
    pub fn new(offset: u32, selector: i32, ar: i32) -> (r: GateDescriptor)
        ensures
            r.offset_low == offset % 0x10000,
            r.offset_high == offset / 0x10000,
            r.selector == selector as u32 % 0x10000,
            r.access_right == ar as u32 % 0x100,
            r.dw_count == ar as u32 / 0x100 % 0x100,
    {
        let sel = selector as u32;
        let a = ar as u32;
        proof {
            assert(offset & 0xffff == offset % 0x10000) by (bit_vector);
            assert(offset >> 16u32 == offset / 0x10000) by (bit_vector);
            assert(sel & 0xffff == sel % 0x10000) by (bit_vector);
            assert(a & 0xff == a % 0x100) by (bit_vector);
            assert((a >> 8u32) & 0xff == a / 0x100 % 0x100) by (bit_vector);
        }
        GateDescriptor {
            offset_low: (offset & 0xffff) as u16,
            selector: (sel & 0xffff) as u16,
            dw_count: ((a >> 8u32) & 0xff) as u8,
            access_right: (a & 0xff) as u8,
            offset_high: (offset >> 16u32) as u16,
        }
    }
}

} // verus!
