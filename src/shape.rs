use vstd::prelude::*;

verus! {

/// Little-endian 16-bit value at `i`.
pub open spec fn u16_at(b: Seq<u8>, i: int) -> int {
    b[i] as int + 256 * b[i + 1] as int
}

/// Little-endian 32-bit value at `i`.
pub open spec fn u32_at(b: Seq<u8>, i: int) -> int {
    b[i] as int + 256 * b[i + 1] as int + 65536 * b[i + 2] as int + 16777216 * b[i + 3] as int
}

pub const STRING_POOL: u32 = 0x0001;

pub const XML_TREE: u32 = 0x0003;

pub const START_NAMESPACE: u32 = 0x0100;

pub const END_NAMESPACE: u32 = 0x0101;

pub const START_ELEMENT: u32 = 0x0102;

pub const END_ELEMENT: u32 = 0x0103;

pub const RESOURCE_MAP: u32 = 0x0180;

/// Every typed value of the start element at `p` declares 8 bytes.
pub open spec fn values_sized(b: Seq<u8>, p: int, n: int) -> bool {
    forall|i: int| 0 <= i < n ==> #[trigger] u16_at(b, p + 48 + 20 * i) == 8
}

/// The chunk at `p` is one that the decoder reads without fault: a string
/// pool only as the first child (its tables inside the chunk and the
/// bytes), else XML nodes only (a start element's attributes inside the bytes, each value of 8
/// bytes; a resource map whose header fits its size and whose entries lie
/// inside the bytes).
pub open spec fn child_ok(b: Seq<u8>, p: int, first: bool) -> bool {
    if p < 0 || p + 8 > b.len() {
        false
    } else {
        let t = u16_at(b, p);
        let size = u32_at(b, p + 4);
        if t == STRING_POOL {
            first && size >= 28 && p + size <= b.len() && 4 * (u32_at(b, p + 8) + u32_at(b, p + 12))
                <= size
        } else if t == START_NAMESPACE || t == END_NAMESPACE || t == END_ELEMENT {
            true
        } else if t == START_ELEMENT {
            p + 36 <= b.len() && p + 36 + 20 * u16_at(b, p + 28) <= b.len() && values_sized(
                b,
                p,
                u16_at(b, p + 28),
            )
        } else if t == RESOURCE_MAP {
            u16_at(b, p + 2) <= size && p + 8 + (size - u16_at(b, p + 2)) / 4 * 4 <= b.len()
        } else {
            false
        }
    }
}

/// Where the decoder continues after the chunk at `p`.
pub open spec fn next_pos(b: Seq<u8>, p: int) -> int {
    let t = u16_at(b, p);
    let size = u32_at(b, p + 4);
    if t == STRING_POOL {
        p + size
    } else if t == START_ELEMENT {
        p + 36 + 20 * u16_at(b, p + 28)
    } else if t == RESOURCE_MAP {
        p + 8 + (size - u16_at(b, p + 2)) / 4 * 4
    } else {
        p + 24
    }
}

/// The child chunks from `p` up to `end` are all readable; `first` tells
/// whether `p` is where the children start.
pub open spec fn nodes_fit(b: Seq<u8>, p: int, end: int, first: bool) -> bool
    decreases end - p,
{
    if p >= end {
        true
    } else if child_ok(b, p, first) && next_pos(b, p) > p {
        if next_pos(b, p) >= end {
            true
        } else {
            nodes_fit(b, next_pos(b, p), end, false)
        }
    } else {
        false
    }
}

/// Bytes that the decoder reads without fault: an XML tree chunk whose
/// children are XML nodes, save a string pool that may lead them.
pub open spec fn manifest_shape(b: Seq<u8>) -> bool {
    b.len() >= 8 && u16_at(b, 0) == XML_TREE && nodes_fit(b, 8, u32_at(b, 4), true)
}

fn read16(b: &[u8], i: u128) -> (r: u128)
    requires
        i + 2 <= b@.len(),
    ensures
        r == u16_at(b@, i as int),
{
    b[i as usize] as u128 + 256 * b[(i + 1) as usize] as u128
}

fn read32(b: &[u8], i: u128) -> (r: u128)
    requires
        i + 4 <= b@.len(),
    ensures
        r == u32_at(b@, i as int),
{
    b[i as usize] as u128 + 256 * b[(i + 1) as usize] as u128 + 65536 * b[(i + 2) as usize] as u128
        + 16777216 * b[(i + 3) as usize] as u128
}

/// Whether the chunk at `p` is readable, and where the next one starts.
fn check_child(b: &[u8], p: u128, first: bool) -> (r: Option<u128>)
    requires
        p <= b@.len(),
    ensures
        r is Some <==> child_ok(b@, p as int, first),
        r matches Some(q) ==> q == next_pos(b@, p as int) && q <= b@.len() + 24,
{
    let len = b.len() as u128;
    if p + 8 > len {
        return None;
    }
    let t = read16(b, p);
    let size = read32(b, p + 4);
    if t == STRING_POOL as u128 {
        if first && size >= 28 && p + size <= len && 4 * (read32(b, p + 8)
            + read32(b, p + 12)) <= size {
            Some(p + size)
        } else {
            None
        }
    } else if t == START_NAMESPACE as u128 || t == END_NAMESPACE as u128 || t == END_ELEMENT as u128 {
        Some(p + 24)
    } else if t == START_ELEMENT as u128 {
        if p + 36 > len {
            return None;
        }
        let n = read16(b, p + 28);
        if p + 36 + 20 * n > len {
            return None;
        }
        let mut i: u128 = 0;
        while i < n
            invariant
                len == b@.len(),
                t == u16_at(b@, p as int),
                t == START_ELEMENT,
                p + 36 <= len,
                p + 36 + 20 * n <= len,
                i <= n,
                n == u16_at(b@, p + 28),
                forall|k: int| 0 <= k < i ==> #[trigger] u16_at(b@, p + 48 + 20 * k) == 8,
            decreases n - i,
        {
            if read16(b, p + 48 + 20 * i) != 8 {
                assert(u16_at(b@, p + 48 + 20 * (i as int)) != 8);
                assert(!values_sized(b@, p as int, n as int));
                return None;
            }
            i = i + 1;
        }
        Some(p + 36 + 20 * n)
    } else if t == RESOURCE_MAP as u128 {
        let hs = read16(b, p + 2);
        if hs <= size && p + 8 + (size - hs) / 4 * 4 <= len {
            Some(p + 8 + (size - hs) / 4 * 4)
        } else {
            None
        }
    } else {
        None
    }
}

/// Whether the bytes are a manifest that the decoder reads without fault.
pub fn manifest_shape_ok(b: &[u8]) -> (r: bool)
    ensures
        r == manifest_shape(b@),
{
    let len = b.len() as u128;
    if len < 8 || read16(b, 0) != XML_TREE as u128 {
        return false;
    }
    let end = read32(b, 4);
    let mut p: u128 = 8;
    let mut first = true;
    while p < end
        invariant
            len == b@.len(),
            p <= len + 24,
            end == u32_at(b@, 4),
            b@.len() >= 8 && u16_at(b@, 0) == XML_TREE,
            manifest_shape(b@) == nodes_fit(b@, p as int, end as int, first),
        decreases end - p,
    {
        if p > len {
            return false;
        }
        match check_child(b, p, first) {
            Some(q) => {
                if q <= p {
                    return false;
                }
                if q >= end {
                    return true;
                }
                p = q;
                first = false;
            },
            None => return false,
        }
    }
    true
}

} // verus!
