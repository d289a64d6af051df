//! The scanning engine: which bytes a first scan reads and where it looks in
//! them, why that finds every match in every region, and how a rescan
//! narrows earlier results.

use vstd::prelude::*;
use crate::encoding::{encode_utf16, le_bytes_to_units, le_units};
use crate::numeric::{compare_bytes_exact, compare_bytes_numeric, compares, compares_exact, Comparison};
use crate::text::{from_utf8_lossy, from_utf16_lossy, utf16_lossy, utf8_text, well_formed_utf16};
use vstd::utf8::{decode_utf8, valid_utf8};
use crate::types::{
    copy_bytes, found_views, lemma_to_bytes_len, FoundAddress, FoundAddressView, MemoryRegion,
    ScanFilter, ScanValue, ScanValueView, ValueType,
};

verus! {

/// Memory is scanned in chunks of this many bytes; each read runs past its
/// chunk by the scanned value's size less one byte, so that a value that
/// starts in one chunk and ends in the next is found.
pub const CHUNK_SIZE: usize = 4194304;

/// The step between candidate positions when scanning for a value: the
/// natural alignment of fixed-size numbers, every byte for strings and bytes.
pub open spec fn alignment(v: ScanValueView) -> nat {
    match v {
        ScanValueView::I16(_) | ScanValueView::U16(_) => 2,
        ScanValueView::I32(_) | ScanValueView::U32(_) | ScanValueView::F32(_) => 4,
        ScanValueView::I64(_) | ScanValueView::U64(_) | ScanValueView::F64(_) => 8,
        _ => 1,
    }
}

/// The step between candidate positions when scanning for `target`.
pub fn scan_alignment(target: &ScanValue) -> (r: usize)
    ensures
        r == alignment(target@),
{
    match target {
        ScanValue::I16(_) | ScanValue::U16(_) => 2,
        ScanValue::I32(_) | ScanValue::U32(_) | ScanValue::F32(_) => 4,
        ScanValue::I64(_) | ScanValue::U64(_) | ScanValue::F64(_) => 8,
        _ => 1,
    }
}

/// The candidate positions `p, p + align, ...` below `limit` at which `size`
/// bytes fit in a buffer of `len` bytes.
pub open spec fn offsets_from(size: nat, align: nat, len: nat, limit: nat, p: nat) -> Seq<nat>
    decreases len - p,
{
    if align == 0 || p + size > len || p >= limit {
        seq![]
    } else if p + align > len {
        seq![p]
    } else {
        seq![p] + offsets_from(size, align, len, limit, p + align)
    }
}

/// Whether the `k`-th candidate position `p` is a match for `target`: by
/// its bytes, or, for a floating-point target, by the `k`-th entry of
/// `float_hits` (a missing entry is no match).
pub open spec fn is_hit(target: ScanValueView, buf: Seq<u8>, float_hits: Seq<bool>, p: nat, k: nat) -> bool {
    if target.is_float() {
        k < float_hits.len() && float_hits[k as int]
    } else {
        target.bytes_at(buf, p as int)
    }
}

/// The record of a match of `target` at position `p` of a buffer read at `base`.
pub open spec fn found_at(target: ScanValueView, buf: Seq<u8>, base: u64, p: nat) -> FoundAddressView {
    FoundAddressView {
        address: (base + p) as u64,
        current_value: target,
        previous_bytes: buf.subrange(p as int, (p + target.byte_size()) as int),
    }
}

/// The matches of `target` in `buf` at the candidate positions from `p`
/// (the `k`-th one) onwards and below `limit`, in increasing order of position.
pub open spec fn scan_from(
    target: ScanValueView,
    buf: Seq<u8>,
    base: u64,
    float_hits: Seq<bool>,
    p: nat,
    k: nat,
    limit: nat,
) -> Seq<FoundAddressView>
    decreases buf.len() - p,
{
    let size = target.byte_size();
    let align = alignment(target);
    if p + size > buf.len() || p >= limit {
        seq![]
    } else {
        let here = if is_hit(target, buf, float_hits, p, k) {
            seq![found_at(target, buf, base, p)]
        } else {
            seq![]
        };
        if p + align > buf.len() {
            here
        } else {
            here + scan_from(target, buf, base, float_hits, p + align, k + 1, limit)
        }
    }
}

/// The candidate positions below `limit` at which a scan for `target` looks
/// in a buffer of `len` bytes, in increasing order. A floating-point target
/// is matched approximately outside this library, one decision per position.
pub fn scan_offsets(target: &ScanValue, len: usize, limit: usize) -> (r: Vec<usize>)
    requires
        target@.fits(),
    ensures
        r@.len() == offsets_from(target@.byte_size(), alignment(target@), len as nat, limit as nat, 0).len(),
        forall|i: int|
            0 <= i < r@.len() ==> r@[i] as nat == #[trigger] offsets_from(
                target@.byte_size(),
                alignment(target@),
                len as nat,
                limit as nat,
                0,
            )[i],
{
    let size = target.byte_size();
    let align = scan_alignment(target);
    let ghost offs = offsets_from(size as nat, align as nat, len as nat, limit as nat, 0);
    let mut r: Vec<usize> = Vec::new();
    if size > len || limit == 0 {
        return r;
    }
    let mut pos: usize = 0;
    loop
        invariant
            size == target@.byte_size(),
            align == alignment(target@),
            size <= len,
            align >= 1,
            pos + size <= len,
            pos < limit,
            offs == offsets_from(size as nat, align as nat, len as nat, limit as nat, 0),
            r@.len() + offsets_from(size as nat, align as nat, len as nat, limit as nat, pos as nat).len() == offs.len(),
            forall|i: int| 0 <= i < r@.len() ==> r@[i] as nat == #[trigger] offs[i],
            forall|i: int|
                0 <= i < offsets_from(size as nat, align as nat, len as nat, limit as nat, pos as nat).len()
                    ==> #[trigger] offsets_from(size as nat, align as nat, len as nat, limit as nat, pos as nat)[i]
                    == offs[r@.len() + i],
        decreases len - pos,
    {
        let ghost rest = offsets_from(size as nat, align as nat, len as nat, limit as nat, pos as nat);
        r.push(pos);
        assert(rest[0] == pos);
        if len - pos < align {
            assert(rest.len() == 1);
            return r;
        }
        let ghost next = offsets_from(size as nat, align as nat, len as nat, limit as nat, (pos + align) as nat);
        assert(rest == seq![pos as nat] + next);
        if len - pos - align < size || limit - pos <= align {
            assert(next.len() == 0);
            assert(r@.len() == offs.len());
            return r;
        }
        pos = pos + align;
        assert forall|i: int| 0 <= i < next.len() implies #[trigger] next[i] == offs[r@.len() + i] by {
            assert(next[i] == rest[i + 1]);
        }
    }
}

} // verus!

verus! {

/// Scan one buffer of memory, read at address `base`, for `target`: every
/// candidate position below `limit` where the target matches yields a found
/// address with the bytes there. `float_hits` holds, for a floating-point
/// target, the approximate-match decision for each candidate position in order.
pub fn scan_buffer(target: &ScanValue, buffer: &[u8], base: u64, limit: usize, float_hits: &[bool]) -> (r: Vec<
    FoundAddress,
>)
    requires
        target@.fits(),
        base + buffer@.len() <= u64::MAX + target@.byte_size() || base + limit <= u64::MAX + 1,
    ensures
        found_views(r@) == scan_from(target@, buffer@, base, float_hits@, 0, 0, limit as nat),
{
    let size = target.byte_size();
    let align = scan_alignment(target);
    let len = buffer.len();
    let is_float = target.is_float();
    let ghost all = scan_from(target@, buffer@, base, float_hits@, 0, 0, limit as nat);
    let mut r: Vec<FoundAddress> = Vec::new();
    if size > len || limit == 0 {
        assert(found_views(r@) =~= all);
        return r;
    }
    let mut pos: usize = 0;
    let mut k: usize = 0;
    loop
        invariant
            size == target@.byte_size(),
            align == alignment(target@),
            is_float == target@.is_float(),
            target@.fits(),
            len == buffer@.len(),
            size <= len,
            align >= 1,
            pos + size <= len,
            pos < limit,
            k <= pos,
            base + len <= u64::MAX + size || base + limit <= u64::MAX + 1,
            all == scan_from(target@, buffer@, base, float_hits@, 0, 0, limit as nat),
            found_views(r@) + scan_from(target@, buffer@, base, float_hits@, pos as nat, k as nat, limit as nat)
                == all,
        decreases len - pos,
    {
        let ghost rest = scan_from(target@, buffer@, base, float_hits@, pos as nat, k as nat, limit as nat);
        let ghost old_r = found_views(r@);
        let hit = if is_float {
            k < float_hits.len() && float_hits[k]
        } else {
            match target.matches_bytes(buffer, pos) {
                Some(b) => b,
                None => false,
            }
        };
        assert(hit == is_hit(target@, buffer@, float_hits@, pos as nat, k as nat));
        if hit {
            let part = vstd::slice::slice_subrange(buffer, pos, pos + size);
            let f = FoundAddress {
                address: base + pos as u64,
                current_value: target.duplicate(),
                previous_bytes: copy_bytes(part),
            };
            r.push(f);
            assert(found_views(r@) =~= old_r + seq![found_at(target@, buffer@, base, pos as nat)]);
        } else {
            assert(found_views(r@) =~= old_r);
        }
        if len - pos < align || len - pos - align < size || limit - pos <= align {
            assert(found_views(r@) =~= all) by {
                if (pos + align) as nat <= len {
                    assert(scan_from(target@, buffer@, base, float_hits@, (pos + align) as nat, (k + 1) as nat, limit as nat)
                        =~= Seq::<FoundAddressView>::empty());
                }
            }
            return r;
        }
        let ghost here = if hit {
            seq![found_at(target@, buffer@, base, pos as nat)]
        } else {
            Seq::<FoundAddressView>::empty()
        };
        assert(rest == here + scan_from(target@, buffer@, base, float_hits@, (pos + align) as nat, (k + 1) as nat, limit as nat));
        assert(found_views(r@) =~= old_r + here);
        pos = pos + align;
        k = k + 1;
    }
}

} // verus!

verus! {

/// The contents of a possibly failed read.
pub open spec fn read_view(r: Option<Vec<u8>>) -> Option<Seq<u8>> {
    match r {
        Some(b) => Some(b@),
        None => None,
    }
}

/// Whether `filter` keeps an earlier result `entry` whose bytes now read
/// `current`; `float_hit` is the approximate-match decision used when the
/// filter asks for an exact floating-point value. "Increased" and
/// "decreased" compare the new value with the last one exactly; "greater
/// than" and "less than" compare it with the threshold after converting
/// both to `f64`.
pub open spec fn filter_keeps(filter: ScanFilter, entry: FoundAddressView, current: Seq<u8>, float_hit: bool) -> bool {
    match filter {
        ScanFilter::ExactValue(t) => if t@.is_float() {
            float_hit
        } else {
            t@.bytes_at(current, 0)
        },
        ScanFilter::Changed => current != entry.previous_bytes,
        ScanFilter::Unchanged => current == entry.previous_bytes,
        ScanFilter::Increased => compares_exact(current, entry.previous_bytes, entry.current_value, Comparison::Greater),
        ScanFilter::Decreased => compares_exact(current, entry.previous_bytes, entry.current_value, Comparison::Less),
        ScanFilter::GreaterThan(t) => compares(current, t@.to_bytes(), entry.current_value, Comparison::Greater),
        ScanFilter::LessThan(t) => compares(current, t@.to_bytes(), entry.current_value, Comparison::Less),
        _ => false,
    }
}

/// What an earlier result becomes when it is kept: its current value is
/// read again from the new bytes (or kept if they are too short), and the
/// new bytes are stored for the next comparison.
pub open spec fn rescanned(entry: FoundAddressView, current: Seq<u8>) -> FoundAddressView {
    FoundAddressView {
        address: entry.address,
        current_value: match entry.current_value.read_at(current, 0) {
            Some(v) => v,
            None => entry.current_value,
        },
        previous_bytes: current,
    }
}

/// The `k`-th entry of a sequence, or `None` past its end.
pub open spec fn entry_or_none<T>(s: Seq<Option<T>>, k: int) -> Option<T> {
    if 0 <= k < s.len() {
        s[k]
    } else {
        None
    }
}

/// The results of a rescan of `previous` from the `k`-th entry on: an entry
/// whose read failed is dropped, one whose new bytes pass the filter is kept
/// and refreshed, in the order of `previous`.
pub open spec fn rescan_from(
    previous: Seq<FoundAddressView>,
    reads: Seq<Option<Seq<u8>>>,
    filter: ScanFilter,
    float_hits: Seq<bool>,
    k: nat,
) -> Seq<FoundAddressView>
    decreases previous.len() - k,
{
    if k >= previous.len() {
        seq![]
    } else {
        let rest = rescan_from(previous, reads, filter, float_hits, k + 1);
        match entry_or_none(reads, k as int) {
            None => rest,
            Some(current) => {
                let hit = k < float_hits.len() && float_hits[k as int];
                if filter_keeps(filter, previous[k as int], current, hit) {
                    seq![rescanned(previous[k as int], current)] + rest
                } else {
                    rest
                }
            },
        }
    }
}

/// Whether two byte sequences are equal.
pub fn bytes_equal(a: &[u8], b: &[u8]) -> (r: bool)
    ensures
        r == (a@ == b@),
{
    if a.len() != b.len() {
        return false;
    }
    let r = crate::types::bytes_equal_at(a, 0, b);
    assert(r ==> a@ =~= b@.subrange(0, b@.len() as int)) by {
        if r {
            assert(a@.subrange(0, b@.len() as int) =~= a@);
        }
    }
    assert(a@ == b@ ==> a@.subrange(0, b@.len() as int) =~= b@);
    assert(b@.subrange(0, b@.len() as int) =~= b@);
    r
}

/// Next scan: apply `filter` to the earlier results `previous`, given for
/// each the bytes read again at its address, as many as [`read_requests`]
/// asks for (`None` when the address could not be read), and, for an exact
/// floating-point filter, the approximate-match decision for each entry.
pub fn next_scan(
    previous: &Vec<FoundAddress>,
    reads: &Vec<Option<Vec<u8>>>,
    filter: &ScanFilter,
    float_hits: &[bool],
) -> (r: Vec<FoundAddress>)
    requires
        forall|i: int| 0 <= i < previous@.len() ==> (#[trigger] previous@[i]).current_value@.fits(),
        filter.fits(),
    ensures
        found_views(r@) == rescan_from(
            found_views(previous@),
            reads@.map_values(|o: Option<Vec<u8>>| read_view(o)),
            *filter,
            float_hits@,
            0,
        ),
{
    let ghost prev = found_views(previous@);
    let ghost rds = reads@.map_values(|o: Option<Vec<u8>>| read_view(o));
    let ghost all = rescan_from(prev, rds, *filter, float_hits@, 0);
    let target_bytes: Vec<u8> = match filter {
        ScanFilter::GreaterThan(t) | ScanFilter::LessThan(t) => t.to_bytes(),
        _ => Vec::new(),
    };
    let mut r: Vec<FoundAddress> = Vec::new();
    let mut k: usize = 0;
    while k < previous.len()
        invariant
            k <= previous@.len(),
            prev == found_views(previous@),
            rds == reads@.map_values(|o: Option<Vec<u8>>| read_view(o)),
            all == rescan_from(prev, rds, *filter, float_hits@, 0),
            forall|i: int| 0 <= i < previous@.len() ==> (#[trigger] previous@[i]).current_value@.fits(),
            filter.fits(),
            filter matches ScanFilter::GreaterThan(t) ==> target_bytes@ == t@.to_bytes(),
            filter matches ScanFilter::LessThan(t) ==> target_bytes@ == t@.to_bytes(),
            found_views(r@) + rescan_from(prev, rds, *filter, float_hits@, k as nat) == all,
        decreases previous@.len() - k,
    {
        let ghost old_r = found_views(r@);
        let ghost rest = rescan_from(prev, rds, *filter, float_hits@, (k + 1) as nat);
        let entry = &previous[k];
        assert(prev[k as int] == entry@);
        if k < reads.len() {
            assert(rds[k as int] == read_view(reads@[k as int]));
            match &reads[k] {
                None => {
                    assert(entry_or_none(rds, k as int) is None);
                },
                Some(current) => {
                    assert(entry_or_none(rds, k as int) == Some(current@));
                    let hit = k < float_hits.len() && float_hits[k];
                    let keep = match filter {
                        ScanFilter::ExactValue(t) => {
                            if t.is_float() {
                                hit
                            } else {
                                proof {
                                    crate::types::lemma_to_bytes_len(t@);
                                }
                                match t.matches_bytes(current.as_slice(), 0) {
                                    Some(b) => b,
                                    None => false,
                                }
                            }
                        },
                        ScanFilter::Changed => !bytes_equal(current.as_slice(), entry.previous_bytes.as_slice()),
                        ScanFilter::Unchanged => bytes_equal(current.as_slice(), entry.previous_bytes.as_slice()),
                        ScanFilter::Increased => compare_bytes_exact(
                            current.as_slice(),
                            entry.previous_bytes.as_slice(),
                            &entry.current_value,
                            Comparison::Greater,
                        ),
                        ScanFilter::Decreased => compare_bytes_exact(
                            current.as_slice(),
                            entry.previous_bytes.as_slice(),
                            &entry.current_value,
                            Comparison::Less,
                        ),
                        ScanFilter::GreaterThan(_) => compare_bytes_numeric(
                            current.as_slice(),
                            target_bytes.as_slice(),
                            &entry.current_value,
                            Comparison::Greater,
                        ),
                        ScanFilter::LessThan(_) => compare_bytes_numeric(
                            current.as_slice(),
                            target_bytes.as_slice(),
                            &entry.current_value,
                            Comparison::Less,
                        ),
                        _ => false,
                    };
                    assert(keep == filter_keeps(*filter, entry@, current@, hit));
                    if keep {
                        let current_value = match entry.current_value.read_from_buffer(current.as_slice(), 0) {
                            Some(v) => v,
                            None => entry.current_value.duplicate(),
                        };
                        let f = FoundAddress {
                            address: entry.address,
                            current_value,
                            previous_bytes: copy_bytes(current.as_slice()),
                        };
                        assert(f@ == rescanned(entry@, current@));
                        r.push(f);
                        assert(found_views(r@) =~= old_r + seq![rescanned(entry@, current@)]);
                    } else {
                        assert(found_views(r@) =~= old_r);
                    }
                },
            }
        } else {
            assert(entry_or_none(rds, k as int) is None);
        }
        k = k + 1;
    }
    assert(found_views(r@) =~= all);
    r
}

/// The value of type `value_type` that `buf` holds at its start: the
/// type's `spec_byte_size()` bytes decoded as that type (UTF-8 text, UTF-16
/// code units, raw bytes or a little-endian number); `None` when `buf` is
/// shorter.
pub open spec fn value_read(value_type: ValueType, buf: Seq<u8>) -> Option<ScanValueView> {
    let n = value_type.spec_byte_size();
    if buf.len() < n {
        None
    } else {
        let bytes = buf.subrange(0, n as int);
        Some(
            match value_type {
                ValueType::StringUtf8(_) => ScanValueView::StringUtf8(utf8_text(bytes)),
                ValueType::StringUtf16(_) => ScanValueView::StringUtf16(utf16_lossy(le_units(bytes))),
                _ => value_type.spec_default_value().decode(bytes),
            },
        )
    }
}

/// Read the current value at an address from the bytes read there: the
/// type's size in bytes decoded as a value of `value_type`; `None` when
/// fewer bytes were read. Text that is valid decodes to exactly the
/// characters it encodes.
pub fn read_value(buffer: &[u8], value_type: &ValueType) -> (r: Option<ScanValue>)
    ensures
        match r {
            Some(v) => value_read(*value_type, buffer@) == Some(v@),
            None => value_read(*value_type, buffer@) is None,
        },
        ({
            let bytes = buffer@.subrange(0, value_type.spec_byte_size() as int);
            &&& value_type is StringUtf8 && r is Some && valid_utf8(bytes) ==> r->0@ == ScanValueView::StringUtf8(
                decode_utf8(bytes),
            )
            &&& value_type is StringUtf16 && r is Some ==> forall|cs: Seq<char>|
                #[trigger] encode_utf16(cs) == le_units(bytes) ==> r->0@ == ScanValueView::StringUtf16(cs)
        }),
{
    let n = value_type.byte_size();
    if buffer.len() < n {
        return None;
    }
    let part = vstd::slice::slice_subrange(buffer, 0, n);
    match value_type {
        ValueType::StringUtf8(_) => Some(ScanValue::StringUtf8(from_utf8_lossy(part))),
        ValueType::StringUtf16(_) => {
            let units = le_bytes_to_units(part);
            proof {
                assert forall|cs: Seq<char>| #[trigger] encode_utf16(cs) == units@ implies utf16_lossy(units@) == cs by {
                    crate::text::lemma_utf16_decodes_encoding(cs);
                }
            }
            Some(ScanValue::StringUtf16(from_utf16_lossy(units.as_slice())))
        },
        _ => {
            let template = value_type.default_value();
            assert(template@.byte_size() == n);
            template.read_from_buffer(buffer, 0)
        },
    }
}

/// The reads a rescan of `previous` makes, one per earlier result in order:
/// its address and the size in bytes of its current value.
pub fn read_requests(previous: &Vec<FoundAddress>) -> (r: Vec<(u64, usize)>)
    requires
        forall|i: int| 0 <= i < previous@.len() ==> (#[trigger] previous@[i]).current_value@.fits(),
    ensures
        r@.len() == previous@.len(),
        forall|i: int|
            0 <= i < r@.len() ==> #[trigger] r@[i] == (
                previous@[i].address,
                previous@[i].current_value@.byte_size() as usize,
            ),
{
    let mut r: Vec<(u64, usize)> = Vec::new();
    let mut i: usize = 0;
    while i < previous.len()
        invariant
            i <= previous@.len(),
            r@.len() == i,
            forall|j: int| 0 <= j < previous@.len() ==> (#[trigger] previous@[j]).current_value@.fits(),
            forall|j: int|
                0 <= j < i ==> #[trigger] r@[j] == (
                    previous@[j].address,
                    previous@[j].current_value@.byte_size() as usize,
                ),
        decreases previous@.len() - i,
    {
        let e = &previous[i];
        r.push((e.address, e.current_value.byte_size()));
        i = i + 1;
    }
    r
}

} // verus!

verus! {

/// How far a read runs past the end of its chunk, so that a value of
/// `value_size` bytes that starts inside the chunk is read whole.
pub open spec fn overlap(value_size: nat) -> nat {
    if value_size > 0 {
        (value_size - 1) as nat
    } else {
        0
    }
}

/// The reads that cover `size` bytes at `base` from `offset` on, when
/// looking for values of `value_size` bytes: one per chunk of `CHUNK_SIZE`
/// bytes (the last one shorter), each as its start address, the number of
/// bytes to read and the limit below which a candidate position belongs to
/// the chunk. A read extends past its chunk by `overlap(value_size)` bytes
/// where the region goes on, so a value that straddles two chunks is read
/// whole with the first. A value of no bytes matches at every position up to
/// and including the end of each chunk, so at the start of each chunk but
/// the first it is found twice, once by each chunk.
pub open spec fn chunks_from(base: u64, size: u64, value_size: nat, offset: nat) -> Seq<(u64, usize, usize)>
    decreases size - offset,
{
    if offset >= size {
        seq![]
    } else if size - offset <= CHUNK_SIZE {
        seq![((base + offset) as u64, (size - offset) as usize, (size - offset + 1) as usize)]
    } else {
        let len: nat = if size - offset - CHUNK_SIZE > overlap(value_size) {
            (CHUNK_SIZE + overlap(value_size)) as nat
        } else {
            (size - offset) as nat
        };
        let limit: nat = if value_size == 0 {
            (CHUNK_SIZE + 1) as nat
        } else {
            CHUNK_SIZE as nat
        };
        seq![((base + offset) as u64, len as usize, limit as usize)] + chunks_from(
            base,
            size,
            value_size,
            (offset + CHUNK_SIZE) as nat,
        )
    }
}

/// The reads that a first scan for values of `value_size` bytes makes of a
/// region: consecutive chunks of `CHUNK_SIZE` bytes from the region's start
/// to its end, each read with the overlap that completes a value starting
/// in it.
pub fn chunk_reads(region: &MemoryRegion, value_size: usize) -> (r: Vec<(u64, usize, usize)>)
    requires
        region.base_address + region.size <= u64::MAX + 1,
        value_size + CHUNK_SIZE <= usize::MAX,
    ensures
        r@ == chunks_from(region.base_address, region.size, value_size as nat, 0),
{
    let base = region.base_address;
    let size = region.size;
    let ext: usize = if value_size > 0 { value_size - 1 } else { 0 };
    let ghost all = chunks_from(base, size, value_size as nat, 0);
    let mut r: Vec<(u64, usize, usize)> = Vec::new();
    let mut offset: u64 = 0;
    while offset < size
        invariant
            offset <= size,
            base + size <= u64::MAX + 1,
            value_size + CHUNK_SIZE <= usize::MAX,
            ext == overlap(value_size as nat),
            all == chunks_from(base, size, value_size as nat, 0),
            r@ + chunks_from(base, size, value_size as nat, offset as nat) == all,
        decreases size - offset,
    {
        let ghost old_r = r@;
        let rem: u64 = size - offset;
        if rem <= CHUNK_SIZE as u64 {
            r.push((base + offset, rem as usize, (rem + 1) as usize));
            assert(r@ =~= old_r + seq![((base + offset) as u64, rem as usize, (rem + 1) as usize)]);
            assert(chunks_from(base, size, value_size as nat, (offset + rem) as nat) =~= Seq::<(u64, usize, usize)>::empty());
            offset = size;
        } else {
            let len: usize = if rem - (CHUNK_SIZE as u64) > ext as u64 {
                CHUNK_SIZE + ext
            } else {
                rem as usize
            };
            let limit: usize = if value_size == 0 { CHUNK_SIZE + 1 } else { CHUNK_SIZE };
            r.push((base + offset, len, limit));
            assert(r@ =~= old_r + seq![((base + offset) as u64, len, limit)]);
            offset = offset + CHUNK_SIZE as u64;
        }
    }
    r
}

} // verus!

verus! {

/// The number of earlier results from the `k`-th on whose read succeeded.
pub open spec fn readable_from(previous: Seq<FoundAddressView>, reads: Seq<Option<Seq<u8>>>, k: nat) -> nat
    decreases previous.len() - k,
{
    if k >= previous.len() {
        0
    } else {
        (if entry_or_none(reads, k as int) is Some { 1nat } else { 0nat }) + readable_from(previous, reads, k + 1)
    }
}

/// A rescan only narrows: it keeps at most the readable earlier results,
/// and every address it reports is the address of an earlier result.
pub proof fn lemma_rescan_narrows(
    previous: Seq<FoundAddressView>,
    reads: Seq<Option<Seq<u8>>>,
    filter: ScanFilter,
    float_hits: Seq<bool>,
    k: nat,
)
    ensures
        rescan_from(previous, reads, filter, float_hits, k).len() <= readable_from(previous, reads, k),
        forall|i: int|
            0 <= i < rescan_from(previous, reads, filter, float_hits, k).len() ==> exists|j: int|
                k <= j < previous.len() && #[trigger] rescan_from(previous, reads, filter, float_hits, k)[i].address
                    == previous[j].address,
    decreases previous.len() - k,
{
    if k < previous.len() {
        lemma_rescan_narrows(previous, reads, filter, float_hits, k + 1);
        let r = rescan_from(previous, reads, filter, float_hits, k);
        let rest = rescan_from(previous, reads, filter, float_hits, k + 1);
        assert forall|i: int| 0 <= i < r.len() implies exists|j: int|
            k <= j < previous.len() && #[trigger] r[i].address == previous[j].address by {
            if r.len() == rest.len() {
                assert(r == rest);
                let j = choose|j: int| k + 1 <= j < previous.len() && #[trigger] rest[i].address == previous[j].address;
                assert(r[i].address == previous[j].address);
            } else if i == 0 {
                assert(r[0].address == previous[k as int].address);
            } else {
                assert(r[i] == rest[i - 1]);
                let j = choose|j: int| k + 1 <= j < previous.len() && #[trigger] rest[i - 1].address == previous[j].address;
                assert(r[i].address == previous[j].address);
            }
        }
    }
}

/// Every readable earlier result is kept by exactly one of the "changed"
/// and "unchanged" rescans.
pub proof fn lemma_changed_unchanged_partition(
    previous: Seq<FoundAddressView>,
    reads: Seq<Option<Seq<u8>>>,
    float_hits: Seq<bool>,
    k: nat,
)
    ensures
        rescan_from(previous, reads, ScanFilter::Changed, float_hits, k).len() + rescan_from(
            previous,
            reads,
            ScanFilter::Unchanged,
            float_hits,
            k,
        ).len() == readable_from(previous, reads, k),
    decreases previous.len() - k,
{
    if k < previous.len() {
        lemma_changed_unchanged_partition(previous, reads, float_hits, k + 1);
    }
}

/// The "increased" and "decreased" rescans never both keep an earlier result.
pub proof fn lemma_increased_decreased_disjoint(entry: FoundAddressView, current: Seq<u8>, float_hit: bool)
    ensures
        !(filter_keeps(ScanFilter::Increased, entry, current, float_hit) && filter_keeps(
            ScanFilter::Decreased,
            entry,
            current,
            float_hit,
        )),
{
}

/// Every address a scan for a value of exact kind reports holds the value's
/// bytes: the recorded bytes are its encoding, at an aligned offset.
pub proof fn lemma_scan_finds_value(
    target: ScanValueView,
    buf: Seq<u8>,
    base: u64,
    float_hits: Seq<bool>,
    p: nat,
    k: nat,
    limit: nat,
)
    requires
        !target.is_float(),
        base + buf.len() <= u64::MAX,
    ensures
        forall|i: int|
            0 <= i < scan_from(target, buf, base, float_hits, p, k, limit).len() ==> {
                let f = #[trigger] scan_from(target, buf, base, float_hits, p, k, limit)[i];
                &&& f.previous_bytes == target.to_bytes()
                &&& f.current_value == target
                &&& (f.address - base - p) % (alignment(target) as int) == 0
            },
    decreases buf.len() - p,
{
    let size = target.byte_size();
    let align = alignment(target);
    lemma_to_bytes_len(target);
    if p + size <= buf.len() && p < limit && p + align <= buf.len() {
        lemma_scan_finds_value(target, buf, base, float_hits, p + align, k + 1, limit);
    }
    let s = scan_from(target, buf, base, float_hits, p, k, limit);
    assert forall|i: int| 0 <= i < s.len() implies {
        let f = #[trigger] s[i];
        &&& f.previous_bytes == target.to_bytes()
        &&& f.current_value == target
        &&& (f.address - base - p) % (align as int) == 0
    } by {
        let here = if is_hit(target, buf, float_hits, p, k) {
            seq![found_at(target, buf, base, p)]
        } else {
            Seq::<FoundAddressView>::empty()
        };
        if i < here.len() {
            assert(s[i] == found_at(target, buf, base, p));
        } else {
            let rest = scan_from(target, buf, base, float_hits, p + align, k + 1, limit);
            assert(s[i] == rest[i - here.len()]);
            let f = rest[i - here.len()];
            assert((f.address - base - (p + align)) % (align as int) == 0);
            vstd::arithmetic::div_mod::lemma_mod_sub_multiples_vanish((f.address - base - p) as int, align as int);
        }
    }
}

} // verus!

verus! {

/// The reads of a first scan for values of `value_size` bytes over
/// `regions`, in order: each region's chunks, tagged with the region's index.
pub open spec fn scan_plan(regions: Seq<MemoryRegion>, value_size: nat) -> Seq<(usize, u64, usize, usize)>
    decreases regions.len(),
{
    if regions.len() == 0 {
        seq![]
    } else {
        let last = regions.last();
        let idx = (regions.len() - 1) as usize;
        scan_plan(regions.drop_last(), value_size) + chunks_from(
            last.base_address,
            last.size,
            value_size,
            0,
        ).map_values(|c: (u64, usize, usize)| (idx, c.0, c.1, c.2))
    }
}

/// Whether every region lies inside the address space, and, for values of
/// no bytes (which match one past a region's last byte too), ends below its top.
pub open spec fn regions_in_range(regions: Seq<MemoryRegion>, value_size: nat) -> bool {
    forall|i: int|
        0 <= i < regions.len() ==> {
            &&& (#[trigger] regions[i]).base_address + regions[i].size <= u64::MAX + 1
            &&& value_size == 0 ==> regions[i].base_address + regions[i].size <= u64::MAX
        }
}

/// What one read of a first scan for `target` found: the matches below the
/// read's limit in the bytes read (nothing when the read failed), with the
/// approximate-match decisions `fed.1` for a floating-point target.
pub open spec fn read_finds(
    target: ScanValueView,
    read: (usize, u64, usize, usize),
    fed: (Option<Seq<u8>>, Seq<bool>),
) -> Seq<FoundAddressView> {
    match fed.0 {
        Some(b) => scan_from(target, b, read.1, fed.1, 0, 0, read.3 as nat),
        None => seq![],
    }
}

/// What the reads `plan` of a first scan found, given the outcome of each
/// read made so far (`fed`, in order), one read after another.
pub open spec fn fed_results(
    target: ScanValueView,
    plan: Seq<(usize, u64, usize, usize)>,
    fed: Seq<(Option<Seq<u8>>, Seq<bool>)>,
) -> Seq<FoundAddressView> {
    Seq::new(fed.len(), |i: int| read_finds(target, plan[i], fed[i])).flatten()
}

/// Whether a read fits the candidate positions it scans into the address space.
pub open spec fn read_in_range(read: (usize, u64, usize, usize), value_size: nat) -> bool {
    read.1 + read.2 <= u64::MAX + value_size || read.1 + read.3 <= u64::MAX + 1
}

/// A first scan in progress: the reads it makes, how many of them have been
/// made, and what they found so far.
pub struct FirstScan {
    target: ScanValue,
    plan: Vec<(usize, u64, usize, usize)>,
    next: usize,
    results: Vec<FoundAddress>,
    fed: Ghost<Seq<(Option<Seq<u8>>, Seq<bool>)>>,
    regions: Ghost<Seq<MemoryRegion>>,
}

impl FirstScan {
    /// The value scanned for.
    pub closed spec fn spec_target(&self) -> ScanValueView {
        self.target@
    }

    /// All reads of the scan, in order: region index, address, number of
    /// bytes, and the limit below which candidate positions are scanned.
    pub closed spec fn spec_plan(&self) -> Seq<(usize, u64, usize, usize)> {
        self.plan@
    }

    /// How many reads have been made.
    pub closed spec fn spec_next(&self) -> nat {
        self.next as nat
    }

    /// The outcome of each read made so far: the bytes read (or `None`) and
    /// the approximate-match decisions handed in with them.
    pub closed spec fn spec_fed(&self) -> Seq<(Option<Seq<u8>>, Seq<bool>)> {
        self.fed@
    }

    /// What the reads made so far found, in order.
    pub closed spec fn spec_results(&self) -> Seq<FoundAddressView> {
        found_views(self.results@)
    }

    /// The regions the scan covers.
    pub closed spec fn spec_regions(&self) -> Seq<MemoryRegion> {
        self.regions@
    }

    /// Whether the scan's state is consistent.
    pub closed spec fn wf(&self) -> bool {
        &&& self.target@.fits()
        &&& self.next <= self.plan@.len()
        &&& self.fed@.len() == self.next
        &&& found_views(self.results@) == fed_results(self.target@, self.plan@, self.fed@)
        &&& forall|i: int|
            0 <= i < self.plan@.len() ==> read_in_range(#[trigger] self.plan@[i], self.target@.byte_size())
        &&& self.plan@ == scan_plan(self.regions@, self.target@.byte_size())
        &&& self.regions@.len() <= usize::MAX
        &&& self.target@.byte_size() + CHUNK_SIZE <= usize::MAX
        &&& regions_in_range(self.regions@, self.target@.byte_size())
    }

    /// Start a first scan for `target` over `regions`.
    pub fn new(target: ScanValue, regions: &Vec<MemoryRegion>) -> (r: FirstScan)
        requires
            target@.fits(),
            target@.byte_size() + CHUNK_SIZE <= usize::MAX,
            regions_in_range(regions@, target@.byte_size()),
        ensures
            r.wf(),
            r.spec_target() == target@,
            r.spec_plan() == scan_plan(regions@, target@.byte_size()),
            r.spec_regions() == regions@,
            r.spec_next() == 0,
            r.spec_fed().len() == 0,
            r.spec_results().len() == 0,
    {
        let n = target.byte_size();
        let mut plan: Vec<(usize, u64, usize, usize)> = Vec::new();
        let mut i: usize = 0;
        while i < regions.len()
            invariant
                i <= regions@.len(),
                n == target@.byte_size(),
                n + CHUNK_SIZE <= usize::MAX,
                regions_in_range(regions@, n as nat),
                plan@ == scan_plan(regions@.take(i as int), n as nat),
                forall|j: int| 0 <= j < plan@.len() ==> read_in_range(#[trigger] plan@[j], n as nat),
            decreases regions@.len() - i,
        {
            let region = &regions[i];
            assert(regions_in_range(regions@, n as nat));
            assert(region.base_address + region.size <= u64::MAX + 1);
            let chunks = chunk_reads(region, n);
            proof {
                lemma_chunks_within(region.base_address, region.size, n as nat, 0);
            }
            let ghost before = plan@;
            let mut j: usize = 0;
            while j < chunks.len()
                invariant
                    j <= chunks@.len(),
                    chunks@ == chunks_from(region.base_address, region.size, n as nat, 0),
                    region.base_address + region.size <= u64::MAX + 1,
                    n == 0 ==> region.base_address + region.size <= u64::MAX,
                    forall|k: int|
                        0 <= k < chunks@.len() ==> (#[trigger] chunks@[k]).0 + chunks@[k].1 <= region.base_address
                            + region.size,
                    plan@ == before + chunks@.take(j as int).map_values(
                        |c: (u64, usize, usize)| (i, c.0, c.1, c.2),
                    ),
                    forall|k: int| 0 <= k < plan@.len() ==> read_in_range(#[trigger] plan@[k], n as nat),
                    forall|k: int| 0 <= k < before.len() ==> read_in_range(#[trigger] before[k], n as nat),
                decreases chunks@.len() - j,
            {
                let c = chunks[j];
                plan.push((i, c.0, c.1, c.2));
                j = j + 1;
                assert(plan@ =~= before + chunks@.take(j as int).map_values(
                    |c: (u64, usize, usize)| (i, c.0, c.1, c.2),
                ));
            }
            assert(chunks@.take(j as int) =~= chunks@);
            assert(regions@.take(i + 1).drop_last() =~= regions@.take(i as int));
            i = i + 1;
        }
        assert(regions@.take(i as int) =~= regions@);
        let ghost fed: Seq<(Option<Seq<u8>>, Seq<bool>)> = Seq::empty();
        let r = FirstScan { target, plan, next: 0, results: Vec::new(), fed: Ghost(fed), regions: Ghost(regions@) };
        assert(found_views(r.results@) =~= fed_results(r.target@, r.plan@, fed)) by {
            assert(Seq::new(0, |i: int| read_finds(r.target@, r.plan@[i], fed[i])) =~= Seq::<Seq<FoundAddressView>>::empty());
        }
        r
    }

    /// The next read to make, with the index of the region it belongs to;
    /// `None` once all reads have been made.
    pub fn next_read(&self) -> (r: Option<(usize, u64, usize, usize)>)
        requires
            self.wf(),
        ensures
            self.spec_next() < self.spec_plan().len() ==> r == Some(self.spec_plan()[self.spec_next() as int]),
            self.spec_next() >= self.spec_plan().len() ==> r is None,
    {
        if self.next < self.plan.len() {
            Some(self.plan[self.next])
        } else {
            None
        }
    }

    /// Take the outcome of the next read: the bytes read (`None` when the
    /// read failed), which are scanned below the read's limit as in
    /// [`scan_buffer`], and, for a floating-point target, the
    /// approximate-match decisions at their candidate positions.
    pub fn feed(&mut self, buffer: Option<Vec<u8>>, float_hits: &[bool])
        requires
            old(self).wf(),
            old(self).spec_next() < old(self).spec_plan().len(),
            buffer matches Some(b) ==> b@.len() <= old(self).spec_plan()[old(self).spec_next() as int].2,
        ensures
            final(self).wf(),
            final(self).spec_target() == old(self).spec_target(),
            final(self).spec_plan() == old(self).spec_plan(),
            final(self).spec_regions() == old(self).spec_regions(),
            final(self).spec_next() == old(self).spec_next() + 1,
            final(self).spec_fed() == old(self).spec_fed().push((read_view(buffer), float_hits@)),
            final(self).spec_results() == old(self).spec_results() + read_finds(
                old(self).spec_target(),
                old(self).spec_plan()[old(self).spec_next() as int],
                (read_view(buffer), float_hits@),
            ),
    {
        let n = self.next;
        let plen = self.plan.len();
        let (_, base, _, limit) = self.plan[n];
        let ghost old_results = found_views(self.results@);
        let ghost entry = (read_view(buffer), float_hits@);
        let ghost piece = read_finds(self.target@, self.plan@[n as int], entry);
        assert(read_in_range(self.plan@[n as int], self.target@.byte_size()));
        match buffer {
            Some(b) => {
                let mut found = scan_buffer(&self.target, b.as_slice(), base, limit, float_hits);
                let ghost fv = found_views(found@);
                self.results.append(&mut found);
                assert(found_views(self.results@) =~= old_results + fv);
            },
            None => {
                assert(found_views(self.results@) =~= old_results);
            },
        }
        let ghost old_fed = self.fed@;
        proof {
            let t = self.target@;
            let pl = self.plan@;
            let new_fed = old_fed.push(entry);
            let pieces_old = Seq::new(old_fed.len(), |i: int| read_finds(t, pl[i], old_fed[i]));
            let pieces_new = Seq::new(new_fed.len(), |i: int| read_finds(t, pl[i], new_fed[i]));
            assert(pieces_new =~= pieces_old.push(piece));
            pieces_old.lemma_flatten_push(piece);
            self.fed = Ghost(new_fed);
        }
        assert(n < plen);
        self.next = n + 1;
    }

    /// Whether all reads have been made.
    pub fn is_done(&self) -> (r: bool)
        requires
            self.wf(),
        ensures
            r == (self.spec_next() == self.spec_plan().len()),
    {
        self.next == self.plan.len()
    }

    /// The addresses found: what each read found below its limit, in the
    /// order of the reads. When the target is at least one byte long and
    /// matched by its bytes, every
    /// region is non-empty and every read returned in full the memory it
    /// asked for (`data[r]` being the memory of region `r`), this is every
    /// aligned match in every region, region after region, as scanning each
    /// region whole finds them (see [`lemma_region_scan_finds_every_match`]).
    pub fn finish(self) -> (r: Vec<FoundAddress>)
        requires
            self.wf(),
        ensures
            found_views(r@) == self.spec_results(),
            found_views(r@) == fed_results(self.spec_target(), self.spec_plan(), self.spec_fed()),
            forall|data: Seq<Seq<u8>>|
                {
                    &&& !self.spec_target().is_float()
                    &&& self.spec_target().byte_size() > 0
                    &&& data.len() == self.spec_regions().len()
                    &&& forall|i: int|
                        0 <= i < data.len() ==> (#[trigger] data[i]).len() == self.spec_regions()[i].size
                            && self.spec_regions()[i].size > 0
                    &&& full_reads(self.spec_regions(), data, self.spec_plan(), self.spec_fed())
                } ==> found_views(r@) == #[trigger] whole_region_scans(self.spec_target(), self.spec_regions(), data),
    {
        proof {
            assert forall|data: Seq<Seq<u8>>|
                {
                    &&& !self.spec_target().is_float()
                    &&& self.spec_target().byte_size() > 0
                    &&& data.len() == self.spec_regions().len()
                    &&& forall|i: int|
                        0 <= i < data.len() ==> (#[trigger] data[i]).len() == self.spec_regions()[i].size
                            && self.spec_regions()[i].size > 0
                    &&& full_reads(self.spec_regions(), data, self.spec_plan(), self.spec_fed())
                } implies found_views(self.results@) == #[trigger] whole_region_scans(
                self.spec_target(),
                self.spec_regions(),
                data,
            ) by {
                let rs = self.regions@;
                assert forall|i: int| 0 <= i < rs.len() implies (#[trigger] rs[i]).size > 0 by {
                    assert(data[i].len() == rs[i].size && rs[i].size > 0);
                }
                lemma_first_scan_complete(self.target@, rs, data, self.fed@);
            }
        }
        self.results
    }
}

/// Each read of a region lies within it and is not empty.
pub proof fn lemma_chunks_within(base: u64, size: u64, value_size: nat, offset: nat)
    requires
        base + size <= u64::MAX + 1,
        value_size + CHUNK_SIZE <= usize::MAX,
    ensures
        forall|i: int|
            0 <= i < chunks_from(base, size, value_size, offset).len() ==> {
                let c = #[trigger] chunks_from(base, size, value_size, offset)[i];
                &&& base + offset <= c.0
                &&& c.0 + c.1 <= base + size
                &&& 0 < c.1
            },
    decreases size - offset,
{
    if offset < size && size - offset > CHUNK_SIZE {
        lemma_chunks_within(base, size, value_size, (offset + CHUNK_SIZE) as nat);
        let cs = chunks_from(base, size, value_size, offset);
        let rest = chunks_from(base, size, value_size, (offset + CHUNK_SIZE) as nat);
        assert forall|i: int| 0 <= i < cs.len() implies {
            let c = #[trigger] cs[i];
            &&& base + offset <= c.0
            &&& c.0 + c.1 <= base + size
            &&& 0 < c.1
        } by {
            if i > 0 {
                assert(cs[i] == rest[i - 1]);
            }
        }
    }
}

} // verus!

verus! {

/// What a read of memory gives, from the buffer it filled and the number of
/// bytes it reports as read: the bytes read, or `None` when none were.
pub fn read_outcome(buffer: Vec<u8>, bytes_read: usize) -> (r: Option<Vec<u8>>)
    ensures
        bytes_read == 0 ==> r is None,
        bytes_read > 0 ==> (r matches Some(b) && b@ == (if bytes_read <= buffer@.len() {
            buffer@.subrange(0, bytes_read as int)
        } else {
            buffer@
        })),
{
    let mut buffer = buffer;
    buffer.truncate(bytes_read);
    if bytes_read > 0 {
        Some(buffer)
    } else {
        None
    }
}

} // verus!

verus! {

/// Reading a value of a number or byte-array type back from the bytes that
/// writing a value of that type put in memory gives that value.
pub proof fn lemma_write_then_read(v: ScanValueView)
    requires
        v.is_numeric() || v is ByteArray,
        v.fits(),
    ensures
        value_read(v.value_type(), v.to_bytes()) == Some(v),
{
    crate::types::lemma_roundtrip(v);
    lemma_to_bytes_len(v);
    let d = v.value_type().spec_default_value();
    assert(d.byte_size() == v.byte_size());
    let b = v.to_bytes();
    assert(b.subrange(0, v.byte_size() as int) =~= b);
    assert(d.decode(b) == v.decode(b));
}

} // verus!

verus! {

/// The reads that find every earlier result's bytes as they were.
pub open spec fn unchanged_reads(previous: Seq<FoundAddressView>) -> Seq<Option<Seq<u8>>> {
    previous.map_values(|f: FoundAddressView| Some(f.previous_bytes))
}

/// Rescanning memory that did not change with "unchanged" keeps every
/// earlier result.
pub proof fn lemma_unchanged_memory_keeps_all(previous: Seq<FoundAddressView>, float_hits: Seq<bool>, k: nat)
    requires
        k <= previous.len(),
    ensures
        rescan_from(previous, unchanged_reads(previous), ScanFilter::Unchanged, float_hits, k).len()
            == previous.len() - k,
    decreases previous.len() - k,
{
    if k < previous.len() {
        lemma_unchanged_memory_keeps_all(previous, float_hits, k + 1);
        assert(entry_or_none(unchanged_reads(previous), k as int) == Some(previous[k as int].previous_bytes));
    }
}

/// Looking again for the same exact value in memory that did not change
/// keeps every result of the scan that found it.
pub proof fn lemma_same_value_keeps_all(
    previous: Seq<FoundAddressView>,
    target: ScanValue,
    float_hits: Seq<bool>,
    k: nat,
)
    requires
        k <= previous.len(),
        !target@.is_float(),
        forall|i: int| 0 <= i < previous.len() ==> (#[trigger] previous[i]).previous_bytes == target@.to_bytes(),
    ensures
        rescan_from(previous, unchanged_reads(previous), ScanFilter::ExactValue(target), float_hits, k).len()
            == previous.len() - k,
    decreases previous.len() - k,
{
    if k < previous.len() {
        lemma_same_value_keeps_all(previous, target, float_hits, k + 1);
        assert(entry_or_none(unchanged_reads(previous), k as int) == Some(previous[k as int].previous_bytes));
        crate::types::lemma_matches_own_bytes(target@);
    }
}

} // verus!

verus! {

/// For a value matched by its bytes, the approximate-match decisions and the
/// index a scan counts candidate positions from play no part.
proof fn lemma_scan_index_free(
    t: ScanValueView,
    buf: Seq<u8>,
    base: u64,
    fh1: Seq<bool>,
    fh2: Seq<bool>,
    p: nat,
    k1: nat,
    k2: nat,
    limit: nat,
)
    requires
        !t.is_float(),
    ensures
        scan_from(t, buf, base, fh1, p, k1, limit) == scan_from(t, buf, base, fh2, p, k2, limit),
    decreases buf.len() - p,
{
    if p + t.byte_size() <= buf.len() && p < limit && p + alignment(t) <= buf.len() {
        lemma_scan_index_free(t, buf, base, fh1, fh2, p + alignment(t), k1 + 1, k2 + 1, limit);
    }
}

/// Scanning the part of `data` that starts at `o` finds what scanning
/// `data` itself finds from `o` on, as long as the part ends where `data`
/// does or reaches far enough past its limit to hold a whole value.
proof fn lemma_scan_shift(
    t: ScanValueView,
    data: Seq<u8>,
    base: u64,
    sub_base: u64,
    o: nat,
    len: nat,
    fh: Seq<bool>,
    p: nat,
    k: nat,
    limit: nat,
)
    requires
        !t.is_float(),
        sub_base == base + o,
        o + len <= data.len(),
        o + len == data.len() || limit + t.byte_size() <= len + 1,
    ensures
        scan_from(t, data.subrange(o as int, (o + len) as int), sub_base, fh, p, k, limit) == scan_from(
            t,
            data,
            base,
            fh,
            o + p,
            k,
            o + limit,
        ),
    decreases len - p,
{
    lemma_to_bytes_len(t);
    let sub = data.subrange(o as int, (o + len) as int);
    let n = t.byte_size();
    let a = alignment(t);
    if p + n <= len && p < limit {
        assert(sub.subrange(p as int, (p + n) as int) =~= data.subrange((o + p) as int, (o + p + n) as int));
        assert(is_hit(t, sub, fh, p, k) == is_hit(t, data, fh, o + p, k));
        assert(found_at(t, sub, sub_base, p) == found_at(t, data, base, o + p));
        if p + a <= len {
            lemma_scan_shift(t, data, base, sub_base, o, len, fh, p + a, k + 1, limit);
        } else if o + p + a <= data.len() {
            assert(scan_from(t, data, base, fh, o + p + a, k + 1, o + limit) =~= Seq::<FoundAddressView>::empty());
        }
    }
}

/// A scan up to `limit` is the scan up to an intermediate aligned position
/// `m` followed by the scan from `m` on.
proof fn lemma_scan_split(
    t: ScanValueView,
    data: Seq<u8>,
    base: u64,
    fh: Seq<bool>,
    p: nat,
    k: nat,
    m: nat,
    j: nat,
    limit: nat,
)
    requires
        !t.is_float(),
        m == p + j * alignment(t),
        m <= limit,
    ensures
        scan_from(t, data, base, fh, p, k, limit) == scan_from(t, data, base, fh, p, k, m) + scan_from(
            t,
            data,
            base,
            fh,
            m,
            k,
            limit,
        ),
    decreases j,
{
    let a = alignment(t);
    let n = t.byte_size();
    if j == 0 {
        assert(m == p);
        assert(scan_from(t, data, base, fh, p, k, m) =~= Seq::<FoundAddressView>::empty());
    } else {
        assert(j * a == (j - 1) * a + a) by (nonlinear_arith);
        assert((j - 1) * a >= 0) by (nonlinear_arith)
            requires
                j >= 1,
                a >= 1,
        ;
        if p + n > data.len() {
            assert(scan_from(t, data, base, fh, m, k, limit) =~= Seq::<FoundAddressView>::empty());
        } else if p + a > data.len() {
            assert(scan_from(t, data, base, fh, m, k, limit) =~= Seq::<FoundAddressView>::empty());
        } else {
            lemma_scan_split(t, data, base, fh, p + a, k + 1, m, (j - 1) as nat, limit);
            lemma_scan_index_free(t, data, base, fh, fh, m, k + 1, k, limit);
            let here = if is_hit(t, data, fh, p, k) {
                seq![found_at(t, data, base, p)]
            } else {
                Seq::<FoundAddressView>::empty()
            };
            let x = scan_from(t, data, base, fh, p + a, k + 1, m);
            let y = scan_from(t, data, base, fh, m, k, limit);
            assert(here + (x + y) =~= (here + x) + y);
        }
    }
}

/// What scanning each read of a region finds, when each read returns the
/// region's bytes it asks for.
pub open spec fn region_pieces(
    t: ScanValueView,
    data: Seq<u8>,
    base: u64,
    cs: Seq<(u64, usize, usize)>,
) -> Seq<Seq<FoundAddressView>> {
    Seq::new(
        cs.len(),
        |i: int|
            scan_from(
                t,
                data.subrange(cs[i].0 - base, cs[i].0 - base + cs[i].1),
                cs[i].0,
                seq![],
                0,
                0,
                cs[i].2 as nat,
            ),
    )
}

/// Scanning a region chunk by chunk, each chunk read with its overlap,
/// finds what scanning the whole region at once finds.
proof fn lemma_region_chunks(t: ScanValueView, data: Seq<u8>, base: u64, size: u64, o: nat)
    requires
        !t.is_float(),
        t.byte_size() > 0,
        data.len() == size,
        base + size <= u64::MAX + 1,
        t.byte_size() + CHUNK_SIZE <= usize::MAX,
        o < size,
    ensures
        region_pieces(t, data, base, chunks_from(base, size, t.byte_size(), o)).flatten() == scan_from(
            t,
            data,
            base,
            seq![],
            o,
            0,
            (size + 1) as nat,
        ),
    decreases size - o,
{
    let n = t.byte_size();
    let cs = chunks_from(base, size, n, o);
    let pieces = region_pieces(t, data, base, cs);
    let rem = (size - o) as nat;
    if rem <= CHUNK_SIZE {
        assert(cs[0].0 - base == o);
        lemma_scan_shift(t, data, base, cs[0].0, o, rem, seq![], 0, 0, rem + 1);
        assert(pieces.len() == 1);
        pieces.lemma_flatten_one_element();
    } else {
        let c = cs[0];
        let rest = chunks_from(base, size, n, (o + CHUNK_SIZE) as nat);
        assert(cs == seq![c] + rest);
        assert(c.0 - base == o);
        lemma_scan_shift(t, data, base, c.0, o, c.1 as nat, seq![], 0, 0, CHUNK_SIZE as nat);
        lemma_region_chunks(t, data, base, size, (o + CHUNK_SIZE) as nat);
        let a = alignment(t);
        let j: nat = if a == 1 {
            4194304
        } else if a == 2 {
            2097152
        } else if a == 4 {
            1048576
        } else {
            524288
        };
        assert(a == 1 || a == 2 || a == 4 || a == 8);
        assert(j * a == CHUNK_SIZE);
        lemma_scan_split(t, data, base, seq![], o, 0, (o + CHUNK_SIZE) as nat, j, (size + 1) as nat);
        assert(pieces.drop_first() =~= region_pieces(t, data, base, rest));
    }
}

/// Whether every index a plan of reads names is that of one of `regions`.
proof fn lemma_plan_indices(regions: Seq<MemoryRegion>, value_size: nat)
    requires
        regions.len() <= usize::MAX,
    ensures
        forall|i: int|
            0 <= i < scan_plan(regions, value_size).len() ==> (#[trigger] scan_plan(regions, value_size)[i]).0
                < regions.len(),
    decreases regions.len(),
{
    if regions.len() > 0 {
        lemma_plan_indices(regions.drop_last(), value_size);
        let last = regions.last();
        let idx = (regions.len() - 1) as usize;
        let p1 = scan_plan(regions.drop_last(), value_size);
        let m = chunks_from(last.base_address, last.size, value_size, 0).map_values(
            |c: (u64, usize, usize)| (idx, c.0, c.1, c.2),
        );
        let plan = scan_plan(regions, value_size);
        assert(plan == p1 + m);
        assert forall|i: int| 0 <= i < plan.len() implies (#[trigger] plan[i]).0 < regions.len() by {
            if i >= p1.len() {
                assert(plan[i] == m[i - p1.len()]);
            } else {
                assert(plan[i] == p1[i]);
            }
        }
    }
}

/// Whether `fed` holds, for each read of `plan`, the bytes of the memory
/// it asks for, read in full, where `data[r]` is the memory of `regions[r]`.
pub open spec fn full_reads(
    regions: Seq<MemoryRegion>,
    data: Seq<Seq<u8>>,
    plan: Seq<(usize, u64, usize, usize)>,
    fed: Seq<(Option<Seq<u8>>, Seq<bool>)>,
) -> bool {
    &&& fed.len() == plan.len()
    &&& forall|i: int|
        0 <= i < plan.len() ==> (#[trigger] fed[i]).0 == Some(
            data[plan[i].0 as int].subrange(
                plan[i].1 - regions[plan[i].0 as int].base_address,
                plan[i].1 - regions[plan[i].0 as int].base_address + plan[i].2,
            ),
        )
}

/// What scanning each region whole, `data[r]` being the memory of
/// `regions[r]`, finds, region after region: every candidate position
/// (aligned to the target's alignment from the region's start) at which the
/// target's bytes lie inside the region.
pub open spec fn whole_region_scans(
    t: ScanValueView,
    regions: Seq<MemoryRegion>,
    data: Seq<Seq<u8>>,
) -> Seq<FoundAddressView> {
    Seq::new(
        regions.len(),
        |r: int| scan_from(t, data[r], regions[r].base_address, seq![], 0, 0, data[r].len() + 1),
    ).flatten()
}

/// A first scan for a value of at least one byte, matched by its bytes,
/// finds every match in every region: when each read returns in full the memory it asks for, what the
/// reads find is what scanning each region whole finds, matches that
/// straddle two chunks included.
pub proof fn lemma_first_scan_complete(
    target: ScanValueView,
    regions: Seq<MemoryRegion>,
    data: Seq<Seq<u8>>,
    fed: Seq<(Option<Seq<u8>>, Seq<bool>)>,
)
    requires
        !target.is_float(),
        target.byte_size() > 0,
        target.byte_size() + CHUNK_SIZE <= usize::MAX,
        regions.len() <= usize::MAX,
        regions_in_range(regions, target.byte_size()),
        data.len() == regions.len(),
        forall|r: int| 0 <= r < regions.len() ==> (#[trigger] data[r]).len() == regions[r].size,
        forall|r: int| 0 <= r < regions.len() ==> (#[trigger] regions[r]).size > 0,
        full_reads(regions, data, scan_plan(regions, target.byte_size()), fed),
    ensures
        fed_results(target, scan_plan(regions, target.byte_size()), fed) == whole_region_scans(
            target,
            regions,
            data,
        ),
    decreases regions.len(),
{
    let n = target.byte_size();
    let plan = scan_plan(regions, n);
    if regions.len() == 0 {
        assert(Seq::new(fed.len(), |i: int| read_finds(target, plan[i], fed[i])) =~= Seq::<
            Seq<FoundAddressView>,
        >::empty());
        assert(Seq::new(
            regions.len(),
            |r: int| scan_from(target, data[r], regions[r].base_address, seq![], 0, 0, data[r].len() + 1),
        ) =~= Seq::<Seq<FoundAddressView>>::empty());
    } else {
        let last = (regions.len() - 1) as int;
        let rs = regions.drop_last();
        let ds = data.drop_last();
        let p1 = scan_plan(rs, n);
        let base = regions[last].base_address;
        let size = regions[last].size;
        let cs = chunks_from(base, size, n, 0);
        let idx = last as usize;
        let m = cs.map_values(|c: (u64, usize, usize)| (idx, c.0, c.1, c.2));
        assert(plan == p1 + m);
        lemma_plan_indices(rs, n);
        let fed1 = fed.take(p1.len() as int);
        assert forall|i: int| 0 <= i < p1.len() implies (#[trigger] fed1[i]).0 == Some(
            ds[p1[i].0 as int].subrange(
                p1[i].1 - rs[p1[i].0 as int].base_address,
                p1[i].1 - rs[p1[i].0 as int].base_address + p1[i].2,
            ),
        ) by {
            assert(plan[i] == p1[i]);
        }
        assert(regions_in_range(rs, n));
        lemma_first_scan_complete(target, rs, ds, fed1);
        // The reads of the earlier regions and those of the last one.
        let g = Seq::new(fed.len(), |i: int| read_finds(target, plan[i], fed[i]));
        let g1 = Seq::new(fed1.len(), |i: int| read_finds(target, p1[i], fed1[i]));
        let g2 = Seq::new(m.len(), |i: int| read_finds(target, m[i], fed[p1.len() + i]));
        assert(g =~= g1 + g2);
        vstd::seq_lib::lemma_flatten_concat(g1, g2);
        assert(regions_in_range(regions, n));
        assert(base + size <= u64::MAX + 1);
        let pieces = region_pieces(target, data[last], base, cs);
        assert forall|i: int| 0 <= i < m.len() implies #[trigger] g2[i] == pieces[i] by {
            let e = plan[p1.len() + i];
            assert(e == m[i]);
            assert(e.0 == idx);
            let b = data[last].subrange(cs[i].0 - base, cs[i].0 - base + cs[i].1);
            assert(fed[p1.len() + i].0 == Some(b));
            lemma_scan_index_free(target, b, cs[i].0, fed[p1.len() + i].1, seq![], 0, 0, 0, cs[i].2 as nat);
        }
        assert(g2 =~= pieces);
        lemma_region_chunks(target, data[last], base, size, 0);
        // The whole-region scans of the earlier regions and of the last one.
        let w = Seq::new(
            regions.len(),
            |r: int| scan_from(target, data[r], regions[r].base_address, seq![], 0, 0, data[r].len() + 1),
        );
        let w1 = Seq::new(
            rs.len(),
            |r: int| scan_from(target, ds[r], rs[r].base_address, seq![], 0, 0, ds[r].len() + 1),
        );
        assert(w =~= w1.push(w[last]));
        w1.lemma_flatten_push(w[last]);
    }
}

} // verus!

verus! {

/// Whether an earlier result is settled: its bytes are at most as many as
/// its current value's size, and refreshing it from those same bytes, as a
/// rescan that keeps it does, changes nothing.
pub open spec fn settled(e: FoundAddressView) -> bool {
    &&& e.previous_bytes.len() <= e.current_value.byte_size()
    &&& rescanned(e, e.previous_bytes) == e
}

/// Whether `bytes`, read as a value of the kind of `v`, hold text that
/// encodes back to them: valid UTF-8 for UTF-8 text, well-formed UTF-16 for
/// UTF-16 text; always so for numbers and byte arrays.
pub open spec fn reads_as_text(v: ScanValueView, bytes: Seq<u8>) -> bool {
    match v {
        ScanValueView::StringUtf8(_) => valid_utf8(bytes),
        ScanValueView::StringUtf16(_) => well_formed_utf16(le_units(bytes)),
        _ => true,
    }
}

/// Whether each read that succeeded returned at most as many bytes as the
/// current value of its earlier result occupies (as a read of that size
/// does), and, where it returned all of them and the value is text, bytes
/// that hold text encoding back to them.
pub open spec fn reads_within(previous: Seq<FoundAddressView>, reads: Seq<Option<Seq<u8>>>) -> bool {
    forall|i: int|
        0 <= i < previous.len() && #[trigger] entry_or_none(reads, i) is Some ==> {
            let cur = entry_or_none(reads, i)->0;
            &&& cur.len() <= previous[i].current_value.byte_size()
            &&& cur.len() == previous[i].current_value.byte_size() ==> reads_as_text(previous[i].current_value, cur)
        }
}

/// A rescan keeps the width of what it reads: when no read returns more
/// bytes than asked for, and text read in full encodes back to its bytes,
/// every result it keeps is settled, so reading it again at its own size
/// from unchanged memory gives the bytes it stores.
pub proof fn lemma_rescan_settles(
    previous: Seq<FoundAddressView>,
    reads: Seq<Option<Seq<u8>>>,
    filter: ScanFilter,
    float_hits: Seq<bool>,
    k: nat,
)
    requires
        reads_within(previous, reads),
    ensures
        forall|i: int|
            0 <= i < rescan_from(previous, reads, filter, float_hits, k).len() ==> settled(
                #[trigger] rescan_from(previous, reads, filter, float_hits, k)[i],
            ),
    decreases previous.len() - k,
{
    if k < previous.len() {
        lemma_rescan_settles(previous, reads, filter, float_hits, k + 1);
        let r = rescan_from(previous, reads, filter, float_hits, k);
        let rest = rescan_from(previous, reads, filter, float_hits, k + 1);
        match entry_or_none(reads, k as int) {
            None => {},
            Some(cur) => {
                let e = previous[k as int];
                let f = rescanned(e, cur);
                assert(cur.subrange(0, cur.len() as int) =~= cur);
                if cur.len() == e.current_value.byte_size() {
                    match e.current_value {
                        ScanValueView::StringUtf8(_) => {
                            vstd::utf8::decode_utf8_encode_utf8(cur);
                        },
                        ScanValueView::StringUtf16(_) => {
                            crate::text::lemma_utf16_roundtrip(le_units(cur));
                            crate::encoding::lemma_le_units_len(cur);
                        },
                        _ => {},
                    }
                }
                assert(settled(f));
                assert forall|i: int| 0 <= i < r.len() implies settled(#[trigger] r[i]) by {
                    if r.len() != rest.len() {
                        if i > 0 {
                            assert(r[i] == rest[i - 1]);
                        }
                    } else {
                        assert(r == rest);
                    }
                }
            },
        }
    }
}

/// "Unchanged" applied to settled results of memory that has not changed
/// since gives back exactly those results.
pub proof fn lemma_unchanged_on_settled(previous: Seq<FoundAddressView>, float_hits: Seq<bool>, k: nat)
    requires
        k <= previous.len(),
        forall|i: int| 0 <= i < previous.len() ==> settled(#[trigger] previous[i]),
    ensures
        rescan_from(previous, unchanged_reads(previous), ScanFilter::Unchanged, float_hits, k)
            == previous.subrange(k as int, previous.len() as int),
    decreases previous.len() - k,
{
    if k < previous.len() {
        lemma_unchanged_on_settled(previous, float_hits, k + 1);
        let e = previous[k as int];
        assert(entry_or_none(unchanged_reads(previous), k as int) == Some(e.previous_bytes));
        assert(settled(e));
        assert(previous.subrange(k as int, previous.len() as int) =~= seq![e] + previous.subrange(
            (k + 1) as int,
            previous.len() as int,
        ));
    } else {
        assert(previous.subrange(k as int, previous.len() as int) =~= Seq::<FoundAddressView>::empty());
    }
}

/// "Unchanged" twice is "unchanged" once: after any rescan whose reads
/// returned at most the bytes asked for (and, for text read in full, bytes
/// that encode back to the text they decode to), every result stores at most
/// as many bytes as its value's size (so reading it again at its own size, as
/// the next rescan does, gives the bytes it stores when memory has not
/// changed), and an "unchanged" rescan of memory that has not changed keeps
/// every result as it is, in order.
pub proof fn lemma_unchanged_idempotent(
    previous: Seq<FoundAddressView>,
    reads: Seq<Option<Seq<u8>>>,
    filter: ScanFilter,
    float_hits: Seq<bool>,
    next_hits: Seq<bool>,
)
    requires
        reads_within(previous, reads),
    ensures
        ({
            let r1 = rescan_from(previous, reads, filter, float_hits, 0);
            &&& forall|i: int| 0 <= i < r1.len() ==> (#[trigger] r1[i]).previous_bytes.len() <= r1[i].current_value.byte_size()
            &&& rescan_from(r1, unchanged_reads(r1), ScanFilter::Unchanged, next_hits, 0) == r1
        }),
{
    let r1 = rescan_from(previous, reads, filter, float_hits, 0);
    lemma_rescan_settles(previous, reads, filter, float_hits, 0);
    lemma_unchanged_on_settled(r1, next_hits, 0);
    assert(r1.subrange(0, r1.len() as int) =~= r1);
}

} // verus!

verus! {

/// A scan finds every match it looks at: for a value matched by its bytes,
/// each candidate position `p + j * align` below `limit` where the value's
/// bytes lie whole inside `buf` yields its found address.
proof fn lemma_scan_finds_match(
    t: ScanValueView,
    buf: Seq<u8>,
    base: u64,
    fh: Seq<bool>,
    p: nat,
    k: nat,
    limit: nat,
    j: nat,
)
    requires
        !t.is_float(),
        p + j * alignment(t) < limit,
        p + j * alignment(t) + t.byte_size() <= buf.len(),
        t.bytes_at(buf, (p + j * alignment(t)) as int),
    ensures
        scan_from(t, buf, base, fh, p, k, limit).contains(found_at(t, buf, base, p + j * alignment(t))),
    decreases j,
{
    let a = alignment(t);
    let s = scan_from(t, buf, base, fh, p, k, limit);
    if j == 0 {
        assert(p + j * a == p);
        assert(s[0] == found_at(t, buf, base, p));
    } else {
        assert(j * a == (j - 1) * a + a) by (nonlinear_arith);
        assert((j - 1) * a >= 0) by (nonlinear_arith)
            requires
                j >= 1,
                a >= 1,
        ;
        lemma_scan_finds_match(t, buf, base, fh, p + a, k + 1, limit, (j - 1) as nat);
        let rest = scan_from(t, buf, base, fh, p + a, k + 1, limit);
        let f = found_at(t, buf, base, p + j * a);
        let i = choose|i: int| 0 <= i < rest.len() && rest[i] == f;
        let here = if is_hit(t, buf, fh, p, k) {
            seq![found_at(t, buf, base, p)]
        } else {
            Seq::<FoundAddressView>::empty()
        };
        assert(s == here + rest);
        assert(s[here.len() + i] == f);
    }
}

/// Scanning a whole region finds every match in it: for each offset `j *
/// align` from the region's start at which the target's bytes lie whole
/// inside the region, the found address `base + j * align`, recording those
/// bytes, is among the results; and every result holds the target's bytes
/// at such an offset (see [`lemma_scan_finds_value`]).
pub proof fn lemma_region_scan_finds_every_match(t: ScanValueView, data: Seq<u8>, base: u64, j: nat)
    requires
        !t.is_float(),
        j * alignment(t) + t.byte_size() <= data.len(),
        t.bytes_at(data, (j * alignment(t)) as int),
    ensures
        scan_from(t, data, base, seq![], 0, 0, data.len() + 1).contains(
            found_at(t, data, base, j * alignment(t)),
        ),
{
    assert(0 + j * alignment(t) == j * alignment(t));
    lemma_scan_finds_match(t, data, base, seq![], 0, 0, data.len() + 1, j);
}

} // verus!

verus! {

/// Each kind of value is looked for at its natural alignment: a number at
/// every multiple of its own size (2 for 16-bit, 4 for 32-bit, 8 for 64-bit
/// kinds, 1 for 8-bit ones), text and byte arrays at every byte.
pub proof fn lemma_alignment_is_natural(v: ScanValueView)
    ensures
        v.is_numeric() ==> alignment(v) == v.byte_size(),
        !v.is_numeric() ==> alignment(v) == 1,
{
}

/// Whether the kept result `r` shows what was read for the earlier result
/// `e` whose bytes now read `cur`: same address, the bytes read stored, and
/// as current value the value of `e`'s kind decoded from those bytes when
/// they hold enough bytes (the earlier value otherwise); for a number read
/// in full, a value whose encoding is exactly the bytes read.
pub open spec fn shows_read(r: FoundAddressView, e: FoundAddressView, cur: Seq<u8>) -> bool {
    &&& r.address == e.address
    &&& r.previous_bytes == cur
    &&& (e.current_value.read_at(cur, 0) matches Some(v) ==> r.current_value == v)
    &&& (e.current_value.read_at(cur, 0) is None ==> r.current_value == e.current_value)
    &&& (e.current_value.is_numeric() && cur.len() == e.current_value.byte_size()) ==> r.current_value.to_bytes()
        == cur
}

/// Whether the `i`-th result in `res` comes from an earlier result of
/// `previous`, from the `k`-th on, whose read succeeded, and shows what was
/// read there.
pub open spec fn shows_read_at(
    res: Seq<FoundAddressView>,
    i: int,
    previous: Seq<FoundAddressView>,
    reads: Seq<Option<Seq<u8>>>,
    k: nat,
) -> bool {
    exists|j: int|
        k <= j < previous.len() && entry_or_none(reads, j) is Some && #[trigger] shows_read(
            res[i],
            previous[j],
            entry_or_none(reads, j)->0,
        )
}

/// Whether every result in `res` shows what was read, as `shows_read_at` says.
pub open spec fn all_show_read(
    res: Seq<FoundAddressView>,
    previous: Seq<FoundAddressView>,
    reads: Seq<Option<Seq<u8>>>,
    k: nat,
) -> bool {
    forall|i: int| 0 <= i < res.len() ==> #[trigger] shows_read_at(res, i, previous, reads, k)
}

/// A rescan shows for each result it keeps the value read from the bytes
/// just read: every kept result comes from an earlier result whose read
/// succeeded, and shows what was read there.
pub proof fn lemma_rescan_shows_value_read(
    previous: Seq<FoundAddressView>,
    reads: Seq<Option<Seq<u8>>>,
    filter: ScanFilter,
    float_hits: Seq<bool>,
    k: nat,
)
    ensures
        all_show_read(rescan_from(previous, reads, filter, float_hits, k), previous, reads, k),
    decreases previous.len() - k,
{
    let res = rescan_from(previous, reads, filter, float_hits, k);
    if k < previous.len() {
        lemma_rescan_shows_value_read(previous, reads, filter, float_hits, k + 1);
        let rest = rescan_from(previous, reads, filter, float_hits, k + 1);
        assert forall|i: int| 0 <= i < res.len() implies #[trigger] shows_read_at(res, i, previous, reads, k) by {
            if res.len() == rest.len() {
                assert(res == rest);
                assert(shows_read_at(rest, i, previous, reads, (k + 1) as nat));
                let j = choose|j: int|
                    k + 1 <= j < previous.len() && entry_or_none(reads, j) is Some && #[trigger] shows_read(
                        rest[i],
                        previous[j],
                        entry_or_none(reads, j)->0,
                    );
                assert(shows_read(res[i], previous[j], entry_or_none(reads, j)->0));
            } else if i == 0 {
                let e = previous[k as int];
                let cur = entry_or_none(reads, k as int)->0;
                assert(res[0] == rescanned(e, cur));
                if e.current_value.is_numeric() && cur.len() == e.current_value.byte_size() {
                    assert(cur.subrange(0, cur.len() as int) =~= cur);
                    crate::types::lemma_decode_encodes(e.current_value, cur);
                }
                assert(shows_read(res[0], previous[k as int], cur));
            } else {
                assert(res[i] == rest[i - 1]);
                assert(shows_read_at(rest, i - 1, previous, reads, (k + 1) as nat));
                let j = choose|j: int|
                    k + 1 <= j < previous.len() && entry_or_none(reads, j) is Some && #[trigger] shows_read(
                        rest[i - 1],
                        previous[j],
                        entry_or_none(reads, j)->0,
                    );
                assert(shows_read(res[i], previous[j], entry_or_none(reads, j)->0));
            }
        }
    } else {
        assert(res =~= Seq::<FoundAddressView>::empty());
    }
}

} // verus!
