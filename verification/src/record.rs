//! The packed record layout.
//!
//! A region is a run of bytes that holds records back to back. A record is
//! its payload's length, as eight bytes in native order, then the payload.
//! The next record starts at the first multiple of the region's alignment
//! at or after the payload's end, counted from the start of the region.
//! Nothing else marks the records: a region is read from its start, one
//! record at a time.
use crate::native::{spec_u64_from_ne_bytes, spec_u64_ne_bytes, u64_from_ne_bytes};
use vstd::prelude::*;
use vstd::slice::slice_subrange;

verus! {

/// Bytes taken by a record's length prefix. It is also the alignment that
/// every list starts with.
pub const PREFIX_LEN: usize = 8;

/// The least multiple of `align` that is not below `n`.
pub open spec fn align_up(n: int, align: int) -> int
    recommends
        n >= 0,
        align > 0,
{
    if n % align == 0 {
        n
    } else {
        n + align - n % align
    }
}

/// The room that a record keeps for its prefix when its element asks for
/// the alignment `elem_align`: the prefix itself, or more where the element
/// is aligned more coarsely.
pub open spec fn prefix_room(elem_align: nat) -> nat {
    if elem_align > PREFIX_LEN {
        elem_align
    } else {
        PREFIX_LEN as nat
    }
}

/// `n` zero bytes.
pub open spec fn zeros(n: int) -> Seq<u8> {
    Seq::new(n as nat, |i: int| 0u8)
}

/// The payload length that the first record of `bytes` declares, where
/// `bytes` is long enough to hold a prefix.
pub open spec fn declared_len(bytes: Seq<u8>) -> Option<nat> {
    if bytes.len() >= PREFIX_LEN {
        Some(spec_u64_from_ne_bytes(bytes.subrange(0, PREFIX_LEN as int)) as nat)
    } else {
        None
    }
}

/// The payload of the first record of `bytes`: the bytes behind the prefix,
/// as many as it declares. There is none where the prefix or a part of the
/// payload is missing.
pub open spec fn head_of(bytes: Seq<u8>) -> Option<Seq<u8>> {
    match declared_len(bytes) {
        Some(n) => if PREFIX_LEN + n <= bytes.len() {
            Some(bytes.subrange(PREFIX_LEN as int, PREFIX_LEN + n))
        } else {
            None
        },
        None => None,
    }
}

/// Where the second record of `bytes` starts: the end of the first payload,
/// rounded up to `align`. There is none where the prefix is missing or that
/// offset lies behind the end of `bytes`.
pub open spec fn next_start(bytes: Seq<u8>, align: nat) -> Option<nat> {
    match declared_len(bytes) {
        Some(n) => if align > 0 && align_up(PREFIX_LEN + n, align as int) <= bytes.len() {
            Some(align_up(PREFIX_LEN + n, align as int) as nat)
        } else {
            None
        },
        None => None,
    }
}

/// What is left of `bytes` behind its first record.
pub open spec fn tail_of(bytes: Seq<u8>, align: nat) -> Option<Seq<u8>> {
    match next_start(bytes, align) {
        Some(s) => Some(bytes.subrange(s as int, bytes.len() as int)),
        None => None,
    }
}

/// The payloads that a reader meets who takes the head of `bytes`, then the
/// head of its tail, and so on until a head or a tail is missing.
pub open spec fn records(bytes: Seq<u8>, align: nat) -> Seq<Seq<u8>>
    decreases bytes.len(),
{
    match head_of(bytes) {
        None => Seq::empty(),
        Some(h) => match tail_of(bytes, align) {
            Some(t) => if t.len() < bytes.len() {
                seq![h] + records(t, align)
            } else {
                seq![h]
            },
            None => seq![h],
        },
    }
}

/// The bytes of one record: the prefix, zero bytes up to the room that the
/// element's alignment asks for, and the payload.
pub open spec fn record_image(payload: Seq<u8>, elem_align: nat) -> Seq<u8> {
    spec_u64_ne_bytes(payload.len() as u64) + zeros(prefix_room(elem_align) - PREFIX_LEN)
        + payload
}

/// Where a record appended to a region of `len` bytes starts.
pub open spec fn append_start(len: nat, align: nat) -> nat {
    align_up(len as int, align as int) as nat
}

/// The region `bytes` with one more record: zero bytes up to the next
/// multiple of `align`, then the record.
pub open spec fn appended(bytes: Seq<u8>, align: nat, payload: Seq<u8>, elem_align: nat) -> Seq<
    u8,
> {
    bytes + zeros(append_start(bytes.len(), align) - bytes.len()) + record_image(
        payload,
        elem_align,
    )
}

/// A region that is nothing but records, each where a reader looks for it:
/// it is empty, or it holds a first record whole and, where a tail starts
/// within it, the tail is such a region too.
pub open spec fn packed(bytes: Seq<u8>, align: nat) -> bool
    decreases bytes.len(),
{
    bytes.len() == 0 || match declared_len(bytes) {
        Some(n) => PREFIX_LEN + n <= bytes.len() && match tail_of(bytes, align) {
            Some(t) => t.len() < bytes.len() && packed(t, align),
            None => true,
        },
        None => false,
    }
}

/// A record laid down for an element whose payload a reader finds: the
/// element asks for no more than the alignment of the prefix, so that the
/// payload lies right behind the prefix, or the payload is empty.
pub open spec fn readable(payload: Seq<u8>, elem_align: nat) -> bool {
    &&& payload.len() <= u64::MAX
    &&& elem_align <= PREFIX_LEN || payload.len() == 0
}

/// Rounding up moves a number by less than `align`, onto a multiple of it.
pub proof fn lemma_align_up(n: int, align: int)
    requires
        n >= 0,
        align > 0,
    ensures
        n <= align_up(n, align) < n + align,
        align_up(n, align) % align == 0,
        n % align == 0 ==> align_up(n, align) == n,
{
    assert(0 <= n % align < align) by (nonlinear_arith)
        requires
            align > 0,
    ;
    if n % align != 0 {
        let r = n % align;
        assert((n + align - r) % align == 0) by (nonlinear_arith)
            requires
                align > 0,
                r == n % align,
        ;
    }
}

/// Reads the prefix of the first record.
pub fn read_len(chunks: &[u8]) -> (r: Option<u64>)
    ensures
        match r {
            Some(n) => declared_len(chunks@) == Some(n as nat),
            None => declared_len(chunks@) is None,
        },
{
    if chunks.len() < PREFIX_LEN {
        return None;
    }
    let b: [u8; 8] = [
        chunks[0],
        chunks[1],
        chunks[2],
        chunks[3],
        chunks[4],
        chunks[5],
        chunks[6],
        chunks[7],
    ];
    assert(b@ =~= chunks@.subrange(0, PREFIX_LEN as int));
    Some(u64_from_ne_bytes(b))
}

/// The length of the first payload, where `chunks` holds all of it.
pub fn head_len(chunks: &[u8]) -> (r: Option<usize>)
    ensures
        match r {
            Some(n) => declared_len(chunks@) == Some(n as nat) && PREFIX_LEN + n <= chunks@.len()
                <= usize::MAX,
            None => head_of(chunks@) is None,
        },
{
    match read_len(chunks) {
        Some(n) => {
            let room = chunks.len() - PREFIX_LEN;
            if n <= room as u64 {
                Some(n as usize)
            } else {
                None
            }
        },
        None => None,
    }
}

/// The first payload, as it lies in `chunks`.
pub fn head_bytes(chunks: &[u8]) -> (r: Option<&[u8]>)
    ensures
        match r {
            Some(p) => head_of(chunks@) == Some(p@),
            None => head_of(chunks@) is None,
        },
{
    match head_len(chunks) {
        Some(n) => Some(slice_subrange(chunks, PREFIX_LEN, PREFIX_LEN + n)),
        None => None,
    }
}

/// The offset at which the second record starts.
pub fn tail_start(chunks: &[u8], align: usize) -> (r: Option<usize>)
    requires
        align > 0,
    ensures
        match r {
            Some(s) => next_start(chunks@, align as nat) == Some(s as nat),
            None => next_start(chunks@, align as nat) is None,
        },
{
    match head_len(chunks) {
        Some(n) => {
            let end = PREFIX_LEN + n;
            proof {
                lemma_align_up(end as int, align as int);
            }
            let over = end % align;
            if over == 0 {
                Some(end)
            } else if align - over <= chunks.len() - end {
                Some(end + (align - over))
            } else {
                None
            }
        },
        None => {
            proof {
                if let Some(n) = declared_len(chunks@) {
                    lemma_align_up(PREFIX_LEN + n, align as int);
                }
            }
            None
        },
    }
}

/// What is left of `chunks` behind its first record.
pub fn tail_bytes(chunks: &[u8], align: usize) -> (r: Option<&[u8]>)
    requires
        align > 0,
    ensures
        match r {
            Some(t) => tail_of(chunks@, align as nat) == Some(t@),
            None => tail_of(chunks@, align as nat) is None,
        },
{
    match tail_start(chunks, align) {
        Some(s) => Some(slice_subrange(chunks, s, chunks.len())),
        None => None,
    }
}

/// The region `before` with `payload` in the place of its first payload,
/// which had `payload_len` bytes.
pub open spec fn with_head(before: Seq<u8>, payload_len: nat, payload: Seq<u8>) -> Seq<u8> {
    before.subrange(0, PREFIX_LEN as int) + payload + before.subrange(
        PREFIX_LEN + payload_len,
        before.len() as int,
    )
}

/// The region `before` with `tail` in the place of its last `tail_len`
/// bytes.
pub open spec fn with_tail(before: Seq<u8>, tail_len: nat, tail: Seq<u8>) -> Seq<u8> {
    before.subrange(0, before.len() - tail_len) + tail
}

/// The region `before` with `payload` in the place of its first payload,
/// which had `payload_len` bytes, and `tail` in the place of its last
/// `tail_len` bytes.
pub open spec fn with_head_tail(
    before: Seq<u8>,
    payload_len: nat,
    payload: Seq<u8>,
    tail_len: nat,
    tail: Seq<u8>,
) -> Seq<u8> {
    before.subrange(0, PREFIX_LEN as int) + payload + before.subrange(
        PREFIX_LEN + payload_len,
        before.len() - tail_len,
    ) + tail
}

/// The first payload, as it lies in `chunks`, for writing. What the caller
/// leaves in it is what `chunks` then holds in that place; the prefix and
/// all behind the payload stay as they are.
pub fn head_bytes_mut(chunks: &mut [u8]) -> (r: Option<&mut [u8]>)
    ensures
        match r {
            Some(p) => {
                &&& head_of(old(chunks)@) == Some(p@)
                &&& final(chunks)@ == with_head(old(chunks)@, p@.len(), final(p)@)
            },
            None => head_of(old(chunks)@) is None && final(chunks)@ == old(chunks)@,
        },
{
    match head_len(chunks) {
        Some(n) => {
            let (_, rest) = chunks.split_at_mut(PREFIX_LEN);
            let (payload, _) = rest.split_at_mut(n);
            Some(payload)
        },
        None => None,
    }
}

/// What is left of `chunks` behind its first record, for writing. What the
/// caller leaves in it is what `chunks` then holds from that offset on; the
/// first record stays as it is.
pub fn tail_bytes_mut(chunks: &mut [u8], align: usize) -> (r: Option<&mut [u8]>)
    requires
        align > 0,
    ensures
        match r {
            Some(t) => {
                &&& tail_of(old(chunks)@, align as nat) == Some(t@)
                &&& final(chunks)@ == with_tail(old(chunks)@, t@.len(), final(t)@)
            },
            None => tail_of(old(chunks)@, align as nat) is None && final(chunks)@ == old(chunks)@,
        },
{
    match tail_start(chunks, align) {
        Some(s) => {
            let (_, rest) = chunks.split_at_mut(s);
            Some(rest)
        },
        None => None,
    }
}

/// The first payload and what is left behind its record, both for writing.
/// There is no pair where there is no first payload; there may be a payload
/// and nothing behind it.
pub fn head_tail_bytes_mut(chunks: &mut [u8], align: usize) -> (r: Option<
    (&mut [u8], Option<&mut [u8]>),
>)
    requires
        align > 0,
    ensures
        match r {
            Some((p, Some(t))) => {
                &&& head_of(old(chunks)@) == Some(p@)
                &&& tail_of(old(chunks)@, align as nat) == Some(t@)
                &&& final(chunks)@ == with_head_tail(
                    old(chunks)@,
                    p@.len(),
                    final(p)@,
                    t@.len(),
                    final(t)@,
                )
            },
            Some((p, None)) => {
                &&& head_of(old(chunks)@) == Some(p@)
                &&& tail_of(old(chunks)@, align as nat) is None
                &&& final(chunks)@ == with_head(old(chunks)@, p@.len(), final(p)@)
            },
            None => head_of(old(chunks)@) is None && final(chunks)@ == old(chunks)@,
        },
{
    match head_len(chunks) {
        Some(n) => {
            let start = tail_start(chunks, align);
            let (_, rest) = chunks.split_at_mut(PREFIX_LEN);
            let (payload, behind) = rest.split_at_mut(n);
            match start {
                Some(s) => {
                    proof {
                        lemma_align_up(PREFIX_LEN + n, align as int);
                    }
                    let (_, tail) = behind.split_at_mut(s - PREFIX_LEN - n);
                    Some((payload, Some(tail)))
                },
                None => Some((payload, None)),
            }
        },
        None => None,
    }
}

} // verus!
