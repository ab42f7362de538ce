//! The list, its region, and the views that walk it.
//!
//! A [`ListSlice`] is a region of records with its alignment; a [`List`]
//! owns one and appends to it. [`ListSliceTail`] and [`ListSliceTailMut`]
//! are what is left of a region behind a record, borrowed from it: the one
//! for reading, the other for writing into the payloads. No view copies a
//! byte of the region.
use crate::copyable::CopyableUnsized;
use crate::laws::{lemma_append_keeps, lemma_push_extends};
use crate::listing::{region_text, write_region};
use crate::native::{lemma_u64_ne_round_trip, u64_to_ne_bytes};
use crate::record::{
    align_up, append_start, appended, head_bytes, head_bytes_mut, head_of, head_tail_bytes_mut,
    lemma_align_up, packed, prefix_room, readable, records, tail_bytes, tail_bytes_mut, tail_of,
    with_head, with_head_tail, with_tail, zeros, PREFIX_LEN,
};
use core::marker::PhantomData;
use vstd::arithmetic::div_mod::lemma_mod_decreases;
use vstd::arithmetic::power2::is_pow2;
use vstd::layout::valid_layout;
use vstd::prelude::*;

verus! {

/// A region of records of `T` and the alignment by which its records are
/// spaced.
pub struct ListSlice<T: ?Sized> {
    align: usize,
    chunks: Vec<u8>,
    _ph: PhantomData<T>,
}

/// What is left of a region behind a record, borrowed for reading.
pub struct ListSliceTail<'a, T: ?Sized> {
    align: usize,
    chunks: &'a [u8],
    _ph: PhantomData<T>,
}

/// What is left of a region behind a record, borrowed for writing. It is no
/// more than the bytes and the alignment, and may be laid over any bytes.
pub struct ListSliceTailMut<'a, T: ?Sized> {
    pub align: usize,
    pub chunks: &'a mut [u8],
    pub _ph: PhantomData<T>,
}

impl<T: ?Sized> View for ListSlice<T> {
    type V = Seq<Seq<u8>>;

    /// The payloads of the region, in the order in which a walk meets them.
    open spec fn view(&self) -> Seq<Seq<u8>> {
        records(self.bytes(), self.align())
    }
}

impl<'a, T: ?Sized> View for ListSliceTail<'a, T> {
    type V = Seq<Seq<u8>>;

    /// The payloads of the view, in the order in which a walk meets them.
    open spec fn view(&self) -> Seq<Seq<u8>> {
        records(self.bytes(), self.align())
    }
}

impl<'a, T: ?Sized> View for ListSliceTailMut<'a, T> {
    type V = Seq<Seq<u8>>;

    /// The payloads of the view, in the order in which a walk meets them.
    open spec fn view(&self) -> Seq<Seq<u8>> {
        records(self.bytes(), self.align as nat)
    }
}

impl<T: ?Sized> View for List<T> {
    type V = Seq<Seq<u8>>;

    /// The payloads of the list, in the order in which a walk meets them.
    open spec fn view(&self) -> Seq<Seq<u8>> {
        records(self.bytes(), self.align())
    }
}

/// What a reader who goes by `T` finds at the head of `bytes`: the value
/// that the first payload holds, where there is a first payload and it
/// holds one.
pub open spec fn typed_head<T: ?Sized + CopyableUnsized>(bytes: Seq<u8>) -> Option<
    <T::Owned as View>::V,
> {
    match head_of(bytes) {
        Some(p) => T::spec_construct(p),
        None => None,
    }
}

/// Whether the first payload of `chunks` holds a value of `T`.
fn head_reads<T: ?Sized + CopyableUnsized>(chunks: &[u8]) -> (r: bool)
    ensures
        r == typed_head::<T>(chunks@).is_some(),
{
    match head_bytes(chunks) {
        Some(p) => T::construct_ptr(p).is_some(),
        None => false,
    }
}

impl<T: ?Sized + CopyableUnsized> ListSlice<T> {
    /// Reads the first value.
    pub fn head(&self) -> (r: Option<T::Owned>)
        ensures
            match r {
                Some(v) => typed_head::<T>(self.bytes()) == Some(v@),
                None => typed_head::<T>(self.bytes()) is None,
            },
    {
        match head_bytes(self.chunks.as_slice()) {
            Some(p) => T::construct_ptr(p),
            None => None,
        }
    }

    /// The payload of the first value and the view of what lies behind its
    /// record, both for writing. There is no pair where [`Self::head`] finds
    /// no value.
    pub fn head_tail_mut(&mut self) -> (r: Option<(&mut [u8], Option<ListSliceTailMut<'_, T>>)>)
        requires
            old(self).wf(),
        ensures
            final(self).align() == old(self).align(),
            match r {
                Some((p, Some(t))) => {
                    &&& head_of(old(self).bytes()) == Some(p@)
                    &&& T::spec_construct(p@) is Some
                    &&& tail_of(old(self).bytes(), old(self).align()) == Some(t.bytes())
                    &&& t.align == old(self).align()
                    &&& final(self).bytes() == with_head_tail(
                        old(self).bytes(),
                        p@.len(),
                        final(p)@,
                        t.bytes().len(),
                        final(t.chunks)@,
                    )
                },
                Some((p, None)) => {
                    &&& head_of(old(self).bytes()) == Some(p@)
                    &&& T::spec_construct(p@) is Some
                    &&& tail_of(old(self).bytes(), old(self).align()) is None
                    &&& final(self).bytes() == with_head(old(self).bytes(), p@.len(), final(p)@)
                },
                None => {
                    &&& typed_head::<T>(old(self).bytes()) is None
                    &&& final(self).bytes() == old(self).bytes()
                },
            },
    {
        if head_reads::<T>(self.chunks.as_slice()) {
            let align = self.align;
            match head_tail_bytes_mut(self.chunks.as_mut_slice(), align) {
                Some((p, Some(t))) => Some(
                    (p, Some(ListSliceTailMut { align, chunks: t, _ph: PhantomData })),
                ),
                Some((p, None)) => Some((p, None)),
                None => None,
            }
        } else {
            None
        }
    }

    /// The payload of the first value, for writing. There is none where
    /// [`Self::head`] finds no value.
    pub fn head_mut(&mut self) -> (r: Option<&mut [u8]>)
        ensures
            final(self).align() == old(self).align(),
            match r {
                Some(p) => {
                    &&& head_of(old(self).bytes()) == Some(p@)
                    &&& T::spec_construct(p@) is Some
                    &&& final(self).bytes() == with_head(old(self).bytes(), p@.len(), final(p)@)
                },
                None => {
                    &&& typed_head::<T>(old(self).bytes()) is None
                    &&& final(self).bytes() == old(self).bytes()
                },
            },
    {
        if head_reads::<T>(self.chunks.as_slice()) {
            head_bytes_mut(self.chunks.as_mut_slice())
        } else {
            None
        }
    }
}

impl<T: ?Sized> ListSlice<T> {
    /// The bytes of the region.
    pub closed spec fn bytes(&self) -> Seq<u8> {
        self.chunks@
    }

    /// The alignment by which the records are spaced.
    pub closed spec fn align(&self) -> nat {
        self.align as nat
    }

    /// A region can be walked if its alignment is not zero.
    pub open spec fn wf(&self) -> bool {
        self.align() > 0
    }

    /// The bytes of the region, as they lie.
    pub fn as_bytes(&self) -> (bytes: &[u8])
        ensures
            bytes@ == self.bytes(),
    {
        self.chunks.as_slice()
    }

    /// The alignment by which the records are spaced.
    pub fn alignment(&self) -> (align: usize)
        ensures
            align == self.align(),
    {
        self.align
    }

    /// The bytes of the region as text, for a reader who looks into it.
    pub fn fmt(&self) -> (text: String)
        ensures
            text@ == region_text("ListSlice"@, self.bytes()),
    {
        write_region("ListSlice", self.chunks.as_slice())
    }

    /// Reads the first payload without asking what `T` makes of it, and
    /// divides its length by `n`: the number of items in it for a caller who
    /// knows that each takes `n` bytes.
    pub fn head_unsafe(&self, n: usize) -> (r: Option<(&[u8], usize)>)
        requires
            n > 0,
        ensures
            match r {
                Some((p, count)) => head_of(self.bytes()) == Some(p@) && count == p@.len() / (
                n as nat),
                None => head_of(self.bytes()) is None,
            },
    {
        match head_bytes(self.chunks.as_slice()) {
            Some(p) => Some((p, p.len() / n)),
            None => None,
        }
    }

    /// As [`Self::head_unsafe`], with the payload handed out for writing.
    pub fn head_mut_unsafe(&mut self, n: usize) -> (r: Option<(&mut [u8], usize)>)
        requires
            n > 0,
        ensures
            final(self).align() == old(self).align(),
            match r {
                Some((p, count)) => {
                    &&& head_of(old(self).bytes()) == Some(p@)
                    &&& count == p@.len() / (n as nat)
                    &&& final(self).bytes() == with_head(old(self).bytes(), p@.len(), final(p)@)
                },
                None => {
                    &&& head_of(old(self).bytes()) is None
                    &&& final(self).bytes() == old(self).bytes()
                },
            },
    {
        match head_bytes_mut(self.chunks.as_mut_slice()) {
            Some(p) => {
                let count = p.len() / n;
                Some((p, count))
            },
            None => None,
        }
    }

    /// The view of what lies behind the first record.
    pub fn tail(&self) -> (r: Option<ListSliceTail<'_, T>>)
        requires
            self.wf(),
        ensures
            match r {
                Some(t) => {
                    &&& tail_of(self.bytes(), self.align()) == Some(t.bytes())
                    &&& t.align() == self.align()
                },
                None => tail_of(self.bytes(), self.align()) is None,
            },
    {
        match tail_bytes(self.chunks.as_slice(), self.align) {
            Some(t) => Some(ListSliceTail { align: self.align, chunks: t, _ph: PhantomData }),
            None => None,
        }
    }

    /// The view of what lies behind the first record, for writing. What the
    /// caller leaves behind the view is what the region then holds there.
    pub fn tail_mut(&mut self) -> (r: Option<ListSliceTailMut<'_, T>>)
        requires
            old(self).wf(),
        ensures
            final(self).align() == old(self).align(),
            match r {
                Some(t) => {
                    &&& tail_of(old(self).bytes(), old(self).align()) == Some(t.bytes())
                    &&& t.align == old(self).align()
                    &&& final(self).bytes() == with_tail(
                        old(self).bytes(),
                        t.bytes().len(),
                        final(t.chunks)@,
                    )
                },
                None => {
                    &&& tail_of(old(self).bytes(), old(self).align()) is None
                    &&& final(self).bytes() == old(self).bytes()
                },
            },
    {
        let align = self.align;
        match tail_bytes_mut(self.chunks.as_mut_slice(), align) {
            Some(t) => Some(ListSliceTailMut { align, chunks: t, _ph: PhantomData }),
            None => None,
        }
    }

    /// As [`Self::head_mut_unsafe`], together with the view of what lies
    /// behind the first record, for writing.
    pub fn head_tail_mut_unsafe(&mut self, n: usize) -> (r: Option<
        ((&mut [u8], usize), Option<ListSliceTailMut<'_, T>>),
    >)
        requires
            n > 0,
            old(self).wf(),
        ensures
            final(self).align() == old(self).align(),
            match r {
                Some(((p, count), Some(t))) => {
                    &&& head_of(old(self).bytes()) == Some(p@)
                    &&& count == p@.len() / (n as nat)
                    &&& tail_of(old(self).bytes(), old(self).align()) == Some(t.bytes())
                    &&& t.align == old(self).align()
                    &&& final(self).bytes() == with_head_tail(
                        old(self).bytes(),
                        p@.len(),
                        final(p)@,
                        t.bytes().len(),
                        final(t.chunks)@,
                    )
                },
                Some(((p, count), None)) => {
                    &&& head_of(old(self).bytes()) == Some(p@)
                    &&& count == p@.len() / (n as nat)
                    &&& tail_of(old(self).bytes(), old(self).align()) is None
                    &&& final(self).bytes() == with_head(old(self).bytes(), p@.len(), final(p)@)
                },
                None => {
                    &&& head_of(old(self).bytes()) is None
                    &&& final(self).bytes() == old(self).bytes()
                },
            },
    {
        let align = self.align;
        match head_tail_bytes_mut(self.chunks.as_mut_slice(), align) {
            Some((p, Some(t))) => {
                let count = p.len() / n;
                Some(((p, count), Some(ListSliceTailMut { align, chunks: t, _ph: PhantomData })))
            },
            Some((p, None)) => {
                let count = p.len() / n;
                Some(((p, count), None))
            },
            None => None,
        }
    }
}

impl<'a, T: ?Sized + CopyableUnsized> ListSliceTail<'a, T> {
    /// Reads the first value.
    pub fn head(&self) -> (r: Option<T::Owned>)
        ensures
            match r {
                Some(v) => typed_head::<T>(self.bytes()) == Some(v@),
                None => typed_head::<T>(self.bytes()) is None,
            },
    {
        match head_bytes(self.chunks) {
            Some(p) => T::construct_ptr(p),
            None => None,
        }
    }
}

impl<'a, T: ?Sized> ListSliceTail<'a, T> {
    /// The bytes of the view.
    pub closed spec fn bytes(&self) -> Seq<u8> {
        self.chunks@
    }

    /// The alignment by which the records are spaced.
    pub closed spec fn align(&self) -> nat {
        self.align as nat
    }

    /// A view can be walked if its alignment is not zero.
    pub open spec fn wf(&self) -> bool {
        self.align() > 0
    }

    /// The bytes of the view, as they lie.
    pub fn as_bytes(&self) -> (bytes: &'a [u8])
        ensures
            bytes@ == self.bytes(),
    {
        self.chunks
    }

    /// The alignment by which the records are spaced.
    pub fn alignment(&self) -> (align: usize)
        ensures
            align == self.align(),
    {
        self.align
    }

    /// Reads the first payload without asking what `T` makes of it, and
    /// divides its length by `n`.
    pub fn head_unsafe(&self, n: usize) -> (r: Option<(&'a [u8], usize)>)
        requires
            n > 0,
        ensures
            match r {
                Some((p, count)) => head_of(self.bytes()) == Some(p@) && count == p@.len() / (
                n as nat),
                None => head_of(self.bytes()) is None,
            },
    {
        match head_bytes(self.chunks) {
            Some(p) => Some((p, p.len() / n)),
            None => None,
        }
    }

    /// The view of what lies behind the first record.
    pub fn tail(&self) -> (r: Option<ListSliceTail<'a, T>>)
        requires
            self.wf(),
        ensures
            match r {
                Some(t) => {
                    &&& tail_of(self.bytes(), self.align()) == Some(t.bytes())
                    &&& t.align() == self.align()
                },
                None => tail_of(self.bytes(), self.align()) is None,
            },
    {
        match tail_bytes(self.chunks, self.align) {
            Some(t) => Some(ListSliceTail { align: self.align, chunks: t, _ph: PhantomData }),
            None => None,
        }
    }
}

impl<'a, T: ?Sized + CopyableUnsized> ListSliceTailMut<'a, T> {
    /// Reads the first value.
    pub fn head(&self) -> (r: Option<T::Owned>)
        ensures
            match r {
                Some(v) => typed_head::<T>(self.bytes()) == Some(v@),
                None => typed_head::<T>(self.bytes()) is None,
            },
    {
        match head_bytes(self.chunks) {
            Some(p) => T::construct_ptr(p),
            None => None,
        }
    }

    /// The payload of the first value and the view of what lies behind its
    /// record, both for writing. There is no pair where [`Self::head`] finds
    /// no value.
    pub fn head_tail_mut(&mut self) -> (r: Option<(&mut [u8], Option<ListSliceTailMut<'_, T>>)>)
        requires
            old(self).wf(),
        ensures
            final(self).align == old(self).align,
            final(final(self).chunks)@ == final(old(self).chunks)@,
            match r {
                Some((p, Some(t))) => {
                    &&& head_of(old(self).bytes()) == Some(p@)
                    &&& T::spec_construct(p@) is Some
                    &&& tail_of(old(self).bytes(), old(self).align as nat) == Some(t.bytes())
                    &&& t.align == old(self).align
                    &&& final(self).bytes() == with_head_tail(
                        old(self).bytes(),
                        p@.len(),
                        final(p)@,
                        t.bytes().len(),
                        final(t.chunks)@,
                    )
                },
                Some((p, None)) => {
                    &&& head_of(old(self).bytes()) == Some(p@)
                    &&& T::spec_construct(p@) is Some
                    &&& tail_of(old(self).bytes(), old(self).align as nat) is None
                    &&& final(self).bytes() == with_head(old(self).bytes(), p@.len(), final(p)@)
                },
                None => {
                    &&& typed_head::<T>(old(self).bytes()) is None
                    &&& final(self).bytes() == old(self).bytes()
                },
            },
    {
        if head_reads::<T>(self.chunks) {
            let align = self.align;
            match head_tail_bytes_mut(self.chunks, align) {
                Some((p, Some(t))) => Some(
                    (p, Some(ListSliceTailMut { align, chunks: t, _ph: PhantomData })),
                ),
                Some((p, None)) => Some((p, None)),
                None => None,
            }
        } else {
            None
        }
    }

    /// The payload of the first value, for writing. There is none where
    /// [`Self::head`] finds no value.
    pub fn head_mut(&mut self) -> (r: Option<&mut [u8]>)
        ensures
            final(self).align == old(self).align,
            final(final(self).chunks)@ == final(old(self).chunks)@,
            match r {
                Some(p) => {
                    &&& head_of(old(self).bytes()) == Some(p@)
                    &&& T::spec_construct(p@) is Some
                    &&& final(self).bytes() == with_head(old(self).bytes(), p@.len(), final(p)@)
                },
                None => {
                    &&& typed_head::<T>(old(self).bytes()) is None
                    &&& final(self).bytes() == old(self).bytes()
                },
            },
    {
        if head_reads::<T>(self.chunks) {
            head_bytes_mut(self.chunks)
        } else {
            None
        }
    }
}

impl<'a, T: ?Sized> ListSliceTailMut<'a, T> {
    /// The bytes of the view.
    pub open spec fn bytes(&self) -> Seq<u8> {
        self.chunks@
    }

    /// A view can be walked if its alignment is not zero.
    pub open spec fn wf(&self) -> bool {
        self.align > 0
    }

    /// Reads the first payload without asking what `T` makes of it, and
    /// divides its length by `n`.
    pub fn head_unsafe(&self, n: usize) -> (r: Option<(&[u8], usize)>)
        requires
            n > 0,
        ensures
            match r {
                Some((p, count)) => head_of(self.bytes()) == Some(p@) && count == p@.len() / (
                n as nat),
                None => head_of(self.bytes()) is None,
            },
    {
        match head_bytes(self.chunks) {
            Some(p) => Some((p, p.len() / n)),
            None => None,
        }
    }

    /// As [`Self::head_unsafe`], with the payload handed out for writing.
    pub fn head_mut_unsafe(&mut self, n: usize) -> (r: Option<(&mut [u8], usize)>)
        requires
            n > 0,
        ensures
            final(self).align == old(self).align,
            final(final(self).chunks)@ == final(old(self).chunks)@,
            match r {
                Some((p, count)) => {
                    &&& head_of(old(self).bytes()) == Some(p@)
                    &&& count == p@.len() / (n as nat)
                    &&& final(self).bytes() == with_head(old(self).bytes(), p@.len(), final(p)@)
                },
                None => {
                    &&& head_of(old(self).bytes()) is None
                    &&& final(self).bytes() == old(self).bytes()
                },
            },
    {
        match head_bytes_mut(self.chunks) {
            Some(p) => {
                let count = p.len() / n;
                Some((p, count))
            },
            None => None,
        }
    }

    /// The view of what lies behind the first record, for reading.
    pub fn tail(&self) -> (r: Option<ListSliceTail<'_, T>>)
        requires
            self.wf(),
        ensures
            match r {
                Some(t) => {
                    &&& tail_of(self.bytes(), self.align as nat) == Some(t.bytes())
                    &&& t.align() == self.align
                },
                None => tail_of(self.bytes(), self.align as nat) is None,
            },
    {
        match tail_bytes(self.chunks, self.align) {
            Some(t) => Some(ListSliceTail { align: self.align, chunks: t, _ph: PhantomData }),
            None => None,
        }
    }

    /// The view of what lies behind the first record, for writing. What the
    /// caller leaves behind the new view is what this one then holds there.
    pub fn tail_mut(&mut self) -> (r: Option<ListSliceTailMut<'_, T>>)
        requires
            old(self).wf(),
        ensures
            final(self).align == old(self).align,
            final(final(self).chunks)@ == final(old(self).chunks)@,
            match r {
                Some(t) => {
                    &&& tail_of(old(self).bytes(), old(self).align as nat) == Some(t.bytes())
                    &&& t.align == old(self).align
                    &&& final(self).bytes() == with_tail(
                        old(self).bytes(),
                        t.bytes().len(),
                        final(t.chunks)@,
                    )
                },
                None => {
                    &&& tail_of(old(self).bytes(), old(self).align as nat) is None
                    &&& final(self).bytes() == old(self).bytes()
                },
            },
    {
        let align = self.align;
        match tail_bytes_mut(self.chunks, align) {
            Some(t) => Some(ListSliceTailMut { align, chunks: t, _ph: PhantomData }),
            None => None,
        }
    }

    /// As [`Self::head_mut_unsafe`], together with the view of what lies
    /// behind the first record, for writing.
    pub fn head_tail_mut_unsafe(&mut self, n: usize) -> (r: Option<
        ((&mut [u8], usize), Option<ListSliceTailMut<'_, T>>),
    >)
        requires
            n > 0,
            old(self).wf(),
        ensures
            final(self).align == old(self).align,
            final(final(self).chunks)@ == final(old(self).chunks)@,
            match r {
                Some(((p, count), Some(t))) => {
                    &&& head_of(old(self).bytes()) == Some(p@)
                    &&& count == p@.len() / (n as nat)
                    &&& tail_of(old(self).bytes(), old(self).align as nat) == Some(t.bytes())
                    &&& t.align == old(self).align
                    &&& final(self).bytes() == with_head_tail(
                        old(self).bytes(),
                        p@.len(),
                        final(p)@,
                        t.bytes().len(),
                        final(t.chunks)@,
                    )
                },
                Some(((p, count), None)) => {
                    &&& head_of(old(self).bytes()) == Some(p@)
                    &&& count == p@.len() / (n as nat)
                    &&& tail_of(old(self).bytes(), old(self).align as nat) is None
                    &&& final(self).bytes() == with_head(old(self).bytes(), p@.len(), final(p)@)
                },
                None => {
                    &&& head_of(old(self).bytes()) is None
                    &&& final(self).bytes() == old(self).bytes()
                },
            },
    {
        let align = self.align;
        match head_tail_bytes_mut(self.chunks, align) {
            Some((p, Some(t))) => {
                let count = p.len() / n;
                Some(((p, count), Some(ListSliceTailMut { align, chunks: t, _ph: PhantomData })))
            },
            Some((p, None)) => {
                let count = p.len() / n;
                Some(((p, count), None))
            },
            None => None,
        }
    }
}

/// A growable list of values of `T`, packed into one region that it owns.
pub struct List<T: ?Sized> {
    inner: ListSlice<T>,
    chunks_cap: usize,
}

/// What an append does to the allocation.
#[derive(Clone, Copy, Debug, PartialEq, Eq, Structural)]
pub enum Growth {
    /// The record fits into what is allocated.
    Keep,
    /// Nothing is allocated yet: a first block is taken.
    Allocate,
    /// The block is too small and its alignment still serves: it is
    /// extended, and the bytes stay where they are.
    Extend,
    /// The alignment rises: a block of the new alignment is taken, the bytes
    /// are copied to the same offsets, and the old block is given up.
    Realign,
}

/// The end of a record appended to `len` bytes: where the region then ends.
pub open spec fn append_end(len: nat, align: nat, payload_len: nat, elem_align: nat) -> nat {
    append_start(len, align) + prefix_room(elem_align) + payload_len
}

/// What an append does to an allocation of `cap` bytes with `len` in use and
/// the alignment `align`, for a payload of `payload_len` bytes whose
/// element asks for `elem_align`.
pub open spec fn growth_of(
    len: nat,
    cap: nat,
    align: nat,
    payload_len: nat,
    elem_align: nat,
) -> Growth {
    let raised = if elem_align > align {
        elem_align
    } else {
        align
    };
    if elem_align <= align && append_end(len, raised, payload_len, elem_align) <= cap {
        Growth::Keep
    } else if cap == 0 {
        Growth::Allocate
    } else if elem_align <= align {
        Growth::Extend
    } else {
        Growth::Realign
    }
}

impl<T: ?Sized> List<T> {
    /// The region of the list.
    pub closed spec fn region(&self) -> ListSlice<T> {
        self.inner
    }

    /// The bytes in use.
    pub open spec fn bytes(&self) -> Seq<u8> {
        self.region().bytes()
    }

    /// The alignment of the allocation: by it the records are spaced.
    pub open spec fn align(&self) -> nat {
        self.region().align()
    }

    /// The bytes allocated.
    pub closed spec fn capacity(&self) -> nat {
        self.chunks_cap as nat
    }

    /// Whether the region is nothing but records, each where a reader looks
    /// for it.
    pub open spec fn packed(&self) -> bool {
        packed(self.bytes(), self.align())
    }

    /// What holds of every list: the alignment is a power of two and at
    /// least that of the prefix, the bytes in use lie within the
    /// allocation, and an allocation is one that the allocator can give.
    pub open spec fn wf(&self) -> bool {
        &&& is_pow2(self.align() as int)
        &&& self.align() >= PREFIX_LEN
        &&& self.align() <= usize::MAX
        &&& self.bytes().len() <= self.capacity() <= usize::MAX
        &&& self.capacity() > 0 ==> valid_layout(self.capacity() as usize, self.align() as usize)
    }

    /// The alignment of the list after an element that asks for
    /// `elem_align`.
    pub open spec fn raised_align(&self, elem_align: nat) -> nat {
        if elem_align > self.align() {
            elem_align
        } else {
            self.align()
        }
    }

    /// Where the region ends after a payload of `payload_len` bytes whose
    /// element asks for `elem_align`.
    pub open spec fn end_after(&self, payload_len: nat, elem_align: nat) -> nat {
        append_end(self.bytes().len(), self.raised_align(elem_align), payload_len, elem_align)
    }

    /// What the append of such a payload does to the allocation.
    pub open spec fn growth(&self, payload_len: nat, elem_align: nat) -> Growth {
        growth_of(self.bytes().len(), self.capacity(), self.align(), payload_len, elem_align)
    }

    /// Whether such a payload can be appended: the new end is a `usize`,
    /// and where the allocation changes, twice the new end is a size that
    /// the allocator can give at the new alignment.
    pub open spec fn can_push(&self, payload_len: nat, elem_align: nat) -> bool {
        &&& self.end_after(payload_len, elem_align) <= usize::MAX
        &&& self.growth(payload_len, elem_align) != Growth::Keep ==> {
            &&& 2 * self.end_after(payload_len, elem_align) <= usize::MAX
            &&& valid_layout(
                (2 * self.end_after(payload_len, elem_align)) as usize,
                self.raised_align(elem_align) as usize,
            )
        }
    }

    /// The empty list, for a `T` of which the caller knows how to read the
    /// payloads: nothing is allocated, and the alignment is that of the
    /// prefix.
    pub fn new_unsafe() -> (list: Self)
        ensures
            list.wf(),
            list.bytes() == Seq::<u8>::empty(),
            list.align() == PREFIX_LEN,
            list.capacity() == 0,
            list.packed(),
            list@ == Seq::<Seq<u8>>::empty(),
    {
        proof {
            lemma_pow2_8();
        }
        List {
            inner: ListSlice { align: PREFIX_LEN, chunks: Vec::new(), _ph: PhantomData },
            chunks_cap: 0,
        }
    }

    /// The bytes allocated.
    pub fn allocated(&self) -> (cap: usize)
        ensures
            cap == self.capacity(),
    {
        self.chunks_cap
    }

    /// The bytes in use as text, for a reader who looks into the list.
    pub fn fmt(&self) -> (text: String)
        ensures
            text@ == region_text("List"@, self.bytes()),
    {
        write_region("List", self.inner.chunks.as_slice())
    }

    /// Whether a payload of `payload_len` bytes can be appended for an
    /// element that asks for the alignment `align`: what
    /// [`Self::push_bytes`] asks of its caller.
    pub fn fits(&self, payload_len: usize, align: usize) -> (r: bool)
        requires
            self.wf(),
        ensures
            r == (is_pow2(align as int) && self.can_push(payload_len as nat, align as nat)),
    {
        if !is_power_of_two(align) {
            return false;
        }
        proof {
            lemma_pow2_positive(align as int);
        }
        let used = self.inner.chunks.len();
        let new_align = if align > self.inner.align {
            align
        } else {
            self.inner.align
        };
        let usize_len = if align > PREFIX_LEN {
            align
        } else {
            PREFIX_LEN
        };
        proof {
            lemma_align_up(used as int, new_align as int);
        }
        let over = used % new_align;
        let aligned_len = if over == 0 {
            used
        } else {
            match used.checked_add(new_align - over) {
                Some(a) => a,
                None => {
                    return false;
                },
            }
        };
        let end = match aligned_len.checked_add(usize_len) {
            Some(room) => match room.checked_add(payload_len) {
                Some(end) => end,
                None => {
                    return false;
                },
            },
            None => {
                return false;
            },
        };
        match decide(used, self.chunks_cap, self.inner.align, payload_len, align) {
            Growth::Keep => true,
            _ => match end.checked_mul(2) {
                Some(twice) => {
                    let most = isize::MAX as usize;
                    proof {
                        lemma_mod_decreases(most as nat, new_align as nat);
                    }
                    twice <= most - most % new_align
                },
                None => false,
            },
        }
    }

    /// The region of the list, borrowed.
    pub fn as_slice(&self) -> (slice: &ListSlice<T>)
        ensures
            *slice == self.region(),
    {
        &self.inner
    }

    /// The region of the list, borrowed for writing into its payloads. What
    /// the caller leaves in the region is what the list then holds.
    pub fn as_mut_slice(&mut self) -> (slice: &mut ListSlice<T>)
        ensures
            *slice == old(self).region(),
            final(self).region() == *final(slice),
            final(self).capacity() == old(self).capacity(),
    {
        &mut self.inner
    }

    /// Appends a record with the payload `data` for an element that asks
    /// for the alignment `align`.
    ///
    /// The alignment of the list rises to `align` where that is more. The
    /// record starts at the next multiple of the list's alignment, and its
    /// payload lies behind the room kept for the prefix. The bytes that
    /// were in use stay as they were, at their offsets. Where the record
    /// does not fit, or the alignment rises, the allocation becomes twice
    /// the new end.
    pub fn push_bytes(&mut self, data: &[u8], align: usize)
        requires
            old(self).wf(),
            is_pow2(align as int),
            old(self).can_push(data@.len(), align as nat),
        ensures
            final(self).wf(),
            final(self).align() == old(self).raised_align(align as nat),
            final(self).bytes() == appended(
                old(self).bytes(),
                final(self).align(),
                data@,
                align as nat,
            ),
            final(self).bytes().len() == old(self).end_after(data@.len(), align as nat),
            final(self).capacity() == if old(self).growth(data@.len(), align as nat)
                == Growth::Keep {
                old(self).capacity()
            } else {
                2 * old(self).end_after(data@.len(), align as nat)
            },
            final(self).bytes().subrange(0, old(self).bytes().len() as int) == old(self).bytes(),
            head_of(old(self).bytes()) is Some ==> head_of(final(self).bytes()) == head_of(
                old(self).bytes(),
            ),
            append_start(old(self).bytes().len(), final(self).align()) % final(self).align() == 0,
            packed(old(self).bytes(), final(self).align()) && readable(data@, align as nat) ==> {
                &&& final(self).packed()
                &&& final(self)@ == records(
                    old(self).bytes(),
                    final(self).align(),
                ).push(data@)
            },
    {
        proof {
            lemma_pow2_positive(align as int);
        }
        let len = data.len();
        let used = self.inner.chunks.len();
        let old_align = self.inner.align;
        let new_align = if align > old_align {
            align
        } else {
            old_align
        };
        let usize_len = if align > PREFIX_LEN {
            align
        } else {
            PREFIX_LEN
        };
        let aligned_len = round_up(used, new_align);
        let end = aligned_len + usize_len + len;
        let growth = decide(used, self.chunks_cap, old_align, len, align);
        let ghost before = self.inner.chunks@;
        match growth {
            Growth::Keep => {},
            Growth::Allocate => {
                self.inner.chunks = Vec::with_capacity(2 * end);
            },
            Growth::Extend => {
                self.inner.chunks.reserve(2 * end - used);
            },
            Growth::Realign => {
                let mut fresh: Vec<u8> = Vec::with_capacity(2 * end);
                extend_bytes(&mut fresh, self.inner.chunks.as_slice());
                self.inner.chunks = fresh;
            },
        }
        if growth != Growth::Keep {
            self.chunks_cap = 2 * end;
        }
        self.inner.align = new_align;
        assert(self.inner.chunks@ =~= before);
        extend_zeros(&mut self.inner.chunks, aligned_len - used);
        let prefix = u64_to_ne_bytes(len as u64);
        extend_bytes(&mut self.inner.chunks, prefix.as_slice());
        extend_zeros(&mut self.inner.chunks, usize_len - PREFIX_LEN);
        extend_bytes(&mut self.inner.chunks, data);
        proof {
            lemma_u64_ne_round_trip(len as u64);
            assert(self.inner.chunks@ =~= appended(
                before,
                new_align as nat,
                data@,
                align as nat,
            ));
            lemma_append_keeps(before, new_align as nat, data@, align as nat);
            lemma_align_up(before.len() as int, new_align as int);
            if packed(before, new_align as nat) && readable(data@, align as nat) {
                lemma_push_extends(before, new_align as nat, data@, align as nat);
            }
        }
    }
}

impl<T: ?Sized + CopyableUnsized> List<T> {
    /// The empty list: nothing is allocated, and the alignment is that of
    /// the prefix.
    pub fn new() -> (list: Self)
        ensures
            list.wf(),
            list.bytes() == Seq::<u8>::empty(),
            list.align() == PREFIX_LEN,
            list.capacity() == 0,
            list.packed(),
            list@ == Seq::<Seq<u8>>::empty(),
    {
        Self::new_unsafe()
    }

    /// Appends a copy of `data`: a record whose payload is the bytes of the
    /// value, as [`Self::push_bytes`] lays it down for the alignment that the
    /// value asks for.
    pub fn push(&mut self, data: &T)
        requires
            old(self).wf(),
            old(self).can_push(data.spec_raw().len(), data.spec_align()),
        ensures
            final(self).wf(),
            final(self).align() == old(self).raised_align(data.spec_align()),
            final(self).bytes() == appended(
                old(self).bytes(),
                final(self).align(),
                data.spec_raw(),
                data.spec_align(),
            ),
            final(self).bytes().len() == old(self).end_after(
                data.spec_raw().len(),
                data.spec_align(),
            ),
            final(self).capacity() == if old(self).growth(data.spec_raw().len(), data.spec_align())
                == Growth::Keep {
                old(self).capacity()
            } else {
                2 * old(self).end_after(data.spec_raw().len(), data.spec_align())
            },
            final(self).bytes().subrange(0, old(self).bytes().len() as int) == old(self).bytes(),
            head_of(old(self).bytes()) is Some ==> head_of(final(self).bytes()) == head_of(
                old(self).bytes(),
            ),
            append_start(old(self).bytes().len(), final(self).align()) % final(self).align() == 0,
            packed(old(self).bytes(), final(self).align()) && readable(
                data.spec_raw(),
                data.spec_align(),
            ) ==> {
                &&& final(self).packed()
                &&& final(self)@ == records(
                    old(self).bytes(),
                    final(self).align(),
                ).push(data.spec_raw())
                &&& T::spec_construct(final(self)@.last()) == Some(data.spec_value())
            },
    {
        proof {
            data.lemma_copyable();
        }
        let bytes = data.raw_bytes();
        let align = data.align_of_val();
        self.push_bytes(bytes.as_slice(), align);
    }
}

impl<T: ?Sized + CopyableUnsized> Default for List<T> {
    fn default() -> (list: Self)
        ensures
            list.wf(),
            list.bytes() == Seq::<u8>::empty(),
            list.align() == PREFIX_LEN,
            list.capacity() == 0,
            list.packed(),
            list@ == Seq::<Seq<u8>>::empty(),
    {
        Self::new()
    }
}

impl<T: ?Sized> core::ops::Deref for List<T> {
    type Target = ListSlice<T>;

    fn deref(&self) -> (slice: &ListSlice<T>)
        ensures
            *slice == self.region(),
    {
        &self.inner
    }
}

/// The least multiple of `align` that is not below `n`.
fn round_up(n: usize, align: usize) -> (r: usize)
    requires
        align > 0,
        align_up(n as int, align as int) <= usize::MAX,
    ensures
        r == align_up(n as int, align as int),
{
    proof {
        lemma_align_up(n as int, align as int);
    }
    let over = n % align;
    if over == 0 {
        n
    } else {
        n + (align - over)
    }
}

/// Decides what an append does to the allocation.
fn decide(used: usize, cap: usize, old_align: usize, len: usize, align: usize) -> (r: Growth)
    requires
        old_align > 0,
        align > 0,
        append_end(
            used as nat,
            if align > old_align {
                align as nat
            } else {
                old_align as nat
            },
            len as nat,
            align as nat,
        ) <= usize::MAX,
    ensures
        r == growth_of(used as nat, cap as nat, old_align as nat, len as nat, align as nat),
{
    let new_align = if align > old_align {
        align
    } else {
        old_align
    };
    let usize_len = if align > PREFIX_LEN {
        align
    } else {
        PREFIX_LEN
    };
    proof {
        lemma_align_up(used as int, new_align as int);
    }
    let aligned_len = round_up(used, new_align);
    let total_len = usize_len + len;
    if old_align != new_align || total_len + aligned_len > cap {
        if cap == 0 {
            Growth::Allocate
        } else if old_align == new_align {
            Growth::Extend
        } else {
            Growth::Realign
        }
    } else {
        Growth::Keep
    }
}

/// Whether `n` is a power of two.
fn is_power_of_two(n: usize) -> (r: bool)
    ensures
        r == is_pow2(n as int),
{
    if n == 0 {
        proof {
            reveal(is_pow2);
        }
        return false;
    }
    let mut m: usize = n;
    while m % 2 == 0
        invariant
            m > 0,
            is_pow2(m as int) == is_pow2(n as int),
        decreases m,
    {
        proof {
            reveal(is_pow2);
        }
        m = m / 2;
    }
    proof {
        reveal(is_pow2);
    }
    m == 1
}

/// A power of two is positive.
proof fn lemma_pow2_positive(n: int)
    requires
        is_pow2(n),
    ensures
        n > 0,
{
    reveal(is_pow2);
}

/// Eight is a power of two.
proof fn lemma_pow2_8()
    ensures
        is_pow2(8),
{
    reveal_with_fuel(is_pow2, 4);
}

/// Appends `n` zero bytes.
fn extend_zeros(v: &mut Vec<u8>, n: usize)
    ensures
        final(v)@ == old(v)@ + zeros(n as int),
{
    let mut i: usize = 0;
    while i < n
        invariant
            i <= n,
            v@ == old(v)@ + zeros(i as int),
        decreases n - i,
    {
        v.push(0u8);
        i = i + 1;
    }
}

/// Appends the bytes of `src`.
fn extend_bytes(v: &mut Vec<u8>, src: &[u8])
    ensures
        final(v)@ == old(v)@ + src@,
{
    let mut i: usize = 0;
    while i < src.len()
        invariant
            i <= src@.len(),
            v@ == old(v)@ + src@.subrange(0, i as int),
        decreases src@.len() - i,
    {
        v.push(src[i]);
        i = i + 1;
    }
    assert(src@.subrange(0, src@.len() as int) =~= src@);
}

} // verus!
