//! What holds of every region that appends have built.
//!
//! The statements are over the bytes alone: over [`appended`], which is what
//! an append leaves, and over [`head_of`], [`tail_of`] and [`records`],
//! which are what a reader finds.
use crate::copyable::{lemma_thin_raw_of, CopyableUnsized, ThinCopy};
use crate::list::typed_head;
use crate::native::lemma_u64_ne_round_trip;
use crate::record::{
    align_up, append_start, appended, declared_len, head_of, lemma_align_up, next_start, packed,
    prefix_room, readable, record_image, records, tail_of, with_head, with_head_tail, with_tail,
    zeros, PREFIX_LEN,
};
use vstd::arithmetic::div_mod::{
    lemma_fundamental_div_mod, lemma_mod_multiples_basic, lemma_mod_self_0, lemma_small_mod,
};
use vstd::layout::{align_of, size_of};
use vstd::prelude::*;

verus! {

/// Sums and differences of multiples of `align` are multiples of it.
proof fn lemma_multiples(u: int, s: int, align: int)
    requires
        align > 0,
        u % align == 0,
        s % align == 0,
    ensures
        (u + s) % align == 0,
        (u - s) % align == 0,
{
    lemma_fundamental_div_mod(u, align);
    lemma_fundamental_div_mod(s, align);
    let p = u / align;
    let q = s / align;
    assert(u + s == (p + q) * align && u - s == (p - q) * align) by (nonlinear_arith)
        requires
            u == align * p,
            s == align * q,
    ;
    lemma_mod_multiples_basic(p + q, align);
    lemma_mod_multiples_basic(p - q, align);
}

/// No multiple of `align` lies between `n` and `align_up(n, align)`.
pub proof fn lemma_align_up_least(n: int, align: int, m: int)
    requires
        n >= 0,
        align > 0,
        m >= n,
        m % align == 0,
    ensures
        align_up(n, align) <= m,
{
    lemma_align_up(n, align);
    let u = align_up(n, align);
    if u > m {
        lemma_multiples(u, m, align);
        lemma_small_mod((u - m) as nat, align as nat);
    }
}

/// Rounding up commutes with a shift by a multiple of `align`.
pub proof fn lemma_align_up_shift(n: int, align: int, s: int)
    requires
        0 <= s <= n,
        align > 0,
        s % align == 0,
    ensures
        align_up(n - s, align) == align_up(n, align) - s,
{
    lemma_align_up(n, align);
    lemma_align_up(n - s, align);
    let u = align_up(n, align);
    let v = align_up(n - s, align);
    lemma_multiples(u, s, align);
    lemma_multiples(v, s, align);
    lemma_align_up_least(n - s, align, u - s);
    lemma_align_up_least(n, align, v + s);
}

/// A tail is shorter than the region it is the tail of.
pub proof fn lemma_tail_shorter(bytes: Seq<u8>, align: nat)
    ensures
        tail_of(bytes, align) matches Some(t) ==> t.len() < bytes.len() && t.len() + PREFIX_LEN
            <= bytes.len(),
{
    if let Some(n) = declared_len(bytes) {
        if align > 0 {
            lemma_align_up(PREFIX_LEN + n, align as int);
        }
    }
}

/// What a region holds at its head, it holds however it is continued.
pub proof fn lemma_head_of_extended(bytes: Seq<u8>, more: Seq<u8>)
    requires
        head_of(bytes) is Some,
    ensures
        head_of(bytes + more) == head_of(bytes),
        declared_len(bytes + more) == declared_len(bytes),
{
    let n = declared_len(bytes)->0;
    assert((bytes + more).subrange(0, PREFIX_LEN as int) =~= bytes.subrange(0, PREFIX_LEN as int));
    assert((bytes + more).subrange(PREFIX_LEN as int, PREFIX_LEN + n) =~= bytes.subrange(
        PREFIX_LEN as int,
        PREFIX_LEN + n,
    ));
}

/// A region of one readable record holds that record's payload, and
/// nothing behind it.
pub proof fn lemma_single_record(align: nat, payload: Seq<u8>, elem_align: nat)
    requires
        align >= PREFIX_LEN,
        elem_align <= align,
        readable(payload, elem_align),
    ensures
        appended(Seq::empty(), align, payload, elem_align) == record_image(payload, elem_align),
        head_of(record_image(payload, elem_align)) == Some(payload),
        tail_of(record_image(payload, elem_align), align) == if align_up(
            PREFIX_LEN + payload.len(),
            align as int,
        ) == prefix_room(elem_align) + payload.len() {
            Some(Seq::<u8>::empty())
        } else {
            None
        },
        records(record_image(payload, elem_align), align) == seq![payload],
        packed(record_image(payload, elem_align), align),
{
    let image = record_image(payload, elem_align);
    let n = payload.len();
    lemma_u64_ne_round_trip(n as u64);
    assert(appended(Seq::empty(), align, payload, elem_align) =~= image);
    assert(image.subrange(0, PREFIX_LEN as int) =~= crate::native::spec_u64_ne_bytes(n as u64));
    assert(declared_len(image) == Some(n));
    assert(image.subrange(PREFIX_LEN as int, PREFIX_LEN + n) =~= payload);
    lemma_align_up(PREFIX_LEN + n, align as int);
    if elem_align > PREFIX_LEN {
        lemma_small_mod(PREFIX_LEN as nat, align);
        assert(align_up(PREFIX_LEN as int, align as int) == align);
    }
    match tail_of(image, align) {
        Some(t) => {
            assert(next_start(image, align) == Some(image.len()));
            assert(t =~= Seq::<u8>::empty());
            assert(packed(t, align));
            assert(head_of(t) is None);
            assert(records(t, align) =~= Seq::<Seq<u8>>::empty());
            assert(records(image, align) =~= seq![payload]);
        },
        None => {},
    }
}

/// A reader of a region of records finds one more payload, the last, after
/// a readable record was appended; the payloads before it are those that
/// were there.
pub proof fn lemma_push_extends(bytes: Seq<u8>, align: nat, payload: Seq<u8>, elem_align: nat)
    requires
        align >= PREFIX_LEN,
        elem_align <= align,
        packed(bytes, align),
        readable(payload, elem_align),
    ensures
        packed(appended(bytes, align, payload, elem_align), align),
        records(appended(bytes, align, payload, elem_align), align) == records(
            bytes,
            align,
        ).push(payload),
    decreases bytes.len(),
{
    let image = record_image(payload, elem_align);
    let pad = zeros(append_start(bytes.len(), align) - bytes.len());
    let after = appended(bytes, align, payload, elem_align);
    lemma_single_record(align, payload, elem_align);
    lemma_align_up(bytes.len() as int, align as int);
    if bytes.len() == 0 {
        assert(records(bytes, align) =~= Seq::<Seq<u8>>::empty());
        assert(records(bytes, align).push(payload) =~= seq![payload]);
    } else {
        let n = declared_len(bytes)->0;
        let h = head_of(bytes)->0;
        let end = PREFIX_LEN + n;
        let next = align_up(end, align as int);
        lemma_align_up(end, align as int);
        assert(after =~= bytes + (pad + image));
        lemma_head_of_extended(bytes, pad + image);
        match tail_of(bytes, align) {
            Some(t) => {
                lemma_align_up_shift(bytes.len() as int, align as int, next);
                assert(tail_of(after, align)->0 =~= appended(t, align, payload, elem_align));
                lemma_push_extends(t, align, payload, elem_align);
                assert(records(after, align) =~= records(bytes, align).push(payload));
            },
            None => {
                lemma_align_up_least(end, align as int, append_start(bytes.len(), align) as int);
                lemma_align_up_least(bytes.len() as int, align as int, next);
                assert(tail_of(after, align)->0 =~= image);
                assert(records(bytes, align) =~= seq![h]);
                assert(records(after, align) =~= seq![h] + seq![payload]);
                assert(records(after, align) =~= records(bytes, align).push(payload));
            },
        }
    }
}

/// Writing into the first payload changes that payload and nothing else: the
/// region keeps its length, its first record keeps its place, and what lies
/// behind it is what it was.
pub proof fn lemma_with_head(bytes: Seq<u8>, align: nat, payload: Seq<u8>)
    requires
        head_of(bytes) matches Some(p) && p.len() == payload.len(),
    ensures
        with_head(bytes, payload.len(), payload).len() == bytes.len(),
        head_of(with_head(bytes, payload.len(), payload)) == Some(payload),
        tail_of(with_head(bytes, payload.len(), payload), align) == tail_of(bytes, align),
        records(with_head(bytes, payload.len(), payload), align) == records(bytes, align).update(
            0,
            payload,
        ),
        packed(bytes, align) ==> packed(with_head(bytes, payload.len(), payload), align),
{
    let n = payload.len();
    let after = with_head(bytes, n, payload);
    assert(after.subrange(0, PREFIX_LEN as int) =~= bytes.subrange(0, PREFIX_LEN as int));
    assert(after.subrange(PREFIX_LEN as int, PREFIX_LEN + n) =~= payload);
    if align > 0 {
        lemma_align_up(PREFIX_LEN + n, align as int);
    }
    match next_start(bytes, align) {
        Some(s) => {
            assert(after.subrange(s as int, after.len() as int) =~= bytes.subrange(
                s as int,
                bytes.len() as int,
            ));
        },
        None => {},
    }
    assert(records(after, align) =~= records(bytes, align).update(0, payload));
}

/// Writing behind the first record leaves that record as it was: the head
/// is what it was, and the tail is what was written.
pub proof fn lemma_with_tail(bytes: Seq<u8>, align: nat, tail: Seq<u8>)
    requires
        tail_of(bytes, align) matches Some(t) && t.len() == tail.len(),
    ensures
        with_tail(bytes, tail.len(), tail).len() == bytes.len(),
        head_of(bytes) is Some,
        head_of(with_tail(bytes, tail.len(), tail)) == head_of(bytes),
        tail_of(with_tail(bytes, tail.len(), tail), align) == Some(tail),
        records(with_tail(bytes, tail.len(), tail), align) == seq![head_of(bytes)->0] + records(
            tail,
            align,
        ),
        packed(bytes, align) && packed(tail, align) ==> packed(
            with_tail(bytes, tail.len(), tail),
            align,
        ),
{
    let after = with_tail(bytes, tail.len(), tail);
    let n = declared_len(bytes)->0;
    let s = next_start(bytes, align)->0;
    lemma_align_up(PREFIX_LEN + n, align as int);
    lemma_tail_shorter(bytes, align);
    assert(after.subrange(0, PREFIX_LEN as int) =~= bytes.subrange(0, PREFIX_LEN as int));
    assert(after.subrange(PREFIX_LEN as int, PREFIX_LEN + n) =~= bytes.subrange(
        PREFIX_LEN as int,
        PREFIX_LEN + n,
    ));
    assert(after.subrange(s as int, after.len() as int) =~= tail);
}

/// Writing into the first payload and behind the first record is the one
/// after the other.
pub proof fn lemma_with_head_tail(
    bytes: Seq<u8>,
    align: nat,
    payload: Seq<u8>,
    tail: Seq<u8>,
)
    requires
        head_of(bytes) matches Some(p) && p.len() == payload.len(),
        tail_of(bytes, align) matches Some(t) && t.len() == tail.len(),
    ensures
        with_head_tail(bytes, payload.len(), payload, tail.len(), tail) == with_tail(
            with_head(bytes, payload.len(), payload),
            tail.len(),
            tail,
        ),
        records(with_head_tail(bytes, payload.len(), payload, tail.len(), tail), align)
            == seq![payload] + records(tail, align),
{
    let n = payload.len();
    let first = with_head(bytes, n, payload);
    lemma_align_up(PREFIX_LEN + n, align as int);
    lemma_with_head(bytes, align, payload);
    lemma_with_tail(first, align, tail);
    assert(with_head_tail(bytes, n, payload, tail.len(), tail) =~= with_tail(
        first,
        tail.len(),
        tail,
    ));
}

/// One append, as a specification speaks of it: the payload and the
/// alignment that its element asks for.
pub struct Pushed {
    pub payload: Seq<u8>,
    pub align: nat,
}

/// The alignment of a list after the appends `pushes` to an empty list: the
/// greatest that was asked for, and no less than that of the prefix.
pub open spec fn pushed_align(pushes: Seq<Pushed>) -> nat
    decreases pushes.len(),
{
    if pushes.len() == 0 {
        PREFIX_LEN as nat
    } else if pushes.last().align > pushed_align(pushes.drop_last()) {
        pushes.last().align
    } else {
        pushed_align(pushes.drop_last())
    }
}

/// The bytes of a list after the appends `pushes` to an empty list.
pub open spec fn pushed_bytes(pushes: Seq<Pushed>) -> Seq<u8>
    decreases pushes.len(),
{
    if pushes.len() == 0 {
        Seq::empty()
    } else {
        appended(
            pushed_bytes(pushes.drop_last()),
            pushed_align(pushes),
            pushes.last().payload,
            pushes.last().align,
        )
    }
}

/// One more append goes on from what the appends before it left.
pub proof fn lemma_pushed_step(pushes: Seq<Pushed>, payload: Seq<u8>, elem_align: nat)
    ensures
        pushed_align(pushes.push(Pushed { payload, align: elem_align })) == if elem_align
            > pushed_align(pushes) {
            elem_align
        } else {
            pushed_align(pushes)
        },
        pushed_bytes(pushes.push(Pushed { payload, align: elem_align })) == appended(
            pushed_bytes(pushes),
            pushed_align(pushes.push(Pushed { payload, align: elem_align })),
            payload,
            elem_align,
        ),
{
    let more = pushes.push(Pushed { payload, align: elem_align });
    assert(more.drop_last() =~= pushes);
}

/// The payloads of `pushes`, in their order.
pub open spec fn payloads_of(pushes: Seq<Pushed>) -> Seq<Seq<u8>> {
    Seq::new(pushes.len(), |i: int| pushes[i].payload)
}

/// Whatever was appended to an empty list, in whatever number: where no
/// element asked for more than the alignment of the prefix, a reader finds
/// the payloads that were appended, all of them, in the order of the
/// appends, and the alignment is still that of the prefix.
pub proof fn lemma_pushes_read_back(pushes: Seq<Pushed>)
    requires
        forall|i: int|
            0 <= i < pushes.len() ==> (#[trigger] pushes[i]).align <= PREFIX_LEN
                && pushes[i].payload.len() <= u64::MAX,
    ensures
        pushed_align(pushes) == PREFIX_LEN,
        packed(pushed_bytes(pushes), pushed_align(pushes)),
        records(pushed_bytes(pushes), pushed_align(pushes)) == payloads_of(pushes),
        records(pushed_bytes(pushes), pushed_align(pushes)).len() == pushes.len(),
    decreases pushes.len(),
{
    if pushes.len() == 0 {
        assert(records(pushed_bytes(pushes), pushed_align(pushes)) =~= payloads_of(pushes));
    } else {
        let front = pushes.drop_last();
        let last = pushes.last();
        assert forall|i: int| 0 <= i < front.len() implies (#[trigger] front[i]).align
            <= PREFIX_LEN && front[i].payload.len() <= u64::MAX by {
            assert(front[i] == pushes[i]);
        }
        lemma_pushes_read_back(front);
        lemma_push_extends(pushed_bytes(front), PREFIX_LEN as nat, last.payload, last.align);
        assert(payloads_of(front).push(last.payload) =~= payloads_of(pushes));
    }
}

/// The view that `k` steps from a view to its tail lead to.
pub open spec fn nth_tail(bytes: Seq<u8>, align: nat, k: nat) -> Option<Seq<u8>>
    decreases k,
{
    if k == 0 {
        Some(bytes)
    } else {
        match tail_of(bytes, align) {
            Some(t) => nth_tail(t, align, (k - 1) as nat),
            None => None,
        }
    }
}

/// The payloads of a region are the heads of its successive tails: the
/// `k`-th is the head of the view that `k` steps lead to.
pub proof fn lemma_walk_finds(bytes: Seq<u8>, align: nat, k: nat)
    requires
        k < records(bytes, align).len(),
    ensures
        nth_tail(bytes, align, k) is Some,
        head_of(nth_tail(bytes, align, k)->0) == Some(records(bytes, align)[k as int]),
    decreases k,
{
    lemma_tail_shorter(bytes, align);
    if k > 0 {
        let t = tail_of(bytes, align)->0;
        assert(records(bytes, align) =~= seq![head_of(bytes)->0] + records(t, align));
        lemma_walk_finds(t, align, (k - 1) as nat);
    }
}

/// Behind the last payload the walk ends: as many steps as there are
/// payloads lead to no view, or to one without a head.
pub proof fn lemma_walk_ends(bytes: Seq<u8>, align: nat)
    ensures
        nth_tail(bytes, align, records(bytes, align).len()) matches Some(v) ==> head_of(v)
            is None,
    decreases records(bytes, align).len(),
{
    lemma_tail_shorter(bytes, align);
    if records(bytes, align).len() > 0 {
        match tail_of(bytes, align) {
            Some(t) => {
                assert(records(bytes, align) =~= seq![head_of(bytes)->0] + records(t, align));
                lemma_walk_ends(t, align);
            },
            None => {},
        }
    }
}

/// After `n` appends, none for more than the alignment of the prefix, a
/// walk from the head finds `n` values, those that were appended, and then
/// ends.
pub proof fn lemma_pushes_walk(pushes: Seq<Pushed>)
    requires
        forall|i: int|
            0 <= i < pushes.len() ==> (#[trigger] pushes[i]).align <= PREFIX_LEN
                && pushes[i].payload.len() <= u64::MAX,
    ensures
        forall|k: nat|
            k < pushes.len() ==> {
                &&& (#[trigger] nth_tail(pushed_bytes(pushes), pushed_align(pushes), k)) is Some
                &&& head_of(nth_tail(pushed_bytes(pushes), pushed_align(pushes), k)->0) == Some(
                    pushes[k as int].payload,
                )
            },
        nth_tail(pushed_bytes(pushes), pushed_align(pushes), pushes.len()) matches Some(v)
            ==> head_of(v) is None,
{
    lemma_pushes_read_back(pushes);
    let bytes = pushed_bytes(pushes);
    let align = pushed_align(pushes);
    assert forall|k: nat| k < pushes.len() implies {
        &&& (#[trigger] nth_tail(bytes, align, k)) is Some
        &&& head_of(nth_tail(bytes, align, k)->0) == Some(pushes[k as int].payload)
    } by {
        lemma_walk_finds(bytes, align, k);
    }
    lemma_walk_ends(bytes, align);
}

/// An empty region has neither head nor tail.
pub proof fn lemma_empty_region(align: nat)
    ensures
        head_of(Seq::<u8>::empty()) is None,
        tail_of(Seq::<u8>::empty(), align) is None,
        records(Seq::<u8>::empty(), align) == Seq::<Seq<u8>>::empty(),
        packed(Seq::<u8>::empty(), align),
{
}

/// After one append to an empty list, for no more than the alignment of
/// the prefix, the tail is an empty view where the record ends on a
/// multiple of the alignment, and there is no tail where it does not. No
/// head lies behind the one record.
pub proof fn lemma_single_push_tail(payload: Seq<u8>, elem_align: nat)
    requires
        elem_align <= PREFIX_LEN,
        payload.len() <= u64::MAX,
    ensures
        pushed_bytes(seq![Pushed { payload, align: elem_align }]) == record_image(
            payload,
            elem_align,
        ),
        pushed_align(seq![Pushed { payload, align: elem_align }]) == PREFIX_LEN,
        head_of(record_image(payload, elem_align)) == Some(payload),
        tail_of(record_image(payload, elem_align), PREFIX_LEN as nat) == if (PREFIX_LEN
            + payload.len()) % (PREFIX_LEN as int) == 0 {
            Some(Seq::<u8>::empty())
        } else {
            None
        },
        tail_of(record_image(payload, elem_align), PREFIX_LEN as nat) matches Some(t)
            ==> head_of(t) is None,
{
    let one = seq![Pushed { payload, align: elem_align }];
    assert(one.drop_last() =~= Seq::<Pushed>::empty());
    assert(pushed_align(one.drop_last()) == PREFIX_LEN);
    assert(pushed_bytes(one.drop_last()) =~= Seq::<u8>::empty());
    lemma_single_record(PREFIX_LEN as nat, payload, elem_align);
    lemma_align_up(PREFIX_LEN + payload.len(), PREFIX_LEN as int);
}

/// An append changes no byte that was in the region.
pub proof fn lemma_append_keeps(bytes: Seq<u8>, align: nat, payload: Seq<u8>, elem_align: nat)
    requires
        align > 0,
    ensures
        appended(bytes, align, payload, elem_align).len() == append_start(bytes.len(), align)
            + prefix_room(elem_align) + payload.len(),
        appended(bytes, align, payload, elem_align).subrange(0, bytes.len() as int) == bytes,
        head_of(bytes) is Some ==> head_of(appended(bytes, align, payload, elem_align))
            == head_of(bytes),
{
    let after = appended(bytes, align, payload, elem_align);
    let more = zeros(append_start(bytes.len(), align) - bytes.len()) + record_image(
        payload,
        elem_align,
    );
    lemma_align_up(bytes.len() as int, align as int);
    lemma_u64_ne_round_trip(payload.len() as u64);
    assert(after =~= bytes + more);
    assert(after.subrange(0, bytes.len() as int) =~= bytes);
    if head_of(bytes) is Some {
        lemma_head_of_extended(bytes, more);
    }
}

/// The alignment after appends is that of the prefix or one that an
/// element asked for, and no element asked for more.
pub proof fn lemma_pushed_align_is_max(pushes: Seq<Pushed>)
    ensures
        pushed_align(pushes) >= PREFIX_LEN,
        forall|i: int|
            0 <= i < pushes.len() ==> (#[trigger] pushes[i]).align <= pushed_align(pushes),
        pushed_align(pushes) == PREFIX_LEN || exists|i: int|
            0 <= i < pushes.len() && (#[trigger] pushes[i]).align == pushed_align(pushes),
    decreases pushes.len(),
{
    if pushes.len() > 0 {
        let front = pushes.drop_last();
        lemma_pushed_align_is_max(front);
        assert forall|i: int| 0 <= i < pushes.len() implies (#[trigger] pushes[i]).align
            <= pushed_align(pushes) by {
            if i < front.len() {
                assert(front[i] == pushes[i]);
            }
        }
        if pushed_align(pushes) != PREFIX_LEN {
            if pushes.last().align > pushed_align(front) {
                assert(pushes[pushes.len() - 1].align == pushed_align(pushes));
            } else {
                let i = choose|i: int|
                    0 <= i < front.len() && (#[trigger] front[i]).align == pushed_align(front);
                assert(pushes[i] == front[i]);
            }
        }
    }
}

/// Appends go on from what earlier appends left: the alignment never
/// falls, and the bytes after the first `k` appends stay, where they are,
/// through all that follow.
pub proof fn lemma_pushed_grows(pushes: Seq<Pushed>, k: int)
    requires
        0 <= k <= pushes.len(),
    ensures
        pushed_align(pushes.subrange(0, k)) <= pushed_align(pushes),
        pushed_bytes(pushes.subrange(0, k)).len() <= pushed_bytes(pushes).len(),
        pushed_bytes(pushes).subrange(0, pushed_bytes(pushes.subrange(0, k)).len() as int)
            == pushed_bytes(pushes.subrange(0, k)),
    decreases pushes.len(),
{
    if k == pushes.len() {
        assert(pushes.subrange(0, k) =~= pushes);
        assert(pushed_bytes(pushes).subrange(0, pushed_bytes(pushes).len() as int)
            =~= pushed_bytes(pushes));
    } else {
        let front = pushes.drop_last();
        assert(front.subrange(0, k) =~= pushes.subrange(0, k));
        lemma_pushed_grows(front, k);
        lemma_pushed_align_is_max(pushes);
        lemma_append_keeps(
            pushed_bytes(front),
            pushed_align(pushes),
            pushes.last().payload,
            pushes.last().align,
        );
        let early = pushed_bytes(pushes.subrange(0, k));
        assert(pushed_bytes(pushes).subrange(0, early.len() as int) =~= pushed_bytes(
            front,
        ).subrange(0, early.len() as int));
    }
}

/// Where the record of the `k`-th append starts.
pub open spec fn record_offset(pushes: Seq<Pushed>, k: int) -> nat {
    append_start(
        pushed_bytes(pushes.subrange(0, k)).len(),
        pushed_align(pushes.subrange(0, k + 1)),
    )
}

/// Where the payload of the `k`-th append starts.
pub open spec fn payload_offset(pushes: Seq<Pushed>, k: int) -> nat {
    record_offset(pushes, k) + prefix_room(pushes[k].align)
}

/// Whatever is appended later, and however the list grows for it, the
/// record of the `k`-th append stays where it was laid down: it starts on a
/// multiple of the alignment that the list had then, and its length and
/// its payload lie there unchanged.
pub proof fn lemma_record_in_place(pushes: Seq<Pushed>, k: int)
    requires
        0 <= k < pushes.len(),
    ensures
        record_offset(pushes, k) % pushed_align(pushes.subrange(0, k + 1)) == 0,
        payload_offset(pushes, k) + pushes[k].payload.len() <= pushed_bytes(pushes).len(),
        pushed_bytes(pushes).subrange(
            record_offset(pushes, k) as int,
            record_offset(pushes, k) + PREFIX_LEN,
        ) == crate::native::spec_u64_ne_bytes(pushes[k].payload.len() as u64),
        pushed_bytes(pushes).subrange(
            payload_offset(pushes, k) as int,
            (payload_offset(pushes, k) + pushes[k].payload.len()) as int,
        ) == pushes[k].payload,
{
    let upto = pushes.subrange(0, k + 1);
    let before = pushes.subrange(0, k);
    let now = pushed_bytes(upto);
    let align = pushed_align(upto);
    let payload = pushes[k].payload;
    let start = record_offset(pushes, k) as int;
    let from = payload_offset(pushes, k) as int;
    assert(upto.drop_last() =~= before);
    assert(upto.last() == pushes[k]);
    lemma_pushed_grows(pushes, k + 1);
    lemma_pushed_align_is_max(upto);
    lemma_align_up(pushed_bytes(before).len() as int, align as int);
    lemma_u64_ne_round_trip(payload.len() as u64);
    lemma_append_keeps(pushed_bytes(before), align, payload, pushes[k].align);
    assert(now.subrange(start, start + PREFIX_LEN) =~= crate::native::spec_u64_ne_bytes(
        payload.len() as u64,
    ));
    assert(now.subrange(from, from + payload.len()) =~= payload);
    assert(pushed_bytes(pushes).subrange(start, start + PREFIX_LEN) =~= now.subrange(
        start,
        start + PREFIX_LEN,
    ));
    assert(pushed_bytes(pushes).subrange(from, from + payload.len()) =~= now.subrange(
        from,
        from + payload.len(),
    ));
}

/// Every payload starts on a multiple of the alignment that the list has
/// in the end, where the list kept the alignment of the prefix or the
/// payload's element asked for the alignment that the list has.
pub proof fn lemma_payload_aligned(pushes: Seq<Pushed>, k: int)
    requires
        0 <= k < pushes.len(),
        pushed_align(pushes) == PREFIX_LEN || pushes[k].align == pushed_align(pushes),
    ensures
        record_offset(pushes, k) % pushed_align(pushes) == 0,
        payload_offset(pushes, k) % pushed_align(pushes) == 0,
{
    let upto = pushes.subrange(0, k + 1);
    let align = pushed_align(pushes);
    lemma_record_in_place(pushes, k);
    lemma_pushed_grows(pushes, k + 1);
    lemma_pushed_align_is_max(upto);
    lemma_pushed_align_is_max(pushes);
    assert(upto[k] == pushes[k]);
    assert(pushed_align(upto) == align);
    assert(prefix_room(pushes[k].align) == align);
    lemma_mod_self_0(align as int);
    lemma_multiples(record_offset(pushes, k) as int, align as int, align as int);
}

/// What was appended is what is read: after the append of a value whose
/// payload a reader finds, the last payload of the region is the bytes of
/// the value, and reading them by the value's type gives the value. Where
/// the region was empty, the value is at its head.
pub proof fn lemma_push_reads_back<T: ?Sized + CopyableUnsized>(
    bytes: Seq<u8>,
    align: nat,
    data: &T,
)
    requires
        align >= PREFIX_LEN,
        data.spec_align() <= align,
        packed(bytes, align),
        readable(data.spec_raw(), data.spec_align()),
    ensures
        records(appended(bytes, align, data.spec_raw(), data.spec_align()), align).last()
            == data.spec_raw(),
        T::spec_construct(data.spec_raw()) == Some(data.spec_value()),
        bytes.len() == 0 ==> typed_head::<T>(
            appended(bytes, align, data.spec_raw(), data.spec_align()),
        ) == Some(data.spec_value()),
{
    data.lemma_copyable();
    lemma_push_extends(bytes, align, data.spec_raw(), data.spec_align());
    if bytes.len() == 0 {
        assert(bytes =~= Seq::<u8>::empty());
        lemma_single_record(align, data.spec_raw(), data.spec_align());
    }
}

/// A thin value of no more than eight bytes asks for no more than the
/// alignment of the prefix: a reader finds its payload.
pub proof fn lemma_thin_readable<T: ThinCopy>(value: T)
    requires
        size_of::<T>() <= PREFIX_LEN,
    ensures
        value.spec_align() <= PREFIX_LEN,
        readable(value.spec_raw(), value.spec_align()),
{
    broadcast use vstd::layout::align_properties, vstd::layout::align_nonzero;

    T::lemma_thin_size();
    value.lemma_thin();
    if align_of::<T>() > size_of::<T>() {
        lemma_small_mod(size_of::<T>(), align_of::<T>());
    }
}

/// A run of thin values of no more than eight bytes each asks for no more
/// than the alignment of the prefix.
pub proof fn lemma_thin_run_readable<T: ThinCopy>(run: &[T])
    requires
        size_of::<T>() <= PREFIX_LEN,
        run@.len() * size_of::<T>() <= u64::MAX,
    ensures
        run.spec_align() <= PREFIX_LEN,
        readable(run.spec_raw(), run.spec_align()),
{
    broadcast use vstd::layout::align_properties, vstd::layout::align_nonzero;

    T::lemma_thin_size();
    lemma_thin_raw_of(run@);
    if align_of::<T>() > size_of::<T>() {
        lemma_small_mod(size_of::<T>(), align_of::<T>());
    }
}

/// The appends that pushing `values`, one after another, makes.
pub open spec fn pushes_of<T: ?Sized + CopyableUnsized>(values: Seq<&T>) -> Seq<Pushed> {
    Seq::new(
        values.len(),
        |i: int| Pushed { payload: values[i].spec_raw(), align: values[i].spec_align() },
    )
}

/// Values of one type, pushed to an empty list, are what a walk reads: the
/// head of the `k`-th tail is the `k`-th value, for as many values as were
/// pushed, and behind the last the walk finds none. This holds where no
/// value asks for more than the alignment of the prefix.
pub proof fn lemma_values_read_back<T: ?Sized + CopyableUnsized>(values: Seq<&T>)
    requires
        forall|i: int|
            0 <= i < values.len() ==> (#[trigger] values[i]).spec_align() <= PREFIX_LEN
                && values[i].spec_raw().len() <= u64::MAX,
    ensures
        pushed_align(pushes_of(values)) == PREFIX_LEN,
        forall|k: nat|
            k < values.len() ==> {
                &&& (#[trigger] nth_tail(
                    pushed_bytes(pushes_of(values)),
                    PREFIX_LEN as nat,
                    k,
                )) is Some
                &&& typed_head::<T>(
                    nth_tail(pushed_bytes(pushes_of(values)), PREFIX_LEN as nat, k)->0,
                ) == Some(values[k as int].spec_value())
            },
        nth_tail(pushed_bytes(pushes_of(values)), PREFIX_LEN as nat, values.len()) matches Some(
            v,
        ) ==> typed_head::<T>(v) is None,
{
    let pushes = pushes_of(values);
    assert forall|i: int| 0 <= i < pushes.len() implies (#[trigger] pushes[i]).align
        <= PREFIX_LEN && pushes[i].payload.len() <= u64::MAX by {
        assert(values[i].spec_align() <= PREFIX_LEN);
    }
    lemma_pushes_walk(pushes);
    lemma_pushes_read_back(pushes);
    assert forall|k: nat| k < values.len() implies {
        &&& (#[trigger] nth_tail(pushed_bytes(pushes), PREFIX_LEN as nat, k)) is Some
        &&& typed_head::<T>(nth_tail(pushed_bytes(pushes), PREFIX_LEN as nat, k)->0) == Some(
            values[k as int].spec_value(),
        )
    } by {
        values[k as int].lemma_copyable();
        assert(pushes[k as int].payload == values[k as int].spec_raw());
    }
}

} // verus!
