use packed_list::{List, ListSliceTailMut};
use std::marker::PhantomData;

fn record(payload: &[u8]) -> Vec<u8> {
    let mut v = (payload.len() as u64).to_ne_bytes().to_vec();
    v.extend_from_slice(payload);
    v
}

fn three_words() -> List<str> {
    let mut list = List::<str>::new();
    list.push("one");
    list.push("second");
    list.push("3");
    list
}

#[test]
fn head_mut_writes_into_the_list() {
    let mut list = three_words();
    let payload = list.as_mut_slice().head_mut().unwrap();
    assert_eq!(payload, b"one");
    payload.copy_from_slice(b"eno");
    assert_eq!(list.head(), Some(String::from("eno")));
    assert_eq!(list.tail().unwrap().head(), Some(String::from("second")));
}

#[test]
fn head_mut_of_an_empty_list_is_absent() {
    let mut list = List::<str>::new();
    assert!(list.as_mut_slice().head_mut().is_none());
    assert!(list.as_mut_slice().head_tail_mut().is_none());
    assert!(list.as_mut_slice().tail_mut().is_none());
    assert!(list.as_mut_slice().head_mut_unsafe(1).is_none());
    assert!(list.as_mut_slice().head_tail_mut_unsafe(1).is_none());
}

#[test]
fn head_mut_is_absent_where_the_payload_is_no_value() {
    let mut list = List::<str>::new();
    list.push("ab");
    list.as_mut_slice().head_mut().unwrap()[0] = 0xff;
    assert_eq!(list.head(), None);
    assert!(list.as_mut_slice().head_mut().is_none());
    assert!(list.as_mut_slice().head_tail_mut().is_none());
    let (raw, count) = list.as_mut_slice().head_mut_unsafe(1).unwrap();
    assert_eq!(count, 2);
    raw[0] = b'c';
    assert_eq!(list.head(), Some(String::from("cb")));
}

#[test]
fn tail_mut_writes_behind_the_first_record() {
    let mut list = three_words();
    {
        let region = list.as_mut_slice();
        let mut second = region.tail_mut().unwrap();
        assert_eq!(second.align, 8);
        assert_eq!(second.head(), Some(String::from("second")));
        second.head_mut().unwrap().copy_from_slice(b"SECOND");
        let mut third = second.tail_mut().unwrap();
        assert_eq!(third.head(), Some(String::from("3")));
        third.head_mut().unwrap()[0] = b'4';
        assert!(third.tail_mut().is_none());
        assert!(third.tail().is_none());
    }
    assert_eq!(list.head(), Some(String::from("one")));
    let second = list.tail().unwrap();
    assert_eq!(second.head(), Some(String::from("SECOND")));
    assert_eq!(second.tail().unwrap().head(), Some(String::from("4")));
}

#[test]
fn head_tail_mut_hands_out_both() {
    let mut list = three_words();
    {
        let (head, tail) = list.as_mut_slice().head_tail_mut().unwrap();
        let mut tail = tail.unwrap();
        head[0] = b'O';
        let (second, third) = tail.head_tail_mut().unwrap();
        second[0] = b'S';
        let mut third = third.unwrap();
        let (last, end) = third.head_tail_mut().unwrap();
        assert_eq!(last, b"3");
        assert!(end.is_none());
    }
    assert_eq!(list.head(), Some(String::from("One")));
    assert_eq!(list.tail().unwrap().head(), Some(String::from("Second")));
}

#[test]
fn the_unsafe_heads_divide_the_length() {
    let mut list = List::<[u16]>::new();
    list.push(&[1, 2, 3]);
    list.push(&[4]);
    let (raw, count) = list.head_unsafe(2).unwrap();
    assert_eq!(raw.len(), 6);
    assert_eq!(count, 3);
    assert_eq!(&raw[..2], &1u16.to_ne_bytes());
    assert_eq!(list.head_unsafe(4).unwrap().1, 1);
    assert_eq!(list.head_unsafe(7).unwrap().1, 0);
    let second = list.tail().unwrap();
    let (raw, count) = second.head_unsafe(2).unwrap();
    assert_eq!(raw, &4u16.to_ne_bytes());
    assert_eq!(count, 1);
    {
        let ((raw, count), tail) = list.as_mut_slice().head_tail_mut_unsafe(2).unwrap();
        assert_eq!(count, 3);
        raw[..2].copy_from_slice(&9u16.to_ne_bytes());
        let mut tail = tail.unwrap();
        let (raw, count) = tail.head_mut_unsafe(2).unwrap();
        assert_eq!(count, 1);
        raw.copy_from_slice(&8u16.to_ne_bytes());
        assert_eq!(tail.head_unsafe(1).unwrap().1, 2);
        let ((_, count), end) = tail.head_tail_mut_unsafe(2).unwrap();
        assert_eq!(count, 1);
        assert!(end.is_none());
    }
    assert_eq!(list.head(), Some(vec![9, 2, 3]));
    assert_eq!(list.tail().unwrap().head(), Some(vec![8]));
}

#[test]
fn a_view_may_lie_over_any_bytes() {
    let mut buf = record(b"abcd");
    buf.extend_from_slice(&[0; 4]);
    buf.extend_from_slice(&record(b"ef"));
    let mut view: ListSliceTailMut<'_, str> =
        ListSliceTailMut { align: 8, chunks: &mut buf[..], _ph: PhantomData };
    assert_eq!(view.head(), Some(String::from("abcd")));
    let second = view.tail().unwrap();
    assert_eq!(second.alignment(), 8);
    assert_eq!(second.head(), Some(String::from("ef")));
    assert!(second.tail().is_none());
    view.tail_mut().unwrap().head_mut().unwrap()[1] = b'g';
    assert_eq!(&buf[24..], b"eg");
}

#[test]
fn a_view_over_too_few_bytes_has_no_head() {
    let mut short = [1u8, 0, 0];
    let mut view: ListSliceTailMut<'_, [u8]> =
        ListSliceTailMut { align: 8, chunks: &mut short[..], _ph: PhantomData };
    assert_eq!(view.head(), None);
    assert!(view.head_unsafe(1).is_none());
    assert!(view.head_mut().is_none());
    assert!(view.tail().is_none());
    assert!(view.tail_mut().is_none());
    let mut cut = (5u64).to_ne_bytes().to_vec();
    cut.extend_from_slice(b"abcd");
    let mut view: ListSliceTailMut<'_, [u8]> =
        ListSliceTailMut { align: 1, chunks: &mut cut[..], _ph: PhantomData };
    assert_eq!(view.head(), None);
    assert!(view.head_mut_unsafe(1).is_none());
    assert!(view.tail().is_none());
    assert!(view.head_tail_mut().is_none());
}

#[test]
fn the_alignment_of_a_view_spaces_its_records() {
    let mut buf = record(b"a");
    buf.extend_from_slice(&[0; 23]);
    buf.extend_from_slice(&record(b"b"));
    {
        let view: ListSliceTailMut<'_, [u8]> =
            ListSliceTailMut { align: 32, chunks: &mut buf[..], _ph: PhantomData };
        assert_eq!(view.tail().unwrap().head(), Some(vec![b'b']));
    }
    {
        let view: ListSliceTailMut<'_, [u8]> =
            ListSliceTailMut { align: 8, chunks: &mut buf[..], _ph: PhantomData };
        assert_eq!(view.tail().unwrap().head(), Some(vec![]));
    }
    let view: ListSliceTailMut<'_, [u8]> =
        ListSliceTailMut { align: 64, chunks: &mut buf[..], _ph: PhantomData };
    assert!(view.tail().is_none());
}

#[test]
fn a_coarse_element_keeps_room_between_prefix_and_payload() {
    let mut list = List::<[u8]>::new_unsafe();
    list.push_bytes(&[1; 16], 16);
    let bytes = list.as_bytes();
    assert_eq!(bytes.len(), 32);
    assert_eq!(&bytes[..8], &16u64.to_ne_bytes());
    assert_eq!(&bytes[8..16], &[0; 8]);
    assert_eq!(&bytes[16..], &[1; 16]);
    let (raw, count) = list.head_unsafe(1).unwrap();
    assert_eq!(count, 16);
    assert_eq!(raw, &bytes[8..24]);
    assert_eq!(list.tail().unwrap().as_bytes().len(), 0);
}
