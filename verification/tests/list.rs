use packed_list::{List, ListSlice};

fn prefix(len: usize) -> Vec<u8> {
    (len as u64).to_ne_bytes().to_vec()
}

#[test]
fn it_works() {
    let mut list = List::<[u16]>::new();
    list.push(&[0, 1]);
    list.push(&[2, 3]);
    assert_eq!(list.head().unwrap(), &[0, 1]);
    assert_eq!(list.tail().unwrap().head().unwrap(), &[2, 3]);
    let mut list = List::<str>::new();
    list.push("testing");
    list.push("testing 2");
    assert_eq!(list.head().unwrap(), "testing");
    assert_eq!(list.tail().unwrap().head().unwrap(), "testing 2");
}

#[test]
fn runs_of_numbers_end_after_the_second() {
    let mut list = List::<[u16]>::new();
    list.push(&[0, 1]);
    list.push(&[2, 3]);
    assert_eq!(list.head(), Some(vec![0, 1]));
    let second = list.tail().unwrap();
    assert_eq!(second.head(), Some(vec![2, 3]));
    assert!(second.tail().is_none());
}

#[test]
fn texts_come_back_in_order() {
    let mut list = List::<str>::new();
    list.push("testing");
    list.push("testing 2");
    assert_eq!(list.head(), Some(String::from("testing")));
    assert_eq!(list.tail().unwrap().head(), Some(String::from("testing 2")));
}

#[test]
fn new_list_is_empty() {
    let list = List::<str>::new();
    assert_eq!(list.head(), None);
    assert!(list.tail().is_none());
    assert_eq!(list.as_bytes(), &[] as &[u8]);
    assert_eq!(list.alignment(), 8);
    assert_eq!(list.allocated(), 0);
    let list = List::<u64>::default();
    assert_eq!(list.head(), None);
    assert_eq!(list.allocated(), 0);
    let list = List::<[u32]>::new_unsafe();
    assert_eq!(list.head(), None);
    assert_eq!(list.alignment(), 8);
}

#[test]
fn one_element_that_ends_on_the_alignment_has_an_empty_tail() {
    let mut list = List::<u64>::new();
    list.push(&7);
    assert_eq!(list.head(), Some(7));
    let tail = list.tail().unwrap();
    assert_eq!(tail.as_bytes().len(), 0);
    assert_eq!(tail.head(), None);
    assert!(tail.tail().is_none());
}

#[test]
fn one_element_that_ends_off_the_alignment_has_no_tail() {
    let mut list = List::<[u16]>::new();
    list.push(&[0, 1]);
    assert_eq!(list.as_bytes().len(), 12);
    assert!(list.tail().is_none());
}

#[test]
fn a_walk_finds_as_many_values_as_were_pushed() {
    let words = ["a", "bc", "", "defghijk", "lmnopqrstu", "v"];
    let mut list = List::<str>::new();
    for w in words {
        list.push(w);
    }
    let mut found = Vec::new();
    found.push(list.head().unwrap());
    let mut view = list.tail();
    while let Some(v) = view {
        match v.head() {
            Some(text) => found.push(text),
            None => break,
        }
        view = v.tail();
    }
    assert_eq!(found, words);
}

#[test]
fn every_pushed_number_is_read_back() {
    let values: Vec<u32> = (0..100).map(|i| i * 40_000_003).collect();
    let mut list = List::<u32>::new();
    for v in &values {
        list.push(v);
    }
    let mut found = vec![list.head().unwrap()];
    let mut view = list.tail().unwrap();
    for _ in 2..values.len() {
        found.push(view.head().unwrap());
        view = view.tail().unwrap();
    }
    found.push(view.head().unwrap());
    assert_eq!(found, values);
    assert!(view.tail().is_none());
}

#[test]
fn fixed_size_values_keep_their_bytes() {
    let mut bytes = List::<u8>::new();
    bytes.push(&0);
    assert_eq!(bytes.head(), Some(0));
    let mut bytes = List::<u8>::new();
    bytes.push(&u8::MAX);
    assert_eq!(bytes.head(), Some(u8::MAX));
    let mut shorts = List::<u16>::new();
    shorts.push(&0x1234);
    assert_eq!(shorts.head(), Some(0x1234));
    assert_eq!(&shorts.as_bytes()[8..], &0x1234u16.to_ne_bytes());
    let mut words = List::<u32>::new();
    words.push(&0x1234_5678);
    assert_eq!(words.head(), Some(0x1234_5678));
    assert_eq!(&words.as_bytes()[8..], &0x1234_5678u32.to_ne_bytes());
    let mut longs = List::<u64>::new();
    longs.push(&0x0123_4567_89ab_cdef);
    assert_eq!(longs.head(), Some(0x0123_4567_89ab_cdef));
    assert_eq!(&longs.as_bytes()[8..], &0x0123_4567_89ab_cdefu64.to_ne_bytes());
    let mut longs = List::<u64>::new();
    longs.push(&u64::MAX);
    assert_eq!(longs.head(), Some(u64::MAX));
}

#[test]
fn a_record_is_its_length_then_its_payload() {
    let mut list = List::<str>::new();
    list.push("abc");
    let mut expected = prefix(3);
    expected.extend_from_slice(b"abc");
    assert_eq!(list.as_bytes(), &expected[..]);
    list.push("de");
    expected.extend_from_slice(&[0; 5]);
    expected.extend_from_slice(&prefix(2));
    expected.extend_from_slice(b"de");
    assert_eq!(list.as_bytes(), &expected[..]);
}

#[test]
fn the_first_push_allocates_twice_the_record() {
    let mut list = List::<[u16]>::new();
    assert!(list.fits(4, 2));
    list.push(&[0, 1]);
    assert_eq!(list.as_bytes().len(), 12);
    assert_eq!(list.allocated(), 24);
    assert_eq!(list.alignment(), 8);
}

#[test]
fn a_push_that_fits_keeps_the_allocation() {
    let mut list = List::<u8>::new();
    list.push(&1);
    assert_eq!(list.as_bytes().len(), 9);
    assert_eq!(list.allocated(), 18);
    let mut list = List::<[u8]>::new();
    list.push(&[0; 16]);
    assert_eq!(list.as_bytes().len(), 24);
    assert_eq!(list.allocated(), 48);
    list.push(&[1; 8]);
    assert_eq!(list.as_bytes().len(), 40);
    assert_eq!(list.allocated(), 48);
}

#[test]
fn a_push_that_does_not_fit_doubles_the_new_end() {
    let mut list = List::<u8>::new();
    list.push(&1);
    assert_eq!(list.allocated(), 18);
    list.push(&2);
    assert_eq!(list.as_bytes().len(), 25);
    assert_eq!(list.allocated(), 50);
    assert_eq!(list.head(), Some(1));
    assert_eq!(list.tail().unwrap().head(), Some(2));
}

#[test]
fn growth_keeps_the_bytes_where_they_were() {
    let mut list = List::<[u8]>::new();
    let mut before = Vec::new();
    for round in 0..40u8 {
        let payload = vec![round; round as usize];
        list.push(&payload);
        assert_eq!(&list.as_bytes()[..before.len()], &before[..]);
        before = list.as_bytes().to_vec();
    }
    let mut view = list.tail().unwrap();
    assert_eq!(list.head(), Some(vec![]));
    for round in 1..40u8 {
        assert_eq!(view.head(), Some(vec![round; round as usize]));
        if round < 39 {
            view = view.tail().unwrap();
        }
    }
}

#[test]
fn a_coarser_element_raises_the_alignment_and_leaves_the_head() {
    let mut list = List::<u32>::new();
    list.push(&0xdead_beef);
    assert_eq!(list.alignment(), 8);
    assert_eq!(list.allocated(), 24);
    let wide = 0x0102_0304_0506_0708_090a_0b0c_0d0e_0f10u128.to_ne_bytes();
    assert!(list.fits(16, 16));
    list.push_bytes(&wide, 16);
    assert_eq!(list.alignment(), 16);
    assert_eq!(list.head(), Some(0xdead_beef));
    assert_eq!(list.as_bytes().len(), 48);
    assert_eq!(list.allocated(), 96);
    assert_eq!(&list.as_bytes()[8..12], &0xdead_beefu32.to_ne_bytes());
    assert_eq!(&list.as_bytes()[12..16], &[0; 4]);
    assert_eq!(&list.as_bytes()[16..24], &prefix(16)[..]);
    assert_eq!(&list.as_bytes()[24..32], &[0; 8]);
    assert_eq!(&list.as_bytes()[32..48], &wide);
}

#[test]
fn a_raise_without_room_reallocates_too() {
    let mut list = List::<[u8]>::new();
    list.push(&[7; 4]);
    assert_eq!(list.allocated(), 24);
    list.push_bytes(&[], 32);
    assert_eq!(list.alignment(), 32);
    assert_eq!(list.as_bytes().len(), 64);
    assert_eq!(list.allocated(), 128);
    assert_eq!(list.head(), Some(vec![7; 4]));
}

#[test]
fn fits_refuses_what_cannot_be_pushed() {
    let list = List::<[u8]>::new();
    assert!(list.fits(0, 1));
    assert!(list.fits(1 << 20, 8));
    assert!(!list.fits(4, 0));
    assert!(!list.fits(4, 3));
    assert!(!list.fits(4, 24));
    assert!(!list.fits(usize::MAX, 1));
    assert!(!list.fits(usize::MAX / 2, 1));
    assert!(!list.fits(isize::MAX as usize / 2, 1));
    assert!(list.fits(isize::MAX as usize / 2 - 11, 1));
    assert!(!list.fits(isize::MAX as usize / 2 - 10, 1));
}

#[test]
fn the_region_of_a_list_is_borrowed_whole() {
    let mut list = List::<str>::new();
    list.push("xy");
    let region: &ListSlice<str> = list.as_slice();
    assert_eq!(region.as_bytes(), list.as_bytes());
    assert_eq!(region.alignment(), 8);
    assert_eq!(region.head(), Some(String::from("xy")));
}

#[test]
fn records_and_payloads_start_on_the_alignment() {
    let mut list = List::<[u8]>::new();
    for len in [3usize, 8, 0, 13, 1, 24] {
        list.push(&vec![0xaa; len]);
    }
    let total = list.as_bytes().len();
    let mut starts = vec![0];
    let mut view = list.tail();
    while let Some(v) = view {
        if v.head().is_none() {
            assert_eq!(v.as_bytes().len(), 0);
            break;
        }
        starts.push(total - v.as_bytes().len());
        view = v.tail();
    }
    assert_eq!(total, 112);
    assert_eq!(starts, [0, 16, 32, 40, 64, 80]);
    for start in starts {
        assert_eq!(start % list.alignment(), 0);
        assert_eq!((start + 8) % list.alignment(), 0);
    }
    let mut list = List::<[u8]>::new_unsafe();
    list.push_bytes(&[1; 16], 16);
    list.push_bytes(&[2; 32], 16);
    assert_eq!(list.alignment(), 16);
    assert_eq!(list.as_bytes().len(), 32 + 16 + 32);
    assert_eq!(&list.as_bytes()[16..32], &[1; 16]);
    assert_eq!(&list.as_bytes()[48..80], &[2; 32]);
}

#[test]
fn the_alignment_is_the_greatest_asked_for() {
    let mut list = List::<[u8]>::new();
    assert_eq!(list.alignment(), 8);
    list.push_bytes(&[1], 2);
    assert_eq!(list.alignment(), 8);
    list.push_bytes(&[2], 32);
    assert_eq!(list.alignment(), 32);
    list.push_bytes(&[3], 16);
    assert_eq!(list.alignment(), 32);
    list.push_bytes(&[4], 64);
    assert_eq!(list.alignment(), 64);
    assert_eq!(list.head(), Some(vec![1]));
}
