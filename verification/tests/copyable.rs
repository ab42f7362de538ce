use packed_list::{CopyableUnsized, List, ThinCopy};

#[test]
fn thin_values_are_their_native_bytes() {
    assert_eq!(7u8.raw_bytes(), vec![7]);
    assert_eq!(0x1234u16.raw_bytes(), 0x1234u16.to_ne_bytes());
    assert_eq!(0x1234_5678u32.raw_bytes(), 0x1234_5678u32.to_ne_bytes());
    assert_eq!(0x0123_4567_89ab_cdefu64.raw_bytes(), 0x0123_4567_89ab_cdefu64.to_ne_bytes());
    let mut out = vec![1u8];
    0xbeefu16.thin_raw(&mut out);
    let mut expected = vec![1u8];
    expected.extend_from_slice(&0xbeefu16.to_ne_bytes());
    assert_eq!(out, expected);
}

#[test]
fn thin_values_are_read_from_their_bytes() {
    assert_eq!(u8::construct_ptr(&[7]), Some(7));
    assert_eq!(u16::construct_ptr(&0x1234u16.to_ne_bytes()), Some(0x1234));
    assert_eq!(u32::construct_ptr(&0x1234_5678u32.to_ne_bytes()), Some(0x1234_5678));
    assert_eq!(
        u64::construct_ptr(&0x0123_4567_89ab_cdefu64.to_ne_bytes()),
        Some(0x0123_4567_89ab_cdef)
    );
    assert_eq!(u16::thin_value(&0xfffeu16.to_ne_bytes()), 0xfffe);
    assert_eq!(u32::thin_value(&1u32.to_ne_bytes()), 1);
    assert_eq!(u64::thin_value(&u64::MAX.to_ne_bytes()), u64::MAX);
}

#[test]
fn a_thin_value_takes_exactly_its_size() {
    assert_eq!(u8::construct_ptr(&[]), None);
    assert_eq!(u8::construct_ptr(&[1, 2]), None);
    assert_eq!(u16::construct_ptr(&[1]), None);
    assert_eq!(u16::construct_ptr(&[1, 2, 3]), None);
    assert_eq!(u32::construct_ptr(&[0; 8]), None);
    assert_eq!(u64::construct_ptr(&[0; 4]), None);
}

#[test]
fn thin_values_ask_for_their_own_alignment() {
    assert_eq!(1u8.align_of_val(), 1);
    assert_eq!(1u16.align_of_val(), std::mem::align_of::<u16>());
    assert_eq!(1u32.align_of_val(), std::mem::align_of::<u32>());
    assert_eq!(1u64.align_of_val(), std::mem::align_of::<u64>());
    assert_eq!([1u32, 2][..].align_of_val(), std::mem::align_of::<u32>());
    assert_eq!("text".align_of_val(), 1);
}

#[test]
fn a_run_is_its_values_one_after_another() {
    let run: &[u16] = &[1, 0x0203, 0xffff];
    let mut expected = Vec::new();
    for v in run {
        expected.extend_from_slice(&v.to_ne_bytes());
    }
    assert_eq!(run.raw_bytes(), expected);
    assert_eq!(<[u16]>::construct_ptr(&expected), Some(vec![1, 0x0203, 0xffff]));
    let none: &[u64] = &[];
    assert_eq!(none.raw_bytes(), Vec::<u8>::new());
    assert_eq!(<[u64]>::construct_ptr(&[]), Some(vec![]));
}

#[test]
fn a_run_takes_a_multiple_of_the_size() {
    assert_eq!(<[u16]>::construct_ptr(&[1, 2, 3]), None);
    assert_eq!(<[u32]>::construct_ptr(&[0; 6]), None);
    assert_eq!(<[u64]>::construct_ptr(&[0; 15]), None);
    assert_eq!(<[u8]>::construct_ptr(&[1, 2, 3]), Some(vec![1, 2, 3]));
    assert_eq!(<[u32]>::construct_ptr(&[0; 8]), Some(vec![0, 0]));
}

#[test]
fn text_is_its_utf8() {
    assert_eq!("grüße".raw_bytes(), "grüße".as_bytes());
    assert_eq!(str::construct_ptr("grüße".as_bytes()), Some(String::from("grüße")));
    assert_eq!(str::construct_ptr(&[]), Some(String::new()));
    assert_eq!(str::construct_ptr(&[0xff]), None);
    assert_eq!(str::construct_ptr(&[0xc3]), None);
    assert_eq!(str::construct_ptr(&[b'a', 0x80]), None);
}

#[test]
fn what_is_pushed_is_what_head_reads() {
    let mut list = List::<str>::new();
    list.push("čaj 茶");
    assert_eq!(list.head(), Some(String::from("čaj 茶")));
    assert_eq!(&list.as_bytes()[8..], "čaj 茶".as_bytes());
    let mut list = List::<[u64]>::new();
    list.push(&[u64::MAX, 0, 1]);
    assert_eq!(list.head(), Some(vec![u64::MAX, 0, 1]));
    let mut list = List::<[u32]>::new();
    list.push(&[]);
    assert_eq!(list.head(), Some(vec![]));
    assert_eq!(list.as_bytes().len(), 8);
}

#[test]
fn signed_values_are_their_native_bytes_too() {
    assert_eq!((-1i8).raw_bytes(), vec![0xff]);
    assert_eq!((-2i16).raw_bytes(), (-2i16).to_ne_bytes());
    assert_eq!(i32::MIN.raw_bytes(), i32::MIN.to_ne_bytes());
    let long = -0x0123_4567_89ab_cdefi64;
    assert_eq!(long.raw_bytes(), long.to_ne_bytes());
    assert_eq!(i8::construct_ptr(&[0x80]), Some(i8::MIN));
    assert_eq!(i16::construct_ptr(&(-2i16).to_ne_bytes()), Some(-2));
    assert_eq!(i32::construct_ptr(&i32::MAX.to_ne_bytes()), Some(i32::MAX));
    assert_eq!(i64::construct_ptr(&i64::MIN.to_ne_bytes()), Some(i64::MIN));
    assert_eq!(i32::construct_ptr(&[0; 3]), None);
    let mut list = List::<[i16]>::new();
    list.push(&[-1, 0, i16::MIN, i16::MAX]);
    list.push(&[-7]);
    assert_eq!(list.head(), Some(vec![-1, 0, i16::MIN, i16::MAX]));
    assert_eq!(list.tail().unwrap().head(), Some(vec![-7]));
    let mut list = List::<i64>::new();
    list.push(&-5);
    assert_eq!(list.head(), Some(-5));
}
