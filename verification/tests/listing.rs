use packed_list::listing::write_region;
use packed_list::List;

#[test]
fn bytes_are_listed_in_decimal() {
    assert_eq!(write_region("Region", &[]), "Region(&[ ])");
    assert_eq!(write_region("Region", &[0]), "Region(&[ 0 ])");
    assert_eq!(
        write_region("R", &[1, 10, 100, 255, 9, 99, 101, 200]),
        "R(&[ 1 10 100 255 9 99 101 200 ])"
    );
    let all: Vec<u8> = (0..=255).collect();
    let mut expected = String::from("All(&[ ");
    for b in &all {
        expected.push_str(&format!("{} ", b));
    }
    expected.push_str("])");
    assert_eq!(write_region("All", &all), expected);
}

#[test]
fn a_list_lists_the_bytes_in_use() {
    let mut list = List::<[u8]>::new();
    assert_eq!(list.fmt(), "List(&[ ])");
    assert_eq!(list.as_slice().fmt(), "ListSlice(&[ ])");
    list.push(&[1, 22, 233]);
    let mut expected = String::from("(&[ ");
    for b in 3u64.to_ne_bytes() {
        expected.push_str(&format!("{} ", b));
    }
    expected.push_str("1 22 233 ])");
    assert_eq!(list.fmt(), format!("List{}", expected));
    assert_eq!(list.as_slice().fmt(), format!("ListSlice{}", expected));
}
