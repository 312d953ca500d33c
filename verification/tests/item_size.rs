use lru::lru::item_size::ItemSize;

#[test]
fn numbers_have_the_size_of_their_width() {
    assert_eq!(1u8.size_of(), 1);
    assert_eq!(1u16.size_of(), 2);
    assert_eq!(1u32.size_of(), 4);
    assert_eq!(1u64.size_of(), 8);
    assert_eq!(1u128.size_of(), 16);
    assert_eq!(1usize.size_of(), 8);
    assert_eq!(1i8.size_of(), 1);
    assert_eq!(1i16.size_of(), 2);
    assert_eq!(1i32.size_of(), 4);
    assert_eq!(1i64.size_of(), 8);
    assert_eq!(1i128.size_of(), 16);
    assert_eq!(1isize.size_of(), 8);
}

#[test]
fn small_things_have_size_one_or_none() {
    assert_eq!('x'.size_of(), 1);
    assert_eq!(true.size_of(), 1);
    assert_eq!(().size_of(), 0);
}

#[test]
fn texts_have_the_size_of_their_bytes() {
    assert_eq!(String::from("apple").size_of(), 5);
    assert_eq!(String::new().size_of(), 0);
    assert_eq!("h\u{e9}".size_of(), 3);
    assert_eq!(String::from("h\u{e9}").size_of(), 3);
}

#[test]
fn collections_have_the_size_of_their_elements() {
    let a = 1u8;
    let b = 2u8;
    let refs = [&a, &b, &a];
    assert_eq!(refs[..].size_of(), 3);
    assert_eq!(vec![1u32, 2, 3].size_of(), 12);
    assert_eq!(vec![1u8; 7].size_of(), 7);
    assert_eq!(Vec::<u64>::new().size_of(), 0);
}
