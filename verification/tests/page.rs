use espora::error::Error;
use espora::framing::{push_length, read_length};
use espora::page::{Page, PAGE_SIZE};

#[test]
fn test_insert_into_page() {
    let mut page = Page::<1024>::new();
    assert_eq!(4, page.available_rows());
    page.insert(&bitcode::serialize(&String::from("Rinha")).unwrap())
        .unwrap();
    assert_eq!(3, page.available_rows());
    page.insert(&bitcode::serialize(&String::from("de")).unwrap())
        .unwrap();
    assert_eq!(2, page.available_rows());
    page.insert(&bitcode::serialize(&(2024 as u64)).unwrap())
        .unwrap();
    assert_eq!(1, page.available_rows());

    let mut rows = page.rows().into_iter();
    assert_eq!(
        "Rinha",
        bitcode::deserialize::<String>(&rows.next().unwrap()).unwrap()
    );
    assert_eq!(
        "de",
        bitcode::deserialize::<String>(&rows.next().unwrap()).unwrap()
    );
    assert_eq!(
        2024,
        bitcode::deserialize::<u64>(&rows.next().unwrap()).unwrap()
    );
    assert!(rows.next().is_none());
}

#[test]
fn test_initialize() {
    let page = Page::<1024>::new();
    assert_eq!(0, page.len());
    assert_eq!(PAGE_SIZE, page.free());
}

#[test]
fn test_from_empty_bytes() {
    let page = Page::<1024>::from_bytes(vec![]);
    assert_eq!(0, page.len());
    assert_eq!(PAGE_SIZE, page.free());
}

#[test]
fn test_from_bytes() {
    let mut page = Page::<1024>::from_bytes(vec![]);
    page.insert(&bitcode::serialize(&1).unwrap()).unwrap();
    page.insert(&bitcode::serialize(&2).unwrap()).unwrap();

    let new_page = Page::<1024>::from_bytes(page.as_bytes().to_vec());
    assert_eq!(page.len(), new_page.len());
    assert_eq!(page.available_rows(), new_page.available_rows());
    assert_eq!(page.free(), new_page.free());
}

#[test]
fn test_update_existing_page() {
    let mut page = Page::<1024>::from_bytes(vec![]);
    page.insert(&bitcode::serialize(&"Rinha").unwrap()).unwrap();
    page.insert(&bitcode::serialize(&"de").unwrap()).unwrap();

    let mut page = Page::<1024>::from_bytes(page.as_bytes().to_vec());
    page.insert(&bitcode::serialize(&"Backend").unwrap())
        .unwrap();
    page.insert(&bitcode::serialize(&"2024").unwrap()).unwrap();

    let mut rows = page.rows().into_iter();
    assert_eq!(
        "Rinha",
        bitcode::deserialize::<String>(&rows.next().unwrap()).unwrap()
    );
    assert_eq!(
        "de",
        bitcode::deserialize::<String>(&rows.next().unwrap()).unwrap()
    );
    assert_eq!(
        "Backend",
        bitcode::deserialize::<String>(&rows.next().unwrap()).unwrap()
    );
    assert_eq!(
        "2024",
        bitcode::deserialize::<String>(&rows.next().unwrap()).unwrap()
    );
    assert!(rows.next().is_none());
}

#[test]
fn length_prefix_is_big_endian() {
    let mut out = vec![0xaa];
    push_length(&mut out, 0x0102_0304_0506_0708);
    assert_eq!(vec![0xaa, 1, 2, 3, 4, 5, 6, 7, 8], out);
    assert_eq!(0x0102_0304_0506_0708, read_length(&out, 1));

    let mut small = Vec::new();
    push_length(&mut small, 5);
    assert_eq!(vec![0, 0, 0, 0, 0, 0, 0, 5], small);
    assert_eq!(5, read_length(&small, 0));

    let mut large = Vec::new();
    push_length(&mut large, u64::MAX);
    assert_eq!(vec![0xff; 8], large);
    assert_eq!(u64::MAX, read_length(&large, 0));
}

#[test]
fn slot_holds_length_payload_and_zeros() {
    let mut page = Page::<16>::new();
    page.insert(&[7, 8, 9]).unwrap();
    assert_eq!(
        vec![0, 0, 0, 0, 0, 0, 0, 3, 7, 8, 9, 0, 0, 0, 0, 0],
        page.as_bytes().to_vec()
    );
    assert_eq!(16, page.len());
    assert_eq!(PAGE_SIZE - 16, page.free());
    assert_eq!(255, page.available_rows());

    page.insert(&[1, 2, 3, 4, 5, 6, 7, 8]).unwrap();
    assert_eq!(
        vec![0, 0, 0, 0, 0, 0, 0, 8, 1, 2, 3, 4, 5, 6, 7, 8],
        page.as_bytes()[16..].to_vec()
    );
    assert_eq!(vec![&[7u8, 8, 9][..], &[1, 2, 3, 4, 5, 6, 7, 8][..]], page.rows());
}

#[test]
fn empty_payload_is_refused_by_the_page() {
    let mut page = Page::<1024>::new();
    assert_eq!(Err(Error::Serialization), page.insert(&[]));
    assert_eq!(0, page.len());
    assert_eq!(PAGE_SIZE, page.free());
}

#[test]
fn payload_longer_than_a_slot_is_refused() {
    let mut page = Page::<16>::new();
    assert_eq!(Err(Error::NoSpace), page.insert(&[1; 9]));
    assert_eq!(0, page.len());
    assert_eq!(Ok(()), page.insert(&[1; 8]));
    assert_eq!(16, page.len());
}

#[test]
fn full_page_is_refused() {
    let mut page = Page::<2048>::new();
    page.insert(&[1]).unwrap();
    page.insert(&[2]).unwrap();
    assert_eq!(0, page.available_rows());
    assert_eq!(0, page.free());
    assert_eq!(Err(Error::NoSpace), page.insert(&[3]));
    assert_eq!(4096, page.len());
    assert_eq!(vec![&[1u8][..], &[2][..]], page.rows());
}

#[test]
fn stride_that_does_not_divide_a_page_leaves_bytes_unused() {
    let mut page = Page::<1000>::new();
    assert_eq!(4, page.available_rows());
    for i in 0..4u8 {
        page.insert(&[i + 1]).unwrap();
    }
    assert_eq!(4000, page.len());
    assert_eq!(96, page.free());
    assert_eq!(0, page.available_rows());
    assert_eq!(Err(Error::NoSpace), page.insert(&[9]));
}

#[test]
fn from_bytes_keeps_the_occupied_prefix() {
    let mut image = vec![0u8; PAGE_SIZE];
    image[7] = 2;
    image[8] = 10;
    image[9] = 20;
    image[1024 + 7] = 1;
    image[1024 + 8] = 30;
    let page = Page::<1024>::from_bytes(image);
    assert_eq!(2048, page.len());
    assert_eq!(2048, page.free());
    assert_eq!(2, page.available_rows());
    assert_eq!(vec![&[10u8, 20][..], &[30][..]], page.rows());
}

#[test]
fn from_bytes_of_zeros_is_empty() {
    let page = Page::<128>::from_bytes(vec![0u8; PAGE_SIZE]);
    assert_eq!(0, page.len());
    assert_eq!(PAGE_SIZE, page.free());
    assert_eq!(32, page.available_rows());
    assert!(page.rows().is_empty());
}

#[test]
fn from_bytes_ends_the_prefix_at_the_last_occupied_slot() {
    let mut image = vec![0u8; PAGE_SIZE];
    image[7] = 1;
    image[8] = 5;
    image[2048 + 7] = 1;
    image[2048 + 8] = 6;
    let page = Page::<1024>::from_bytes(image);
    assert_eq!(3072, page.len());
    assert_eq!(1024, page.free());
    assert_eq!(1, page.available_rows());
    assert_eq!(vec![&[5u8][..]], page.rows());
}

#[test]
fn from_bytes_ignores_a_slot_cut_short() {
    let mut image = vec![0u8; 1500];
    image[7] = 1;
    image[8] = 5;
    image[1024 + 7] = 1;
    let page = Page::<1024>::from_bytes(image);
    assert_eq!(1024, page.len());
    assert_eq!(vec![&[5u8][..]], page.rows());
}

#[test]
fn from_bytes_looks_at_one_page_only() {
    let mut image = vec![0u8; 2 * PAGE_SIZE];
    image[4096 + 7] = 1;
    let page = Page::<2048>::from_bytes(image);
    assert_eq!(0, page.len());
    assert_eq!(PAGE_SIZE, page.free());
}

#[test]
fn rows_stop_at_a_length_that_no_slot_can_hold() {
    let mut image = vec![0u8; PAGE_SIZE];
    image[7] = 1;
    image[8] = 5;
    image[16] = 0xff;
    image[32 + 7] = 1;
    image[32 + 8] = 6;
    let page = Page::<16>::from_bytes(image);
    assert_eq!(48, page.len());
    assert_eq!(vec![&[5u8][..]], page.rows());
}

#[test]
fn stride_too_narrow_for_a_prefix_stores_nothing() {
    let mut page = Page::<4>::new();
    assert_eq!(1024, page.available_rows());
    assert_eq!(Err(Error::NoSpace), page.insert(&[1]));
    let page = Page::<4>::from_bytes(vec![1u8; PAGE_SIZE]);
    assert_eq!(0, page.len());
    assert!(page.rows().is_empty());
    let page = Page::<0>::from_bytes(vec![1u8; PAGE_SIZE]);
    assert_eq!(0, page.available_rows());
    assert_eq!(0, page.len());
}
