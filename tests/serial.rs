use rudibi_server::serial::Serializable;

#[test]
fn storable_u32_is_le_bytes() {
    let val: u32 = 100;
    assert_eq!(val.to_le_bytes().to_vec(), val.serialized());
}

#[test]
fn storable_text_and_bytes_are_their_bytes() {
    assert_eq!("héllo".serialized(), "héllo".as_bytes().to_vec());
    assert_eq!(vec![1u8, 2, 3].serialized(), vec![1u8, 2, 3]);
    assert_eq!([9u8, 8].serialized(), vec![9u8, 8]);
}
