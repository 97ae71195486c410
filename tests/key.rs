use nostalgia::{Key, KeyBytes};

#[test]
fn u8_key_is_one_byte() {
    assert_eq!(vec![7u8], Key::from(7u8).to_key_bytes());
}

#[test]
fn u16_key_is_big_endian() {
    assert_eq!(vec![1u8, 2], Key::from(0x0102u16).to_key_bytes());
}

#[test]
fn u32_key_is_big_endian() {
    assert_eq!(vec![0u8, 0, 0, 1], Key::from(1u32).to_key_bytes());
    assert_eq!(vec![1u8, 2, 3, 4], Key::from(0x0102_0304u32).to_key_bytes());
    assert_eq!(vec![255u8, 255, 255, 255], u32::MAX.to_key_bytes());
}

#[test]
fn u64_key_is_big_endian() {
    assert_eq!(vec![0u8, 0, 0, 0, 0, 0, 1, 2], Key::from(258u64).to_key_bytes());
}

#[test]
fn string_key_is_utf8() {
    let k = Key::from("héllo".to_string());
    assert_eq!("héllo".as_bytes().to_vec(), k.to_key_bytes());
    assert_eq!(6, k.to_key_bytes().len());
}

#[test]
fn byte_key_passes_through() {
    let raw = vec![9u8, 0, 200];
    assert_eq!(raw.clone(), Key::from(raw).to_key_bytes());
}

#[test]
fn key_encoding_is_deterministic() {
    let a = Key::from(424242u32);
    assert_eq!(a.to_key_bytes(), a.to_key_bytes());
    assert_eq!(a.to_key_bytes(), Key::from(424242u32).to_key_bytes());
}

#[test]
fn integer_keys_sort_as_numbers() {
    let pairs: Vec<(u32, u32)> = vec![(1, 256), (255, 256), (0, 1), (65535, 65536), (7, 4_000_000_000)];
    for (a, b) in pairs {
        assert!(a.to_key_bytes() < b.to_key_bytes());
    }
    assert!(1u64.to_key_bytes() < 256u64.to_key_bytes());
}

#[test]
fn key_keeps_its_value() {
    assert_eq!(5u32, *Key::from(5u32).value());
}
