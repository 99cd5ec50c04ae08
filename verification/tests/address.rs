use sn_cli::address::{Address, AddressError};

fn counting() -> Address {
    let mut bytes = [0u8; 32];
    for (i, byte) in bytes.iter_mut().enumerate() {
        *byte = (i * 8 + 3) as u8;
    }
    Address(bytes)
}

#[test]
fn hex_of_an_address_is_64_lowercase_digits() {
    let hex = counting().to_hex();
    assert_eq!(
        String::from_utf8(hex).unwrap(),
        "030b131b232b333b434b535b636b737b838b939ba3abb3bbc3cbd3dbe3ebf3fb"
    );
    assert_eq!(Address([0xff; 32]).to_hex(), "f".repeat(64).into_bytes());
    assert_eq!(Address([0; 32]).to_hex(), "0".repeat(64).into_bytes());
}

#[test]
fn address_is_read_from_hex_of_either_case() {
    let lower = "030b131b232b333b434b535b636b737b838b939ba3abb3bbc3cbd3dbe3ebf3fb";
    let upper = lower.to_uppercase();
    assert_eq!(Address::from_hex(lower.as_bytes()), Ok(counting()));
    assert_eq!(Address::from_hex(upper.as_bytes()), Ok(counting()));
}

#[test]
fn hex_round_trip() {
    for seed in 0u8..=255 {
        let mut bytes = [0u8; 32];
        for (i, byte) in bytes.iter_mut().enumerate() {
            *byte = seed.wrapping_mul(31).wrapping_add((i as u8).wrapping_mul(17));
        }
        let address = Address(bytes);
        assert_eq!(Address::from_hex(&address.to_hex()), Ok(address));
    }
}

#[test]
fn text_that_is_not_hex_is_refused() {
    assert_eq!(Address::from_hex(b"xyz"), Err(AddressError::NotHex));
    assert_eq!(Address::from_hex(b"abc"), Err(AddressError::NotHex));
    let mut text = "0".repeat(64).into_bytes();
    text[10] = b'g';
    assert_eq!(Address::from_hex(&text), Err(AddressError::NotHex));
    assert_eq!(Address::from_hex("é0".as_bytes()), Err(AddressError::NotHex));
}

#[test]
fn hex_of_another_length_is_refused() {
    assert_eq!(Address::from_hex(b""), Err(AddressError::WrongLength { bytes: 0 }));
    assert_eq!(Address::from_hex(b"00ff"), Err(AddressError::WrongLength { bytes: 2 }));
    let long = "0".repeat(66);
    assert_eq!(Address::from_hex(long.as_bytes()), Err(AddressError::WrongLength { bytes: 33 }));
}

#[test]
fn addresses_are_ordered_byte_wise() {
    let mut low = [0u8; 32];
    let mut high = [0u8; 32];
    low[31] = 0xff;
    high[0] = 1;
    let (low, high) = (Address(low), Address(high));
    assert!(low.precedes(&high));
    assert!(!high.precedes(&low));
    assert!(!low.precedes(&low));
    assert!(low.same(&low));
    assert!(!low.same(&high));
    assert_eq!(low.precedes(&high), low < high);

    let mut a = [7u8; 32];
    let mut b = [7u8; 32];
    a[20] = 6;
    b[21] = 0;
    assert!(Address(a).precedes(&Address(b)));
    assert!(!Address(b).precedes(&Address(a)));
}
