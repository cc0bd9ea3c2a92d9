use cyphernet::I2pAddr;

fn counting_bytes() -> [u8; 32] {
    let mut bytes = [0u8; 32];
    for (i, b) in bytes.iter_mut().enumerate() {
        *b = (i as u8).wrapping_mul(37).wrapping_add(11);
    }
    bytes
}

#[test]
fn address_keeps_its_identity() {
    let bytes = counting_bytes();
    let addr = I2pAddr::from_bytes(bytes);
    assert_eq!(addr.to_bytes(), bytes);
    assert_eq!(addr, I2pAddr(bytes));
    assert!(I2pAddr([0u8; 32]) < addr);
}

#[test]
fn text_of_the_zero_address() {
    let text = I2pAddr([0u8; 32]).to_string();
    assert_eq!(text, format!("{}.b32.i2p", "a".repeat(52)));
    assert_eq!(text.len(), 60);
}

#[test]
fn text_of_the_all_ones_address() {
    let text = I2pAddr([0xffu8; 32]).to_string();
    assert_eq!(text, format!("{}q.b32.i2p", "7".repeat(51)));
}

#[test]
fn text_follows_the_base32_alphabet() {
    // "foobar" is "MZXW6YTBOI======" in RFC 4648 base32.
    let mut bytes = [0u8; 32];
    bytes[..6].copy_from_slice(b"foobar");
    let text = I2pAddr(bytes).to_string();
    assert!(text.starts_with("mzxw6ytboiaaaaaa"));
    assert!(text.ends_with("aaaa.b32.i2p"));
}

#[test]
fn text_round_trips() {
    for bytes in [[0u8; 32], [0xffu8; 32], counting_bytes(), [0x5au8; 32]] {
        let addr = I2pAddr(bytes);
        let text = addr.to_string();
        assert_eq!(I2pAddr::from_str(&text), Ok(addr));
        let parsed: I2pAddr = text.parse().unwrap();
        assert_eq!(parsed, addr);
        assert_eq!(parsed.to_string(), text);
    }
}

#[test]
fn malformed_text_is_refused() {
    let good = I2pAddr(counting_bytes()).to_string();
    assert!(I2pAddr::from_str(&good).is_ok());
    // Wrong lengths.
    assert_eq!(I2pAddr::from_str(""), Err(()));
    assert_eq!(I2pAddr::from_str(&good[1..]), Err(()));
    assert_eq!(I2pAddr::from_str(&format!("a{}", good)), Err(()));
    // Characters outside the alphabet.
    for bad in ['A', '1', '8', '0', '=', ' ', 'é'] {
        let mut text: String = good.clone();
        text.replace_range(0..1, &bad.to_string());
        if bad.len_utf8() == 1 {
            assert_eq!(text.len(), 60);
        }
        assert_eq!(I2pAddr::from_str(&text), Err(()));
    }
    // Non-zero padding bits in the last digit.
    let zero = I2pAddr([0u8; 32]).to_string();
    let mut text = zero.clone();
    text.replace_range(51..52, "b");
    assert_eq!(I2pAddr::from_str(&text), Err(()));
    text.replace_range(51..52, "q");
    assert_eq!(I2pAddr::from_str(&text).unwrap().to_bytes()[31], 1);
    // Wrong suffix.
    let mut text = zero.clone();
    text.replace_range(52..60, ".b32.i2q");
    assert_eq!(I2pAddr::from_str(&text), Err(()));
    let mut text = zero;
    text.replace_range(52..60, ".B32.I2P");
    assert_eq!(I2pAddr::from_str(&text), Err(()));
}

