use popemodem::bytes::{
    char_to_bin_u8, decode_u8, encode_u8, u16_from_bytes, u16_to_bytes, u32_from_bytes,
    u32_to_bytes, u8_from_bytes, u8_to_bytes,
};

#[test]
fn bytes_test_str_to_binary() {
    let binary = encode_u8("hello super man");
    let strr = decode_u8(binary);
    println!("{:?}", strr);
    assert_eq!(strr, "hello super man");
}

#[test]
fn bytes_test_dec_to_bin() {
    let dec = b'o';
    println!("{:08b}", b'a');
    let mut buf: [u8; 8] = [0; 8];
    char_to_bin_u8(&mut buf, dec);
    println!("{:?}", buf);
    assert_eq!(buf, [0, 1, 1, 0, 1, 1, 1, 1]);
}

#[test]
fn test_vec_to_u8() {
    let v = vec![0, 1, 0, 1, 0, 1, 0, 1];
    let mut a: u8 = 0;
    for (b, i) in v.iter().enumerate() {
        a = a | (i << (7 - b));
    }
    println!("{:08b}", a);
    assert_eq!(a, 0b0101_0101);
    assert_eq!(decode_u8(v), "U");
}

#[test]
fn encode_u8_eight_bits_per_char() {
    assert_eq!(encode_u8("A"), vec![0, 1, 0, 0, 0, 0, 0, 1]);
    assert_eq!(encode_u8(""), Vec::<u8>::new());
    assert_eq!(encode_u8("ab").len(), 16);
}

#[test]
fn decode_u8_invalid_length_message() {
    assert_eq!(decode_u8(vec![0, 1, 0]), "Invalid binary data len: 3");
    assert_eq!(decode_u8(vec![0; 17]), "Invalid binary data len: 17");
    assert_eq!(decode_u8(vec![]), "");
}

#[test]
fn decode_encode_roundtrip_latin1() {
    let text = "\u{e9}t\u{e9} 2024!";
    assert_eq!(decode_u8(encode_u8(text)), text);
}

#[test]
fn fixed_width_roundtrips() {
    assert_eq!(u8_to_bytes(0b1000_0101), [1, 0, 1, 0, 0, 0, 0, 1]);
    assert_eq!(u8_from_bytes(&u8_to_bytes(0b1000_0101)), 0b1000_0101);
    assert_eq!(u16_from_bytes(&u16_to_bytes(0xbeef)), 0xbeef);
    assert_eq!(u32_from_bytes(&u32_to_bytes(0xdead_beef)), 0xdead_beef);
    assert_eq!(u16_to_bytes(1)[0], 1);
    assert_eq!(u16_to_bytes(0x8000)[15], 1);
}

#[test]
fn from_bytes_shifts_each_value() {
    assert_eq!(u8_from_bytes(&[1, 1]), 3);
    assert_eq!(u8_from_bytes(&[]), 0);
    assert_eq!(u8_from_bytes(&[3, 0]), 3);
    assert_eq!(u16_from_bytes(&[0, 0, 5]), 20);
    assert_eq!(u32_from_bytes(&[0, 1]), 2);
}
