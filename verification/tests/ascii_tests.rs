use popemodem::ascii::{char_to_bin_u8, decode_u8, encode_u8, is_readable};

#[test]
fn ascii_test_str_to_binary() {
    let binary = encode_u8("hello super man");
    let strr = decode_u8(binary);
    println!("{:?}", strr);
    assert_eq!(strr, "hello super man".chars().collect::<Vec<char>>());
}

#[test]
fn ascii_test_dec_to_bin() {
    let dec = b'o';
    println!("{:08b}", b'a');
    let mut buf: [u8; 8] = [0; 8];
    char_to_bin_u8(&mut buf, dec);
    println!("{:?}", buf);
    assert_eq!(buf, [0, 1, 1, 0, 1, 1, 1, 1]);
}

#[test]
fn ascii_decode_drops_partial_group() {
    let mut binary = encode_u8("ok");
    binary.extend([1, 0, 1]);
    assert_eq!(decode_u8(binary), vec!['o', 'k']);
}

#[test]
fn ascii_decode_reads_decimal_texts_in_base_two() {
    // The decimal texts "1", "10", "0", "0", "0", "0", "0", "1" read together
    // as "1100000 1" in base 2: 0b110000001 is too large, so use fewer digits.
    let binary = vec![0, 0, 0, 0, 0, 0, 1, 10];
    // "000000110" in base 2 is 6.
    assert_eq!(decode_u8(binary), vec![6 as char]);
}

#[test]
fn ascii_readability() {
    assert!(is_readable(&[0, 1, 0, 0, 0, 0, 0, 1]));
    assert!(!is_readable(&[2, 1, 0, 0, 0, 0, 0, 1]));
    assert!(!is_readable(&[111, 111, 111, 0, 0, 0, 0, 0]));
    assert!(is_readable(&[2, 1, 0]));
}
