use popemodem::hamming::Hamming::{correct_hamming_code, get_hamming_code, is_correctable};

#[test]
fn test_calc_parity() {
    let res = get_hamming_code(vec![0, 1, 0, 1]);
    println!("{:?}", res);
    assert_eq!(res, vec![0, 1, 0, 0, 1, 0, 1, 1]);
}

#[test]
fn test_x1_error() {
    let data = vec![0, 1, 0, 0, 1, 0, 1, 1];
    let res = correct_hamming_code(data);
    println!("{:?}", res);
    assert_eq!(res, vec![0, 1, 0, 1]);
}

#[test]
fn hamming_roundtrip() {
    let data = vec![1, 0, 1, 1, 0, 0, 0, 1, 1, 1, 1, 1];
    let code = get_hamming_code(data.clone());
    assert_eq!(code.len(), 24);
    assert!(is_correctable(&code));
    assert_eq!(correct_hamming_code(code), data);
}

#[test]
fn hamming_values_reduced_modulo_two() {
    let code = get_hamming_code(vec![2, 3, 4, 5]);
    assert_eq!(correct_hamming_code(code), vec![0, 1, 0, 1]);
}

#[test]
fn hamming_parity_bit_error_corrected() {
    let mut code = get_hamming_code(vec![1, 0, 1, 1]);
    code[7] ^= 1;
    assert!(is_correctable(&code));
    assert_eq!(correct_hamming_code(code), vec![1, 0, 1, 1]);
}

#[test]
fn hamming_data_bit_error_corrected() {
    let mut code = get_hamming_code(vec![1, 0, 1, 1]);
    code[2] ^= 1;
    assert!(is_correctable(&code));
    assert_eq!(correct_hamming_code(code), vec![1, 0, 1, 1]);
    assert_eq!(correct_hamming_code(vec![0, 1, 1, 0, 1, 0, 1, 1]), vec![0, 1, 0, 1]);
}

#[test]
fn hamming_every_single_error_corrected() {
    let data = vec![1, 0, 1, 1, 0, 0, 0, 0, 0, 1, 1, 0];
    let code = get_hamming_code(data.clone());
    for k in 0..code.len() {
        let mut e = code.clone();
        e[k] ^= 1;
        assert!(is_correctable(&e));
        assert_eq!(correct_hamming_code(e), data, "position {}", k);
    }
}

#[test]
fn hamming_double_error_detected() {
    let mut code = get_hamming_code(vec![1, 0, 1, 1]);
    code[0] ^= 1;
    code[5] ^= 1;
    assert!(!is_correctable(&code));
    assert!(!is_correctable(&[0, 1, 0]));
    assert!(is_correctable(&[]));
    assert_eq!(correct_hamming_code(vec![]), Vec::<u8>::new());
}
