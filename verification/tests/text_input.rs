use tidb_key_codec::input::{
    parse_golang_fmt_print, parse_hex_encoded, parse_input, parse_rust_print, InputError,
};

#[test]
fn input_test_parse_golang_fmt_print() {
    let cases = vec![
        ("68 66 58 49", "DB:1"),
        ("[84 97 98 108 101 58 53 51]", "Table:53"),
    ];
    for (code, expected) in cases.into_iter() {
        let result = parse_golang_fmt_print(code).unwrap();
        let str_form = String::from_utf8(result).unwrap();
        assert_eq!(str_form, expected);
    }
}

#[test]
fn lib_test_parse_golang_fmt_print() {
    let cases = vec![
        ("68 66 58 49", "DB:1"),
        ("[84 97 98 108 101 58 53 51]", "Table:53"),
    ];
    for (code, expected) in cases.into_iter() {
        let result = parse_golang_fmt_print(code).unwrap();
        let str_form = String::from_utf8(result).unwrap();
        assert_eq!(str_form, expected);
    }
}

#[test]
fn test_decode_hex() {
    let expected = vec![
        116, 128, 0, 0, 0, 0, 0, 0, 53, 95, 114, 128, 0, 0, 0, 0, 0, 0, 1,
    ];
    assert_eq!(
        parse_hex_encoded("7480000000000000355f728000000000000001").unwrap(),
        expected
    )
}

#[test]
fn golang_print_edge_cases() {
    assert_eq!(parse_golang_fmt_print("0"), Ok(vec![0]));
    assert_eq!(parse_golang_fmt_print("[255]"), Ok(vec![255]));
    assert_eq!(parse_golang_fmt_print("+5"), Ok(vec![5]));
    assert_eq!(parse_golang_fmt_print(""), Err(InputError::BadGolangPrint));
    assert_eq!(parse_golang_fmt_print("[]"), Err(InputError::BadGolangPrint));
    assert_eq!(parse_golang_fmt_print("256"), Err(InputError::BadGolangPrint));
    assert_eq!(parse_golang_fmt_print("1  2"), Err(InputError::BadGolangPrint));
    assert_eq!(parse_golang_fmt_print("1,2"), Err(InputError::BadGolangPrint));
}

#[test]
fn rust_print_edge_cases() {
    assert_eq!(parse_rust_print("1, 2, 3"), Ok(vec![1, 2, 3]));
    assert_eq!(parse_rust_print("[1,2,3]"), Ok(vec![1, 2, 3]));
    assert_eq!(parse_rust_print("  7  "), Ok(vec![7]));
    assert_eq!(parse_rust_print("[ 0 , 255 ]"), Ok(vec![0, 255]));
    assert_eq!(parse_rust_print(""), Err(InputError::BadRustPrint));
    assert_eq!(parse_rust_print("1, x"), Err(InputError::BadRustPrint));
    assert_eq!(parse_rust_print("300"), Err(InputError::BadRustPrint));
}

#[test]
fn hex_edge_cases() {
    assert_eq!(parse_hex_encoded(""), Ok(vec![]));
    assert_eq!(parse_hex_encoded("ff00"), Ok(vec![255, 0]));
    assert_eq!(parse_hex_encoded("FF"), Ok(vec![255]));
    assert_eq!(parse_hex_encoded("aB"), Ok(vec![171]));
    assert_eq!(parse_hex_encoded("f"), Err(InputError::BadHex));
    assert_eq!(parse_hex_encoded("fg"), Err(InputError::BadHex));
}

#[test]
fn input_priority_order() {
    // The comma-separated grammar is tried first, then the space-separated
    // one, then hexadecimal.
    assert_eq!(parse_input("5"), Ok(vec![5]));
    assert_eq!(parse_input("1,2"), Ok(vec![1, 2]));
    assert_eq!(parse_input("68 66 58 49"), Ok(vec![68, 66, 58, 49]));
    assert_eq!(parse_input("ff00"), Ok(vec![255, 0]));
    assert_eq!(parse_input("not bytes at all"), Err(InputError::Unrecognized));
}
