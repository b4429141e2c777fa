use scanflow::error::Error;
use scanflow::values::{parse_input, parse_offset_scan_args, plan_write, print_value};

#[test]
fn integer_encodings_are_little_endian() {
    let (b, t) = parse_input("i64 122", &None).unwrap();
    assert_eq!(t, "i64");
    assert_eq!(b, 122i64.to_le_bytes());

    let (b, _) = parse_input("i64 -1", &None).unwrap();
    assert_eq!(b, (-1i64).to_le_bytes());

    let (b, _) = parse_input("i8 -128", &None).unwrap();
    assert_eq!(b, (-128i8).to_le_bytes());

    let (b, _) = parse_input("u8 255", &None).unwrap();
    assert_eq!(b, vec![255u8]);

    let (b, _) = parse_input("u16 4660", &None).unwrap();
    assert_eq!(b, 0x1234u16.to_le_bytes());

    let (b, _) = parse_input("u32 305419896", &None).unwrap();
    assert_eq!(b, 0x12345678u32.to_le_bytes());

    let (b, _) = parse_input("i128 -170141183460469231731687303715884105728", &None).unwrap();
    assert_eq!(b, i128::MIN.to_le_bytes());

    let (b, _) = parse_input("u128 340282366920938463463374607431768211455", &None).unwrap();
    assert_eq!(b, u128::MAX.to_le_bytes());

    let (b, _) = parse_input("i32 +7", &None).unwrap();
    assert_eq!(b, 7i32.to_le_bytes());
}

#[test]
fn out_of_range_or_malformed_values_are_rejected() {
    assert!(parse_input("i8 128", &None).is_none());
    assert!(parse_input("i8 -129", &None).is_none());
    assert!(parse_input("u8 256", &None).is_none());
    assert!(parse_input("u8 -1", &None).is_none());
    assert!(parse_input("i64 12a", &None).is_none());
    assert!(parse_input("i64 ", &None).is_none());
    assert!(parse_input("i64", &None).is_none());
    assert!(parse_input("f80 1.5", &None).is_none());
    assert!(parse_input("", &None).is_none());
}

#[test]
fn string_encodings() {
    let (b, t) = parse_input("str hello there", &None).unwrap();
    assert_eq!(t, "str");
    assert_eq!(b, b"hello there");

    let (b, t) = parse_input("str_utf16 hi", &None).unwrap();
    assert_eq!(t, "str_utf16");
    assert_eq!(b, vec![b'h', 0, b'i', 0]);

    let (b, _) = parse_input("str_utf16 \u{1F600}", &None).unwrap();
    let units: Vec<u16> = "\u{1F600}".encode_utf16().collect();
    let mut expect = Vec::new();
    for u in units {
        expect.extend_from_slice(&u.to_le_bytes());
    }
    assert_eq!(b, expect);
}

#[test]
fn remembered_type_takes_the_whole_line() {
    let (b, t) = parse_input("123", &Some("i64".to_string())).unwrap();
    assert_eq!(t, "i64");
    assert_eq!(b, 123i64.to_le_bytes());

    let (b, _) = parse_input("has spaces", &Some("str".to_string())).unwrap();
    assert_eq!(b, b"has spaces");
}

#[test]
fn print_value_formats_integers() {
    let s = print_value(&122i64.to_le_bytes(), "i64").unwrap();
    assert_eq!(s, "122");
    let s = print_value(&(-5i64).to_le_bytes(), "i64").unwrap();
    assert_eq!(s, "-5");
    let s = print_value(&0u16.to_le_bytes(), "u16").unwrap();
    assert_eq!(s, "0");
    let s = print_value(&(-128i8).to_le_bytes(), "i8").unwrap();
    assert_eq!(s, "-128");
    let s = print_value(&u128::MAX.to_le_bytes(), "u128").unwrap();
    assert_eq!(s, "340282366920938463463374607431768211455");
    let s = print_value(&i128::MIN.to_le_bytes(), "i128").unwrap();
    assert_eq!(s, "-170141183460469231731687303715884105728");
}

#[test]
fn print_value_rejects_wrong_width() {
    assert!(print_value(&[1, 2, 3], "i64").is_none());
    assert!(print_value(&[1, 2, 3, 4], "i64").is_none());
    assert!(print_value(&[0; 8], "nosuch").is_none());
}

#[test]
fn print_value_decodes_strings() {
    let s = print_value(b"hello", "str").unwrap();
    assert_eq!(s, "hello");
    let b = [b'h', 0, b'i', 0];
    let s = print_value(&b, "str_utf16").unwrap();
    assert_eq!(s, "hi");
}

#[test]
fn plan_write_variants() {
    let t = Some("i64".to_string());

    assert_eq!(plan_write("0 o 5", &t, 0).unwrap_err(), Error::NoMatches);
    assert_eq!(plan_write("nonsense", &t, 3).unwrap_err(), Error::UsageError);
    assert_eq!(plan_write("x o 5", &t, 3).unwrap_err(), Error::UsageError);
    assert_eq!(plan_write("0 q 5", &t, 3).unwrap_err(), Error::UsageError);
    assert_eq!(plan_write("0 o abc", &t, 3).unwrap_err(), Error::TypeParse);

    let p = plan_write("1 o 5", &t, 3).unwrap();
    assert_eq!(p.skip, 1);
    assert_eq!(p.take, 1);
    assert!(!p.continuous);
    assert_eq!(p.bytes, 5i64.to_le_bytes());

    let p = plan_write("* c -9", &t, 3).unwrap();
    assert_eq!(p.skip, 0);
    assert_eq!(p.take, 3);
    assert!(p.continuous);
    assert_eq!(p.bytes, (-9i64).to_le_bytes());

    let p = plan_write("0 o Hello world from memflow!", &Some("str".to_string()), 1).unwrap();
    assert_eq!(p.bytes, b"Hello world from memflow!");
}

#[test]
fn offset_scan_args_grammar() {
    let a = parse_offset_scan_args("y 0 16 3 deadbeef").unwrap();
    assert!(a.use_globals);
    assert_eq!(a.lrange, 0);
    assert_eq!(a.urange, 16);
    assert_eq!(a.max_depth, 3);
    assert_eq!(a.filter, Some(0xdeadbeef));

    let a = parse_offset_scan_args("n 0 0 2").unwrap();
    assert!(!a.use_globals);
    assert_eq!(a.lrange, 0);
    assert_eq!(a.urange, 0);
    assert_eq!(a.max_depth, 2);
    assert_eq!(a.filter, None);

    assert!(parse_offset_scan_args("y 0 16").is_none());
    assert!(parse_offset_scan_args("y a 16 3").is_none());
    assert!(parse_offset_scan_args("y 0 16 3 zz").is_none());
    assert!(parse_offset_scan_args("").is_none());
}

#[test]
fn error_messages_are_stable() {
    assert_eq!(Error::DecoderInit.message(), "failed to initialise the instruction decoder");
    assert_eq!(Error::TypeParse.message(), "failed to parse the value");
    assert_eq!(Error::UsageError.message(), "arguments do not match the command grammar");
    assert_eq!(Error::NoMatches.message(), "no matches found");
}
