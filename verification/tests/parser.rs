use one_brc::i16_from_bytes;

#[test]
fn test_i16_from_bytes() {
    // all good numbers
    for i in -999..=999 {
        let f = (i as f32) / 10.0;
        let string = format!("{f:.1}");
        let b = string.as_bytes();
        let p = i16_from_bytes(b).unwrap();
        assert_eq!(i, p);
    }

    // some bad numbers
    assert_eq!(None, i16_from_bytes("100.1".as_bytes()));
    assert_eq!(None, i16_from_bytes("1000.1".as_bytes()));
    assert_eq!(None, i16_from_bytes(".1".as_bytes()));
    assert_eq!(None, i16_from_bytes(".11".as_bytes()));
    assert_eq!(None, i16_from_bytes("100".as_bytes()));
    assert_eq!(None, i16_from_bytes("1c.0".as_bytes()));
    assert_eq!(None, i16_from_bytes("1 .0".as_bytes()));
    assert_eq!(None, i16_from_bytes("10.b".as_bytes()));
    assert_eq!(None, i16_from_bytes("10. ".as_bytes()));
    assert_eq!(None, i16_from_bytes("+0.0".as_bytes()));
    assert_eq!(None, i16_from_bytes(" 1.0".as_bytes()));
}

#[test]
fn numbers_mapping() {
    for i in -999..=999 {
        let f = format!("{:.1}", (i as f32) / 10.0);
        let b = f.as_bytes();
        println!("{i}\t{f}\t{b:?}");
    }
}

#[test]
fn parser_exact_values() {
    assert_eq!(Some(999), i16_from_bytes(b"99.9"));
    assert_eq!(Some(-999), i16_from_bytes(b"-99.9"));
    assert_eq!(Some(0), i16_from_bytes(b"0.0"));
    assert_eq!(Some(-5), i16_from_bytes(b"-0.5"));
    assert_eq!(Some(123), i16_from_bytes(b"12.3"));
    assert_eq!(Some(-18), i16_from_bytes(b"-1.8"));
}

#[test]
fn parser_rejects_empty_and_short() {
    assert_eq!(None, i16_from_bytes(b""));
    assert_eq!(None, i16_from_bytes(b"1"));
    assert_eq!(None, i16_from_bytes(b".5"));
    assert_eq!(None, i16_from_bytes(b"-.5"));
    assert_eq!(None, i16_from_bytes(b"-100.1"));
}
