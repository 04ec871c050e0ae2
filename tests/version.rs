use runner::version::Version;

#[test]
fn version_serialize_loop() {
    let v = Version {
        major: 1,
        minor: 2,
        patch: 3,
    };
    let v2 = Version::decode(&v.encode());
    assert_eq!(v, v2.unwrap());
}

#[test]
fn version_text_is_dotted_decimal() {
    assert_eq!(Version::new(1, 2, 3).encode(), b"1.2.3".to_vec());
    assert_eq!(Version::new(10, 0, 255).encode(), b"10.0.255".to_vec());
}

#[test]
fn version_round_trip_edges() {
    for v in [
        Version::new(0, 0, 0),
        Version::new(9, 9, 9),
        Version::new(10, 100, 1000),
        Version::new(u32::MAX, 0, u32::MAX),
    ] {
        assert_eq!(Version::decode(&v.encode()), Some(v));
    }
}

#[test]
fn version_decode_reads_text() {
    assert_eq!(Version::decode(b"4294967295.7.0"), Some(Version::new(u32::MAX, 7, 0)));
    assert_eq!(Version::decode(b"0.10.2"), Some(Version::new(0, 10, 2)));
}

#[test]
fn version_decode_rejects_malformed_text() {
    for bad in [
        &b""[..],
        b"1",
        b"1.2",
        b"1.2.",
        b".1.2",
        b"1..2",
        b"1.2.3.",
        b"1.2.3.4",
        b"01.2.3",
        b"1.00.3",
        b"1.2.3 ",
        b"a.b.c",
        b"-1.2.3",
        b"4294967296.0.0",
        b"1.2.99999999999999999999",
    ] {
        assert_eq!(Version::decode(bad), None, "{:?}", bad);
    }
}
