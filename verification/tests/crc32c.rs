use kvcore::crc32c::{mask, unmask, value};

#[test]
pub fn standard_results() {
    // From rfc3720 section B.4.
    let mut buf: Vec<u8> = vec![0; 32];
    assert_eq!(value(&buf), 0x8a9136aa);

    buf = vec![0xff; 32];
    assert_eq!(value(&buf), 0x62a8ab43);

    for i in 0..32 {
        buf[i] = i as u8;
    }
    assert_eq!(value(&buf), 0x46dd794e);

    for i in 0..32 {
        buf[i] = (31 - i) as u8;
    }
    assert_eq!(value(&buf), 0x113fdb5c);

    let data = [
        0x01, 0xc0, 0x00, 0x00, 0x00, 0x00, 0x00, 0x00, 0x00, 0x00, 0x00, 0x00, 0x00,
        0x00, 0x00, 0x00, 0x14, 0x00, 0x00, 0x00, 0x00, 0x00, 0x04, 0x00, 0x00, 0x00,
        0x00, 0x14, 0x00, 0x00, 0x00, 0x18, 0x28, 0x00, 0x00, 0x00, 0x00, 0x00, 0x00,
        0x00, 0x02, 0x00, 0x00, 0x00, 0x00, 0x00, 0x00, 0x00,
    ];
    assert_eq!(value(&data), 0xd9963a56);
}

#[test]
pub fn values() {
    assert_ne!(value("a".as_bytes()), value("foo".as_bytes()));
}

#[test]
pub fn mask_and_umask() {
    let crc = value("foo".as_bytes());
    assert_ne!(crc, mask(crc));
    assert_ne!(crc, mask(mask(crc)));
    assert_eq!(crc, unmask(mask(crc)));
    assert_eq!(crc, unmask(unmask(mask(mask(crc)))));
}
