use qeli::protocol::ctrl::{
    client_info, is_ctrl, mtu_report, parse, parse_client_info, parse_mtu_report, CTRL_CLIENT_INFO,
    CTRL_HDR_LEN, CTRL_MAGIC, CTRL_MTU_REPORT, MAX_CLIENT_PLATFORM_LEN, MAX_CLIENT_VERSION_LEN,
    MAX_REPORTED_MTU, MIN_REPORTED_MTU,
};

/// Build a frame WITHOUT the builder's validation, to prove the parser stands on its own.
fn forge(version: &str, platform: &str) -> Vec<u8> {
    let body_len = 1 + version.len() + platform.len();
    let mut f = vec![CTRL_MAGIC[0], CTRL_MAGIC[1], CTRL_CLIENT_INFO];
    f.push(body_len.min(255) as u8);
    f.push(version.len().min(255) as u8);
    f.extend_from_slice(version.as_bytes());
    f.extend_from_slice(platform.as_bytes());
    f
}

#[test]
fn mtu_report_matches_the_shared_vector() {
    assert_eq!(mtu_report(1280), vec![0xC1, 0x9B, 0x01, 0x02, 0x05, 0x00]);
    assert_eq!(mtu_report(u16::MAX), vec![0xC1, 0x9B, 0x01, 0x02, 0xFF, 0xFF]);
    assert_eq!(mtu_report(0), vec![0xC1, 0x9B, 0x01, 0x02, 0x00, 0x00]);
}

#[test]
fn mtu_report_roundtrips() {
    let f = mtu_report(1280);
    assert!(is_ctrl(&f));
    assert_eq!(f.len(), CTRL_HDR_LEN + 2);
    assert_eq!(parse_mtu_report(&f), Some(1280));
    assert_eq!(parse(&f).map(|(t, b)| (t, b.len())), Some((CTRL_MTU_REPORT, 2)));
}

#[test]
fn magic_cannot_collide_with_an_ip_packet() {
    assert_ne!(CTRL_MAGIC[0] >> 4, 4);
    assert_ne!(CTRL_MAGIC[0] >> 4, 6);
    let ipv4 = [0x45u8, 0, 0, 40, 0, 0, 0, 0, 64, 6, 0, 0, 10, 8, 0, 2, 1, 1, 1, 1];
    assert!(!is_ctrl(&ipv4));
    let mut ipv6 = [0u8; 40];
    ipv6[0] = 0x60;
    assert!(!is_ctrl(&ipv6));
    assert!(!is_ctrl(&[]));
}

#[test]
fn malformed_frames_are_rejected_not_guessed() {
    assert_eq!(parse(&[0xC1, 0x9B, CTRL_MTU_REPORT]), None);
    assert_eq!(parse(&[0xC1, 0x9B, CTRL_MTU_REPORT, 8, 0, 0]), None);
    assert_eq!(parse_mtu_report(&[0xC1, 0x9B, CTRL_MTU_REPORT, 1, 5]), None);
    let unknown = [0xC1, 0x9B, 0xEE, 1, 7];
    assert_eq!(parse(&unknown), Some((0xEE, &[7u8][..])));
    assert_eq!(parse_mtu_report(&unknown), None);
}

#[test]
fn client_info_matches_the_shared_vector() {
    assert_eq!(
        client_info("0.7.13", "linux").unwrap(),
        vec![
            0xC1, 0x9B, 0x02, 0x0C, 0x06, b'0', b'.', b'7', b'.', b'1', b'3', b'l', b'i', b'n',
            b'u', b'x',
        ]
    );
    assert_eq!(
        parse_client_info(&client_info("0.7.13", "linux").unwrap()),
        Some(("0.7.13".into(), "linux".into()))
    );
}

#[test]
fn client_info_roundtrips_every_platform_we_ship() {
    for p in ["linux", "windows", "macos", "android", "ios", "router"] {
        let f = client_info("1.0.0-rc1+build.7", p).unwrap();
        assert!(is_ctrl(&f));
        assert_eq!(
            parse_client_info(&f),
            Some(("1.0.0-rc1+build.7".into(), p.to_string()))
        );
        assert_eq!(parse_mtu_report(&f), None);
    }
    assert_eq!(parse_client_info(&mtu_report(1400)), None);
}

#[test]
fn hostile_client_info_is_refused_outright() {
    for bad in [
        "1.0\nJul 30 12:00:00 qeli: root logged in",
        "1.0\u{1b}[2J",
        "<script>alert(1)</script>",
        "1.0\0",
        "1.0 beta",
        "1.0/../..",
        "",
    ] {
        assert!(client_info(bad, "linux").is_none(), "built: {bad:?}");
        assert!(parse_client_info(&forge(bad, "linux")).is_none(), "parsed: {bad:?}");
    }
    for bad in ["Linux", "linux_x86", "linux!", ""] {
        assert!(client_info("1.0", bad).is_none(), "built: {bad:?}");
        assert!(parse_client_info(&forge("1.0", bad)).is_none(), "parsed: {bad:?}");
    }
    let long_v = "1".repeat(MAX_CLIENT_VERSION_LEN + 1);
    let long_p = "a".repeat(MAX_CLIENT_PLATFORM_LEN + 1);
    assert!(client_info(&long_v, "linux").is_none());
    assert!(client_info("1.0", &long_p).is_none());
    assert!(parse_client_info(&forge(&long_v, "linux")).is_none());
    assert!(parse_client_info(&forge("1.0", &long_p)).is_none());
}

#[test]
fn client_info_length_field_cannot_over_read() {
    let mut f = vec![CTRL_MAGIC[0], CTRL_MAGIC[1], CTRL_CLIENT_INFO, 9, 200];
    f.extend_from_slice(b"1.0linux");
    assert_eq!(parse_client_info(&f), None);
    assert_eq!(parse_client_info(&[0xC1, 0x9B, CTRL_CLIENT_INFO, 0]), None);
    assert_eq!(parse_client_info(&forge("1.0", "")), None);
}

#[test]
fn absurd_reports_are_clamped_into_range() {
    assert_eq!(parse_mtu_report(&mtu_report(0)), Some(MIN_REPORTED_MTU));
    assert_eq!(parse_mtu_report(&mtu_report(68)), Some(MIN_REPORTED_MTU));
    assert_eq!(parse_mtu_report(&mtu_report(65535)), Some(MAX_REPORTED_MTU));
    assert_eq!(parse_mtu_report(&mtu_report(1400)), Some(1400));
}

#[test]
fn clamp_boundaries_are_inclusive() {
    assert_eq!(parse_mtu_report(&mtu_report(576)), Some(576));
    assert_eq!(parse_mtu_report(&mtu_report(575)), Some(576));
    assert_eq!(parse_mtu_report(&mtu_report(9000)), Some(9000));
    assert_eq!(parse_mtu_report(&mtu_report(9001)), Some(9000));
}

#[test]
fn trailing_bytes_after_the_body_are_ignored() {
    let mut f = mtu_report(1500);
    f.extend_from_slice(&[0xAA, 0xBB]);
    assert_eq!(parse_mtu_report(&f), Some(1500));
    assert_eq!(parse(&[0xC1, 0x9B, 0x05, 0]), Some((0x05, &[][..])));
}

#[test]
fn non_utf8_fields_are_refused() {
    let mut f = vec![CTRL_MAGIC[0], CTRL_MAGIC[1], CTRL_CLIENT_INFO, 6, 3];
    f.extend_from_slice(&[0xC3, 0x28, b'1']);
    f.extend_from_slice(b"ab");
    assert_eq!(parse_client_info(&f), None);
}

#[test]
fn limits_at_the_caps_are_accepted() {
    let v = "1".repeat(MAX_CLIENT_VERSION_LEN);
    let p = "a".repeat(MAX_CLIENT_PLATFORM_LEN);
    let f = client_info(&v, &p).unwrap();
    assert_eq!(f[3] as usize, 1 + MAX_CLIENT_VERSION_LEN + MAX_CLIENT_PLATFORM_LEN);
    assert_eq!(parse_client_info(&f), Some((v, p)));
}
