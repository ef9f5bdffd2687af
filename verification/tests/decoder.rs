use certcheck::decode::{
    decode_certificate, is_space, place_fault, strip_armor, trim_bounds, DecodeError,
};

const END_ENTITY_LINES: [&str; 10] = [
    "MIIB0jCCAXigAwIBAgICIAEwCgYIKoZIzj0EAwIwLDEYMBYGA1UEAwwPRXhhbXBs",
    "ZSBUZXN0IENBMRAwDgYDVQQKDAdFeGFtcGxlMCAXDTI2MTAyODA0MDI1N1oYDzIx",
    "MjYxMDA0MDQwMjU3WjAWMRQwEgYDVQQDDAtleGFtcGxlLmNvbTBZMBMGByqGSM49",
    "AgEGCCqGSM49AwEHA0IABLWhAMumKZXoD+oqEDI01ltPK5fPX4+a2gqbNmx82Wuw",
    "jCHRfczY5C7G24ZYfouTFR6ZLsLli0ruAVXuJZ50IwGjgZ0wgZowDAYDVR0TAQH/",
    "BAIwADAOBgNVHQ8BAf8EBAMCB4AwEwYDVR0lBAwwCgYIKwYBBQUHAwEwJQYDVR0R",
    "BB4wHIILZXhhbXBsZS5jb22CDSouZXhhbXBsZS5jb20wHQYDVR0OBBYEFDxvB01L",
    "Zro3/TwEzzgHYgDnsnrAMB8GA1UdIwQYMBaAFM1ut+zreoxhX4edqDb2B2MYKep3",
    "MAoGCCqGSM49BAMCA0gAMEUCIDVrcwro83YUDOoJ2bIDEK9pgWev3zvsVWwfM+yt",
    "UqxLAiEA1YAjhlzQuv/ZAb8W9+uQd/siEHybFAn8jZn9VcEZYUQ=",
];

const AUTHORITY_LINES: [&str; 9] = [
    "MIIBizCCATKgAwIBAgICEAAwCgYIKoZIzj0EAwIwLDEYMBYGA1UEAwwPRXhhbXBs",
    "ZSBUZXN0IENBMRAwDgYDVQQKDAdFeGFtcGxlMCAXDTI2MTAyODA0MDI1N1oYDzIx",
    "MjYxMDA0MDQwMjU3WjAsMRgwFgYDVQQDDA9FeGFtcGxlIFRlc3QgQ0ExEDAOBgNV",
    "BAoMB0V4YW1wbGUwWTATBgcqhkjOPQIBBggqhkjOPQMBBwNCAARcm6pZlzLFMOfa",
    "ebWyfLCxxWtkIDjpt+qMzv9T06wZuu9yDnaPglUwTl79sfiBPxFPh8LzQZ0ce//P",
    "dTqnIAd9o0IwQDAPBgNVHRMBAf8EBTADAQH/MA4GA1UdDwEB/wQEAwIBBjAdBgNV",
    "HQ4EFgQUzW637Ot6jGFfh52oNvYHYxgp6ncwCgYIKoZIzj0EAwIDRwAwRAIgHYFX",
    "RxOIC4sNepK9VoNTUMKZTk0AtX4ENaRLpGB3kFoCIAo+qqW8MnrNK5/f0dniEYXs",
    "b7I8WXb2sWQ7Ffri2Kug",
];

fn end_entity_base64() -> String {
    END_ENTITY_LINES.concat()
}

fn authority_base64() -> String {
    AUTHORITY_LINES.concat()
}

fn pem(lines: &[&str]) -> String {
    let mut text = String::from("-----BEGIN CERTIFICATE-----\n");
    for line in lines {
        text.push_str(line);
        text.push('\n');
    }
    text.push_str("-----END CERTIFICATE-----\n");
    text
}

fn stripped_by_std(encoded: &str) -> String {
    let joined: String =
        encoded.lines().filter(|line| !line.is_empty() && !line.starts_with('-')).collect();
    joined.trim().to_owned()
}

#[test]
fn armor_and_line_breaks_are_removed() {
    let text = "-----BEGIN CERTIFICATE-----\nQUJD\nREVG\n-----END CERTIFICATE-----\n";
    assert_eq!(strip_armor(text), "QUJDREVG");
}

#[test]
fn bare_base64_is_unchanged() {
    assert_eq!(strip_armor("QUJDREVG"), "QUJDREVG");
    assert_eq!(strip_armor(""), "");
}

#[test]
fn lines_end_at_line_feed_or_carriage_return_and_line_feed() {
    assert_eq!(strip_armor("-----BEGIN-----\r\nQUJD\r\n\r\nREVG\r\n-----END-----\r\n"), "QUJDREVG");
    assert_eq!(strip_armor("QUJD\rREVG\n"), "QUJD\rREVG");
    assert_eq!(strip_armor("QUJD\r"), "QUJD");
}

#[test]
fn white_space_is_trimmed_around_the_whole_only() {
    assert_eq!(strip_armor("  QU JD \n\tREVG\t \n"), "QU JD \tREVG");
    assert_eq!(strip_armor(" \n\t\n"), "");
    assert_eq!(strip_armor("\u{2003}QUJD\u{3000}"), "QUJD");
}

#[test]
fn a_dash_later_in_a_line_does_not_drop_it() {
    assert_eq!(strip_armor("QU-JD\n-REVG\n -x"), "QU-JD -x");
}

#[test]
fn strip_armor_agrees_with_std() {
    let texts = [
        "",
        "\n",
        "\r\n",
        "a",
        "a\n",
        "a\r\n",
        "a\r",
        "\ra",
        "a\n\nb",
        "a\r\r\nb",
        "-\n-\n",
        "-a\nb\n-c",
        " -a\nb ",
        "\n\n\n",
        "a\n \n b \n",
        "--\r\nab\r\ncd\r\n--",
        "\u{a0}x\u{85}\ny\u{1680}",
        "\u{feff}x",
        "x\u{200b}",
        "\u{2028}x\u{2029}",
        "\u{202f}x\u{205f}",
        "\u{b}x\u{c}",
        "\u{1c}x\u{1f}",
    ];
    for text in texts {
        assert_eq!(strip_armor(text), stripped_by_std(text), "for {:?}", text);
    }
    let certificate = pem(&END_ENTITY_LINES);
    assert_eq!(strip_armor(&certificate), stripped_by_std(&certificate));
    assert_eq!(strip_armor(&certificate), end_entity_base64());
}

#[test]
fn is_space_agrees_with_std() {
    for code in 0..=0x10FFFFu32 {
        if let Some(c) = char::from_u32(code) {
            assert_eq!(is_space(c), c.is_whitespace(), "for U+{:04X}", code);
        }
    }
}

#[test]
fn trim_bounds_give_the_range_without_white_space() {
    let text: Vec<char> = "  ab c \n".chars().collect();
    assert_eq!(trim_bounds(&text), (2, 6));
    let blank: Vec<char> = " \t ".chars().collect();
    assert_eq!(trim_bounds(&blank), (3, 3));
    let empty: Vec<char> = Vec::new();
    assert_eq!(trim_bounds(&empty), (0, 0));
    let plain: Vec<char> = "abc".chars().collect();
    assert_eq!(trim_bounds(&plain), (0, 3));
}

#[test]
fn base64_is_decoded() {
    assert_eq!(decode_certificate("aGVsbG8=", 0), Ok(b"hello".to_vec()));
    assert_eq!(decode_certificate("aGVsbG8", 0), Ok(b"hello".to_vec()));
    assert_eq!(decode_certificate("", 3), Ok(Vec::new()));
    assert_eq!(decode_certificate("+/+/", 0), Ok(vec![0xfb, 0xff, 0xbf]));
}

#[test]
fn armored_and_bare_decode_alike() {
    let armored = decode_certificate(&pem(&END_ENTITY_LINES), 0).unwrap();
    let bare = decode_certificate(&end_entity_base64(), 0).unwrap();
    assert_eq!(armored, bare);
    assert_eq!(armored, base64::decode(end_entity_base64()).unwrap());
    assert_eq!(armored.len(), 470);
    assert_eq!(&armored[..4], &[0x30, 0x82, 0x01, 0xd2]);
    let with_returns = pem(&END_ENTITY_LINES).replace('\n', "\r\n");
    assert_eq!(decode_certificate(&with_returns, 0).unwrap(), bare);
}

fn failure(position: usize, reason: &str) -> DecodeError {
    DecodeError { position, reason: reason.to_string() }
}

#[test]
fn text_that_is_no_base64_fails_with_its_position() {
    assert_eq!(decode_certificate("aGV*bG8=", 4), Err(failure(4, "InvalidByte(3, 42)")));
    assert_eq!(
        decode_certificate("-----BEGIN-----\nQ\n-----END-----\n", 1),
        Err(failure(1, "InvalidLength"))
    );
    assert_eq!(decode_certificate("aa", 0), Err(failure(0, "InvalidLastSymbol(1, 97)")));
    assert_eq!(decode_certificate("QUJD QU=", 2), Err(failure(2, "InvalidByte(4, 32)")));
}

#[test]
fn fault_is_the_one_that_base64_reports() {
    for text in ["aGV*bG8=", "Q", "aa", "QUJD QU=", "====", "QUJD=QUJD"] {
        let expected = base64::decode_config(text, base64::STANDARD_NO_PAD).unwrap_err();
        assert_eq!(decode_certificate(text, 7), Err(failure(7, &format!("{:?}", expected))));
    }
}

#[test]
fn place_fault_adds_the_position() {
    assert_eq!(place_fault(Ok(vec![1, 2, 3]), 5), Ok(vec![1, 2, 3]));
    assert_eq!(
        place_fault(Err("InvalidLength".to_string()), 5),
        Err(failure(5, "InvalidLength"))
    );
}

#[test]
fn decode_error_messages_name_kind_position_and_fault() {
    assert_eq!(
        failure(2, "InvalidByte(10, 45)").message(),
        "requested cert wasn't base64: certificate 2: InvalidByte(10, 45)"
    );
    assert_eq!(
        failure(0, "InvalidLength").message(),
        "requested cert wasn't base64: certificate 0: InvalidLength"
    );
    assert_eq!(authority_base64().len(), 532);
}

#[test]
fn lines_with_mixed_endings_decode_as_the_bare_text() {
    let bare = decode_certificate(&end_entity_base64(), 0).unwrap();
    let mut text = String::from("-----BEGIN CERTIFICATE-----\r\n");
    for (index, line) in END_ENTITY_LINES.iter().enumerate() {
        text.push_str(line);
        text.push_str(if index % 2 == 0 { "\n" } else { "\r\n" });
    }
    text.push_str("-----END CERTIFICATE-----");
    assert_eq!(strip_armor(&text), end_entity_base64());
    assert_eq!(decode_certificate(&text, 0).unwrap(), bare);
}
