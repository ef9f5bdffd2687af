use certcheck::decode::decode_certificate;
use certcheck::introspect::{
    describe_certificate, diagnostic_output, inspect_certificate, report_lines, AlternativeNames,
    DiagnosticReport,
};

const END_ENTITY_LINES: [&str; 10] = [
    "MIIB0jCCAXigAwIBAgICIAEwCgYIKoZIzj0EAwIwLDEYMBYGA1UEAwwPRXhhbXBs",
    "ZSBUZXN0IENBMRAwDgYDVQQKDAdFeGFtcGxlMCAXDTI2MTAyODA0MDI1N1oYDzIx",
    "MjYxMDA0MDQwMjU3WjAWMRQwEgYDVQQDDAtleGFtcGxlLmNvbTBZMBMGByqGSM49",
    "AgEGCCqGSM49AwEHA0IABLWhAMumKZXoD+oqEDI01ltPK5fPX4+a2gqbNmx82Wuw",
    "jCHRfczY5C7G24ZYfouTFR6ZLsLli0ruAVXuJZ50IwGjgZ0wgZowDAYDVR0TAQH/",
    "BAIwADAOBgNVHQ8BAf8EBAMCB4AwEwYDVR0lBAwwCgYIKwYBBQUHAwEwJQYDVR0R",
    "BB4wHIILZXhhbXBsZS5jb22CDSouZXhhbXBsZS5jb20wHQYDVR0OBBYEFDxvB01L",
    "Zro3/TwEzzgHYgDnsnrAMB8GA1UdIwQYMBaAFM1ut+zreoxhX4edqDb2B2MYKep3",
    "MAoGCCqGSM49BAMCA0gAMEUCIDVrcwro83YUDOoJ2bIDEK9pgWev3zvsVWwfM+yt",
    "UqxLAiEA1YAjhlzQuv/ZAb8W9+uQd/siEHybFAn8jZn9VcEZYUQ=",
];

const AUTHORITY_LINES: [&str; 9] = [
    "MIIBizCCATKgAwIBAgICEAAwCgYIKoZIzj0EAwIwLDEYMBYGA1UEAwwPRXhhbXBs",
    "ZSBUZXN0IENBMRAwDgYDVQQKDAdFeGFtcGxlMCAXDTI2MTAyODA0MDI1N1oYDzIx",
    "MjYxMDA0MDQwMjU3WjAsMRgwFgYDVQQDDA9FeGFtcGxlIFRlc3QgQ0ExEDAOBgNV",
    "BAoMB0V4YW1wbGUwWTATBgcqhkjOPQIBBggqhkjOPQMBBwNCAARcm6pZlzLFMOfa",
    "ebWyfLCxxWtkIDjpt+qMzv9T06wZuu9yDnaPglUwTl79sfiBPxFPh8LzQZ0ce//P",
    "dTqnIAd9o0IwQDAPBgNVHRMBAf8EBTADAQH/MA4GA1UdDwEB/wQEAwIBBjAdBgNV",
    "HQ4EFgQUzW637Ot6jGFfh52oNvYHYxgp6ncwCgYIKoZIzj0EAwIDRwAwRAIgHYFX",
    "RxOIC4sNepK9VoNTUMKZTk0AtX4ENaRLpGB3kFoCIAo+qqW8MnrNK5/f0dniEYXs",
    "b7I8WXb2sWQ7Ffri2Kug",
];

fn end_entity_base64() -> String {
    END_ENTITY_LINES.concat()
}

fn authority_base64() -> String {
    AUTHORITY_LINES.concat()
}

fn pem(lines: &[&str]) -> String {
    let mut text = String::from("-----BEGIN CERTIFICATE-----\n");
    for line in lines {
        text.push_str(line);
        text.push('\n');
    }
    text.push_str("-----END CERTIFICATE-----\n");
    text
}

fn end_entity_report() -> DiagnosticReport {
    DiagnosticReport {
        subject: "CN=example.com".to_string(),
        alternative_names: AlternativeNames::Listed(
            "[DNSName(\"example.com\"), DNSName(\"*.example.com\")]".to_string(),
        ),
        issuer: "CN=Example Test CA, O=Example".to_string(),
        serial: "20:01".to_string(),
        version: "X509Version(2)".to_string(),
        is_ca: false,
    }
}

#[test]
fn end_entity_certificate_is_read() {
    let der = decode_certificate(&pem(&END_ENTITY_LINES), 0).unwrap();
    assert_eq!(inspect_certificate(&der), Some(end_entity_report()));
}

#[test]
fn authority_certificate_is_read() {
    let der = decode_certificate(&authority_base64(), 1).unwrap();
    let report = inspect_certificate(&der).unwrap();
    assert_eq!(report.subject, "CN=Example Test CA, O=Example");
    assert_eq!(report.issuer, "CN=Example Test CA, O=Example");
    assert_eq!(report.alternative_names, AlternativeNames::Absent);
    assert_eq!(report.serial, "10:00");
    assert!(report.is_ca);
    assert_eq!(end_entity_base64().len(), 628);
}

#[test]
fn bytes_that_are_no_certificate_give_no_report() {
    assert_eq!(inspect_certificate(b"hello"), None);
    assert_eq!(inspect_certificate(&[]), None);
    assert_eq!(describe_certificate(b"hello"), Vec::<String>::new());
    let der = decode_certificate(&end_entity_base64(), 0).unwrap();
    assert_eq!(inspect_certificate(&der[..der.len() - 1]), None);
}

#[test]
fn report_has_a_line_for_each_field() {
    let lines = report_lines(&end_entity_report());
    assert_eq!(
        lines,
        vec![
            "\tX.509 Subject: CN=example.com".to_string(),
            "\tX.509 Alternative Subject(s): [DNSName(\"example.com\"), DNSName(\"*.example.com\")]"
                .to_string(),
            "\tX.509 Issuer: CN=Example Test CA, O=Example".to_string(),
            "\tX.509 serial: 20:01".to_string(),
            "\tX.509 version: X509Version(2)".to_string(),
            "\tX.509 CA? false".to_string(),
        ]
    );
}

#[test]
fn report_without_alternative_names_has_no_line_for_them() {
    for names in [AlternativeNames::Absent, AlternativeNames::Unreadable] {
        let report = DiagnosticReport {
            subject: "CN=a".to_string(),
            alternative_names: names,
            issuer: "CN=b".to_string(),
            serial: "01".to_string(),
            version: "X509Version(0)".to_string(),
            is_ca: true,
        };
        assert_eq!(
            report_lines(&report),
            vec![
                "\tX.509 Subject: CN=a".to_string(),
                "\tX.509 Issuer: CN=b".to_string(),
                "\tX.509 serial: 01".to_string(),
                "\tX.509 version: X509Version(0)".to_string(),
                "\tX.509 CA? true".to_string(),
            ]
        );
    }
}

#[test]
fn alternative_names_that_are_not_well_formed_are_unreadable() {
    let mut der = decode_certificate(&end_entity_base64(), 0).unwrap();
    let extension =
        der.windows(5).position(|bytes| bytes == [0x55, 0x1d, 0x11, 0x04, 0x1e]).unwrap();
    assert_eq!(der[extension + 5], 0x30);
    der[extension + 5] = 0x31;
    let report = inspect_certificate(&der).unwrap();
    assert_eq!(report.alternative_names, AlternativeNames::Unreadable);
    assert_eq!(report.subject, "CN=example.com");
    assert_eq!(describe_certificate(&der).len(), 5);
}

#[test]
fn missing_report_says_nothing() {
    assert_eq!(diagnostic_output(&None), Vec::<String>::new());
    assert_eq!(diagnostic_output(&Some(end_entity_report())), report_lines(&end_entity_report()));
}

#[test]
fn certificate_is_described_by_its_report() {
    let der = decode_certificate(&end_entity_base64(), 0).unwrap();
    assert_eq!(describe_certificate(&der), report_lines(&end_entity_report()));
}
