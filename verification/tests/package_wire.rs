use resolution_core::condition::{DeserializationError, VersionCondition};
use resolution_core::index::{parse_response, QueryError};
use resolution_core::package::{Package, PackageName, PackageQuery};

fn name(n: &str, v: &str) -> PackageName {
    PackageName { name: n.to_string(), variant: v.to_string() }
}

fn sample_package() -> Package {
    Package {
        name: name("caf\u{e9}-server", "x86_64"),
        dependencies: vec![
            PackageQuery {
                version: VersionCondition::GreaterThan(3),
                name: name("libfoo", "any"),
            },
            PackageQuery {
                version: VersionCondition::And(
                    Box::new(VersionCondition::Not(Box::new(VersionCondition::GreaterThan(9)))),
                    Box::new(VersionCondition::GreaterThan(1)),
                ),
                name: name("libbar", ""),
            },
        ],
        extractor: vec![0xDE, 0xAD, 0xBE, 0xEF],
    }
}

#[test]
fn test_package_roundtrip() {
    let p = sample_package();
    assert!(p.is_bounded());
    let bytes = p.store();
    let back = Package::load(&bytes).unwrap();
    assert_eq!(back, p);
}

#[test]
fn test_package_empty_fields_roundtrip() {
    let p = Package { name: name("", ""), dependencies: vec![], extractor: vec![] };
    assert!(p.is_bounded());
    let back = Package::load(&p.store()).unwrap();
    assert_eq!(back, p);
}

#[test]
fn test_package_invalid_utf8() {
    // a name field of one byte that is not valid UTF-8
    let bytes = vec![0x00u8, 0x01, 0xFF];
    assert_eq!(Package::load(&bytes).unwrap_err(), DeserializationError::InvalidString);
}

#[test]
fn test_package_trailing_data() {
    let mut bytes = sample_package().store();
    bytes.push(0x00);
    assert_eq!(Package::load(&bytes).unwrap_err(), DeserializationError::TrailingData);
}

#[test]
fn test_package_truncated() {
    let bytes = sample_package().store();
    for cut in [0usize, 1, bytes.len() / 2, bytes.len() - 1] {
        let r = Package::load(&bytes[..cut]);
        assert!(r.is_err(), "truncation to {} bytes must fail", cut);
    }
}

#[test]
fn test_package_bad_dependency_tag() {
    let p = Package {
        name: name("a", "b"),
        dependencies: vec![PackageQuery {
            version: VersionCondition::GreaterThan(1),
            name: name("d", ""),
        }],
        extractor: vec![],
    };
    let mut bytes = p.store();
    // the dependency's condition tag stands right before the 8 bound
    // bytes and the extractor length; corrupt it
    let tag_pos = bytes.len() - 4 - 8 - 1;
    assert_eq!(bytes[tag_pos], 0x02);
    bytes[tag_pos] = 0x5A;
    assert_eq!(Package::load(&bytes).unwrap_err(), DeserializationError::UnknownTag(0x5A));
}

#[test]
fn test_parse_response_classifies_bad_body() {
    let r = parse_response(&[0xFF, 0x00]);
    assert_eq!(r.unwrap_err(), QueryError::InvalidData);
}

#[test]
fn test_parse_response_ok() {
    let p = sample_package();
    let got = parse_response(&p.store()).unwrap();
    assert_eq!(got, p);
}
