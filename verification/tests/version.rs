use magicka_save::save::version::{parse_version_num, CURRENT_LAYOUT_VERSION};
use magicka_save::save::Error;

#[test]
fn parses_and_packs_components() {
    assert_eq!(parse_version_num("1.4.1.0"), Ok(CURRENT_LAYOUT_VERSION));
    assert_eq!(parse_version_num("1.4.1.0"), Ok(0x1000400010000));
    assert_eq!(parse_version_num("0.0.0.0"), Ok(0));
    assert_eq!(
        parse_version_num("2.10.3.7"),
        Ok((2u64 << 48) | (10u64 << 32) | (3u64 << 16) | 7)
    );
}

#[test]
fn accepts_leading_plus_and_zeroes() {
    // Rust's unsigned parsing, which the format follows, takes one
    // optional leading plus sign; leading zeroes are plain decimal.
    assert_eq!(parse_version_num("+1.4.1.0"), Ok(0x1000400010000));
    assert_eq!(parse_version_num("1.+4.001.0"), Ok(0x1000400010000));
}

#[test]
fn rejects_wrong_component_counts() {
    assert_eq!(parse_version_num(""), Err(Error::BadVersionString));
    assert_eq!(parse_version_num("1"), Err(Error::BadVersionString));
    assert_eq!(parse_version_num("1.4.1"), Err(Error::BadVersionString));
    assert_eq!(parse_version_num("1.4.1.0.2"), Err(Error::BadVersionString));
    assert_eq!(parse_version_num("1.4.1."), Err(Error::BadVersionString));
    assert_eq!(parse_version_num(".4.1.0"), Err(Error::BadVersionString));
}

#[test]
fn rejects_non_numeric_components() {
    assert_eq!(parse_version_num("1.4.x.0"), Err(Error::BadVersionString));
    assert_eq!(parse_version_num("1.4.1.+"), Err(Error::BadVersionString));
    assert_eq!(parse_version_num("1.4.++1.0"), Err(Error::BadVersionString));
    assert_eq!(parse_version_num("1.4. 1.0"), Err(Error::BadVersionString));
    assert_eq!(parse_version_num("1.4.-1.0"), Err(Error::BadVersionString));
}

#[test]
fn rejects_overflowing_component() {
    // u64::MAX parses; one more does not.
    assert_eq!(
        parse_version_num("18446744073709551615.0.0.0"),
        Ok(u64::MAX << 48)
    );
    assert_eq!(
        parse_version_num("18446744073709551616.0.0.0"),
        Err(Error::BadVersionString)
    );
}
