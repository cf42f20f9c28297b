use bspedit::bsp::BSPError;
use bspedit::kv::Entity;
use bspedit::message::{push_decimal, push_hex, push_hex8};

#[test]
fn invalid_header_shows_eight_hex_digits() {
    assert_eq!(BSPError::InvalidHeader(0x5153_4256).message(), "Invalid header: 51534256!");
    assert_eq!(BSPError::InvalidHeader(0xBEEF).message(), "Invalid header: 0000BEEF!");
    assert_eq!(BSPError::InvalidHeader(0).message(), "Invalid header: 00000000!");
}

#[test]
fn invalid_version_shows_decimal() {
    assert_eq!(BSPError::InvalidVersion(18).message(), "Invalid version: 18, must be 19 or 20!");
    assert_eq!(
        BSPError::InvalidVersion(u32::MAX).message(),
        "Invalid version: 4294967295, must be 19 or 20!"
    );
}

#[test]
fn invalid_pak_file_shows_hex_without_padding() {
    assert_eq!(BSPError::InvalidPakFile(0x1F).message(), "Invalid PakFile data at: 1F!");
    assert_eq!(BSPError::InvalidPakFile(0).message(), "Invalid PakFile data at: 0!");
    assert_eq!(BSPError::InvalidPakFile(0xABCDEF01).message(), "Invalid PakFile data at: ABCDEF01!");
}

#[test]
fn other_errors_name_what_failed() {
    assert_eq!(BSPError::TruncatedHeader(12).message(), "Truncated header: only 12 bytes!");
    assert_eq!(BSPError::LumpOutOfBounds(7).message(), "Lump 7 lies outside the file!");
    assert_eq!(BSPError::InvalidEntities(12).message(), "Invalid entity data at: C!");
    assert_eq!(BSPError::LumpOverflow(40).message(), "Lump 40 does not fit into its old place!");
    assert_eq!(BSPError::EncodeFailed(0).message(), "Lump 0 could not be encoded!");
}

#[test]
fn numbers_are_appended_in_their_format() {
    let mut out = b"n=".to_vec();
    push_decimal(&mut out, 1050);
    out.push(b' ');
    push_hex(&mut out, 0xA0F);
    out.push(b' ');
    push_hex8(&mut out, 0xA0F);
    out.push(b' ');
    push_decimal(&mut out, 0);
    assert_eq!(out, b"n=1050 A0F 00000A0F 0");
}

#[test]
fn label_has_number_name_and_star() {
    let mut e = Entity {
        string: "{\n\"classname\" \"light\"\n\"origin\" \"100 200 300\"\n}".to_string(),
        dirty: false,
    };
    assert_eq!(e.label(0), "0: light< 200 300>");
    e.dirty = true;
    assert_eq!(e.label(123), "123: light< 200 300> *");
    let empty = Entity { string: String::new(), dirty: true };
    assert_eq!(empty.label(4), "4:  *");
}
