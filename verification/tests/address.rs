use vince::address::{parse_module_key, parse_usize_digits, AddressError};
use vince::key::{ModuleIOK, ModuleKey};

#[test]
fn parses_input_address() {
    assert_eq!(
        parse_module_key("12M3I"),
        Ok(ModuleKey { id: 12, iok: ModuleIOK::Input(3) })
    );
}

#[test]
fn parses_output_address() {
    assert_eq!(
        parse_module_key("1M0O"),
        Ok(ModuleKey { id: 1, iok: ModuleIOK::Output(0) })
    );
}

#[test]
fn parses_knob_address() {
    assert_eq!(
        parse_module_key("7M2K"),
        Ok(ModuleKey { id: 7, iok: ModuleIOK::Knob(2) })
    );
}

#[test]
fn parses_whole_module_placeholder() {
    assert_eq!(
        parse_module_key("12M"),
        Ok(ModuleKey { id: 12, iok: ModuleIOK::Whole })
    );
}

#[test]
fn parses_multi_digit_index() {
    assert_eq!(
        parse_module_key("3M15I"),
        Ok(ModuleKey { id: 3, iok: ModuleIOK::Input(15) })
    );
}

#[test]
fn rejects_missing_separator() {
    assert_eq!(parse_module_key("123"), Err(AddressError::MissingSeparator));
    assert_eq!(parse_module_key(""), Err(AddressError::MissingSeparator));
}

#[test]
fn rejects_bad_id() {
    assert_eq!(parse_module_key("xM1I"), Err(AddressError::InvalidId));
    assert_eq!(parse_module_key("M1I"), Err(AddressError::InvalidId));
    assert_eq!(parse_module_key("1xM0I"), Err(AddressError::InvalidId));
}

#[test]
fn rejects_bad_index() {
    assert_eq!(parse_module_key("1MxI"), Err(AddressError::InvalidIndex));
    // Only the kind letter after the separator: the index is missing.
    assert_eq!(parse_module_key("12MI"), Err(AddressError::InvalidIndex));
}

#[test]
fn rejects_bad_kind() {
    assert_eq!(parse_module_key("1M3X"), Err(AddressError::InvalidKind));
    assert_eq!(parse_module_key("1M33"), Err(AddressError::InvalidKind));
}

#[test]
fn rejects_overflowing_id() {
    assert_eq!(
        parse_module_key("99999999999999999999999M0I"),
        Err(AddressError::InvalidId)
    );
}

#[test]
fn port_kind_predicates() {
    assert!(ModuleIOK::Whole.is_none());
    assert!(ModuleIOK::Input(0).is_input());
    assert!(ModuleIOK::Output(1).is_output());
    assert!(ModuleIOK::Knob(2).is_knob());
    assert!(!ModuleIOK::Input(0).is_knob());
    assert!(!ModuleIOK::Whole.is_output());
}

#[test]
fn digit_parser_reads_plain_decimals() {
    assert_eq!(parse_usize_digits(b"0"), Some(0));
    assert_eq!(parse_usize_digits(b"450"), Some(450));
    assert_eq!(parse_usize_digits(b""), None);
    assert_eq!(parse_usize_digits(b"4a5"), None);
    assert_eq!(parse_usize_digits(b"+45"), None);
    assert_eq!(parse_usize_digits(b"99999999999999999999999"), None);
}
