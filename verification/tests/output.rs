use lanzaboote_tool::hex::hex;
use lanzaboote_tool::tpm::output::{
    decimal, parse_clock, parse_clock_output, parse_pcr, parse_pcr7_output, space, trim, OutputError,
};

#[test]
fn knows_the_white_space_of_the_standard_library() {
    for character in '\0'..=char::MAX {
        assert_eq!(space(character), character.is_whitespace());
    }
}

#[test]
fn trims_as_the_standard_library_does() {
    for text in ["", "  ", "x", "\t x y\u{a0}\n", "\u{3000}\u{85}z\r\n"] {
        assert_eq!(trim(text), text.trim());
    }
}

#[test]
fn reads_pcr_values() {
    let mut value = [0u8; 32];
    for i in 0..32 {
        value[i] = (i * 8) as u8;
    }
    assert_eq!(parse_pcr(&hex(&value)).unwrap(), value);
    assert_eq!(parse_pcr(&hex(&value).to_uppercase()).unwrap(), value);
    assert_eq!(parse_pcr("00").unwrap_err(), OutputError::PcrLength);
    assert_eq!(parse_pcr(&"x".repeat(64)).unwrap_err(), OutputError::PcrDigits);
    assert_eq!(parse_pcr(&"é".repeat(32)).unwrap_err(), OutputError::PcrDigits);
}

#[test]
fn reads_pcr7_from_what_the_tool_prints() {
    let value = [0xa5u8; 32];
    let output = format!("  sha256:\n    7 : 0x{}\n", hex(&value).to_uppercase());
    assert_eq!(parse_pcr7_output(&output).unwrap(), value);
    let several = format!("  6 : 0x00\n  7 :\n 7 : {}\r\n7 : 0x11", hex(&value));
    assert_eq!(parse_pcr7_output(&several).unwrap(), value);
    assert_eq!(
        parse_pcr7_output("  sha256:\n    8 : 0x00\n").unwrap_err(),
        OutputError::NoPcr7
    );
    assert_eq!(parse_pcr7_output("7 : 0x00").unwrap_err(), OutputError::PcrLength);
}

#[test]
fn reads_the_clock_from_what_the_tool_prints() {
    let output = "time: 1234\nclock_info:\n  clock: 5678901\n  reset_count: 3\n";
    assert_eq!(parse_clock_output(output).unwrap(), 5_678_901);
    assert_eq!(parse_clock_output("time: 1\n").unwrap_err(), OutputError::NoClock);
    assert_eq!(parse_clock_output("clock: soon\n").unwrap_err(), OutputError::InvalidClock);
}

#[test]
fn reads_decimal_numbers_as_the_standard_library_does() {
    for text in [
        "",
        "+",
        "0",
        "+7",
        "-1",
        "007",
        "1 2",
        "12a",
        "18446744073709551615",
        "18446744073709551616",
        "99999999999999999999999",
    ] {
        assert_eq!(parse_clock(text).ok(), text.parse::<u64>().ok());
    }
}

#[test]
fn records_numbers_that_read_back() {
    for value in [0u64, 9, 10, 1000, u64::MAX] {
        assert_eq!(decimal(value), value.to_string());
        assert_eq!(parse_clock(&decimal(value)).unwrap(), value);
    }
}

#[test]
fn reads_recorded_pcr_values_back() {
    let value = [0x3cu8; 32];
    assert_eq!(parse_pcr(&trim(&hex(&value))).unwrap(), value);
}
