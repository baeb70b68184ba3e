use asciiart::SizeError;
use asciiart::bytecount_format;

#[test]
fn format_zero_bytes() {
    assert_eq!(bytecount_format(0, 0).unwrap(), "0 bytes");
}

#[test]
fn format_one_kib() {
    assert_eq!(bytecount_format(1024, 0).unwrap(), "1 KiB");
}

#[test]
fn format_half_kib_fraction() {
    assert_eq!(bytecount_format(1536, 1).unwrap(), "1.5 KiB");
}

#[test]
fn format_one_mib() {
    assert_eq!(bytecount_format(1048576, 0).unwrap(), "1 MiB");
}

#[test]
fn format_out_of_range() {
    let huge: u128 = 1 << 70; // 1024^7
    assert_eq!(bytecount_format(huge, 0), Err(SizeError::OutOfRange));
    assert_eq!(bytecount_format(huge, 1), Err(SizeError::OutOfRange));
    assert_eq!(bytecount_format(huge, 7), Err(SizeError::OutOfRange));
    assert_eq!(bytecount_format(u128::MAX, 0), Err(SizeError::OutOfRange));
}

#[test]
fn format_largest_in_range() {
    let largest: u128 = (1 << 70) - 1;
    assert_eq!(bytecount_format(largest, 0).unwrap(), "1023 EiB");
}

#[test]
fn format_truncates_at_precision_zero() {
    // At precision zero the scaled value is the floor of the ratio.
    assert_eq!(bytecount_format(1535, 0).unwrap(), "1 KiB");
    assert_eq!(bytecount_format(2047, 0).unwrap(), "1 KiB");
    assert_eq!(bytecount_format(1023, 0).unwrap(), "1023 bytes");
    assert_eq!(bytecount_format(1048575, 0).unwrap(), "1023 KiB");
}

#[test]
fn format_unit_boundaries() {
    assert_eq!(bytecount_format(1, 0).unwrap(), "1 bytes");
    assert_eq!(bytecount_format(1073741824, 0).unwrap(), "1 GiB");
    assert_eq!(bytecount_format(1099511627776, 0).unwrap(), "1 TiB");
    assert_eq!(bytecount_format(1125899906842624, 0).unwrap(), "1 PiB");
    assert_eq!(bytecount_format(1152921504606846976, 0).unwrap(), "1 EiB");
}

#[test]
fn format_pads_fraction_with_zeros() {
    assert_eq!(bytecount_format(1536, 3).unwrap(), "1.500 KiB");
    assert_eq!(bytecount_format(1024, 2).unwrap(), "1.00 KiB");
    assert_eq!(bytecount_format(0, 2).unwrap(), "0.00 bytes");
    assert_eq!(bytecount_format(1536, 12).unwrap(), "1.500000000000 KiB");
}

#[test]
fn format_rounds_half_away_from_zero() {
    // 1124 / 1024 = 1.09765..., shown with one fractional digit as 1.1.
    assert_eq!(bytecount_format(1124, 1).unwrap(), "1.1 KiB");
    // 2047 / 1024 = 1.99902..., the rounding carry runs into the integer part.
    assert_eq!(bytecount_format(2047, 1).unwrap(), "2.0 KiB");
    assert_eq!(bytecount_format(2047, 2).unwrap(), "2.00 KiB");
}
