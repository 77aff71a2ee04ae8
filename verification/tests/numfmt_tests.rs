use dirstat::numfmt::{IecSizeShort, SiFilesShort};

#[test]
fn iec_singular_one() {
    assert_eq!(IecSizeShort(1).format(), "    1 B");
}

#[test]
fn iec_zero() {
    assert_eq!(IecSizeShort(0).format(), "    0 B");
}

#[test]
fn iec_999_exact_no_prefix() {
    assert_eq!(IecSizeShort(999).format(), "  999 B");
}

#[test]
fn iec_1000_first_prefix_step() {
    assert_eq!(IecSizeShort(1000).format(), "0.977 KiB");
}

#[test]
fn iec_three_decimals_under_ten() {
    // 10240 / 1024 = 10.0 exactly: just over the three-decimal band.
    assert_eq!(IecSizeShort(10240).format(), "10.00 KiB");
    assert_eq!(IecSizeShort(10239).format(), "9.999 KiB");
}

#[test]
fn iec_one_decimal_band() {
    // 204800 / 1024 = 200.0
    assert_eq!(IecSizeShort(204800).format(), "200.0 KiB");
}

#[test]
fn iec_boundary_stays_at_step_zero() {
    // One unit below 1024 * 999.95 = 1023948.8 stays at the Ki step.
    assert_eq!(IecSizeShort(1023948).format(), "999.9 KiB");
    // Reaching it moves to the Mi step.
    assert_eq!(IecSizeShort(1023949).format(), "0.977 MiB");
}

#[test]
fn iec_boundary_stays_at_step_one() {
    // One unit below 1024^2 * 999.95 = 1048523571.2 stays at the Mi step.
    assert_eq!(IecSizeShort(1048523571).format(), "999.9 MiB");
    assert_eq!(IecSizeShort(1048523572).format(), "0.977 GiB");
}

#[test]
fn iec_max_is_capped_at_sixth_step() {
    assert_eq!(IecSizeShort(u64::MAX).format(), "16.00 EiB");
}

#[test]
fn si_singular_one() {
    assert_eq!(SiFilesShort(1).format(), "    1 file ");
}

#[test]
fn si_999_exact_no_prefix() {
    assert_eq!(SiFilesShort(999).format(), "  999 files");
}

#[test]
fn si_1000_first_prefix_step() {
    assert_eq!(SiFilesShort(1000).format(), "1.000 kfiles");
}

#[test]
fn si_large_count() {
    // 2_500_000 / 1_000_000 = 2.5
    assert_eq!(SiFilesShort(2_500_000).format(), "2.500 Mfiles");
}
