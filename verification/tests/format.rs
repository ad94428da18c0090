use wims::formatter::{human_format, human_format_if_needed, u64_to_string};
use wims::ProgressFormat;

#[test]
fn human_format_scales_into_kilobytes() {
    let (whole, centi, unit) = human_format(1536);
    assert_eq!(whole, 1);
    assert_eq!(centi, 50);
    assert_eq!(unit, "K");
}

#[test]
fn human_format_keeps_zero_bare() {
    let (whole, centi, unit) = human_format(0);
    assert_eq!(whole, 0);
    assert_eq!(centi, 0);
    assert_eq!(unit, "");
}

#[test]
fn human_format_reaches_terabytes() {
    let tib: u64 = 1024 * 1024 * 1024 * 1024;
    let (whole, centi, unit) = human_format(tib);
    assert_eq!(whole, 1);
    assert_eq!(centi, 0);
    assert_eq!(unit, "T");
}

#[test]
fn human_format_clamps_at_largest_unit() {
    let tib: u64 = 1024 * 1024 * 1024 * 1024;
    let (whole, _centi, unit) = human_format(2048 * tib);
    assert_eq!(whole, 2048);
    assert_eq!(unit, "T");
}

#[test]
fn human_format_small_values_keep_their_count() {
    let (whole, centi, unit) = human_format(512);
    assert_eq!(whole, 512);
    assert_eq!(centi, 0);
    assert_eq!(unit, "");
}

#[test]
fn u64_to_string_renders_decimal() {
    assert_eq!(u64_to_string(0), "0");
    assert_eq!(u64_to_string(7), "7");
    assert_eq!(u64_to_string(10), "10");
    assert_eq!(u64_to_string(1536), "1536");
    assert_eq!(u64_to_string(18446744073709551615), "18446744073709551615");
}

#[test]
fn size_rendering_raw_and_human() {
    assert_eq!(human_format_if_needed(1536, false), "1536");
    assert_eq!(human_format_if_needed(1536, true), "1.50KB");
    assert_eq!(human_format_if_needed(1024, true), "1KB");
    assert_eq!(human_format_if_needed(0, true), "0B");
    assert_eq!(human_format_if_needed(512, true), "512B");
}

#[test]
fn size_rendering_shows_decimals_whenever_inexact() {
    // Not an exact multiple of the divisor: two decimal places appear
    // even when they round down to zero.
    assert_eq!(human_format_if_needed(1031, true), "1.01KB");
    assert_eq!(human_format_if_needed(1025, true), "1.00KB");
}

#[test]
fn size_rendering_rounds_to_nearest() {
    // 1040 / 1024 = 1.015625: the hundredths round up.
    assert_eq!(human_format_if_needed(1040, true), "1.02KB");
}

#[test]
fn size_rendering_rounds_with_carry() {
    // 2047 / 1024 = 1.999...: the rounding carries into the whole part,
    // and the decimals stay shown.
    assert_eq!(human_format_if_needed(2047, true), "2.00KB");
    let (whole, centi, unit) = human_format(2047);
    assert_eq!(whole, 2);
    assert_eq!(centi, 0);
    assert_eq!(unit, "K");
}

#[test]
fn progress_format_parses_selectors() {
    assert!(matches!(ProgressFormat::from(String::from("path")), ProgressFormat::Path));
    assert!(matches!(ProgressFormat::from(String::from("PATH")), ProgressFormat::Path));
    assert!(matches!(ProgressFormat::from(String::from("raw")), ProgressFormat::Raw));
    assert!(matches!(ProgressFormat::from(String::from("Raw")), ProgressFormat::Raw));
    assert!(matches!(ProgressFormat::from(String::from("dot")), ProgressFormat::Dot));
    assert!(matches!(ProgressFormat::from(String::from("anything")), ProgressFormat::Dot));
}
