use exfil::adl::{already_admitted, display_usable, readable_count, saturation_not_denied};
use exfil::scale::VibranceScale;
use exfil::vibrance::{clamp_level, default_level, every_output, make_version, vib_scale, Vendor, VibranceInfo};

fn info(current: i32, min: i32, max: i32, default: i32) -> VibranceInfo {
    VibranceInfo { current, min, max, default }
}

#[test]
fn vendor_names() {
    assert_eq!(Vendor::Nvidia.vendor(), "nvidia");
    assert_eq!(Vendor::Amd.vendor(), "amd");
}

#[test]
fn default_level_prefers_the_driver() {
    assert_eq!(default_level(Vendor::Nvidia, &Ok(info(70, 0, 100, 50))), 50);
    assert_eq!(default_level(Vendor::Amd, &Ok(info(70, 0, 200, 120))), 120);
    assert_eq!(default_level(Vendor::Nvidia, &Err("x".to_string())), 50);
    assert_eq!(default_level(Vendor::Amd, &Err("x".to_string())), 100);
}

#[test]
fn levels_are_clamped_per_output() {
    let i = info(50, 0, 100, 50);
    assert_eq!(clamp_level(150, i), 100);
    assert_eq!(clamp_level(-5, i), 0);
    assert_eq!(clamp_level(42, i), 42);
}

#[test]
fn scale_of_reading_or_legacy() {
    assert_eq!(vib_scale(Some(info(1, 0, 200, 100))), VibranceScale { min: 0, max: 200, default: 100 });
    assert_eq!(vib_scale(None), VibranceScale { min: 0, max: 100, default: 50 });
}

#[test]
fn every_output_reports_last_failure() {
    assert_eq!(every_output(vec![], "no NVIDIA display handle").unwrap_err(), "no NVIDIA display handle");
    assert!(every_output(vec![Ok(()), Ok(())], "none").is_ok());
    let r = every_output(
        vec![Err("first".to_string()), Ok(()), Err("second".to_string()), Ok(())],
        "none",
    );
    assert_eq!(r.unwrap_err(), "second");
}

#[test]
fn nvapi_version_stamp() {
    assert_eq!(make_version(20, 1), 20 | (1 << 16));
    assert_eq!(make_version(20, 1), 65556);
}

#[test]
fn adl_display_filters() {
    assert!(display_usable(3, 0, 0));
    assert!(display_usable(7, 1, 1));
    assert!(!display_usable(1, 0, 0));
    assert!(!display_usable(3, 1, 0));
    assert!(saturation_not_denied(true, 4, 4));
    assert!(!saturation_not_denied(true, 4, 0));
    assert!(!saturation_not_denied(true, 0, 4));
    assert!(saturation_not_denied(false, 0, 0));
}

#[test]
fn adl_reads_no_more_than_allocated() {
    assert_eq!(readable_count(5, 1000, 100), 5);
    assert_eq!(readable_count(50, 1000, 100), 10);
    assert_eq!(readable_count(-2, 1000, 100), 0);
    assert_eq!(readable_count(3, 250, 100), 2);
}

#[test]
fn each_display_is_admitted_once() {
    let admitted = vec![(0, 3), (1, 0)];
    assert!(already_admitted(&admitted, 0, 3));
    assert!(already_admitted(&admitted, 1, 0));
    assert!(!already_admitted(&admitted, 0, 0));
    assert!(!already_admitted(&admitted, 3, 0));
    assert!(!already_admitted(&Vec::new(), 0, 3));
}
