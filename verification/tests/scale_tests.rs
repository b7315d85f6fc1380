use exfil::scale::{legacy_scale, VibranceScale};

#[test]
fn legacy_scale_is_nvidia_measured() {
    assert_eq!(legacy_scale(), VibranceScale { min: 0, max: 100, default: 50 });
}
