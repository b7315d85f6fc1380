use exfil::gamma::{
    capable_displays, get_ramp, neutral_ramp, probe_names, reset, set_ramp, ColorDials, DriverReply, GammaRamp,
};

#[test]
fn neutral_dials_are_one_zero_one() {
    let d = ColorDials::default();
    assert_eq!(f64::from_bits(d.gamma), 1.0);
    assert_eq!(f64::from_bits(d.brightness), 0.0);
    assert_eq!(f64::from_bits(d.contrast), 1.0);
}

#[test]
fn neutral_ramp_is_identity_curve() {
    let r = neutral_ramp();
    for c in 0..3 {
        assert_eq!(r[c][0], 0);
        assert_eq!(r[c][128], 128 * 257);
        assert_eq!(r[c][255], 65535);
    }
}

/// The dial curve at the neutral dials, computed as the application does.
fn float_curve_entry(i: usize) -> u16 {
    let gamma: f64 = 1.0;
    let bright: f64 = 0.0;
    let contrast: f64 = 1.0;
    let mut v = i as f64 / 255.0;
    v = (v - 0.5) * contrast + 0.5;
    v += bright;
    v = v.clamp(0.0, 1.0).powf(1.0 / gamma);
    (v * 65535.0).round().clamp(0.0, 65535.0) as u16
}

#[test]
fn neutral_ramp_matches_float_curve() {
    let r = neutral_ramp();
    for i in 0..256 {
        assert_eq!(r[0][i], float_curve_entry(i));
        assert_eq!(r[1][i], r[0][i]);
        assert_eq!(r[2][i], r[0][i]);
    }
}

#[test]
fn get_ramp_maps_driver_answers() {
    let ramp: GammaRamp = neutral_ramp();
    assert_eq!(get_ramp(DriverReply::Done(ramp)).unwrap()[1][10], 2570);
    assert_eq!(get_ramp(DriverReply::Unsupported).unwrap_err(), "gamma: Windows only");
    assert_eq!(get_ramp(DriverReply::NoDevice).unwrap_err(), "CreateDCW(DISPLAY) failed");
    assert_eq!(get_ramp(DriverReply::Refused).unwrap_err(), "GetDeviceGammaRamp failed");
}

#[test]
fn set_ramp_needs_every_display() {
    assert!(set_ramp(vec![DriverReply::Done(()), DriverReply::Done(())]).is_ok());
    assert_eq!(set_ramp(vec![]).unwrap_err(), "no gamma-capable display");
    assert_eq!(set_ramp(vec![DriverReply::Unsupported]).unwrap_err(), "gamma: Windows only");
    assert_eq!(
        set_ramp(vec![DriverReply::NoDevice, DriverReply::Done(())]).unwrap_err(),
        "CreateDCW(DISPLAY) failed"
    );
    assert_eq!(
        set_ramp(vec![DriverReply::NoDevice, DriverReply::Refused, DriverReply::Done(())]).unwrap_err(),
        "SetDeviceGammaRamp failed (driver may clamp extreme ramps)"
    );
}

#[test]
fn reset_reports_like_a_write() {
    assert!(reset(vec![DriverReply::Done(())]).is_ok());
    assert_eq!(reset(vec![DriverReply::Unsupported]).unwrap_err(), "gamma: Windows only");
    assert_eq!(
        reset(vec![DriverReply::Done(()), DriverReply::Refused]).unwrap_err(),
        "SetDeviceGammaRamp failed (driver may clamp extreme ramps)"
    );
}

#[test]
fn probes_cover_display_one_to_sixteen() {
    let names = probe_names();
    assert_eq!(names.len(), 16);
    assert_eq!(names[0], "\\\\.\\DISPLAY1");
    assert_eq!(names[15], "\\\\.\\DISPLAY16");
}

#[test]
fn only_answering_displays_are_capable() {
    let r = neutral_ramp();
    let probes = vec![
        DriverReply::Done(r),
        DriverReply::NoDevice,
        DriverReply::Done(r),
        DriverReply::Refused,
    ];
    assert_eq!(capable_displays(&probes), vec![1, 3]);
}
