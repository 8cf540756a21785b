use nmea0183::messages::gga::GGA;
use nmea0183::messages::gns::GNS;
use nmea0183::messages::gsa::GSA;
use nmea0183::messages::rmc::RMC;

#[test]
fn test_gga() {
    let bytes = b"092725.00,4717.11399,N,00833.91590,E,1,08,1.01,499.6,M,48.0,M,,";
    let gga = GGA::from_bytes(&bytes[..]);
    assert_eq!("09:27:25.00", gga.time.to_text());
    assert_eq!("N47\u{b0}17'11\"399", gga.latitude.to_text());
    assert_eq!("E008\u{b0}33'91\"590", gga.longitude.to_text());
    assert_eq!("Autonomous", format!("{:?}", gga.quality));
    assert_eq!(8, gga.num_satellites);
    assert_eq!("1.1#2", gga.hdop.to_text());
    assert_eq!("499.6#1", gga.altitude.to_text());

    let bytes = b"092725.00,,,,,,,,,,,,,";
    GGA::from_bytes(&bytes[..]);
}

#[test]
fn test_gns() {
    let bytes = b"103600.01,5114.51176,N,00012.29380,W,ANNN,07,1.18,111.5,45.6,,,V";
    let gns = GNS::from_bytes(&bytes[..]);
    assert_eq!("10:36:00.01", gns.time.to_text());
    assert_eq!("N51\u{b0}14'51\"176", gns.latitude.to_text());
    assert_eq!("W000\u{b0}12'29\"380", gns.longitude.to_text());
    assert_eq!(
        "[Autonomous, NoFix, NoFix, NoFix]",
        format!(
            "[{:?}, {:?}, {:?}, {:?}]",
            gns.position_modes.0, gns.position_modes.1, gns.position_modes.2, gns.position_modes.3
        )
    );
    assert_eq!(7, gns.num_satellites);
    assert_eq!("1.18#2", gns.hdop.to_text());
    assert_eq!("111.5#1", gns.altitude.to_text());

    let bytes = b"103600.01,,,,,,,,,,,,V";
    GNS::from_bytes(&bytes[..]);
}

#[test]
fn test_gsa() {
    let bytes = b"A,3,23,29,07,08,09,18,26,28,,,,,1.94,1.18,1.54,1";
    let gsa = GSA::from_bytes(&bytes[..]);
    assert_eq!("Auto", format!("{:?}", gsa.operation_mode));
    assert_eq!("_3DFix", format!("{:?}", gsa.navigation_mode));
}

#[test]
fn test_rmc() {
    let bytes = b"083559.00,A,4717.11437,N,00833.91522,E,0.004,77.52,091202,,,A,V*57";
    let rmc = RMC::from_bytes(&bytes[..]);
    assert_eq!("08:35:59.00", rmc.time.to_text());
    assert_eq!("N47\u{b0}17'11\"437", rmc.latitude.to_text());
    assert_eq!("E008\u{b0}33'91\"522", rmc.longitude.to_text());
    assert_eq!("0.4#3", rmc.speed.to_text());
    assert_eq!("77.52#2", rmc.course.to_text());
    assert_eq!("021209", rmc.date.to_text());
    assert_eq!("Autonomous", format!("{:?}", rmc.position_mode));

    let bytes = b"083559.00,,,,,,,,,,,,";
    let _ = RMC::from_bytes(&bytes[..]);
}

#[test]
fn gga_short_payload_is_default() {
    let gga = GGA::from_bytes(b"092725.00,4717.11399,N");
    assert_eq!(0, gga.num_satellites);
    assert_eq!(0, gga.latitude.0);
    assert_eq!("0.0#0", gga.altitude.to_text());
}

#[test]
fn gsa_no_comma_is_default() {
    let gsa = GSA::from_bytes(b"A");
    assert_eq!("Manual", format!("{:?}", gsa.operation_mode));
    assert_eq!("NoFix", format!("{:?}", gsa.navigation_mode));
}

#[test]
fn rmc_short_payload_is_default() {
    let rmc = RMC::from_bytes(b"083559.00,A,4717.11437");
    assert_eq!("00:00:00.00", rmc.time.to_text());
    assert!(rmc.heading.is_none());
}

#[test]
fn rmc_westerly_variation_wraps() {
    let bytes = b"083559.00,A,4717.11437,N,00833.91522,E,0.004,77.52,091202,3.05,W,A,V";
    let rmc = RMC::from_bytes(&bytes[..]);
    let heading = rmc.heading.expect("variation field is present");
    assert_eq!(18305, heading.combined());
    assert_eq!("183.5#2", heading.to_text());
}

#[test]
fn rmc_easterly_variation_kept() {
    let bytes = b"083559.00,A,4717.11437,N,00833.91522,E,0.004,77.52,091202,3.05,E,A,V";
    let rmc = RMC::from_bytes(&bytes[..]);
    let heading = rmc.heading.expect("variation field is present");
    assert_eq!("3.5#2", heading.to_text());
}

#[test]
fn gns_long_mode_field_is_clamped() {
    let bytes = b"103600.01,5114.51176,N,00012.29380,W,ANNNDD,07,1.18,111.5,45.6,,,V";
    let gns = GNS::from_bytes(&bytes[..]);
    assert_eq!("Autonomous", format!("{:?}", gns.position_modes.0));
    assert_eq!("NoFix", format!("{:?}", gns.position_modes.3));
}

#[test]
fn gga_southern_western_hemispheres() {
    let bytes = b"092725.00,4717.11399,S,00833.91590,W,1,08,1.01,499.6,M,48.0,M,,";
    let gga = GGA::from_bytes(&bytes[..]);
    assert!(gga.latitude.is_south());
    assert!(gga.longitude.is_west());
    assert_eq!("S47\u{b0}17'11\"399", gga.latitude.to_text());
    assert_eq!("W008\u{b0}33'91\"590", gga.longitude.to_text());
}
