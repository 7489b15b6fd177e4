use mmvisual::config::{attach_image, parse_layout, ConfigError};
use mmvisual::numeral::Decimal;
use mmvisual::registry::DeviceRecord;

fn metres(d: Decimal) -> f64 {
    d.units as f64 / 10f64.powi(d.places as i32)
}

const WELL_FORMED: &str = "[floorplan]
shift_x_m=1.0
shift_y_m=2.0
scale_pixels_per_m=10.0
Floor1_FILE=plan.png

[devices]
beacon1=1

[beacon 1]
Hedgehog_mode=0
Position_X=3.5
Position_Y=4.5
";

#[test]
fn well_formed_file_yields_beacon_and_plan() {
    let layout = parse_layout(WELL_FORMED).unwrap();
    assert_eq!(layout.image_path, "plan.png");
    let (devices, plan) = attach_image(layout, vec![1, 2, 3]).unwrap();
    assert_eq!(devices.len(), 1);
    let d = devices[0];
    assert_eq!(d.address, 1);
    assert!(!d.is_hedge);
    assert_eq!(metres(d.x), 3.5);
    assert_eq!(metres(d.y), 4.5);
    assert_eq!(d.q, 0);
    assert_eq!(d.x, Decimal { units: 35, places: 1 });
    assert_eq!(metres(plan.origin_x), 1.0);
    assert_eq!(metres(plan.origin_y), 2.0);
    assert_eq!(metres(plan.scale_pixels_per_m), 10.0);
    assert_eq!(plan.data, vec![1, 2, 3]);
    assert_eq!(plan.ext, "png");
}

#[test]
fn missing_scale_is_a_missing_field() {
    let text = WELL_FORMED.replace("scale_pixels_per_m=10.0\n", "");
    let r = parse_layout(&text);
    assert_eq!(r.unwrap_err(), ConfigError::MissingField("scale_pixels_per_m".to_string()));
}

#[test]
fn malformed_text_is_a_syntax_error() {
    assert_eq!(parse_layout("[floorplan\nshift_x_m=1").unwrap_err(), ConfigError::Syntax);
}

#[test]
fn missing_sections_are_named() {
    assert_eq!(
        parse_layout("[other]\na=1\n").unwrap_err(),
        ConfigError::MissingSection("floorplan".to_string())
    );
    let text = WELL_FORMED.replace("[devices]", "[unused]");
    assert_eq!(parse_layout(&text).unwrap_err(), ConfigError::MissingSection("devices".to_string()));
    let text = WELL_FORMED.replace("[beacon 1]", "[beacon 2]");
    assert_eq!(parse_layout(&text).unwrap_err(), ConfigError::MissingSection("beacon 1".to_string()));
}

#[test]
fn non_numeric_values_are_refused() {
    let text = WELL_FORMED.replace("shift_y_m=2.0", "shift_y_m=two");
    assert_eq!(parse_layout(&text).unwrap_err(), ConfigError::BadNumber("shift_y_m".to_string()));
    let text = WELL_FORMED.replace("Position_X=3.5", "Position_X=3.5e");
    assert_eq!(parse_layout(&text).unwrap_err(), ConfigError::BadNumber("Position_X".to_string()));
}

#[test]
fn exponent_form_coordinates_are_read() {
    let text = WELL_FORMED.replace("Position_X=3.5", "Position_X=35e-1");
    let layout = parse_layout(&text).unwrap();
    assert_eq!(metres(layout.devices[0].x), 3.5);
}

#[test]
fn out_of_range_index_is_a_bad_address() {
    let text = WELL_FORMED.replace("beacon1=1", "beacon300=1").replace("[beacon 1]", "[beacon 300]");
    assert_eq!(parse_layout(&text).unwrap_err(), ConfigError::BadAddress("300".to_string()));
}

#[test]
fn missing_mode_is_a_missing_field() {
    let text = WELL_FORMED.replace("Hedgehog_mode=0\n", "");
    assert_eq!(parse_layout(&text).unwrap_err(), ConfigError::MissingField("Hedgehog_mode".to_string()));
}

#[test]
fn malformed_beacon_values_are_skipped() {
    for v in ["yes", "-1", "4294967296", "", "1.0"] {
        let text = WELL_FORMED.replace("beacon1=1", &format!("beacon2={}\nbeacon1=1", v));
        assert_eq!(parse_layout(&text).unwrap().devices, parse_layout(WELL_FORMED).unwrap().devices, "{}", v);
    }
    let text = WELL_FORMED.replace("beacon1=1", "beacon1=yes");
    assert_eq!(parse_layout(&text).unwrap().devices.len(), 0);
}

#[test]
fn disabled_and_mobile_beacons_are_skipped() {
    let text = WELL_FORMED.replace("beacon1=1", "beacon1=0");
    assert_eq!(parse_layout(&text).unwrap().devices.len(), 0);
    let text = WELL_FORMED.replace("Hedgehog_mode=0", "Hedgehog_mode=1");
    assert_eq!(parse_layout(&text).unwrap().devices.len(), 0);
    let text = WELL_FORMED.replace("beacon1=1", "beacon1=1\nmodem=5");
    assert_eq!(parse_layout(&text).unwrap().devices.len(), 1);
}

#[test]
fn beacons_keep_the_listed_order() {
    let text = WELL_FORMED.replace("beacon1=1", "beacon7=1\nbeacon1=+01")
        + "\n[beacon 7]\nHedgehog_mode=0\nPosition_X=-0.25\nPosition_Y=.5\n";
    let devices = parse_layout(&text).unwrap().devices;
    let addresses: Vec<u8> = devices.iter().map(|d| d.address).collect();
    assert_eq!(addresses, vec![7, 1]);
    assert_eq!(devices[0].x, Decimal { units: -25, places: 2 });
    assert_eq!(metres(devices[0].y), 0.5);
}

#[test]
fn missing_or_empty_image_is_refused() {
    let text = WELL_FORMED.replace("Floor1_FILE=plan.png\n", "");
    assert_eq!(parse_layout(&text).unwrap_err(), ConfigError::MissingImage);
    let layout = parse_layout(WELL_FORMED).unwrap();
    assert_eq!(attach_image(layout, vec![]).unwrap_err(), ConfigError::MissingImage);
}

#[test]
fn image_without_extension_is_refused() {
    let text = WELL_FORMED.replace("plan.png", "images/plan");
    let layout = parse_layout(&text).unwrap();
    assert_eq!(attach_image(layout, vec![9]).unwrap_err(), ConfigError::NoExtension);
}

#[test]
fn extension_keeps_its_case() {
    let text = WELL_FORMED.replace("plan.png", "maps/floor.v2.JPG");
    let layout = parse_layout(&text).unwrap();
    let (_, plan) = attach_image(layout, vec![9]).unwrap();
    assert_eq!(plan.ext, "JPG");
}

#[test]
fn first_floor_key_wins() {
    let text = WELL_FORMED.replace("Floor1_FILE=plan.png", "Floor1_FILE=a.png\nFloor2_FILE=b.bmp");
    assert_eq!(parse_layout(&text).unwrap().image_path, "a.png");
}

#[test]
fn seeded_beacon_record_is_fixed() {
    let layout = parse_layout(WELL_FORMED).unwrap();
    let expected = DeviceRecord {
        address: 1,
        is_hedge: false,
        x: Decimal { units: 35, places: 1 },
        y: Decimal { units: 45, places: 1 },
        q: 0,
    };
    assert_eq!(layout.devices, vec![expected]);
}
