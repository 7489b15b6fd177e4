use mmvisual::numeral::Decimal;
use mmvisual::registry::{DeviceRecord, LogRow, Registry, Sample};

fn sample(address: u8, is_hedge: bool, x_mm: i32, q: u8, time_ns: u64) -> Sample {
    Sample { address, is_hedge, x_mm, y_mm: 2 * x_mm, z_mm: 7, q, time_ns }
}

fn beacon(address: u8, units: i64) -> DeviceRecord {
    DeviceRecord {
        address,
        is_hedge: false,
        x: Decimal { units, places: 1 },
        y: Decimal { units: 0, places: 0 },
        q: 0,
    }
}

#[test]
fn no_fix_leaves_coordinates() {
    let mut reg = Registry::new();
    reg.seed_discovered(&vec![sample(4, true, 1000, 3, 1)]);
    let before = reg.snapshot();
    let rows = reg.apply_refresh(&vec![sample(4, true, 5000, 0, 10)]);
    assert!(rows.is_empty());
    assert_eq!(reg.snapshot(), before);
}

#[test]
fn unknown_address_makes_no_record() {
    let mut reg = Registry::new();
    reg.seed(&vec![beacon(1, 10)]);
    reg.apply_refresh(&vec![sample(9, false, 100, 5, 1)]);
    reg.merge_update(8, Decimal { units: 1, places: 0 }, Decimal { units: 1, places: 0 }, 9);
    assert_eq!(reg.snapshot(), vec![beacon(1, 10)]);
}

#[test]
fn usable_fix_overwrites_position() {
    let mut reg = Registry::new();
    reg.seed_discovered(&vec![sample(4, true, 1000, 0, 1)]);
    reg.apply_refresh(&vec![sample(4, true, 2500, 7, 10)]);
    let d = reg.snapshot()[0];
    assert_eq!(d.x, Decimal { units: 2500, places: 3 });
    assert_eq!(d.y, Decimal { units: 5000, places: 3 });
    assert_eq!(d.q, 7);
    assert!(d.is_hedge);
}

#[test]
fn start_launches_once() {
    let mut reg = Registry::new();
    assert!(!reg.is_running);
    assert!(reg.try_start());
    assert!(!reg.try_start());
    assert!(reg.is_running);
}

#[test]
fn seed_then_snapshot_round_trips() {
    let mut reg = Registry::new();
    reg.seed(&vec![beacon(1, 10), beacon(2, 20)]);
    assert_eq!(reg.snapshot(), vec![beacon(1, 10), beacon(2, 20)]);
    reg.seed(&vec![beacon(2, 25), beacon(3, 30)]);
    assert_eq!(reg.snapshot(), vec![beacon(1, 10), beacon(2, 25), beacon(3, 30)]);
}

#[test]
fn recording_restarts_from_header() {
    let mut reg = Registry::new();
    assert_eq!(reg.begin_recording(), "address,x,y,z,q,t\n");
    assert!(reg.recording);
    reg.end_recording();
    assert!(!reg.recording);
    assert_eq!(reg.begin_recording(), "address,x,y,z,q,t\n");
}

#[test]
fn only_mobile_tags_are_recorded() {
    let mut reg = Registry::new();
    reg.seed_discovered(&vec![sample(1, false, 0, 1, 0), sample(2, true, 0, 1, 0)]);
    reg.begin_recording();
    let rows = reg.apply_refresh(&vec![
        sample(1, false, 100, 4, 5_000_000),
        sample(2, true, 200, 4, 6_000_000),
    ]);
    assert_eq!(rows, vec![LogRow { address: 2, x_mm: 200, y_mm: 400, z_mm: 7, q: 4, t_ms: 6 }]);
    assert_eq!(reg.watermark_ns, 6_000_000);
}

#[test]
fn stale_samples_are_not_recorded() {
    let mut reg = Registry::new();
    reg.seed_discovered(&vec![sample(2, true, 0, 1, 0)]);
    reg.begin_recording();
    let rows = reg.apply_refresh(&vec![
        sample(2, true, 200, 4, 9_000_000),
        sample(2, true, 300, 4, 9_000_000),
        sample(2, true, 400, 4, 8_000_000),
    ]);
    assert_eq!(rows.len(), 1);
    assert_eq!(rows[0].x_mm, 200);
    let d = reg.snapshot()[0];
    assert_eq!(d.x, Decimal { units: 400, places: 3 });
    let rows = reg.apply_refresh(&vec![sample(2, true, 500, 4, 9_000_000)]);
    assert!(rows.is_empty());
}

#[test]
fn nothing_is_recorded_without_a_recording() {
    let mut reg = Registry::new();
    reg.seed_discovered(&vec![sample(2, true, 0, 1, 0)]);
    let rows = reg.apply_refresh(&vec![sample(2, true, 200, 4, 9_000_000)]);
    assert!(rows.is_empty());
    assert_eq!(reg.watermark_ns, 0);
    reg.begin_recording();
    reg.end_recording();
    let rows = reg.apply_refresh(&vec![sample(2, true, 200, 4, 10_000_000)]);
    assert!(rows.is_empty());
}

#[test]
fn samples_at_the_epoch_are_not_recorded() {
    let mut reg = Registry::new();
    reg.seed_discovered(&vec![sample(2, true, 0, 1, 0)]);
    reg.begin_recording();
    assert!(reg.apply_refresh(&vec![sample(2, true, 1, 4, 0)]).is_empty());
}

#[test]
fn rows_print_as_csv_lines() {
    let row = LogRow { address: 12, x_mm: -1500, y_mm: 0, z_mm: 42, q: 255, t_ms: 1_700_000_000_123 };
    assert_eq!(row.csv_line(), "12,-1500,0,42,255,1700000000123\n");
    let row = LogRow { address: 0, x_mm: i32::MIN, y_mm: i32::MAX, z_mm: -9, q: 1, t_ms: u64::MAX };
    assert_eq!(row.csv_line(), "0,-2147483648,2147483647,-9,1,18446744073709551615\n");
}
