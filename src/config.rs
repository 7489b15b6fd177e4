//! The floorplan and beacon configuration: which image to draw, how metres
//! map onto it, and the surveyed fixed beacons that seed the registry.
//!
//! The `[floorplan]` section holds `shift_x_m`, `shift_y_m`,
//! `scale_pixels_per_m` and a key beginning with `Floor` that names the
//! image file. The `[devices]` section enables beacon `N` by `beaconN=1`;
//! its section `[beacon N]` holds `Hedgehog_mode` (`0` for a fixed beacon),
//! `Position_X` and `Position_Y`.

use crate::ini_doc::{
    entries_view, extension_of, first_section, ini_parse, ini_sections, path_extension,
    section_entries,
};
use crate::numeral::{decimal_of, parse_decimal, parse_unsigned, unsigned_of, Decimal};
use crate::registry::DeviceRecord;
use crate::text::{has_prefix, same_text, starts_with};
use vstd::prelude::*;

verus! {

/// Why a configuration was refused.
#[derive(Clone, Debug, PartialEq, Eq)]
pub enum ConfigError {
    /// The text is not a well-formed key/value document.
    Syntax,
    /// The named section is absent.
    MissingSection(String),
    /// The named key is absent from its section.
    MissingField(String),
    /// The named key's value is not a number.
    BadNumber(String),
    /// The beacon index that follows `beacon` is not an address from 0 to 255.
    BadAddress(String),
    /// No floor image is named, or the named image is empty.
    MissingImage,
    /// The floor image's path has no extension.
    NoExtension,
    /// A file could not be read; the text says why.
    Io(String),
}

/// `ConfigError` with its texts as character sequences.
pub enum Fault {
    Syntax,
    MissingSection(Seq<char>),
    MissingField(Seq<char>),
    BadNumber(Seq<char>),
    BadAddress(Seq<char>),
    MissingImage,
    NoExtension,
    Io(Seq<char>),
}

impl View for ConfigError {
    type V = Fault;

    open spec fn view(&self) -> Fault {
        match self {
            ConfigError::Syntax => Fault::Syntax,
            ConfigError::MissingSection(s) => Fault::MissingSection(s@),
            ConfigError::MissingField(s) => Fault::MissingField(s@),
            ConfigError::BadNumber(s) => Fault::BadNumber(s@),
            ConfigError::BadAddress(s) => Fault::BadAddress(s@),
            ConfigError::MissingImage => Fault::MissingImage,
            ConfigError::NoExtension => Fault::NoExtension,
            ConfigError::Io(s) => Fault::Io(s@),
        }
    }
}

/// The value of the first entry with key `key`.
pub open spec fn lookup(es: Seq<(Seq<char>, Seq<char>)>, key: Seq<char>) -> Option<Seq<char>>
    decreases es.len(),
{
    if es.len() == 0 {
        None
    } else if es[0].0 == key {
        Some(es[0].1)
    } else {
        lookup(es.drop_first(), key)
    }
}

/// The value of the first entry whose key begins with `Floor`.
pub open spec fn floor_image(es: Seq<(Seq<char>, Seq<char>)>) -> Option<Seq<char>>
    decreases es.len(),
{
    if es.len() == 0 {
        None
    } else if has_prefix(es[0].0, "Floor"@) {
        Some(es[0].1)
    } else {
        floor_image(es.drop_first())
    }
}

pub open spec fn decimal_field(es: Seq<(Seq<char>, Seq<char>)>, key: Seq<char>) -> Result<Decimal, Fault> {
    match lookup(es, key) {
        None => Err(Fault::MissingField(key)),
        Some(v) => match decimal_of(v) {
            None => Err(Fault::BadNumber(key)),
            Some(d) => Ok(d),
        },
    }
}

/// What one entry of `[devices]` contributes: nothing, a fixed beacon, or a
/// fault. Only a `beacon` key whose value reads as the integer 1 enables a
/// beacon; any other key or value is passed over.
pub open spec fn beacon_entry(
    secs: Seq<(Option<Seq<char>>, Seq<(Seq<char>, Seq<char>)>)>,
    key: Seq<char>,
    value: Seq<char>,
) -> Result<Option<DeviceRecord>, Fault> {
    if !has_prefix(key, "beacon"@) {
        Ok(None)
    } else {
        match unsigned_of(value, u32::MAX as int) {
            None => Ok(None),
            Some(v) => if v != 1 {
                Ok(None)
            } else {
                let index = key.skip(6);
                let name = "beacon "@ + index;
                match first_section(secs, name) {
                    None => Err(Fault::MissingSection(name)),
                    Some(b) => match lookup(b, "Hedgehog_mode"@) {
                        None => Err(Fault::MissingField("Hedgehog_mode"@)),
                        Some(mode) => if mode != "0"@ {
                            Ok(None)
                        } else {
                            match decimal_field(b, "Position_X"@) {
                                Err(f) => Err(f),
                                Ok(x) => match decimal_field(b, "Position_Y"@) {
                                    Err(f) => Err(f),
                                    Ok(y) => match unsigned_of(index, 255) {
                                        None => Err(Fault::BadAddress(index)),
                                        Some(a) => Ok(
                                            Some(
                                                DeviceRecord {
                                                    address: a as u8,
                                                    is_hedge: false,
                                                    x,
                                                    y,
                                                    q: 0,
                                                },
                                            ),
                                        ),
                                    },
                                },
                            }
                        },
                    },
                }
            },
        }
    }
}

/// The fixed beacons that the entries of `[devices]` enable, in order; the
/// first fault met, if any.
pub open spec fn beacons(
    secs: Seq<(Option<Seq<char>>, Seq<(Seq<char>, Seq<char>)>)>,
    es: Seq<(Seq<char>, Seq<char>)>,
) -> Result<Seq<DeviceRecord>, Fault>
    decreases es.len(),
{
    if es.len() == 0 {
        Ok(Seq::empty())
    } else {
        match beacons(secs, es.drop_last()) {
            Err(f) => Err(f),
            Ok(devs) => match beacon_entry(secs, es.last().0, es.last().1) {
                Err(f) => Err(f),
                Ok(None) => Ok(devs),
                Ok(Some(d)) => Ok(devs.push(d)),
            },
        }
    }
}

/// A parsed configuration, before its floor image is read.
#[derive(Clone, Debug)]
pub struct Layout {
    /// The enabled fixed beacons, in the order `[devices]` lists them.
    pub devices: Vec<DeviceRecord>,
    /// Offset of the floorplan's reference point, in metres.
    pub origin_x: Decimal,
    pub origin_y: Decimal,
    pub scale_pixels_per_m: Decimal,
    /// Path of the floor image, as written.
    pub image_path: String,
}

pub struct LayoutModel {
    pub devices: Seq<DeviceRecord>,
    pub origin_x: Decimal,
    pub origin_y: Decimal,
    pub scale_pixels_per_m: Decimal,
    pub image_path: Seq<char>,
}

impl View for Layout {
    type V = LayoutModel;

    open spec fn view(&self) -> LayoutModel {
        LayoutModel {
            devices: self.devices@,
            origin_x: self.origin_x,
            origin_y: self.origin_y,
            scale_pixels_per_m: self.scale_pixels_per_m,
            image_path: self.image_path@,
        }
    }
}

/// The layout that a document describes, or the first fault in it: the
/// floorplan fields first, then the floor image's key, then the beacons.
pub open spec fn layout_of(secs: Seq<(Option<Seq<char>>, Seq<(Seq<char>, Seq<char>)>)>) -> Result<LayoutModel, Fault> {
    match first_section(secs, "floorplan"@) {
        None => Err(Fault::MissingSection("floorplan"@)),
        Some(fp) => match decimal_field(fp, "shift_x_m"@) {
            Err(f) => Err(f),
            Ok(x) => match decimal_field(fp, "shift_y_m"@) {
                Err(f) => Err(f),
                Ok(y) => match decimal_field(fp, "scale_pixels_per_m"@) {
                    Err(f) => Err(f),
                    Ok(scale) => match floor_image(fp) {
                        None => Err(Fault::MissingImage),
                        Some(path) => match first_section(secs, "devices"@) {
                            None => Err(Fault::MissingSection("devices"@)),
                            Some(ds) => match beacons(secs, ds) {
                                Err(f) => Err(f),
                                Ok(devices) => Ok(
                                    LayoutModel {
                                        devices,
                                        origin_x: x,
                                        origin_y: y,
                                        scale_pixels_per_m: scale,
                                        image_path: path,
                                    },
                                ),
                            },
                        },
                    },
                },
            },
        },
    }
}

/// Index of the first entry with key `key`.
fn find_key(props: &Vec<(String, String)>, key: &str) -> (r: Option<usize>)
    ensures
        match lookup(entries_view(props@), key@) {
            None => r is None,
            Some(v) => r matches Some(i) && i < props@.len() && props@[i as int].1@ == v,
        },
{
    let ghost es = entries_view(props@);
    let n = props.len();
    let mut i: usize = 0;
    assert(es.skip(0) =~= es);
    while i < n
        invariant
            n == props@.len(),
            es == entries_view(props@),
            i <= n,
            lookup(es, key@) == lookup(es.skip(i as int), key@),
        decreases n - i,
    {
        assert(es.skip(i as int).drop_first() =~= es.skip(i + 1));
        assert(es.skip(i as int)[0] == es[i as int]);
        if same_text(props[i].0.as_str(), key) {
            return Some(i);
        }
        i = i + 1;
    }
    assert(es.skip(n as int).len() == 0);
    None
}

/// Index of the first entry whose key begins with `Floor`.
fn find_floor_image(props: &Vec<(String, String)>) -> (r: Option<usize>)
    ensures
        match floor_image(entries_view(props@)) {
            None => r is None,
            Some(v) => r matches Some(i) && i < props@.len() && props@[i as int].1@ == v,
        },
{
    let ghost es = entries_view(props@);
    let n = props.len();
    let mut i: usize = 0;
    assert(es.skip(0) =~= es);
    while i < n
        invariant
            n == props@.len(),
            es == entries_view(props@),
            i <= n,
            floor_image(es) == floor_image(es.skip(i as int)),
        decreases n - i,
    {
        assert(es.skip(i as int).drop_first() =~= es.skip(i + 1));
        assert(es.skip(i as int)[0] == es[i as int]);
        if starts_with(props[i].0.as_str(), "Floor") {
            return Some(i);
        }
        i = i + 1;
    }
    assert(es.skip(n as int).len() == 0);
    None
}

fn read_decimal_field(props: &Vec<(String, String)>, key: &str) -> (r: Result<Decimal, ConfigError>)
    ensures
        result_decimal(r) == decimal_field(entries_view(props@), key@),
{
    match find_key(props, key) {
        None => Err(ConfigError::MissingField(String::from_str(key))),
        Some(i) => match parse_decimal(props[i].1.as_str()) {
            None => Err(ConfigError::BadNumber(String::from_str(key))),
            Some(d) => Ok(d),
        },
    }
}

pub open spec fn result_decimal(r: Result<Decimal, ConfigError>) -> Result<Decimal, Fault> {
    match r {
        Ok(d) => Ok(d),
        Err(e) => Err(e@),
    }
}

pub open spec fn result_beacon(r: Result<Option<DeviceRecord>, ConfigError>) -> Result<Option<DeviceRecord>, Fault> {
    match r {
        Ok(d) => Ok(d),
        Err(e) => Err(e@),
    }
}

pub open spec fn result_beacons(r: Result<Vec<DeviceRecord>, ConfigError>) -> Result<Seq<DeviceRecord>, Fault> {
    match r {
        Ok(d) => Ok(d@),
        Err(e) => Err(e@),
    }
}

/// Reads one entry of `[devices]` (see `beacon_entry`).
fn read_beacon(doc: &ini::Ini, key: &str, value: &str) -> (r: Result<Option<DeviceRecord>, ConfigError>)
    ensures
        result_beacon(r) == beacon_entry(ini_sections(*doc), key@, value@),
{
    if !starts_with(key, "beacon") {
        return Ok(None);
    }
    let enabled = match parse_unsigned(value, u32::MAX as u64) {
        None => return Ok(None),
        Some(v) => v,
    };
    if enabled != 1 {
        return Ok(None);
    }
    assert(unsigned_of(value@, u32::MAX as int) == Some(1int));
    proof {
        reveal_strlit("beacon");
    }
    let index = key.substring_char(6, key.unicode_len());
    assert(index@ == key@.skip(6));
    let name = String::from_str("beacon ").concat(index);
    assert(name@ == "beacon "@ + key@.skip(6));
    let b = match section_entries(doc, name.as_str()) {
        None => return Err(ConfigError::MissingSection(name)),
        Some(b) => b,
    };
    let mode = match find_key(&b, "Hedgehog_mode") {
        None => return Err(ConfigError::MissingField(String::from_str("Hedgehog_mode"))),
        Some(i) => i,
    };
    if !same_text(b[mode].1.as_str(), "0") {
        return Ok(None);
    }
    let x = match read_decimal_field(&b, "Position_X") {
        Err(e) => return Err(e),
        Ok(x) => x,
    };
    let y = match read_decimal_field(&b, "Position_Y") {
        Err(e) => return Err(e),
        Ok(y) => y,
    };
    match parse_unsigned(index, 255) {
        None => Err(ConfigError::BadAddress(String::from_str(index))),
        Some(a) => {
            assert(a <= 255);
            Ok(Some(DeviceRecord { address: a as u8, is_hedge: false, x, y, q: 0 }))
        },
    }
}

/// Reads the entries of `[devices]` in order (see `beacons`).
fn read_beacons(doc: &ini::Ini, es: &Vec<(String, String)>) -> (r: Result<Vec<DeviceRecord>, ConfigError>)
    ensures
        result_beacons(r) == beacons(ini_sections(*doc), entries_view(es@)),
{
    let ghost secs = ini_sections(*doc);
    let ghost ev = entries_view(es@);
    let mut devices: Vec<DeviceRecord> = Vec::new();
    let n = es.len();
    let mut i: usize = 0;
    while i < n
        invariant
            n == es@.len(),
            ev == entries_view(es@),
            secs == ini_sections(*doc),
            i <= n,
            beacons(secs, ev.take(i as int)) == Ok::<Seq<DeviceRecord>, Fault>(devices@),
        decreases n - i,
    {
        proof {
            assert(ev.take(i + 1).drop_last() =~= ev.take(i as int));
            assert(ev.take(i + 1).last() == ev[i as int]);
        }
        match read_beacon(doc, es[i].0.as_str(), es[i].1.as_str()) {
            Err(e) => {
                proof {
                    lemma_beacons_err_stays(secs, ev, i as int + 1);
                }
                return Err(e);
            },
            Ok(None) => {},
            Ok(Some(d)) => {
                devices.push(d);
            },
        }
        i = i + 1;
    }
    assert(ev.take(n as int) =~= ev);
    Ok(devices)
}

/// Once a prefix of the entries has a fault, so does the whole.
proof fn lemma_beacons_err_stays(
    secs: Seq<(Option<Seq<char>>, Seq<(Seq<char>, Seq<char>)>)>,
    es: Seq<(Seq<char>, Seq<char>)>,
    j: int,
)
    requires
        0 <= j <= es.len(),
        beacons(secs, es.take(j)) is Err,
    ensures
        beacons(secs, es) == beacons(secs, es.take(j)),
    decreases es.len(),
{
    if j < es.len() {
        assert(es.drop_last().take(j) =~= es.take(j));
        lemma_beacons_err_stays(secs, es.drop_last(), j);
    } else {
        assert(es.take(j) =~= es);
    }
}

pub open spec fn result_layout(r: Result<Layout, ConfigError>) -> Result<LayoutModel, Fault> {
    match r {
        Ok(l) => Ok(l@),
        Err(e) => Err(e@),
    }
}

/// Reads the layout that a parsed document describes (see `layout_of`).
pub fn layout_from_doc(doc: &ini::Ini) -> (r: Result<Layout, ConfigError>)
    ensures
        result_layout(r) == layout_of(ini_sections(*doc)),
{
    let fp = match section_entries(doc, "floorplan") {
        None => return Err(ConfigError::MissingSection(String::from_str("floorplan"))),
        Some(fp) => fp,
    };
    let origin_x = match read_decimal_field(&fp, "shift_x_m") {
        Err(e) => return Err(e),
        Ok(v) => v,
    };
    let origin_y = match read_decimal_field(&fp, "shift_y_m") {
        Err(e) => return Err(e),
        Ok(v) => v,
    };
    let scale_pixels_per_m = match read_decimal_field(&fp, "scale_pixels_per_m") {
        Err(e) => return Err(e),
        Ok(v) => v,
    };
    let image_path = match find_floor_image(&fp) {
        None => return Err(ConfigError::MissingImage),
        Some(i) => fp[i].1.clone(),
    };
    let ds = match section_entries(doc, "devices") {
        None => return Err(ConfigError::MissingSection(String::from_str("devices"))),
        Some(ds) => ds,
    };
    let devices = match read_beacons(doc, &ds) {
        Err(e) => return Err(e),
        Ok(d) => d,
    };
    Ok(Layout { devices, origin_x, origin_y, scale_pixels_per_m, image_path })
}

/// Parses a configuration text (see `layout_of`); `Syntax` where the text is
/// not a key/value document.
pub fn parse_layout(text: &str) -> (r: Result<Layout, ConfigError>)
    ensures
        result_layout(r) == match ini_parse(text@) {
            None => Err(Fault::Syntax),
            Some(secs) => layout_of(secs),
        },
{
    match ini::Ini::load_from_str_noescape(text) {
        Err(_) => Err(ConfigError::Syntax),
        Ok(doc) => layout_from_doc(&doc),
    }
}

/// What the presentation draws under the devices.
#[derive(Clone, Debug)]
pub struct FloorPlan {
    pub origin_x: Decimal,
    pub origin_y: Decimal,
    pub scale_pixels_per_m: Decimal,
    /// The floor image, as read from its file.
    pub data: Vec<u8>,
    /// The image path's extension, which tells how to decode `data`.
    pub ext: String,
}

/// Completes a layout with the bytes of its floor image: the beacons and the
/// floorplan, or `NoExtension` where the image's path has no extension, or
/// else `MissingImage` where the image is empty.
pub fn attach_image(layout: Layout, data: Vec<u8>) -> (r: Result<(Vec<DeviceRecord>, FloorPlan), ConfigError>)
    ensures
        match extension_of(layout.image_path@) {
            None => r matches Err(e) && e@ == Fault::NoExtension,
            Some(ext) => if data@.len() == 0 {
                r matches Err(e) && e@ == Fault::MissingImage
            } else {
                r matches Ok(v) && v.0@ == layout.devices@ && v.1.origin_x == layout.origin_x
                    && v.1.origin_y == layout.origin_y && v.1.scale_pixels_per_m
                    == layout.scale_pixels_per_m && v.1.data@ == data@ && v.1.ext@ == ext
            },
        },
{
    let ext = match path_extension(layout.image_path.as_str()) {
        None => return Err(ConfigError::NoExtension),
        Some(e) => e,
    };
    if data.len() == 0 {
        return Err(ConfigError::MissingImage);
    }
    let plan = FloorPlan {
        origin_x: layout.origin_x,
        origin_y: layout.origin_y,
        scale_pixels_per_m: layout.scale_pixels_per_m,
        data,
        ext,
    };
    Ok((layout.devices, plan))
}

/// A floorplan without `scale_pixels_per_m`, whose offsets read, is refused
/// with that field named, and yields no beacons.
pub proof fn lemma_missing_scale_refused(secs: Seq<(Option<Seq<char>>, Seq<(Seq<char>, Seq<char>)>)>)
    requires
        first_section(secs, "floorplan"@) matches Some(fp) && decimal_field(fp, "shift_x_m"@) is Ok
            && decimal_field(fp, "shift_y_m"@) is Ok && lookup(fp, "scale_pixels_per_m"@) is None,
    ensures
        layout_of(secs) == Err::<LayoutModel, Fault>(Fault::MissingField("scale_pixels_per_m"@)),
{
}

/// An entry of `[devices]` that enables nothing (another key, or a `beacon`
/// key whose value is not the integer 1, malformed or not) leaves the
/// beacons as they are.
pub proof fn lemma_unenabled_entry_ignored(
    secs: Seq<(Option<Seq<char>>, Seq<(Seq<char>, Seq<char>)>)>,
    es: Seq<(Seq<char>, Seq<char>)>,
    key: Seq<char>,
    value: Seq<char>,
)
    requires
        !has_prefix(key, "beacon"@) || unsigned_of(value, u32::MAX as int) != Some(1int),
    ensures
        beacon_entry(secs, key, value) == Ok::<Option<DeviceRecord>, Fault>(None),
        beacons(secs, es.push((key, value))) == beacons(secs, es),
{
    assert(es.push((key, value)).drop_last() =~= es);
}

} // verus!
