use livescore::decoder::checksum;
use livescore::decoder::decode;
use livescore::decoder::DecodeError;

fn units_of(s: &str) -> Vec<u16> {
    s.encode_utf16().collect()
}

#[test]
fn checksum_reference_values() {
    assert_eq!(checksum(&units_of("2019-06-10 15:25:46")), 44);
    assert_eq!(checksum(&units_of("2019-06-10 15:29:12")), 40);
}

#[test]
fn checksum_falls_back_on_bad_digit() {
    // a letter in a digit position makes the whole checksum fall back
    assert_eq!(checksum(&units_of("2019-06-10 15:25:4x")), 27);
    // a window that is too short falls back as well
    assert_eq!(checksum(&units_of("2019-06-10")), 27);
}

#[test]
fn decode_rejects_short_payload() {
    let units: Vec<u16> = vec![120; 10];
    assert_eq!(decode(&units), Err(DecodeError::TooShort));
}

#[test]
fn decode_rejects_unknown_header() {
    let units: Vec<u16> = vec![120; 40];
    assert_eq!(decode(&units), Err(DecodeError::UnknownVariant));
}

#[test]
fn decode_variant_a_fixture() {
    // header padding, then ":" and " " at offsets 12..14, then the
    // 19-unit checksum window (checksum 44), then a two-unit body:
    // a newline marker and one in-window unit.
    let mut units: Vec<u16> = vec![120; 12];
    units.extend(units_of(": "));
    units.extend(units_of("2019-06-10 15:25:46"));
    units.push(33); // newline marker
    units.push(126); // rotated: (86 + 87 - 45) % 87 = 41 -> 40 + 41 = 81
    assert_eq!(units.len(), 35);
    let out = decode(&units).unwrap();
    // the body is scanned from the end towards the body start
    assert_eq!(out, vec![81, 10]);
}

#[test]
fn decode_variant_b_fixture() {
    // header padding, then "::" and " " at offsets 12..15, then the
    // checksum window (checksum 40), then one in-window unit.
    let mut units: Vec<u16> = vec![120; 12];
    units.extend(units_of(":: "));
    units.extend(units_of("2019-06-10 15:29:12"));
    units.push(126); // rotated: (85 + 86 - 41) % 86 = 44 -> 41 + 44 = 85
    assert_eq!(units.len(), 35);
    let out = decode(&units).unwrap();
    assert_eq!(out, vec![85]);
}

#[test]
fn decode_passes_unknown_units_through() {
    // body units outside the window that match no marker are kept as-is,
    // in scan order (from the end of the input backwards)
    let mut units: Vec<u16> = vec![120; 12];
    units.extend(units_of(": "));
    units.extend(units_of("2019-06-10 15:25:46"));
    units.push(9);
    units.push(10);
    let out = decode(&units).unwrap();
    assert_eq!(out, vec![10, 9]);
}

#[test]
fn decode_variant_c_marker() {
    // header padding, then ":::" and " " at offsets 12..16, then the
    // checksum window, then a three-unit space marker.
    let mut units: Vec<u16> = vec![120; 12];
    units.extend(units_of("::: "));
    units.extend(units_of("2019-06-10 15:25:46"));
    units.extend([37, 37, 37]);
    assert_eq!(units.len(), 38);
    let out = decode(&units).unwrap();
    assert_eq!(out, vec![32]);
}

#[test]
fn decode_variant_b_marker_pair() {
    // variant B markers are two units long
    let mut units: Vec<u16> = vec![120; 12];
    units.extend(units_of(":: "));
    units.extend(units_of("2019-06-10 15:29:12"));
    units.extend([33, 33]);
    let out = decode(&units).unwrap();
    assert_eq!(out, vec![10]);
}
