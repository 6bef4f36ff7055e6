use bk2_to_gbi::bk2::decode_input_log;
use bk2_to_gbi::bk2::parse_sync_settings;
use bk2_to_gbi::bk2::parts_to_i32;
use bk2_to_gbi::bk2::read_bk2_inputs;
use bk2_to_gbi::bk2::read_bk2_sync_settings;
use bk2_to_gbi::bk2::Bk2Error;
use bk2_to_gbi::input::Input;

fn decode_str(text: &str) -> Vec<Input> {
    decode_input_log(&text.as_bytes().to_vec())
}

#[test]
fn marker_alphabet_round_trips_each_button() {
    // one line per single button, exactly that button decoded
    let cases = [
        ("|D", 0x80u8),
        ("|U", 0x40),
        ("|L", 0x20),
        ("|R", 0x10),
        ("|S", 0x08),
        ("|s", 0x04),
        ("|B", 0x02),
        ("|A", 0x01),
    ];
    for (line, bits) in cases {
        let decoded = decode_str(line);
        assert_eq!(decoded.len(), 1);
        assert_eq!(decoded[0].bits(), bits);
    }
}

#[test]
fn marker_matching_is_case_sensitive() {
    // uppercase S is Start, lowercase s is Select
    assert_eq!(decode_str("|S")[0].bits(), 0x08);
    assert_eq!(decode_str("|s")[0].bits(), 0x04);
    assert_eq!(decode_str("|Ss")[0].bits(), 0x0C);
}

#[test]
fn all_markers_in_one_line_decode_to_all_buttons() {
    assert_eq!(decode_str("|DULRSsBA")[0].bits(), 0xFF);
}

#[test]
fn frame_count_matches_marker_lines_only() {
    let log = "[Input]\nLogKey:#Up|Down|Left|\n|...U....|\n|........|\ncomment\n|A.......|\n[/Input]\n";
    // exactly three lines begin with '|'; note the LogKey line does not
    let decoded = decode_str(log);
    assert_eq!(decoded.len(), 3);
    assert_eq!(decoded[0].bits(), 0x40);
    assert_eq!(decoded[1].bits(), 0x00);
    assert_eq!(decoded[2].bits(), 0x01);
}

#[test]
fn empty_log_decodes_to_no_frames() {
    assert_eq!(decode_str("").len(), 0);
    assert_eq!(decode_str("no markers here\nat all\n").len(), 0);
}

#[test]
fn last_line_without_newline_counts() {
    let decoded = decode_str("|A.......|\n|B");
    assert_eq!(decoded.len(), 2);
    assert_eq!(decoded[1].bits(), 0x02);
}

fn settings_doc(body: &str) -> Vec<u8> {
    body.as_bytes().to_vec()
}

#[test]
fn full_settings_resolve_without_warnings() {
    let doc = settings_doc(
        "{\"o\":{\"$type\":\"Gambatte.GambatteSyncSettings, BizHawk.Emulation.Cores\",\"GBACGB\":true,\"RTCDivisorOffset\":-7,\"EqualLengthFrames\":true}}",
    );
    let (settings, warnings) = parse_sync_settings(&doc).unwrap();
    assert!(settings.equal_length_frames);
    assert_eq!(settings.rtc_divisor_offset, -7);
    assert!(!warnings.rtc_defaulted);
    assert!(!warnings.equal_length_defaulted);
}

#[test]
fn missing_rtc_offset_defaults_to_zero_with_warning() {
    let doc = settings_doc(
        "{\"o\":{\"$type\":\"GambatteSyncSettings\",\"GBACGB\":true,\"EqualLengthFrames\":false}}",
    );
    let (settings, warnings) = parse_sync_settings(&doc).unwrap();
    assert_eq!(settings.rtc_divisor_offset, 0);
    assert!(warnings.rtc_defaulted);
    assert!(!warnings.equal_length_defaulted);
}

#[test]
fn missing_equal_length_frames_defaults_to_false_with_warning() {
    let doc = settings_doc(
        "{\"o\":{\"$type\":\"GambatteSyncSettings\",\"GBACGB\":true,\"RTCDivisorOffset\":0}}",
    );
    let (settings, warnings) = parse_sync_settings(&doc).unwrap();
    assert!(!settings.equal_length_frames);
    assert!(warnings.equal_length_defaulted);
}

#[test]
fn wrong_typed_optional_fields_default_with_warning() {
    let doc = settings_doc(
        "{\"o\":{\"$type\":\"GambatteSyncSettings\",\"GBACGB\":true,\"RTCDivisorOffset\":\"oops\",\"EqualLengthFrames\":3}}",
    );
    let (settings, warnings) = parse_sync_settings(&doc).unwrap();
    assert_eq!(settings.rtc_divisor_offset, 0);
    assert!(!settings.equal_length_frames);
    assert!(warnings.rtc_defaulted);
    assert!(warnings.equal_length_defaulted);
}

#[test]
fn inserting_ignored_lines_changes_nothing() {
    let bare = "|...U....|\n|A.......|\n";
    let padded = "[Input]\nLogKey:#Up|Down|\n|...U....|\ncomment\n|A.......|\n[/Input]\n";
    assert_eq!(decode_str(bare), decode_str(padded));
}

#[test]
fn rtc_offset_at_i32_bounds_is_accepted() {
    let doc = settings_doc(
        "{\"o\":{\"$type\":\"GambatteSyncSettings\",\"GBACGB\":true,\"RTCDivisorOffset\":-2147483648}}",
    );
    let (settings, warnings) = parse_sync_settings(&doc).unwrap();
    assert_eq!(settings.rtc_divisor_offset, i32::MIN);
    assert!(!warnings.rtc_defaulted);
}

#[test]
fn rtc_offset_outside_i32_defaults_with_warning() {
    // out of range above, out of range below (including the most negative
    // i64, which must not abort the parse), and a fractional value
    let docs = [
        "{\"o\":{\"$type\":\"GambatteSyncSettings\",\"GBACGB\":true,\"RTCDivisorOffset\":2147483648}}",
        "{\"o\":{\"$type\":\"GambatteSyncSettings\",\"GBACGB\":true,\"RTCDivisorOffset\":-9223372036854775808}}",
        "{\"o\":{\"$type\":\"GambatteSyncSettings\",\"GBACGB\":true,\"RTCDivisorOffset\":3.5}}",
    ];
    for body in docs {
        let (settings, warnings) = parse_sync_settings(&settings_doc(body)).unwrap();
        assert_eq!(settings.rtc_divisor_offset, 0);
        assert!(warnings.rtc_defaulted);
    }
}

#[test]
fn number_parts_convert_exactly_when_integral_and_in_range() {
    assert_eq!(parts_to_i32(true, 7, 0), Some(7));
    assert_eq!(parts_to_i32(false, 7, 0), Some(-7));
    assert_eq!(parts_to_i32(true, 2147483647, 0), Some(i32::MAX));
    assert_eq!(parts_to_i32(false, 2147483648, 0), Some(i32::MIN));
    assert_eq!(parts_to_i32(true, 2147483648, 0), None);
    assert_eq!(parts_to_i32(false, 2147483649, 0), None);
    assert_eq!(parts_to_i32(false, 1 << 63, 0), None);
    assert_eq!(parts_to_i32(true, 35, -1), None);
    assert_eq!(parts_to_i32(true, 3, 2), None);
}

#[test]
fn gbacgb_false_is_fatal() {
    let doc = settings_doc("{\"o\":{\"$type\":\"GambatteSyncSettings\",\"GBACGB\":false}}");
    assert_eq!(parse_sync_settings(&doc), Err(Bk2Error::NotCgbMode));
}

#[test]
fn mismatched_type_discriminator_is_fatal() {
    let doc = settings_doc("{\"o\":{\"$type\":\"NesHawkSyncSettings\",\"GBACGB\":true}}");
    assert_eq!(parse_sync_settings(&doc), Err(Bk2Error::WrongMovieType));
}

#[test]
fn unparseable_settings_are_fatal() {
    assert_eq!(parse_sync_settings(&settings_doc("not json")), Err(Bk2Error::SettingsUnreadable));
    assert_eq!(parse_sync_settings(&settings_doc("{}")), Err(Bk2Error::SettingsUnreadable));
}

fn build_archive(members: &[(&str, &str)]) -> Vec<u8> {
    let mut zw = zip::ZipWriter::new(std::io::Cursor::new(Vec::new()));
    let opts = zip::write::SimpleFileOptions::default();
    for (name, body) in members {
        zw.start_file(*name, opts).unwrap();
        std::io::Write::write_all(&mut zw, body.as_bytes()).unwrap();
    }
    zw.finish().unwrap().into_inner()
}

#[test]
fn inputs_read_from_archive() {
    let archive = build_archive(&[
        ("Input Log.txt", "[Input]\n|...U....|\n|A.......|\n[/Input]\n"),
        ("SyncSettings.json", "{\"o\":{\"$type\":\"GambatteSyncSettings\",\"GBACGB\":true}}"),
    ]);
    let inputs = read_bk2_inputs(&archive).unwrap();
    assert_eq!(inputs.len(), 2);
    assert_eq!(inputs[0].bits(), 0x40);
    assert_eq!(inputs[1].bits(), 0x01);
}

#[test]
fn sync_settings_read_from_archive() {
    let archive = build_archive(&[
        ("Input Log.txt", "|........|\n"),
        (
            "SyncSettings.json",
            "{\"o\":{\"$type\":\"GambatteSyncSettings\",\"GBACGB\":true,\"RTCDivisorOffset\":3,\"EqualLengthFrames\":true}}",
        ),
    ]);
    let (settings, warnings) = read_bk2_sync_settings(&archive).unwrap();
    assert!(settings.equal_length_frames);
    assert_eq!(settings.rtc_divisor_offset, 3);
    assert!(!warnings.rtc_defaulted);
}

#[test]
fn missing_member_is_reported() {
    let archive = build_archive(&[("SomethingElse.txt", "x")]);
    assert_eq!(read_bk2_inputs(&archive).unwrap_err(), Bk2Error::MemberMissing);
    assert_eq!(read_bk2_sync_settings(&archive).unwrap_err(), Bk2Error::MemberMissing);
}

#[test]
fn unreadable_archive_is_reported() {
    let garbage: Vec<u8> = vec![1, 2, 3, 4, 5];
    assert_eq!(read_bk2_inputs(&garbage).unwrap_err(), Bk2Error::MemberMissing);
}
