use desilence::manifest::{entry_line, header_line, manifest_text, piece_name, PIECE_DIGITS};

#[test]
fn piece_names_carry_the_number_in_eight_hex_digits() {
    assert_eq!(PIECE_DIGITS, 8);
    assert_eq!(piece_name(0), "piece-00000000.mkv");
    assert_eq!(piece_name(1), "piece-00000001.mkv");
    assert_eq!(piece_name(10), "piece-0000000a.mkv");
    assert_eq!(piece_name(255), "piece-000000ff.mkv");
    assert_eq!(piece_name(0xdead_beef), "piece-deadbeef.mkv");
    assert_eq!(piece_name(0xffff_ffff), "piece-ffffffff.mkv");
}

#[test]
fn piece_names_grow_wider_beyond_eight_digits() {
    assert_eq!(piece_name(0x1_0000_0000), "piece-100000000.mkv");
    assert_eq!(piece_name(u64::MAX), "piece-ffffffffffffffff.mkv");
}

#[test]
fn piece_names_are_what_the_formatter_writes() {
    for n in [0_u64, 7, 15, 16, 4095, 65_536, 0x0fff_ffff, 0x1000_0000, 0x1234_5678_9abc] {
        assert_eq!(piece_name(n), format!("piece-{n:08x}.mkv"));
    }
}

#[test]
fn different_numbers_give_different_names() {
    let names: Vec<String> = (0..2000u64).map(piece_name).collect();
    for i in 0..names.len() {
        for j in 0..i {
            assert_ne!(names[i], names[j]);
        }
    }
}

#[test]
fn manifest_begins_with_the_version_line() {
    assert_eq!(header_line(), "ffconcat version 1.0\n");
    assert_eq!(manifest_text(&Vec::new()), "ffconcat version 1.0\n");
}

#[test]
fn manifest_lists_one_file_line_for_each_piece_in_order() {
    assert_eq!(entry_line("/tmp/x/piece-00000003.mkv"), "file /tmp/x/piece-00000003.mkv\n");
    assert_eq!(entry_line("a b'c.mkv"), "file a b'c.mkv\n");
    let paths = vec!["/w/piece-00000002.mkv".to_string(), "/w/piece-00000009.mkv".to_string()];
    assert_eq!(
        manifest_text(&paths),
        "ffconcat version 1.0\nfile /w/piece-00000002.mkv\nfile /w/piece-00000009.mkv\n"
    );
    let step_by_step = format!("{}{}{}", header_line(), entry_line(&paths[0]), entry_line(&paths[1]));
    assert_eq!(manifest_text(&paths), step_by_step);
}
