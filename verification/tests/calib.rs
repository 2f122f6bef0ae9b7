use audio_radar::dsp::calib::{char_is_whitespace, gap_plan, scan_calibration, FaultKind, GapFill, Key, ScanEnd};

fn word(s: &str) -> Vec<char> {
    s.chars().collect()
}

#[test]
fn scan_reads_every_key() {
    let text = "\
name test
itd_band 200 3000
itd -90 -600
itd 0 0
itd 90 600
ild_band 3000 6000
ild -90 -12
ild 0 0
ild 90 12
";
    let script = scan_calibration(text);
    assert!(matches!(script.end, ScanEnd::Complete));
    let d = &script.directives;
    assert_eq!(d.len(), 9);
    assert_eq!(d[0].key, Key::Name);
    assert_eq!(d[0].args, vec![word("test")]);
    assert_eq!(d[1].key, Key::ItdBand);
    assert_eq!(d[1].args, vec![word("200"), word("3000")]);
    assert_eq!(d[2].key, Key::Itd);
    assert_eq!(d[2].args, vec![word("-90"), word("-600")]);
    assert_eq!(d[5].key, Key::IldBand);
    assert_eq!(d[8].key, Key::Ild);
    assert_eq!(d[8].args, vec![word("90"), word("12")]);
    for (i, dir) in d.iter().enumerate() {
        assert_eq!(dir.line, i + 1);
    }
}

#[test]
fn scan_rejects_broken_lines() {
    assert!(matches!(scan_calibration("itd_band 200 3000").end, ScanEnd::MissingItd));
    assert!(matches!(scan_calibration("itd 0 0").end, ScanEnd::Complete));
    match scan_calibration("wat 1 2").end {
        ScanEnd::Fault(f) => {
            assert_eq!(f.line, 1);
            assert_eq!(f.kind, FaultKind::UnknownKey);
            assert_eq!(f.word, word("wat"));
        }
        _ => panic!("unknown key accepted"),
    }
    match scan_calibration("ild -10 3").end {
        ScanEnd::Fault(f) => assert_eq!(f.kind, FaultKind::IldBeforeBand),
        _ => panic!("ild before ild_band accepted"),
    }
}

#[test]
fn scan_checks_the_number_of_values() {
    let cases = [
        ("itd_band 200", FaultKind::ItdBandArity),
        ("itd 1 2 3", FaultKind::ItdArity),
        ("ild_band", FaultKind::IldBandArity),
        ("ild_band 1 2\nild 5", FaultKind::IldArity),
    ];
    for (text, kind) in cases {
        match scan_calibration(text).end {
            ScanEnd::Fault(f) => assert_eq!(f.kind, kind, "{}", text),
            _ => panic!("{} accepted", text),
        }
    }
}

#[test]
fn scan_skips_comments_and_blank_lines() {
    let text = "\
# комментарий
itd -90 -600   # и в конце строки тоже

itd 90 600
";
    let script = scan_calibration(text);
    assert!(matches!(script.end, ScanEnd::Complete));
    assert_eq!(script.directives.len(), 2);
    assert_eq!(script.directives[0].line, 2);
    assert_eq!(script.directives[0].args, vec![word("-90"), word("-600")]);
    assert_eq!(script.directives[1].line, 4);
}

#[test]
fn scan_stops_at_the_first_fault() {
    let script = scan_calibration("itd 0 0\n\nfoo bar\nitd 1 1\nwat");
    assert_eq!(script.directives.len(), 1);
    match script.end {
        ScanEnd::Fault(f) => {
            assert_eq!(f.line, 3);
            assert_eq!(f.word, word("foo"));
        }
        _ => panic!("fault missed"),
    }
}

#[test]
fn scan_joins_the_name() {
    let script = scan_calibration("name   my \t head  profile\r\nitd 0 0\r\n");
    assert!(matches!(script.end, ScanEnd::Complete));
    assert_eq!(script.directives[0].args, vec![word("my head profile")]);
    assert_eq!(script.directives[1].args, vec![word("0"), word("0")]);
}

#[test]
fn scan_of_empty_text_misses_itd() {
    let script = scan_calibration("");
    assert!(script.directives.is_empty());
    assert!(matches!(script.end, ScanEnd::MissingItd));
}

#[test]
fn gap_plan_needs_two_nodes() {
    assert!(gap_plan(&[false, true, false]).is_none());
    assert!(gap_plan(&[]).is_none());
    assert!(gap_plan(&[true, true]).is_some());
}

#[test]
fn gap_plan_copies_ends_and_bridges_gaps() {
    let plan = gap_plan(&[false, true, false, false, true, true, false]).unwrap();
    assert_eq!(
        plan,
        vec![
            GapFill::Copy(1),
            GapFill::Known,
            GapFill::Between(1, 4),
            GapFill::Between(1, 4),
            GapFill::Known,
            GapFill::Known,
            GapFill::Copy(5),
        ]
    );
}

#[test]
fn white_space_matches_char_is_whitespace() {
    for u in 0..=0x10FFFFu32 {
        if let Some(c) = char::from_u32(u) {
            assert_eq!(char_is_whitespace(c), c.is_whitespace(), "U+{:04X}", u);
        }
    }
}

#[test]
fn scan_splits_on_unicode_white_space() {
    let script = scan_calibration("itd\u{00A0}1\u{3000}2");
    assert!(matches!(script.end, ScanEnd::Complete));
    assert_eq!(script.directives[0].args, vec![word("1"), word("2")]);
}
