use organizer::actions::{log_action, ActionKind, OrganizeAction};
use organizer::categories::{category_for_extension, get_type_mappings, type_folder_for, Category};
use organizer::conflict::handle_name_conflict;
use organizer::dates::{date_folder_for, month_folder_name, year_folder_name, year_month, Timestamp};
use organizer::dedup::{content_digest, remove_duplicates, to_hex};
use organizer::error::OrganizeError;
use organizer::flatten::{decode_flat, encode_flat, flatten_folder, flatten_origin_path};
use organizer::moves::FileMove;
use organizer::paths::{get_log_path, join};
use organizer::ranges::{create_alphabetical_ranges, find_range_for_char};
use organizer::sizes::{size_bucket, size_bucket_folders, SizeBucket, GIB, MIB};
use organizer::strategies::{
    is_hidden_name, organize_by_date, organize_by_modified_date, organize_by_name, organize_by_size,
    organize_by_type, Entry,
};
use organizer::text::decimal;
use organizer::tree::{empty_dirs, DirListing};
use organizer::undo::{undo_last_action, UndoStep};

fn at(secs: i64) -> Timestamp {
    Timestamp { secs, nanos: 0 }
}

fn file(name: &str) -> Entry {
    Entry { name: name.to_string(), is_dir: false, len: 0, created: None, modified: None }
}

fn sized(name: &str, len: u64) -> Entry {
    Entry { len, ..file(name) }
}

fn strings(v: &[&str]) -> Vec<String> {
    v.iter().map(|s| s.to_string()).collect()
}

fn pairs(moves: &[FileMove]) -> Vec<(String, String)> {
    moves.iter().map(|m| (m.from.clone(), m.to.clone())).collect()
}

fn pair(a: &str, b: &str) -> (String, String) {
    (a.to_string(), b.to_string())
}

// 2024-03-15T00:00:00Z
const MID_MARCH_2024: i64 = 1710460800;

#[test]
fn by_type_scenario_three_files() {
    let entries = vec![file("photo.jpg"), file("report.pdf"), file("notes.txt")];
    let occupied = strings(&["/data/photo.jpg", "/data/report.pdf", "/data/notes.txt"]);
    let action = organize_by_type("/data", &entries, &occupied, at(1)).unwrap();
    assert_eq!(
        pairs(&action.moves),
        vec![
            pair("/data/photo.jpg", "/data/Images/photo.jpg"),
            pair("/data/report.pdf", "/data/Documents/report.pdf"),
            pair("/data/notes.txt", "/data/Documents/notes.txt"),
        ]
    );
    let mut log: Vec<OrganizeAction> = Vec::new();
    log_action(&mut log, action);
    assert_eq!(log.len(), 1);
    assert_eq!(log[0].action_type.tag(), "by_type");
    assert_eq!(log[0].moves.len(), 3);
}

#[test]
fn by_name_two_ranges_scenario() {
    let entries = vec![file("apple.txt"), file("zebra.txt")];
    let occupied = strings(&["/d/apple.txt", "/d/zebra.txt"]);
    let action = organize_by_name("/d", &entries, &occupied, 2, at(1)).unwrap();
    assert_eq!(
        pairs(&action.moves),
        vec![pair("/d/apple.txt", "/d/A-M/apple.txt"), pair("/d/zebra.txt", "/d/N-Z/zebra.txt")]
    );
    assert_eq!(action.action_type.tag(), "by_name_2");
}

#[test]
fn by_name_lower_case_digit_and_symbol() {
    let entries = vec![file("Mango"), file("9lives"), file("_x")];
    let action = organize_by_name("/d", &entries, &vec![], 4, at(1)).unwrap();
    assert_eq!(
        pairs(&action.moves),
        vec![
            pair("/d/Mango", "/d/M-R/Mango"),
            pair("/d/9lives", "/d/Other/9lives"),
            pair("/d/_x", "/d/Other/_x"),
        ]
    );
}

#[test]
fn ranges_partition_counts() {
    let r4 = create_alphabetical_ranges(4);
    let labels: Vec<String> = r4.iter().map(|r| r.label.clone()).collect();
    assert_eq!(labels, strings(&["A-F", "G-L", "M-R", "S-Z"]));
    let r3 = create_alphabetical_ranges(3);
    let labels: Vec<String> = r3.iter().map(|r| r.label.clone()).collect();
    assert_eq!(labels, strings(&["A-H", "I-P", "Q-Z"]));
    let r1 = create_alphabetical_ranges(1);
    assert_eq!(r1.len(), 1);
    assert_eq!(r1[0].label, "A-Z");
    let r26 = create_alphabetical_ranges(26);
    assert_eq!(r26[0].label, "A");
    assert_eq!(r26[25].label, "Z");
    for n in 1..=40usize {
        let rs = create_alphabetical_ranges(n);
        assert_eq!(rs.len(), n);
        for c in 'A'..='Z' {
            let hits = rs.iter().filter(|r| r.start <= c && c <= r.end).count();
            assert_eq!(hits, 1);
        }
        assert_eq!(rs[n - 1].end, 'Z');
        let last_len = rs[n - 1].end as u32 - rs[n - 1].start as u32 + 1;
        assert_eq!(last_len as usize, 26 / n + 26 % n);
    }
}

#[test]
fn more_ranges_than_letters() {
    let rs = create_alphabetical_ranges(30);
    assert_eq!(rs.len(), 30);
    assert_eq!((rs[0].start, rs[0].end), ('A', '@'));
    assert_eq!((rs[29].start, rs[29].end), ('A', 'Z'));
    assert_eq!(rs[29].label, "A-Z");
    assert_eq!(find_range_for_char('Q', &rs), "A-Z");
    let entries = vec![file("apple.txt")];
    let action = organize_by_name("/d", &entries, &vec![], 30, at(1)).unwrap();
    assert_eq!(pairs(&action.moves), vec![pair("/d/apple.txt", "/d/A-Z/apple.txt")]);
    assert_eq!(action.action_type.tag(), "by_name_30");
}

#[test]
fn range_lookup_outside_letters() {
    let rs = create_alphabetical_ranges(5);
    assert_eq!(find_range_for_char('A', &rs), "A-E");
    assert_eq!(find_range_for_char('Z', &rs), "U-Z");
    assert_eq!(find_range_for_char('a', &rs), "Other");
    assert_eq!(find_range_for_char('1', &rs), "Other");
}

#[test]
fn conflict_with_numbered_siblings() {
    let taken = strings(&["/d/report.pdf", "/d/report (1).pdf", "/d/report (2).pdf"]);
    let r = handle_name_conflict(&"/d/report.pdf".to_string(), &taken).unwrap();
    assert_eq!(r, "/d/report (3).pdf");
}

#[test]
fn conflict_free_path_is_kept() {
    let taken = strings(&["/d/other.pdf"]);
    let r = handle_name_conflict(&"/d/report.pdf".to_string(), &taken).unwrap();
    assert_eq!(r, "/d/report.pdf");
}

#[test]
fn conflict_stem_and_extension_rules() {
    let taken = strings(&["/d/.bashrc", "/d/archive.tar.gz", "/d/README"]);
    assert_eq!(handle_name_conflict(&"/d/.bashrc".to_string(), &taken).unwrap(), "/d/.bashrc (1)");
    assert_eq!(
        handle_name_conflict(&"/d/archive.tar.gz".to_string(), &taken).unwrap(),
        "/d/archive.tar (1).gz"
    );
    assert_eq!(handle_name_conflict(&"/d/README".to_string(), &taken).unwrap(), "/d/README (1)");
}

#[test]
fn conflict_exhausted() {
    let mut taken = strings(&["/d/a.txt"]);
    for i in 1..1000 {
        taken.push(format!("/d/a ({}).txt", i));
    }
    let r = handle_name_conflict(&"/d/a.txt".to_string(), &taken);
    assert_eq!(r, Err(OrganizeError::ConflictResolutionExhausted));
    taken.pop();
    let r = handle_name_conflict(&"/d/a.txt".to_string(), &taken);
    assert_eq!(r, Ok("/d/a (999).txt".to_string()));
}

#[test]
fn organize_resolves_against_earlier_moves() {
    let entries = vec![file("a.txt"), file("A.TXT")];
    let occupied = strings(&["/d/Documents/a.txt"]);
    let action = organize_by_type("/d", &entries, &occupied, at(1)).unwrap();
    assert_eq!(
        pairs(&action.moves),
        vec![pair("/d/a.txt", "/d/Documents/a (1).txt"), pair("/d/A.TXT", "/d/Documents/A.TXT")]
    );
    let entries = vec![file("x.png"), file("y.png")];
    let action = organize_by_name("/d", &entries, &strings(&["/d/S-Z/x.png"]), 4, at(1)).unwrap();
    assert_eq!(action.moves[0].to, "/d/S-Z/x (1).png");
    assert_eq!(action.moves[1].to, "/d/S-Z/y.png");
}

#[test]
fn strategies_skip_folders_and_hidden_files() {
    let mut dir = file("Images");
    dir.is_dir = true;
    let entries = vec![dir, file(".organize_log.json"), file("song.MP3"), file("Makefile")];
    let action = organize_by_type("/m", &entries, &vec![], at(1)).unwrap();
    assert_eq!(
        pairs(&action.moves),
        vec![pair("/m/song.MP3", "/m/Audio/song.MP3"), pair("/m/Makefile", "/m/Others/Makefile")]
    );
    assert!(is_hidden_name(".git"));
    assert!(!is_hidden_name("git"));
}

#[test]
fn type_mapping_table() {
    let table = get_type_mappings();
    assert_eq!(table.len(), 46);
    assert!(table.iter().any(|m| m.extension == "7z" && m.category == Category::Archives));
    assert_eq!(category_for_extension("JPG"), Category::Images);
    assert_eq!(category_for_extension("Docx"), Category::Documents);
    assert_eq!(category_for_extension("mkv"), Category::Videos);
    assert_eq!(category_for_extension("flac"), Category::Audio);
    assert_eq!(category_for_extension("msi"), Category::Executables);
    assert_eq!(category_for_extension("xyz"), Category::Others);
    assert_eq!(type_folder_for(&"x.".to_string()), "Others");
    assert_eq!(type_folder_for(&"pic.PNG".to_string()), "Images");
}

#[test]
fn size_bucket_boundaries() {
    assert_eq!(size_bucket(0), SizeBucket::Small);
    assert_eq!(size_bucket(MIB - 1), SizeBucket::Small);
    assert_eq!(size_bucket(MIB), SizeBucket::Medium);
    assert_eq!(size_bucket(100 * MIB - 1), SizeBucket::Medium);
    assert_eq!(size_bucket(100 * MIB), SizeBucket::Large);
    assert_eq!(size_bucket(GIB - 1), SizeBucket::Large);
    assert_eq!(size_bucket(GIB), SizeBucket::Huge);
    assert_eq!(size_bucket(u64::MAX), SizeBucket::Huge);
    assert_eq!(
        size_bucket_folders(),
        strings(&["Small (0-1MB)", "Medium (1MB-100MB)", "Large (100MB-1GB)", "Huge (1GB+)"])
    );
}

#[test]
fn by_size_moves_into_classes() {
    let entries = vec![sized("a.bin", 10), sized("b.bin", 5 * MIB), sized("c.bin", 2 * GIB)];
    let action = organize_by_size("/s", &entries, &vec![], at(1)).unwrap();
    assert_eq!(
        pairs(&action.moves),
        vec![
            pair("/s/a.bin", "/s/Small (0-1MB)/a.bin"),
            pair("/s/b.bin", "/s/Medium (1MB-100MB)/b.bin"),
            pair("/s/c.bin", "/s/Huge (1GB+)/c.bin"),
        ]
    );
    assert_eq!(action.action_type, ActionKind::BySize);
}

#[test]
fn calendar_month_of_instants() {
    assert_eq!(year_month(at(0)), Some((1970, 1)));
    assert_eq!(year_month(at(MID_MARCH_2024)), Some((2024, 3)));
    assert_eq!(year_month(at(-1)), Some((1969, 12)));
    assert_eq!(year_month(at(i64::MAX)), None);
    assert_eq!(date_folder_for(at(MID_MARCH_2024)), Some("2024/2024-03".to_string()));
}

#[test]
fn year_and_month_labels() {
    assert_eq!(year_folder_name(2024), "2024");
    assert_eq!(year_folder_name(5), "0005");
    assert_eq!(year_folder_name(12345), "+12345");
    assert_eq!(year_folder_name(-5), "-0005");
    assert_eq!(month_folder_name(1999, 12), "1999-12");
    assert_eq!(month_folder_name(2001, 2), "2001-02");
    assert_eq!(decimal(0), "0");
    assert_eq!(decimal(907), "907");
    assert_eq!(decimal(u64::MAX), "18446744073709551615");
}

#[test]
fn by_date_and_modified_date() {
    let mut e = file("trip.jpg");
    e.created = Some(at(MID_MARCH_2024));
    e.modified = Some(at(0));
    let entries = vec![e];
    let a = organize_by_date("/p", &entries, &vec![], at(9)).unwrap();
    assert_eq!(pairs(&a.moves), vec![pair("/p/trip.jpg", "/p/2024/2024-03/trip.jpg")]);
    assert_eq!(a.action_type.tag(), "by_date");
    assert_eq!(a.timestamp, at(9));
    let b = organize_by_modified_date("/p", &entries, &vec![], at(9)).unwrap();
    assert_eq!(pairs(&b.moves), vec![pair("/p/trip.jpg", "/p/1970/1970-01/trip.jpg")]);
    assert_eq!(b.action_type.tag(), "by_modified_date");
}

#[test]
fn by_date_errors() {
    let entries = vec![file("a.txt")];
    assert_eq!(
        organize_by_date("/p", &entries, &vec![], at(1)).err(),
        Some(OrganizeError::MissingTimestamp)
    );
    let mut e = file("a.txt");
    e.modified = Some(at(i64::MAX));
    assert_eq!(
        organize_by_modified_date("/p", &vec![e], &vec![], at(1)).err(),
        Some(OrganizeError::TimestampOutOfRange)
    );
}

#[test]
fn flatten_and_undo_scenario() {
    let files = strings(&["a/b/file.txt"]);
    let occupied = strings(&["root/a", "root/a/b", "root/a/b/file.txt"]);
    let action = flatten_folder("root", &files, &occupied, at(1)).unwrap();
    assert_eq!(pairs(&action.moves), vec![pair("root/a/b/file.txt", "root/a___b___file.txt")]);
    let mut log = Vec::new();
    log_action(&mut log, action);
    let plan = undo_last_action("root", &mut log).unwrap();
    assert!(log.is_empty());
    assert!(!plan.prune_empty_dirs);
    match &plan.steps[..] {
        [UndoStep::Unflatten { source, target, parent }] => {
            assert_eq!(source, "root/a___b___file.txt");
            assert_eq!(target, "root/a/b/file.txt");
            assert_eq!(parent, "root/a/b/");
        }
        _ => panic!("unexpected steps"),
    }
}

#[test]
fn flatten_leaves_top_level_and_ambiguous_names() {
    let files = strings(&["top.txt", "a/x___y.txt", "a/ok.txt"]);
    let action = flatten_folder("/r", &files, &vec![], at(1)).unwrap();
    assert_eq!(pairs(&action.moves), vec![pair("/r/a/ok.txt", "/r/a___ok.txt")]);
    assert_eq!(encode_flat(&"p/q/r.txt".to_string()), "p___q___r.txt");
    assert_eq!(decode_flat(&"p___q___r.txt".to_string()), "p/q/r.txt");
    assert_eq!(decode_flat(&"a____b".to_string()), "a/_b");
    assert_eq!(flatten_origin_path("/r", &"/r/x___y".to_string()), "/r/x/y");
}

#[test]
fn undo_reverses_in_reverse_order() {
    let entries = vec![sized("a", 1), sized("b", 2 * MIB)];
    let action = organize_by_size("/s", &entries, &vec![], at(1)).unwrap();
    let mut log = Vec::new();
    log_action(&mut log, action);
    let plan = undo_last_action("/s", &mut log).unwrap();
    assert!(plan.prune_empty_dirs);
    assert_eq!(plan.action_type, ActionKind::BySize);
    let got: Vec<(String, String)> = plan
        .steps
        .iter()
        .map(|s| match s {
            UndoStep::MoveBack { source, target } => (source.clone(), target.clone()),
            _ => panic!("unexpected step"),
        })
        .collect();
    assert_eq!(
        got,
        vec![pair("/s/Medium (1MB-100MB)/b", "/s/b"), pair("/s/Small (0-1MB)/a", "/s/a")]
    );
    assert!(undo_last_action("/s", &mut log).is_none());
}

#[test]
fn history_keeps_ten_most_recent() {
    let mut log = Vec::new();
    for i in 1..=12 {
        let a = OrganizeAction { timestamp: at(i), action_type: ActionKind::ByType, moves: vec![] };
        log_action(&mut log, a);
    }
    assert_eq!(log.len(), 10);
    let secs: Vec<i64> = log.iter().map(|a| a.timestamp.secs).collect();
    assert_eq!(secs, (3..=12).collect::<Vec<i64>>());
}

#[test]
fn duplicates_one_survivor_per_digest() {
    let files = strings(&["/d/a", "/d/sub/b", "/d/c", "/d/e", "/d/f"]);
    let digests = vec![
        Some("x".to_string()),
        Some("x".to_string()),
        Some("y".to_string()),
        None,
        Some("x".to_string()),
    ];
    let action = remove_duplicates(&files, &digests, at(1));
    assert_eq!(
        pairs(&action.moves),
        vec![pair("/d/sub/b", "DELETED::/d/sub/b"), pair("/d/f", "DELETED::/d/f")]
    );
    assert_eq!(action.action_type.tag(), "remove_duplicates");
    let mut log = vec![];
    log_action(&mut log, action);
    let plan = undo_last_action("/d", &mut log).unwrap();
    match &plan.steps[0] {
        UndoStep::Unrestorable { path } => assert_eq!(path, "/d/f"),
        _ => panic!("unexpected step"),
    }
}

#[test]
fn digests_of_contents() {
    let d = content_digest(&b"abc".to_vec());
    assert_eq!(d, "ba7816bf8f01cfea414140de5dae2223b00361a396177a9cb410ff61f20015ad");
    assert_eq!(content_digest(&b"abc".to_vec()), content_digest(&b"abc".to_vec()));
    assert_ne!(content_digest(&b"abc".to_vec()), content_digest(&b"abd".to_vec()));
    assert_eq!(to_hex(&vec![0, 15, 255]), "000fff");
}

#[test]
fn tags_round_trip() {
    let kinds = [
        ActionKind::ByType,
        ActionKind::ByDate,
        ActionKind::ByModifiedDate,
        ActionKind::ByName(4),
        ActionKind::ByName(26),
        ActionKind::BySize,
        ActionKind::Flatten,
        ActionKind::RemoveDuplicates,
    ];
    for k in kinds {
        assert_eq!(ActionKind::from_tag(&k.tag()), Some(k));
    }
    assert_eq!(ActionKind::from_tag(&"by_name_".to_string()), None);
    assert_eq!(ActionKind::from_tag(&"by_name_04".to_string()), None);
    assert_eq!(ActionKind::from_tag(&"sideways".to_string()), None);
}

#[test]
fn log_path_and_join() {
    assert_eq!(get_log_path("/tmp/x"), "/tmp/x/.organize_log.json");
    assert_eq!(get_log_path("/tmp/x/"), "/tmp/x/.organize_log.json");
    assert_eq!(join("", "a"), "a");
}

#[test]
fn empty_folders_deepest_first() {
    let listing = |path: &str, children: &[&str]| DirListing { path: path.to_string(), children: strings(children) };
    let ls = vec![
        listing("/r/a", &["/r/a/b", "/r/a/c"]),
        listing("/r/a/b", &["/r/a/b/d"]),
        listing("/r/a/b/d", &[]),
        listing("/r/a/c", &["/r/a/c/.keep"]),
        listing("/r/e", &[]),
    ];
    // "/r/a/b" still holds the empty "/r/a/b/d" when it is read, so it stays
    assert_eq!(empty_dirs(&ls), strings(&["/r/e", "/r/a/b/d"]));
}

#[test]
fn repeated_names_are_moved_once() {
    let entries = vec![file("a.txt"), file("a.txt")];
    let action = organize_by_type("/d", &entries, &vec![], at(1)).unwrap();
    assert_eq!(pairs(&action.moves), vec![pair("/d/a.txt", "/d/Documents/a.txt")]);
    let files = strings(&["x/y.txt", "x/y.txt"]);
    let action = flatten_folder("/d", &files, &vec![], at(1)).unwrap();
    assert_eq!(pairs(&action.moves), vec![pair("/d/x/y.txt", "/d/x___y.txt")]);
}

#[test]
fn flatten_resolves_taken_flat_names() {
    let files = strings(&["a/b.txt"]);
    let occupied = strings(&["/r/a", "/r/a/b.txt", "/r/a___b.txt"]);
    let action = flatten_folder("/r", &files, &occupied, at(1)).unwrap();
    assert_eq!(pairs(&action.moves), vec![pair("/r/a/b.txt", "/r/a___b (1).txt")]);
}
