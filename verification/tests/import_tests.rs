use medianest::import::{drive_root, new_drives};
use medianest::import::verify_copy;
use medianest::import::{
    apply_template, dst_candidate, pending_action, plan, replace_all, trim_char, FileOutcome, ImportProgress,
    PendingAction, ScannedFile,
};

fn chars(s: &str) -> Vec<char> {
    s.chars().collect()
}

fn text(v: &[char]) -> String {
    v.iter().collect()
}

#[test]
fn template_tokens() {
    let ts = 1689422400;
    assert_eq!(apply_template("{rok}/{miesiac}", ts, 0, "DCIM"), "2023/07");
    assert_eq!(apply_template("{rok}/{typ}/{rok}-{miesiac}-{dzien}", ts, 1, "x"), "2023/Wideo/2023-07-15");
    assert_eq!(apply_template("{folder}", ts, 0, "DCIM"), "DCIM");
    assert_eq!(apply_template("/{rok}/", ts, 0, ""), "2023");
}

#[test]
fn template_kinds_and_out_of_range_dates() {
    assert_eq!(apply_template("{typ}", 0, 0, ""), "Zdjęcia");
    assert_eq!(apply_template("{typ}", 0, 1, ""), "Wideo");
    assert_eq!(apply_template("{rok}-{miesiac}-{dzien}", 0, 0, ""), "1970-01-01");
    assert_eq!(apply_template("{rok}", i64::MAX, 0, ""), "1970");
    assert_eq!(apply_template("stale/{nieznany}", 0, 0, ""), "stale/{nieznany}");
    assert_eq!(apply_template("///", 0, 0, ""), "");
}

#[test]
fn unique_dst_suffixes_collisions() {
    assert_eq!(dst_candidate("a", "x.jpg", 0), "a/x.jpg");
    assert_eq!(dst_candidate("a", "x.jpg", 1), "a/x_1.jpg");
}

#[test]
fn candidates_keep_the_extension() {
    assert_eq!(dst_candidate("", "x.jpg", 0), "x.jpg");
    assert_eq!(dst_candidate("", "x.jpg", 12), "x_12.jpg");
    assert_eq!(dst_candidate("a/b", "archive.tar.gz", 2), "a/b/archive.tar_2.gz");
    assert_eq!(dst_candidate("a", "README", 3), "a/README_3");
    assert_eq!(dst_candidate("a", ".hidden", 1), "a/_1.hidden");
}

#[test]
fn plan_counts_and_sorts_folders() {
    let f = |kind: i64, size: i64, dir: &str| ScannedFile { kind, size, dst_dir: dir.to_string() };
    let files = vec![f(0, 10, "2023/07"), f(1, 100, "2023"), f(0, 5, "2023/07"), f(0, 1, "2020/01")];
    let p = plan(&files);
    assert_eq!(p.total, 4);
    assert_eq!(p.total_size, 116);
    assert_eq!(p.photos, 3);
    assert_eq!(p.videos, 1);
    assert_eq!(
        p.tree,
        vec![("2020/01".to_string(), 1), ("2023".to_string(), 1), ("2023/07".to_string(), 2)]
    );
    assert_eq!(p.tree.iter().map(|(_, n)| n).sum::<u64>(), p.total);
    let empty = plan(&[]);
    assert_eq!((empty.total, empty.total_size, empty.photos, empty.videos), (0, 0, 0, 0));
    assert!(empty.tree.is_empty());
}

#[test]
fn progress_counts_every_file_once() {
    let mut p = ImportProgress::start(6);
    let outcomes = [
        FileOutcome::New,
        FileOutcome::Duplicate,
        FileOutcome::New,
        FileOutcome::Failed,
        FileOutcome::New,
        FileOutcome::Duplicate,
    ];
    let reports: Vec<bool> = outcomes.iter().map(|o| p.record(*o)).collect();
    assert_eq!(reports, vec![false, false, false, false, true, true]);
    assert_eq!((p.done, p.total, p.new_files, p.duplicates, p.errors), (6, 6, 3, 2, 1));
}

#[test]
fn pending_actions_by_name() {
    assert_eq!(pending_action("import"), PendingAction::Import);
    assert_eq!(pending_action("delete_source"), PendingAction::DeleteSource);
    assert_eq!(pending_action("skip"), PendingAction::Skip);
    assert_eq!(pending_action("cokolwiek"), PendingAction::Skip);
}

#[test]
fn replace_and_trim() {
    assert_eq!(text(&replace_all(&chars("aXbXc"), &chars("X"), &chars("--"))), "a--b--c");
    assert_eq!(text(&replace_all(&chars("aaa"), &chars("aa"), &chars("b"))), "ba");
    assert_eq!(text(&replace_all(&chars("abc"), &chars(""), &chars("z"))), "abc");
    assert_eq!(text(&trim_char(&chars("//a/b//"), '/')), "a/b");
    assert_eq!(text(&trim_char(&chars("////"), '/')), "");
}

#[test]
fn copies_are_checked_by_hash() {
    assert!(verify_copy(&[1, 2, 3], &[1, 2, 3], "karta/a.jpg").is_ok());
    assert_eq!(
        verify_copy(&[1, 2, 3], &[1, 2, 4], "karta/a.jpg").unwrap_err(),
        "weryfikacja hash nie powiodła się: karta/a.jpg"
    );
}

#[test]
fn new_drive_letters_are_announced() {
    assert_eq!(new_drives(&['D', 'E'], &['D', 'E', 'F']), vec!['F']);
    assert_eq!(new_drives(&['D', 'F'], &['E', 'F', 'G']), vec!['E', 'G']);
    assert!(new_drives(&['D'], &[]).is_empty());
    assert_eq!(drive_root('F'), "F:\\");
}

#[test]
fn template_dates_follow_the_gregorian_calendar() {
    let t = "{rok}-{miesiac}-{dzien}";
    assert_eq!(apply_template(t, 951782400, 0, ""), "2000-02-29");
    assert_eq!(apply_template(t, 951782400 + 86399, 0, ""), "2000-02-29");
    assert_eq!(apply_template(t, -1, 0, ""), "1969-12-31");
    assert_eq!(apply_template(t, -2208988800, 0, ""), "1900-01-01");
    assert_eq!(apply_template(t, -62135596800, 0, ""), "0001-01-01");
    assert_eq!(apply_template(t, 253402300799, 0, ""), "9999-12-31");
}
