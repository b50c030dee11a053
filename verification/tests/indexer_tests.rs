use medianest::indexer::{
    exif_summary, exif_summary_of, hash_failed, photo_done, scan_diff, video_done, DiskFile, KnownFile, PhotoOutcome, ScanAction, VideoOutcome,
};

fn disk(rel: &str, kind: i64, size: i64, mtime: i64) -> DiskFile {
    DiskFile { rel: rel.to_string(), kind, size, mtime }
}

fn known(path: &str, id: i64, size: i64, mtime: i64, status: i64) -> KnownFile {
    KnownFile { path: path.to_string(), id, size, mtime, status }
}

fn describe(actions: &[ScanAction]) -> Vec<String> {
    actions
        .iter()
        .map(|a| match a {
            ScanAction::Insert { path, parent, name, kind, size, mtime } => {
                format!("insert {path} {parent} {name} {kind} {size} {mtime}")
            }
            ScanAction::Changed { id, size, mtime } => format!("changed {id} {size} {mtime}"),
            ScanAction::Returned { id } => format!("returned {id}"),
            ScanAction::Missing { id } => format!("missing {id}"),
        })
        .collect()
}

#[test]
fn scan_detects_new_changed_missing() {
    let first = scan_diff(&[], &[disk("a.jpg", 0, 3, 1), disk("sub/b.mp4", 1, 4, 1)]);
    assert_eq!(describe(&first), vec!["insert a.jpg  a.jpg 0 3 1", "insert sub/b.mp4 sub b.mp4 1 4 1"]);

    let catalogue = vec![known("a.jpg", 1, 3, 1, 0), known("sub/b.mp4", 2, 4, 1, 0)];
    let changed = scan_diff(&catalogue, &[disk("a.jpg", 0, 12, 2), disk("sub/b.mp4", 1, 4, 1)]);
    assert_eq!(describe(&changed), vec!["changed 1 12 2"]);

    let gone = scan_diff(&catalogue, &[disk("a.jpg", 0, 3, 1)]);
    assert_eq!(describe(&gone), vec!["missing 2"]);

    let catalogue = vec![known("a.jpg", 1, 3, 1, 0), known("sub/b.mp4", 2, 4, 1, 1)];
    let back = scan_diff(&catalogue, &[disk("a.jpg", 0, 3, 1), disk("sub/b.mp4", 1, 4, 1)]);
    assert_eq!(describe(&back), vec!["returned 2"]);
    let still_gone = scan_diff(&catalogue, &[disk("a.jpg", 0, 3, 1)]);
    assert!(still_gone.is_empty());
}

#[test]
fn unchanged_library_needs_no_changes() {
    let catalogue = vec![known("x/1.jpg", 10, 5, 7, 0), known("2.mp4", 11, 6, 8, 0)];
    let actions = scan_diff(&catalogue, &[disk("2.mp4", 1, 6, 8), disk("x/1.jpg", 0, 5, 7)]);
    assert!(actions.is_empty());
}

#[test]
fn changed_and_returned_file_is_reindexed() {
    let catalogue = vec![known("a.jpg", 1, 3, 1, 1)];
    let actions = scan_diff(&catalogue, &[disk("a.jpg", 0, 3, 9)]);
    assert_eq!(describe(&actions), vec!["changed 1 3 9"]);
}

#[test]
fn failed_hash_leaves_the_queue() {
    let d = hash_failed(7, "brak pliku");
    assert_eq!(d.id, 7);
    assert_eq!(d.hash, Some(Vec::new()));
    assert_eq!(d.thumb, 2);
    assert_eq!(d.error.as_deref(), Some("hash: brak pliku"));
    assert_eq!(d.taken_at, None);
}

#[test]
fn photos_prefer_exif_dates() {
    let decoded = PhotoOutcome::Decoded {
        width: 640,
        height: 480,
        thumb_error: None,
        blurhash: Some("LKO2?U".to_string()),
        phash: 11,
        dhash: 12,
    };
    let d = photo_done(1, vec![1, 2], Some(100), Some(50), decoded.clone());
    assert_eq!(d.taken_at, Some(50));
    assert!(d.exif_date);
    assert_eq!((d.width, d.height, d.thumb), (Some(640), Some(480), 1));
    assert_eq!((d.phash, d.dhash), (Some(11), Some(12)));
    assert_eq!(d.blurhash.as_deref(), Some("LKO2?U"));
    assert!(d.error.is_none());

    let d = photo_done(1, vec![1, 2], Some(100), None, decoded);
    assert_eq!(d.taken_at, Some(100));
    assert!(!d.exif_date);
}

#[test]
fn photo_failures_are_recorded() {
    let d = photo_done(2, vec![3], None, None, PhotoOutcome::Undecodable("heic".to_string()));
    assert_eq!(d.thumb, 2);
    assert_eq!(d.error.as_deref(), Some("decode: heic"));
    assert_eq!(d.width, None);
    assert_eq!(d.hash, Some(vec![3]));

    let broken_thumb = PhotoOutcome::Decoded {
        width: 1,
        height: 1,
        thumb_error: Some("dysk pełny".to_string()),
        blurhash: None,
        phash: 0,
        dhash: 0,
    };
    let d = photo_done(3, vec![4], Some(5), None, broken_thumb);
    assert_eq!(d.thumb, 2);
    assert_eq!(d.error.as_deref(), Some("thumb: dysk pełny"));
    assert_eq!(d.width, Some(1));
}

#[test]
fn videos_are_dated_by_modification_time() {
    let d = video_done(
        4,
        vec![9],
        Some(77),
        VideoOutcome::Thumbnailed { width: Some(320), height: Some(240), blurhash: None },
    );
    assert_eq!((d.taken_at, d.thumb, d.width, d.height), (Some(77), 1, Some(320), Some(240)));
    assert!(d.error.is_none() && !d.exif_date && d.phash.is_none());

    let d = video_done(5, vec![9], Some(77), VideoOutcome::ProbeFailed("brak ffprobe".to_string()));
    assert_eq!(d.error.as_deref(), Some("probe: brak ffprobe"));
    assert_eq!(d.thumb, 2);

    let d = video_done(6, vec![9], None, VideoOutcome::NoThumbnail { width: None, height: Some(2) });
    assert_eq!(d.error.as_deref(), Some("thumb: ffmpeg nie wygenerował miniaturki"));
    assert_eq!((d.thumb, d.height), (2, Some(2)));
}

#[test]
fn applied_scan_settles() {
    let mut catalogue = vec![
        known("a.jpg", 1, 3, 1, 0),
        known("gone.jpg", 2, 5, 1, 0),
        known("back.jpg", 3, 7, 1, 1),
        known("old.mp4", 4, 9, 1, 1),
    ];
    let disk_now = vec![disk("a.jpg", 0, 30, 2), disk("back.jpg", 0, 7, 1), disk("new/c.png", 0, 11, 3)];
    let actions = scan_diff(&catalogue, &disk_now);
    assert_eq!(
        describe(&actions),
        vec!["changed 1 30 2", "returned 3", "insert new/c.png new c.png 0 11 3", "missing 2"]
    );
    let mut next_id = 100;
    for a in &actions {
        match a {
            ScanAction::Insert { path, size, mtime, .. } => {
                catalogue.push(known(path, next_id, *size, *mtime, 0));
                next_id += 1;
            }
            ScanAction::Changed { id, size, mtime } => {
                for k in catalogue.iter_mut().filter(|k| k.id == *id) {
                    k.size = *size;
                    k.mtime = *mtime;
                    k.status = 0;
                }
            }
            ScanAction::Returned { id } => {
                for k in catalogue.iter_mut().filter(|k| k.id == *id) {
                    k.status = 0;
                }
            }
            ScanAction::Missing { id } => {
                for k in catalogue.iter_mut().filter(|k| k.id == *id) {
                    k.status = 1;
                }
            }
        }
    }
    assert!(scan_diff(&catalogue, &disk_now).is_empty());
}

#[test]
fn indexer_names_files_by_kind_and_hash() {
    assert_eq!(medianest::indexer::kind_of("DCIM/IMG_1.JPG"), Some(0));
    assert_eq!(medianest::indexer::thumb_path("t", "ab12"), "t/ab/ab12.webp");
    assert_eq!(medianest::indexer::sprite_path("t", "ab12"), "t/ab/ab12.sprite.webp");
}

/// A little-endian TIFF holding an orientation and a DateTime entry.
fn tiff_with(orientation: u16, date: &str) -> Vec<u8> {
    let mut b: Vec<u8> = vec![b'I', b'I', 42, 0, 8, 0, 0, 0];
    b.extend_from_slice(&2u16.to_le_bytes());
    b.extend_from_slice(&0x0112u16.to_le_bytes());
    b.extend_from_slice(&3u16.to_le_bytes());
    b.extend_from_slice(&1u32.to_le_bytes());
    b.extend_from_slice(&(orientation as u32).to_le_bytes());
    b.extend_from_slice(&0x0132u16.to_le_bytes());
    b.extend_from_slice(&2u16.to_le_bytes());
    b.extend_from_slice(&((date.len() + 1) as u32).to_le_bytes());
    b.extend_from_slice(&38u32.to_le_bytes());
    b.extend_from_slice(&0u32.to_le_bytes());
    b.extend_from_slice(date.as_bytes());
    b.push(0);
    b
}

#[test]
fn exif_orientation_and_date_are_read() {
    let bytes = tiff_with(6, "2021:03:04 05:06:07");
    assert_eq!(exif_summary(&bytes), (6, Some(1614834367)));
}

#[test]
fn exif_without_a_date_keeps_the_orientation() {
    let bytes = tiff_with(3, "not a date at all!!");
    assert_eq!(exif_summary(&bytes), (3, None));
}

#[test]
fn bytes_without_exif_give_the_defaults() {
    assert_eq!(exif_summary(b"plain text, no image here"), (1, None));
    assert_eq!(exif_summary(&[]), (1, None));
}

#[test]
fn exif_fields_summarised() {
    assert_eq!(exif_summary_of(None), (1, None));
    assert_eq!(exif_summary_of(Some((Some(8), None, None))), (8, None));
    assert_eq!(exif_summary_of(Some((None, None, Some("2021:03:04 05:06:07".into())))), (1, Some(1614834367)));
    assert_eq!(
        exif_summary_of(Some((Some(3), Some("2021-03-04 05:06:07".into()), Some("1999-01-01 00:00:00".into())))),
        (3, Some(1614834367))
    );
    assert_eq!(exif_summary_of(Some((Some(6), Some("unknown".into()), Some("2021:03:04 05:06:07".into())))), (6, None));
}
