use std::collections::HashMap;

use medianest::dedup::{bytes_to_i64, hamming, perceptual_hashes, scan, DupGroup, DupMember, DupRow};

fn row(id: i64, path: &str, hash: &[u8], phash: Option<i64>, taken_at: Option<i64>, size: i64) -> DupRow {
    DupRow {
        member: DupMember {
            id,
            path: path.to_string(),
            name: path.to_string(),
            kind: 0,
            size,
            width: None,
            height: None,
            taken_at,
            thumb: Some(hash.iter().map(|b| format!("{b:02x}")).collect()),
            blurhash: None,
        },
        hash: Some(hash.to_vec()),
        phash,
        exif_date: taken_at.is_some(),
    }
}

fn of_kind<'a>(groups: &'a [DupGroup], kind: &str) -> Vec<&'a DupGroup> {
    groups.iter().filter(|g| g.kind == kind).collect()
}

#[test]
fn finds_exact_similar_and_burst() {
    let rows = vec![
        row(1, "a.jpg", b"h1", Some(0b1111), Some(1000), 100),
        row(2, "a_kopia.jpg", b"h1", Some(0b1111), Some(5000), 100),
        row(3, "a_maly.jpg", b"h2", Some(0b0011), Some(9000), 50),
        row(4, "inny.jpg", b"h3", Some(!0b1111i64), Some(20000), 70),
        row(5, "s1.jpg", b"s1", None, Some(50000), 10),
        row(6, "s2.jpg", b"s2", None, Some(50001), 10),
        row(7, "s3.jpg", b"s3", None, Some(50002), 10),
    ];

    let groups = scan(&rows, 6);
    let exact = of_kind(&groups, "exact");
    let similar = of_kind(&groups, "similar");
    let burst = of_kind(&groups, "burst");

    assert_eq!(exact.len(), 1);
    assert_eq!(exact[0].members.len(), 2);

    assert_eq!(similar.len(), 1, "a.jpg i a_maly.jpg powinny się sparować");
    assert_eq!(similar[0].members.len(), 2);

    assert_eq!(burst.len(), 1);
    assert_eq!(burst[0].members.len(), 3);

    let groups = scan(&rows, 0);
    assert!(groups.iter().filter(|g| g.kind == "similar").count() == 0);
}

#[test]
fn banding_finds_all_pairs_within_threshold() {
    let mut lcg: u64 = 12345;
    let mut next = || {
        lcg = lcg.wrapping_mul(6364136223846793005).wrapping_add(1442695040888963407);
        lcg
    };
    let mut hashes = Vec::new();
    for i in 0..120 {
        let base = next();
        hashes.push(base as i64);
        if i % 4 == 0 {
            let flipped = base ^ (1 << (next() % 64)) ^ (1 << (next() % 64));
            hashes.push(flipped as i64);
        }
    }
    let rows: Vec<DupRow> = hashes
        .iter()
        .enumerate()
        .map(|(i, p)| row(i as i64 + 1, &format!("f{i}.jpg"), format!("u{i}").as_bytes(), Some(*p), None, 1))
        .collect();

    let groups = scan(&rows, 7);
    let mut group_of: HashMap<i64, usize> = HashMap::new();
    for (gi, g) in groups.iter().filter(|g| g.kind == "similar").enumerate() {
        for m in &g.members {
            let p = rows[(m.id - 1) as usize].phash.unwrap();
            group_of.insert(p, gi);
        }
    }
    for i in 0..hashes.len() {
        for j in i + 1..hashes.len() {
            if hamming(hashes[i], hashes[j]) <= 7 {
                assert_eq!(
                    group_of.get(&hashes[i]),
                    group_of.get(&hashes[j]),
                    "para ({i},{j}) o odległości {} rozdzielona",
                    hamming(hashes[i], hashes[j])
                );
                assert!(group_of.contains_key(&hashes[i]), "para ({i},{j}) nieznaleziona");
            }
        }
    }
}

fn test_image(w: u32, h: u32, seed: u32) -> image::DynamicImage {
    let s = seed.wrapping_mul(2654435761);
    let rx = (s >> 4) % (w / 2);
    let ry = (s >> 12) % (h / 2);
    let rw = w / 4 + ((s >> 20) % (w / 4));
    let rh = h / 4 + ((s >> 24) % (h / 4));
    let dir = s % 4;
    image::DynamicImage::ImageRgb8(image::RgbImage::from_fn(w, h, |x, y| {
        let inside = x >= rx && x < rx + rw && y >= ry && y < ry + rh;
        let t = (match dir {
            0 => x * 255 / w,
            1 => y * 255 / h,
            2 => (x + y) * 255 / (w + h),
            _ => (x * 255 / w + 255 - y * 255 / h) / 2,
        }) as u8;
        if inside {
            image::Rgb([255 - t, (s >> 8) as u8, t])
        } else {
            image::Rgb([t, t / 2, (s >> 16) as u8])
        }
    }))
}

fn hashes_of(img: &image::DynamicImage) -> (i64, i64) {
    let rgba = img.to_rgba8();
    perceptual_hashes(rgba.width(), rgba.height(), rgba.as_raw())
}

#[test]
fn perceptual_hash_resized_close_distinct_far() {
    let hashes: Vec<(i64, i64)> = (0..6)
        .map(|seed| {
            let big = test_image(1280, 960, seed);
            let small = big.thumbnail(320, 240);
            let (p_big, _) = hashes_of(&big);
            let (p_small, _) = hashes_of(&small);
            (p_big, p_small)
        })
        .collect();

    for (i, (big, small)) in hashes.iter().enumerate() {
        assert!(hamming(*big, *small) <= 6, "ziarno {i}: kopia za daleko ({})", hamming(*big, *small));
    }
    let mut far = 0;
    let mut pairs = 0;
    for i in 0..hashes.len() {
        for j in i + 1..hashes.len() {
            pairs += 1;
            if hamming(hashes[i].0, hashes[j].0) > 6 {
                far += 1;
            }
        }
    }
    assert!(far * 10 >= pairs * 8, "tylko {far}/{pairs} par odległych");
}

#[test]
fn perceptual_hashes_are_not_the_pixels() {
    let img = test_image(64, 48, 3);
    let (p, d) = hashes_of(&img);
    let rgba = img.to_rgba8();
    assert_ne!(p, bytes_to_i64(rgba.as_raw()));
    assert_ne!(d, bytes_to_i64(rgba.as_raw()));
    assert_eq!(hashes_of(&img), (p, d));
}

#[test]
fn hamming_counts_differing_bits() {
    assert_eq!(hamming(0, 0), 0);
    assert_eq!(hamming(0b1111, 0b0011), 2);
    assert_eq!(hamming(0, -1), 64);
    assert_eq!(hamming(i64::MIN, 0), 1);
    assert_eq!(hamming(12345, -9876), hamming(-9876, 12345));
}

#[test]
fn bytes_read_little_endian() {
    assert_eq!(bytes_to_i64(&[]), 0);
    assert_eq!(bytes_to_i64(&[1]), 1);
    assert_eq!(bytes_to_i64(&[0, 1]), 256);
    assert_eq!(bytes_to_i64(&[0xff; 8]), -1);
    assert_eq!(bytes_to_i64(&[1, 0, 0, 0, 0, 0, 0, 0, 9, 9]), 1);
    assert_eq!(bytes_to_i64(&[0, 0, 0, 0, 0, 0, 0, 0x80]), i64::MIN);
}

#[test]
fn bursts_need_three_exif_photos_two_seconds_apart() {
    let mut rows = vec![
        row(1, "b1.jpg", b"b1", None, Some(100), 1),
        row(2, "b2.jpg", b"b2", None, Some(102), 1),
        row(3, "b3.jpg", b"b3", None, Some(105), 1),
        row(4, "c1.jpg", b"c1", None, Some(200), 1),
        row(5, "c2.jpg", b"c2", None, Some(201), 1),
        row(6, "c3.jpg", b"c3", None, Some(203), 1),
        row(7, "c4.jpg", b"c4", None, Some(204), 1),
    ];
    let groups = scan(&rows, 7);
    let burst = of_kind(&groups, "burst");
    assert_eq!(burst.len(), 1);
    let ids: Vec<i64> = burst[0].members.iter().map(|m| m.id).collect();
    assert_eq!(ids, vec![4, 5, 6, 7]);

    rows[5].exif_date = false;
    let groups = scan(&rows, 7);
    assert!(of_kind(&groups, "burst").is_empty());

    let mut videos = rows.clone();
    for r in videos.iter_mut() {
        r.member.kind = 1;
        r.exif_date = true;
    }
    assert!(of_kind(&scan(&videos, 7), "burst").is_empty());
}

#[test]
fn groups_come_bursts_exact_similar_largest_first() {
    let rows = vec![
        row(1, "x1.jpg", b"x", None, None, 1),
        row(2, "x2.jpg", b"x", None, None, 1),
        row(3, "y1.jpg", b"y", None, None, 1),
        row(4, "y2.jpg", b"y", None, None, 1),
        row(5, "y3.jpg", b"y", None, None, 1),
        row(6, "p1.jpg", b"p1", Some(0), None, 1),
        row(7, "p2.jpg", b"p2", Some(1), None, 1),
        row(8, "s1.jpg", b"s1", None, Some(10), 1),
        row(9, "s2.jpg", b"s2", None, Some(11), 1),
        row(10, "s3.jpg", b"s3", None, Some(12), 1),
    ];
    let groups = scan(&rows, 3);
    let kinds: Vec<&str> = groups.iter().map(|g| g.kind.as_str()).collect();
    assert_eq!(kinds, vec!["burst", "exact", "exact", "similar"]);
    assert_eq!(groups[1].members.len(), 3);
    assert_eq!(groups[2].members.len(), 2);
    let similar: Vec<i64> = groups[3].members.iter().map(|m| m.id).collect();
    assert_eq!(similar, vec![6, 7]);
}

#[test]
fn scan_of_nothing_finds_nothing() {
    assert!(scan(&[], 5).is_empty());
}

#[test]
fn exact_groups_are_whole_hash_classes() {
    let mut rows = vec![
        row(1, "a.jpg", b"h1", None, None, 1),
        row(2, "b.jpg", b"h2", None, None, 1),
        row(3, "c.jpg", b"h1", None, None, 1),
        row(4, "d.jpg", b"h1", None, None, 1),
        row(5, "e.jpg", b"h2", None, None, 1),
        row(6, "f.jpg", b"h3", None, None, 1),
        row(7, "g.jpg", b"", None, None, 1),
        row(8, "h.jpg", b"", None, None, 1),
    ];
    rows[6].hash = None;
    rows[7].hash = None;
    let groups = scan(&rows, 6);
    let exact = of_kind(&groups, "exact");
    let ids: Vec<Vec<i64>> = exact.iter().map(|g| g.members.iter().map(|m| m.id).collect()).collect();
    assert_eq!(ids, vec![vec![1, 3, 4], vec![2, 5]]);
}

#[test]
fn bursts_are_maximal_runs() {
    let rows = vec![
        row(1, "p1.jpg", b"p1", None, Some(100), 1),
        row(2, "p2.jpg", b"p2", None, Some(102), 1),
        row(3, "p3.jpg", b"p3", None, Some(104), 1),
        row(4, "p4.jpg", b"p4", None, Some(106), 1),
        row(5, "p5.jpg", b"p5", None, Some(109), 1),
        row(6, "p6.jpg", b"p6", None, Some(110), 1),
    ];
    let groups = scan(&rows, 0);
    let burst = of_kind(&groups, "burst");
    let ids: Vec<Vec<i64>> = burst.iter().map(|g| g.members.iter().map(|m| m.id).collect()).collect();
    assert_eq!(ids, vec![vec![1, 2, 3, 4]]);
}
