use medianest::media::media_answer;
use medianest::media::{
    content_hash, content_range, kind_of, make_blurhash, media_reply, media_target, mime_for, orientation_ops, parse_range,
    quick_hash, quick_tail_from, served_name, sprite_path, thumb_path, thumb_request, ImageOp, MediaReply,
    MediaTarget, MEDIA_CHUNK, QUICK_CHUNK,
};

#[test]
fn media_types_by_extension() {
    assert_eq!(mime_for("a/b/IMG_1.JPG"), "image/jpeg");
    assert_eq!(mime_for("x.jpeg"), "image/jpeg");
    assert_eq!(mime_for("x.png"), "image/png");
    assert_eq!(mime_for("x.gif"), "image/gif");
    assert_eq!(mime_for("x.webp"), "image/webp");
    assert_eq!(mime_for("x.bmp"), "image/bmp");
    assert_eq!(mime_for("x.tif"), "image/tiff");
    assert_eq!(mime_for("x.tiff"), "image/tiff");
    assert_eq!(mime_for("film.MP4"), "video/mp4");
    assert_eq!(mime_for("film.m4v"), "video/mp4");
    assert_eq!(mime_for("film.mov"), "video/quicktime");
    assert_eq!(mime_for("film.mkv"), "video/x-matroska");
    assert_eq!(mime_for("film.avi"), "video/x-msvideo");
    assert_eq!(mime_for("film.wmv"), "video/x-ms-wmv");
    assert_eq!(mime_for("film.mts"), "video/mp2t");
    assert_eq!(mime_for("film.3gp"), "video/3gpp");
    assert_eq!(mime_for("notatki.txt"), "application/octet-stream");
    assert_eq!(mime_for("jpg"), "image/jpeg");
    assert_eq!(mime_for(""), "application/octet-stream");
}

#[test]
fn range_headers() {
    assert_eq!(parse_range("bytes=0-99", 1000), Some((0, 99)));
    assert_eq!(parse_range("bytes=500-", 1000), Some((500, 999)));
    assert_eq!(parse_range("bytes=10-5000", 1000), Some((10, 999)));
    assert_eq!(parse_range("bytes=+7-x", 1000), Some((7, 999)));
    assert_eq!(parse_range("bytes=0-", 0), Some((0, 0)));
    assert_eq!(parse_range("bytes=-100", 1000), None);
    assert_eq!(parse_range("bytes=abc-1", 1000), None);
    assert_eq!(parse_range("items=0-1", 1000), None);
    assert_eq!(parse_range("bytes=5", 1000), None);
}

#[test]
fn replies_to_media_requests() {
    assert_eq!(media_reply(Some((0, 99)), 1000), MediaReply::Partial { start: 0, end: 99 });
    assert_eq!(media_reply(Some((1000, 1000)), 1000), MediaReply::Full);
    assert_eq!(media_reply(None, 1000), MediaReply::Full);
    let len = 3 * MEDIA_CHUNK;
    assert_eq!(
        media_reply(parse_range("bytes=10-", len), len),
        MediaReply::Partial { start: 10, end: 10 + MEDIA_CHUNK - 1 }
    );
    assert_eq!(content_range(0, 99, 1000), "bytes 0-99/1000");
}

#[test]
fn media_request_paths() {
    assert_eq!(media_target("/42"), MediaTarget::File(42));
    assert_eq!(media_target("42"), MediaTarget::File(42));
    assert_eq!(media_target("//pending/7"), MediaTarget::Pending(7));
    assert_eq!(media_target("/pending/x"), MediaTarget::Invalid);
    assert_eq!(media_target("/abc"), MediaTarget::Invalid);
    assert_eq!(media_target("/-3"), MediaTarget::File(-3));
    assert_eq!(media_target(""), MediaTarget::Invalid);
}

#[test]
fn served_names_lose_the_lock_suffix() {
    assert_eq!(served_name("/lib/a.mp4.mnlock"), "/lib/a.mp4");
    assert_eq!(served_name("a.jpg.mnlock.mnlock"), "a.jpg");
    assert_eq!(served_name("a.jpg"), "a.jpg");
}

#[test]
fn thumbnail_requests_and_paths() {
    assert_eq!(thumb_request("/abcdef"), Some(("abcdef".to_string(), false)));
    assert_eq!(thumb_request("/abcdef.sprite"), Some(("abcdef".to_string(), true)));
    assert_eq!(thumb_request("/ab"), None);
    assert_eq!(thumb_request("/xyz123"), None);
    assert_eq!(thumb_request("/ab.sprite"), None);
    assert_eq!(thumb_path("thumbs", "abcdef"), "thumbs/ab/abcdef.webp");
    assert_eq!(sprite_path("thumbs", "abcdef"), "thumbs/ab/abcdef.sprite.webp");
}

#[test]
fn kinds_by_extension() {
    assert_eq!(kind_of("a/b.JPG"), Some(0));
    assert_eq!(kind_of("x.heic"), Some(0));
    assert_eq!(kind_of("x.cr2"), Some(0));
    assert_eq!(kind_of("sub/b.mp4"), Some(1));
    assert_eq!(kind_of("x.3gp"), Some(1));
    assert_eq!(kind_of("c.txt"), None);
    assert_eq!(kind_of(".jpg"), None);
    assert_eq!(kind_of("noext"), None);
    assert_eq!(kind_of("a.jpg.mnlock"), None);
}

#[test]
fn orientation_steps() {
    assert!(orientation_ops(1).is_empty());
    assert_eq!(orientation_ops(2), vec![ImageOp::FlipHorizontal]);
    assert_eq!(orientation_ops(3), vec![ImageOp::Rotate180]);
    assert_eq!(orientation_ops(4), vec![ImageOp::FlipVertical]);
    assert_eq!(orientation_ops(5), vec![ImageOp::Rotate90, ImageOp::FlipHorizontal]);
    assert_eq!(orientation_ops(6), vec![ImageOp::Rotate90]);
    assert_eq!(orientation_ops(7), vec![ImageOp::Rotate270, ImageOp::FlipHorizontal]);
    assert_eq!(orientation_ops(8), vec![ImageOp::Rotate270]);
    assert!(orientation_ops(9).is_empty());
}

#[test]
fn quick_hash_differs_on_content_and_size() {
    let len_a = 3 * QUICK_CHUNK;
    let len_b = 3 * QUICK_CHUNK + 1;
    assert_eq!(quick_tail_from(len_a), Some(2 * QUICK_CHUNK));
    assert_eq!(quick_tail_from(2 * QUICK_CHUNK), None);
    let head = vec![1u8; QUICK_CHUNK as usize];
    let tail = vec![1u8; QUICK_CHUNK as usize];
    let a = quick_hash(len_a, &head, &tail);
    let b = quick_hash(len_b, &head, &tail);
    assert_ne!(a, b);
    assert_eq!(a, quick_hash(len_a, &head, &tail));
    assert_eq!(a.len(), 32);

    let mut expected = blake3::Hasher::new();
    expected.update(&len_a.to_le_bytes());
    expected.update(&head);
    expected.update(&tail);
    assert_eq!(a, expected.finalize().as_bytes().to_vec());
    assert_ne!(quick_hash(5, b"abcde", b""), quick_hash(5, b"abcdf", b""));
}

#[test]
fn blurhash_placeholders() {
    let (w, h) = (8u32, 6u32);
    let rgba: Vec<u8> = (0..w * h).flat_map(|i| [(i * 5) as u8, 100, (255 - i * 3) as u8, 255]).collect();
    let bh = make_blurhash(w, h, &rgba).unwrap();
    assert_eq!(bh.len(), 28);
    assert_eq!(bh, blurhash::encode(4, 3, w, h, &rgba).unwrap());
    assert!(bh.starts_with('L'));
    let alphabet = "0123456789ABCDEFGHIJKLMNOPQRSTUVWXYZabcdefghijklmnopqrstuvwxyz#$%*+,-.:;=?@[]^_{|}~";
    assert!(bh.chars().all(|c| alphabet.contains(c)));
}

#[test]
fn backwards_ranges_get_no_answer() {
    assert_eq!(media_answer(parse_range("bytes=500-100", 1000), 1000), None);
    assert_eq!(media_answer(parse_range("bytes=100-500", 1000), 1000), Some(MediaReply::Partial { start: 100, end: 500 }));
    assert_eq!(media_answer(parse_range("bytes=2000-1", 1000), 1000), Some(MediaReply::Full));
    assert_eq!(media_answer(None, 0), Some(MediaReply::Full));
}

#[test]
fn whole_file_hash_is_blake3_of_the_bytes() {
    let data = b"the whole content of a photo";
    let h = content_hash(data);
    assert_eq!(h.len(), 32);
    assert_eq!(h, blake3::hash(data).as_bytes().to_vec());
    assert_ne!(h, data[..].to_vec());
    assert_ne!(content_hash(b"a"), content_hash(b"b"));
}
