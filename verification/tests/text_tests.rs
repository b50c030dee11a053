use medianest::seqs::{find_text, less_chars, sort_by_text, sort_distinct_pairs};
use medianest::text::{chars_of, hex, join_path, split_parent, str_eq, string_of, unhex};

fn chars(s: &str) -> Vec<char> {
    s.chars().collect()
}

#[test]
fn hex_roundtrip() {
    assert_eq!(hex(&[0x00, 0xab, 0x10, 0xff]), "00ab10ff");
    assert_eq!(hex(&[]), "");
    assert_eq!(unhex("00ab10ff"), Some(vec![0x00, 0xab, 0x10, 0xff]));
    assert_eq!(unhex("00AB"), Some(vec![0x00, 0xab]));
    assert_eq!(unhex("abc"), None);
    assert_eq!(unhex("zz"), None);
    let bytes: Vec<u8> = (0..=255).collect();
    assert_eq!(unhex(&hex(&bytes)), Some(bytes));
}

#[test]
fn paths_split_and_join() {
    assert_eq!(split_parent("a/b/c.jpg"), ("a/b".to_string(), "c.jpg".to_string()));
    assert_eq!(split_parent("c.jpg"), (String::new(), "c.jpg".to_string()));
    assert_eq!(join_path("a/b", "c.jpg"), "a/b/c.jpg");
    assert_eq!(join_path("", "c.jpg"), "c.jpg");
    let (d, n) = split_parent("x/y/z.png");
    assert_eq!(join_path(&d, &n), "x/y/z.png");
}

#[test]
fn strings_and_chars() {
    assert!(str_eq("zażółć", "zażółć"));
    assert!(!str_eq("a", "b"));
    let v = chars_of("gęś");
    assert_eq!(v, vec!['g', 'ę', 'ś']);
    assert_eq!(string_of(&v, 1, 3), "ęś");
}

#[test]
fn text_order_and_search() {
    let keys: Vec<Vec<char>> = vec![chars("b"), chars("a/x"), chars("a"), chars("ą")];
    let order = sort_by_text(&keys);
    assert_eq!(order, vec![2, 1, 0, 3]);
    assert_eq!(find_text(&keys, &order, &chars("a/x")), Some(1));
    assert_eq!(find_text(&keys, &order, &chars("c")), None);
    assert!(less_chars(&chars("a"), &chars("ab")));
    assert!(!less_chars(&chars("b"), &chars("ab")));
}

#[test]
fn pairs_sort_by_key_then_position() {
    let sorted = sort_distinct_pairs(vec![(5, 0), (-1, 3), (5, 1), (0, 2)]);
    assert_eq!(sorted, vec![(-1, 3), (0, 2), (5, 0), (5, 1)]);
}
