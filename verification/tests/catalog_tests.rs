use medianest::catalog::{
    album_deletion, album_plan, build_where, clamp_rating, count_query, fts_query, is_locked, list_query,
    order_clause, reconcile_plan, sanitize_component, tag_name, timeline_query, trim, ListQuery, MissingFile, Reconcile,
    SqlParam,
};
use rusqlite::types::Value;
use rusqlite::Connection;

const SCHEMA: &str = "
CREATE TABLE files (
    id INTEGER PRIMARY KEY, path TEXT NOT NULL UNIQUE, parent TEXT NOT NULL, name TEXT NOT NULL,
    kind INTEGER NOT NULL, size INTEGER NOT NULL, mtime INTEGER NOT NULL, hash BLOB,
    width INTEGER, height INTEGER, duration REAL, taken_at INTEGER, blurhash TEXT,
    thumb INTEGER NOT NULL DEFAULT 0, status INTEGER NOT NULL DEFAULT 0, error TEXT,
    phash INTEGER, dhash INTEGER, exif_date INTEGER NOT NULL DEFAULT 0,
    rating INTEGER NOT NULL DEFAULT 0, protected_album INTEGER
);
CREATE TABLE albums (
    id INTEGER PRIMARY KEY, name TEXT NOT NULL, type TEXT NOT NULL DEFAULT 'virtual',
    folder_path TEXT, created_at INTEGER NOT NULL, key_salt BLOB, key_verifier BLOB
);
CREATE TABLE album_files (
    album_id INTEGER NOT NULL REFERENCES albums(id) ON DELETE CASCADE,
    file_id INTEGER NOT NULL REFERENCES files(id) ON DELETE CASCADE,
    added_at INTEGER NOT NULL, PRIMARY KEY (album_id, file_id)
);
CREATE TABLE tags (id INTEGER PRIMARY KEY, name TEXT NOT NULL UNIQUE COLLATE NOCASE);
CREATE TABLE file_tags (
    file_id INTEGER NOT NULL REFERENCES files(id) ON DELETE CASCADE,
    tag_id INTEGER NOT NULL REFERENCES tags(id) ON DELETE CASCADE,
    PRIMARY KEY (file_id, tag_id)
);
CREATE VIRTUAL TABLE files_fts USING fts5(name, path, tags, tokenize='unicode61');
CREATE TRIGGER files_fts_ai AFTER INSERT ON files BEGIN
    INSERT INTO files_fts(rowid, name, path, tags) VALUES (new.id, new.name, new.path, '');
END;
CREATE TRIGGER files_fts_ad AFTER DELETE ON files BEGIN
    DELETE FROM files_fts WHERE rowid = old.id;
END;
CREATE TRIGGER files_fts_au AFTER UPDATE OF name, path ON files BEGIN
    UPDATE files_fts SET name = new.name, path = new.path WHERE rowid = new.id;
END;
";

fn open_db() -> Connection {
    let conn = Connection::open_in_memory().unwrap();
    conn.execute_batch("PRAGMA foreign_keys = ON;").unwrap();
    conn.execute_batch(SCHEMA).unwrap();
    conn
}

fn add(conn: &Connection, path: &str, name: &str) -> i64 {
    let parent = path.rsplit_once('/').map(|(p, _)| p).unwrap_or("");
    conn.execute(
        "INSERT INTO files (path,parent,name,kind,size,mtime) VALUES (?1,?2,?3,0,1,1)",
        (path, parent, name),
    )
    .unwrap();
    conn.last_insert_rowid()
}

fn values(params: &[SqlParam]) -> Vec<Value> {
    params
        .iter()
        .map(|p| match p {
            SqlParam::Text(s) => Value::Text(s.clone()),
            SqlParam::Int(i) => Value::Integer(*i),
        })
        .collect()
}

fn sync_fts_tags(conn: &Connection, file_id: i64) {
    conn.execute(
        "UPDATE files_fts SET tags = COALESCE((
            SELECT group_concat(t.name, ' ') FROM file_tags ft
            JOIN tags t ON t.id = ft.tag_id WHERE ft.file_id = ?1
         ), '') WHERE rowid = ?1",
        (file_id,),
    )
    .unwrap();
}

fn tag_file(conn: &Connection, file_id: i64, name: &str) {
    let Some(name) = tag_name(name) else {
        return;
    };
    conn.execute("INSERT OR IGNORE INTO tags (name) VALUES (?1)", (name.as_str(),)).unwrap();
    let tag_id: i64 = conn.query_row("SELECT id FROM tags WHERE name = ?1", (name.as_str(),), |r| r.get(0)).unwrap();
    conn.execute("INSERT OR IGNORE INTO file_tags (file_id, tag_id) VALUES (?1, ?2)", (file_id, tag_id)).unwrap();
    sync_fts_tags(conn, file_id);
}

fn untag_file(conn: &Connection, file_id: i64, tag_id: i64) {
    conn.execute("DELETE FROM file_tags WHERE file_id = ?1 AND tag_id = ?2", (file_id, tag_id)).unwrap();
    conn.execute(
        "DELETE FROM tags WHERE id = ?1 AND NOT EXISTS (SELECT 1 FROM file_tags WHERE tag_id = ?1)",
        (tag_id,),
    )
    .unwrap();
    sync_fts_tags(conn, file_id);
}

fn tag_count(conn: &Connection) -> i64 {
    conn.query_row("SELECT count(*) FROM tags", [], |r| r.get(0)).unwrap()
}

fn set_rating(conn: &Connection, id: i64, rating: i64) {
    conn.execute("UPDATE files SET rating = ?2 WHERE id = ?1", (id, clamp_rating(rating))).unwrap();
}

fn count(conn: &Connection, q: &ListQuery) -> i64 {
    let (sql, params) = count_query(q);
    conn.query_row(&sql, rusqlite::params_from_iter(values(&params)), |r| r.get(0)).unwrap()
}

fn histogram(conn: &Connection, q: &ListQuery) -> Vec<(String, i64)> {
    let (sql, params) = timeline_query(q);
    let mut stmt = conn.prepare(&sql).unwrap();
    let rows = stmt
        .query_map(rusqlite::params_from_iter(values(&params)), |r| Ok((r.get(0)?, r.get(1)?)))
        .unwrap();
    rows.map(|r| r.unwrap()).collect()
}

fn phrase(q: &str) -> ListQuery {
    ListQuery { query: Some(q.to_string()), ..Default::default() }
}

#[test]
fn fts_search_finds_by_name_and_tag() {
    let conn = open_db();
    let id1 = add(&conn, "2020/wakacje_gdansk.jpg", "wakacje_gdansk.jpg");
    add(&conn, "2020/praca.jpg", "praca.jpg");
    tag_file(&conn, id1, "morze");

    assert_eq!(count(&conn, &phrase("gdansk")), 1);
    assert_eq!(count(&conn, &phrase("wakac")), 1);
    assert_eq!(count(&conn, &phrase("morze")), 1);
    assert_eq!(count(&conn, &phrase("gory")), 0);

    let tag_id: i64 = conn.query_row("SELECT id FROM tags WHERE name='morze'", [], |r| r.get(0)).unwrap();
    untag_file(&conn, id1, tag_id);
    assert_eq!(count(&conn, &phrase("morze")), 0);
    assert_eq!(tag_count(&conn), 0);
}

#[test]
fn filters_compose() {
    let conn = open_db();
    let id1 = add(&conn, "a/x.jpg", "x.jpg");
    let id2 = add(&conn, "a/y.jpg", "y.jpg");
    add(&conn, "b/z.jpg", "z.jpg");
    set_rating(&conn, id1, 5);
    set_rating(&conn, id2, 2);

    let q = ListQuery { parent: Some("a".into()), recursive: true, rating_min: 3, ..Default::default() };
    assert_eq!(count(&conn, &q), 1);
}

#[test]
fn timeline_histogram_respects_filter_and_sort() {
    let conn = open_db();
    let a = add(&conn, "a.jpg", "a.jpg");
    let b = add(&conn, "b.jpg", "b.jpg");
    let c = add(&conn, "c.jpg", "c.jpg");
    let d = add(&conn, "d.jpg", "d.jpg");
    conn.execute("UPDATE files SET taken_at=1689422400 WHERE id IN (?1,?2)", (a, b)).unwrap();
    conn.execute("UPDATE files SET taken_at=1704067200 WHERE id=?1", (c,)).unwrap();
    set_rating(&conn, a, 5);

    let h = histogram(&conn, &ListQuery::default());
    assert_eq!(h, vec![("2024-01".to_string(), 1), ("2023-07".to_string(), 2)]);
    let dated: i64 = h.iter().map(|(_, n)| n).sum();
    assert_eq!(dated, 3, "d.jpg bez daty nie wchodzi do histogramu");
    let _ = d;

    let asc = histogram(&conn, &ListQuery { sort: "date_asc".into(), ..Default::default() });
    assert_eq!(asc, vec![("2023-07".to_string(), 2), ("2024-01".to_string(), 1)]);

    let filtered = histogram(&conn, &ListQuery { rating_min: 5, ..Default::default() });
    assert_eq!(filtered, vec![("2023-07".to_string(), 1)]);
}

/// Applies a reconciliation plan the way the application does.
fn apply_reconcile(conn: &Connection) -> (u64, u64) {
    let missing: Vec<(i64, Option<Vec<u8>>, i64)> = {
        let mut stmt = conn.prepare("SELECT id, hash, rating FROM files WHERE status = 1").unwrap();
        let rows = stmt.query_map([], |r| Ok((r.get(0)?, r.get(1)?, r.get(2)?))).unwrap();
        rows.map(|r| r.unwrap()).collect()
    };
    let files: Vec<MissingFile> = missing
        .iter()
        .map(|(id, hash, rating)| {
            let survivor = hash.as_ref().and_then(|h| {
                conn.query_row("SELECT id FROM files WHERE hash = ?1 AND status = 0 LIMIT 1", (h,), |r| r.get(0))
                    .ok()
            });
            MissingFile { id: *id, survivor, rating: *rating }
        })
        .collect();
    let (plan, merged, removed) = reconcile_plan(&files);
    for (step, file) in plan.iter().zip(files.iter()) {
        match *step {
            Reconcile::Merge { old_id, new_id, carry_rating } => {
                conn.execute("UPDATE OR IGNORE file_tags SET file_id = ?2 WHERE file_id = ?1", (old_id, new_id))
                    .unwrap();
                conn.execute("UPDATE OR IGNORE album_files SET file_id = ?2 WHERE file_id = ?1", (old_id, new_id))
                    .unwrap();
                if carry_rating {
                    conn.execute("UPDATE files SET rating = max(rating, ?2) WHERE id = ?1", (new_id, file.rating))
                        .unwrap();
                }
                conn.execute("DELETE FROM files WHERE id = ?1", (old_id,)).unwrap();
            }
            Reconcile::Remove { old_id } => {
                conn.execute("DELETE FROM files WHERE id = ?1", (old_id,)).unwrap();
            }
        }
    }
    (merged, removed)
}

#[test]
fn reconcile_moves_metadata_to_surviving_copy() {
    let conn = open_db();
    conn.execute(
        "INSERT INTO files (path,parent,name,kind,size,mtime,hash,rating,status)
         VALUES ('old/a.jpg','old','a.jpg',0,1,1,x'aa',4,1)",
        [],
    )
    .unwrap();
    let old_id = conn.last_insert_rowid();
    conn.execute(
        "INSERT INTO files (path,parent,name,kind,size,mtime,hash,status)
         VALUES ('new/a.jpg','new','a.jpg',0,1,1,x'aa',0)",
        [],
    )
    .unwrap();
    let new_id = conn.last_insert_rowid();
    tag_file(&conn, old_id, "wakacje");
    conn.execute(
        "INSERT INTO files (path,parent,name,kind,size,mtime,hash,status)
         VALUES ('gone.jpg','','gone.jpg',0,1,1,x'bb',1)",
        [],
    )
    .unwrap();

    let (merged, removed) = apply_reconcile(&conn);
    assert_eq!((merged, removed), (1, 1));
    let rating: i64 = conn.query_row("SELECT rating FROM files WHERE id=?1", (new_id,), |r| r.get(0)).unwrap();
    assert_eq!(rating, 4);
    let tags: i64 =
        conn.query_row("SELECT count(*) FROM file_tags WHERE file_id=?1", (new_id,), |r| r.get(0)).unwrap();
    assert_eq!(tags, 1);
    let missing: i64 = conn.query_row("SELECT count(*) FROM files WHERE status=1", [], |r| r.get(0)).unwrap();
    assert_eq!(missing, 0);
}

#[test]
fn reconcile_plan_counts_and_carries_ratings() {
    let files = vec![
        MissingFile { id: 1, survivor: Some(7), rating: 0 },
        MissingFile { id: 2, survivor: None, rating: 3 },
        MissingFile { id: 3, survivor: Some(9), rating: 2 },
    ];
    let (plan, merged, removed) = reconcile_plan(&files);
    assert_eq!((merged, removed), (2, 1));
    assert_eq!(
        plan,
        vec![
            Reconcile::Merge { old_id: 1, new_id: 7, carry_rating: false },
            Reconcile::Remove { old_id: 2 },
            Reconcile::Merge { old_id: 3, new_id: 9, carry_rating: true },
        ]
    );
    let (empty, m, r) = reconcile_plan(&[]);
    assert!(empty.is_empty());
    assert_eq!((m, r), (0, 0));
}

#[test]
fn fts_query_quotes_each_word_as_prefix() {
    assert_eq!(fts_query("wakac"), "\"wakac\"*");
    assert_eq!(fts_query("  morze  Gdańsk! "), "\"morze\"* \"Gdańsk\"*");
    assert_eq!(fts_query("a-b c"), "\"ab\"* \"c\"*");
    assert_eq!(fts_query("!!! ??"), "");
    assert_eq!(fts_query(""), "");
}

#[test]
fn build_where_numbers_placeholders_in_order() {
    let q = ListQuery { parent: Some("a".into()), recursive: true, rating_min: 3, ..Default::default() };
    let (sql, params) = build_where(&q);
    assert_eq!(
        sql,
        "f.status = 0 AND (f.parent = ?1 OR (f.parent >= ?1 || '/' AND f.parent < ?1 || '0')) AND f.rating >= ?2"
    );
    assert_eq!(values(&params), vec![Value::Text("a".into()), Value::Integer(3)]);

    let q = ListQuery {
        parent: Some("x/y".into()),
        kind: Some(1),
        tag_id: Some(4),
        album_id: Some(5),
        date_from: Some(100),
        date_to: Some(200),
        query: Some("kot".into()),
        ..Default::default()
    };
    let (sql, params) = build_where(&q);
    assert_eq!(
        sql,
        "f.status = 0 AND f.parent = ?1 AND f.kind = ?2 \
         AND EXISTS (SELECT 1 FROM file_tags ft WHERE ft.file_id = f.id AND ft.tag_id = ?3) \
         AND EXISTS (SELECT 1 FROM album_files af WHERE af.file_id = f.id AND af.album_id = ?4) \
         AND f.taken_at >= ?5 AND f.taken_at < ?6 \
         AND f.id IN (SELECT rowid FROM files_fts WHERE files_fts MATCH ?7)"
    );
    assert_eq!(
        values(&params),
        vec![
            Value::Text("x/y".into()),
            Value::Integer(1),
            Value::Integer(4),
            Value::Integer(5),
            Value::Integer(100),
            Value::Integer(200),
            Value::Text("\"kot\"*".into()),
        ]
    );
}

#[test]
fn build_where_skips_empty_filters() {
    let (sql, params) = build_where(&ListQuery::default());
    assert_eq!(sql, "f.status = 0");
    assert!(params.is_empty());
    let q = ListQuery { parent: Some(String::new()), recursive: true, query: Some("?!".into()), ..Default::default() };
    let (sql, params) = build_where(&q);
    assert_eq!(sql, "f.status = 0");
    assert!(params.is_empty());
    let q = ListQuery { parent: Some(String::new()), ..Default::default() };
    let (sql, params) = build_where(&q);
    assert_eq!(sql, "f.status = 0 AND f.parent = ?1");
    assert_eq!(values(&params), vec![Value::Text(String::new())]);
}

#[test]
fn order_clause_by_sort_name() {
    assert_eq!(order_clause("date_asc"), "f.taken_at IS NULL, f.taken_at ASC, f.name COLLATE NOCASE");
    assert_eq!(order_clause("name"), "f.name COLLATE NOCASE");
    assert_eq!(order_clause("size_desc"), "f.size DESC");
    assert_eq!(order_clause(""), "f.taken_at IS NULL, f.taken_at DESC, f.name COLLATE NOCASE");
    assert_eq!(order_clause("whatever"), "f.taken_at IS NULL, f.taken_at DESC, f.name COLLATE NOCASE");
}

#[test]
fn list_query_binds_page_after_filters() {
    let q = ListQuery { rating_min: 2, sort: "name".into(), ..Default::default() };
    let (sql, params) = list_query(&q, 40, 20);
    assert_eq!(
        sql,
        "SELECT f.id, f.name, f.kind, f.blurhash, CASE WHEN f.thumb = 1 THEN lower(hex(f.hash)) END, \
         f.duration, f.rating, f.protected_album FROM files f WHERE f.status = 0 AND f.rating >= ?1 \
         ORDER BY f.name COLLATE NOCASE LIMIT ?3 OFFSET ?2"
    );
    assert_eq!(values(&params), vec![Value::Integer(2), Value::Integer(40), Value::Integer(20)]);

    let conn = open_db();
    for i in 0..5 {
        let name = format!("f{i}.jpg");
        add(&conn, &name, &name);
    }
    let (sql, params) = list_query(&ListQuery { sort: "name".into(), ..Default::default() }, 1, 2);
    let mut stmt = conn.prepare(&sql).unwrap();
    let names: Vec<String> = stmt
        .query_map(rusqlite::params_from_iter(values(&params)), |r| r.get(1))
        .unwrap()
        .map(|r| r.unwrap())
        .collect();
    assert_eq!(names, vec!["f1.jpg".to_string(), "f2.jpg".to_string()]);
}

#[test]
fn locked_only_when_album_not_unlocked() {
    assert!(!is_locked(None, &[]));
    assert!(!is_locked(None, &[3]));
    assert!(is_locked(Some(3), &[]));
    assert!(is_locked(Some(3), &[1, 2]));
    assert!(!is_locked(Some(3), &[1, 3]));
}

#[test]
fn album_with_encrypted_files_is_not_deleted() {
    assert_eq!(
        album_deletion(2).unwrap_err(),
        "Album zawiera 2 zaszyfrowanych plików — najpierw je wyjmij (odszyfruj)"
    );
    assert!(album_deletion(0).is_ok());
}

#[test]
fn ratings_are_clamped() {
    assert_eq!(clamp_rating(-3), 0);
    assert_eq!(clamp_rating(0), 0);
    assert_eq!(clamp_rating(4), 4);
    assert_eq!(clamp_rating(9), 5);
}

#[test]
fn tag_names_are_trimmed() {
    assert_eq!(tag_name("  morze \t"), Some("morze".to_string()));
    assert_eq!(tag_name(" \n "), None);
    assert_eq!(tag_name(""), None);
}

#[test]
fn folder_names_lose_forbidden_characters() {
    assert_eq!(sanitize_component("a/b\\c:d*e?f\"g<h>i|j"), "a_b_c_d_e_f_g_h_i_j");
    assert_eq!(sanitize_component("Wakacje 2023"), "Wakacje 2023");
}

#[test]
fn album_plans() {
    assert_eq!(album_plan("   ", "virtual").err(), Some("Podaj nazwę albumu".to_string()));
    let p = album_plan("  Rodzina ", "folder").ok().unwrap();
    assert_eq!(p.name, "Rodzina");
    assert_eq!(p.folder_path, Some("Albumy/Rodzina".to_string()));
    let p = album_plan("Ulubione", "virtual").ok().unwrap();
    assert_eq!(p.name, "Ulubione");
    assert_eq!(p.folder_path, None);
    let p = album_plan("a/b", "folder").ok().unwrap();
    assert_eq!(p.folder_path, Some("Albumy/a_b".to_string()));
}

#[test]
fn trimming_agrees_with_std_whitespace() {
    for c in (0u32..0x3100).filter_map(char::from_u32) {
        let s: String = [c, 'x', c].iter().collect();
        let expected: Vec<char> = s.trim().chars().collect();
        assert_eq!(trim(&s), expected, "character U+{:04X}", c as u32);
    }
    assert_eq!(trim("\u{3000} tag \u{85}"), vec!['t', 'a', 'g']);
}

#[test]
fn fts_keeps_exactly_the_ascii_letters_and_digits() {
    for b in 0x21u8..0x7f {
        let c = b as char;
        let q = fts_query(&format!("x{c}y"));
        if c.is_ascii_alphanumeric() {
            assert_eq!(q, format!("\"x{c}y\"*"));
        } else {
            assert_eq!(q, "\"xy\"*", "character {c:?}");
        }
    }
}
