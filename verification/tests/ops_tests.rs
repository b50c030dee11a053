use medianest::ops::{
    move_back_plan,
    restore_target, trash_dir, trash_label, trash_name, undo_import_kind, undo_message, undo_plan, undo_targets,
    Undo,
};

#[test]
fn trash_names_and_labels() {
    assert_eq!(trash_dir("/data"), "/data/trash");
    assert_eq!(trash_name(17, "a.jpg"), "17_a.jpg");
    assert_eq!(trash_name(-2, "b.mp4"), "-2_b.mp4");
    assert_eq!(trash_label(3), "3 plików");
    assert_eq!(trash_label(0), "0 plików");
}

#[test]
fn restored_files_return_to_their_folder() {
    assert_eq!(restore_target("2023/a.jpg"), ("2023".to_string(), "a.jpg".to_string()));
    assert_eq!(restore_target("x/y/b.jpg"), ("x/y".to_string(), "b.jpg".to_string()));
    assert_eq!(restore_target("c.jpg"), (String::new(), "c.jpg".to_string()));
    let (dir, name) = restore_target("2023/a.jpg");
    assert_eq!(medianest::import::dst_candidate(&dir, &name, 0), "2023/a.jpg");
}

#[test]
fn undo_by_kind_of_operation() {
    assert_eq!(undo_plan("import", None), Ok(Undo::TrashImported));
    assert_eq!(undo_plan("trash", None), Ok(Undo::RestoreTrashed));
    assert_eq!(undo_plan("undo-import", None), Ok(Undo::RestoreTrashed));
    assert_eq!(undo_plan("move", None), Ok(Undo::MoveBack));
    assert_eq!(undo_plan("rename", None), Err("Operacji 'rename' nie można cofnąć".to_string()));
    assert_eq!(undo_import_kind(), "undo-import");
}

#[test]
fn an_operation_is_undone_once() {
    assert_eq!(undo_plan("import", Some(1700000000)), Err("Operacja została już cofnięta".to_string()));
    assert_eq!(undo_plan("trash", Some(0)), Err("Operacja została już cofnięta".to_string()));
    assert_eq!(undo_plan("move", Some(5)), Err("Operacja została już cofnięta".to_string()));
}

#[test]
fn undo_messages() {
    assert_eq!(undo_message(Undo::TrashImported, 2), "Cofnięto import: 2 plików przeniesiono do kosza");
    assert_eq!(undo_message(Undo::RestoreTrashed, 1), "Przywrócono 1 plików z kosza");
    assert_eq!(undo_message(Undo::MoveBack, 3), "Cofnięto przeniesienie: 3 plików wróciło na miejsce");
}

#[test]
fn undo_looks_up_recorded_destinations() {
    let items = vec![
        ("src/a.jpg".to_string(), Some("2023/a.jpg".to_string())),
        ("src/b.jpg".to_string(), None),
        ("src/c.jpg".to_string(), Some("2023/c.jpg".to_string())),
    ];
    assert_eq!(undo_targets(&items), vec!["2023/a.jpg".to_string(), "2023/c.jpg".to_string()]);
    assert!(undo_targets(&[]).is_empty());
}

#[test]
fn undoing_a_move_puts_files_back() {
    let items = vec![
        ("2020/a.jpg".to_string(), Some("Foto/2021/a.jpg".to_string())),
        ("x.jpg".to_string(), None),
        ("b.png".to_string(), Some("Foto/2021/b.png".to_string())),
    ];
    let plan = move_back_plan(&items);
    assert_eq!(
        plan,
        vec![
            ("Foto/2021/a.jpg".to_string(), "2020".to_string(), "a.jpg".to_string()),
            ("Foto/2021/b.png".to_string(), String::new(), "b.png".to_string()),
        ]
    );
    let (_, dir, name) = &plan[0];
    assert_eq!(medianest::import::dst_candidate(dir, name, 0), "2020/a.jpg");
}
