//! The application's trash and the undoing of operations: names given to
//! trashed files, where restored files go, and what an undo does.

use vstd::prelude::*;
use vstd::string::StringExecFns;

use crate::import::{candidate_rel, lemma_first_candidate};
use crate::text::{
    decimal, join_path, join_spec, last_index_of, lemma_split_join, push_char, push_decimal, push_signed, push_str,
    signed_decimal, split_parent, split_parent_spec, str_eq,
};

verus! {

/// The trash folder inside the application's data folder.
pub fn trash_dir(data_dir: &str) -> (r: String)
    ensures
        r@ == join_spec(data_dir@, "trash"@),
{
    join_path(data_dir, "trash")
}

/// The name a trashed file gets in the trash: `<id>_<name>`, unique per
/// library file.
pub fn trash_name(id: i64, name: &str) -> (r: String)
    ensures
        r@ == signed_decimal(id as int) + seq!['_'] + name@,
{
    let mut r = String::new();
    push_signed(&mut r, id);
    push_char(&mut r, '_');
    push_str(&mut r, name);
    proof {
        assert(r@ =~= signed_decimal(id as int) + seq!['_'] + name@);
    }
    r
}

/// The label of a trash operation: "<n> plików".
pub fn trash_label(count: usize) -> (r: String)
    ensures
        r@ == decimal(count as nat) + " plików"@,
{
    let mut r = String::new();
    push_decimal(&mut r, count as u64);
    push_str(&mut r, " plików");
    proof {
        assert(r@ =~= decimal(count as nat) + " plików"@);
    }
    r
}

/// Where a file comes back from the trash: the folder and the name of its
/// original path (the first free candidate there is taken).
pub fn restore_target(orig_path: &str) -> (r: (String, String))
    ensures
        (r.0@, r.1@) == split_parent_spec(orig_path@),
{
    split_parent(orig_path)
}

/// A trashed file returns to its original path when that path is free.
pub proof fn lemma_restore_in_place(orig_path: Seq<char>)
    requires
        !(last_index_of(orig_path, '/') == Some(0int)),
    ensures
        candidate_rel(split_parent_spec(orig_path).0, split_parent_spec(orig_path).1, 0) == orig_path,
{
    lemma_first_candidate(split_parent_spec(orig_path).0, split_parent_spec(orig_path).1);
    lemma_split_join(orig_path);
}

/// What undoing an operation does.
#[derive(Clone, Copy, Debug, PartialEq, Eq, Structural)]
pub enum Undo {
    /// An import: the imported files go to the application's trash.
    TrashImported,
    /// A trashing (or an undone import): the files come back from the trash.
    RestoreTrashed,
    /// A move into a folder: each moved file goes back where it came from.
    MoveBack,
}

/// The undo of an operation of kind `kind`, refused when it was already
/// undone or when operations of its kind cannot be undone.
pub fn undo_plan(kind: &str, undone_at: Option<i64>) -> (r: Result<Undo, String>)
    ensures
        undone_at is Some ==> (r matches Err(e) && e@ == "Operacja została już cofnięta"@),
        undone_at is None && kind@ == "import"@ ==> r == Ok::<Undo, String>(Undo::TrashImported),
        undone_at is None && kind@ != "import"@ && (kind@ == "trash"@ || kind@ == "undo-import"@) ==> r == Ok::<
            Undo,
            String,
        >(Undo::RestoreTrashed),
        undone_at is None && kind@ == "move"@ ==> r == Ok::<Undo, String>(Undo::MoveBack),
        undone_at is None && kind@ != "import"@ && kind@ != "trash"@ && kind@ != "undo-import"@ && kind@ != "move"@
            ==> (r matches Err(e) && e@ == "Operacji '"@ + kind@ + "' nie można cofnąć"@),
{
    proof {
        reveal_strlit("move");
        reveal_strlit("import");
        reveal_strlit("trash");
        reveal_strlit("undo-import");
        assert("move"@.len() == 4 && "import"@.len() == 6 && "trash"@.len() == 5 && "undo-import"@.len() == 11);
    }
    if undone_at.is_some() {
        return Err(String::from_str("Operacja została już cofnięta"));
    }
    if str_eq(kind, "import") {
        Ok(Undo::TrashImported)
    } else if str_eq(kind, "trash") || str_eq(kind, "undo-import") {
        Ok(Undo::RestoreTrashed)
    } else if str_eq(kind, "move") {
        Ok(Undo::MoveBack)
    } else {
        let mut e = String::new();
        push_str(&mut e, "Operacji '");
        push_str(&mut e, kind);
        push_str(&mut e, "' nie można cofnąć");
        proof {
            assert(e@ =~= "Operacji '"@ + kind@ + "' nie można cofnąć"@);
        }
        Err(e)
    }
}

/// The destinations recorded for an operation's items, in order, skipping
/// items without one.
pub open spec fn recorded_dsts(items: Seq<(String, Option<String>)>) -> Seq<Seq<char>>
    decreases items.len(),
{
    if items.len() == 0 {
        Seq::empty()
    } else {
        let rest = recorded_dsts(items.drop_last());
        match items.last().1 {
            Some(d) => rest.push(d@),
            None => rest,
        }
    }
}

/// What an undo looks up: the destination of each item of the operation
/// (the library path of an imported file, the trash name of a trashed one).
pub fn undo_targets(items: &[(String, Option<String>)]) -> (r: Vec<String>)
    ensures
        r@.map_values(|s: String| s@) == recorded_dsts(items@),
{
    let mut out: Vec<String> = Vec::new();
    let mut i: usize = 0;
    while i < items.len()
        invariant
            i <= items@.len(),
            out@.map_values(|s: String| s@) == recorded_dsts(items@.subrange(0, i as int)),
        decreases items@.len() - i,
    {
        let ghost before = out@;
        match &items[i].1 {
            Some(d) => {
                out.push(d.clone());
                proof {
                    assert(out@.map_values(|s: String| s@) =~= before.map_values(|s: String| s@).push(d@));
                }
            },
            None => {},
        }
        proof {
            assert(items@.subrange(0, i + 1).drop_last() =~= items@.subrange(0, i as int));
        }
        i = i + 1;
    }
    proof {
        assert(items@.subrange(0, items@.len() as int) =~= items@);
    }
    out
}

/// The moves that undo a logged move, in order: each item that recorded a
/// destination goes from that destination back to the folder and the name
/// of its source path.
pub open spec fn moves_back(items: Seq<(String, Option<String>)>) -> Seq<(Seq<char>, Seq<char>, Seq<char>)>
    decreases items.len(),
{
    if items.len() == 0 {
        Seq::empty()
    } else {
        let rest = moves_back(items.drop_last());
        let (src, dst) = items.last();
        match dst {
            Some(d) => rest.push((d@, split_parent_spec(src@).0, split_parent_spec(src@).1)),
            None => rest,
        }
    }
}

/// The view of a planned move: where the file is, and the folder and name
/// it goes back to.
pub open spec fn move_view(m: (String, String, String)) -> (Seq<char>, Seq<char>, Seq<char>) {
    (m.0@, m.1@, m.2@)
}

/// How to undo a logged move: for each item with a destination, the file
/// now at that destination and the folder and name of its source.
pub fn move_back_plan(items: &[(String, Option<String>)]) -> (r: Vec<(String, String, String)>)
    ensures
        r@.map_values(|m: (String, String, String)| move_view(m)) == moves_back(items@),
{
    let mut out: Vec<(String, String, String)> = Vec::new();
    let mut i: usize = 0;
    while i < items.len()
        invariant
            i <= items@.len(),
            out@.map_values(|m: (String, String, String)| move_view(m)) == moves_back(items@.subrange(0, i as int)),
        decreases items@.len() - i,
    {
        let ghost before = out@;
        match &items[i].1 {
            Some(d) => {
                let (dir, name) = split_parent(items[i].0.as_str());
                let m = (d.clone(), dir, name);
                out.push(m);
                proof {
                    assert(out@.map_values(|m: (String, String, String)| move_view(m)) =~= before.map_values(
                        |m: (String, String, String)| move_view(m),
                    ).push(move_view(m)));
                }
            },
            None => {},
        }
        proof {
            assert(items@.subrange(0, i + 1).drop_last() =~= items@.subrange(0, i as int));
            assert(items@.subrange(0, i + 1).last() == items@[i as int]);
        }
        i = i + 1;
    }
    proof {
        assert(items@.subrange(0, items@.len() as int) =~= items@);
    }
    out
}

/// The logged moves that had a destination, as (destination, source) paths.
pub open spec fn logged_moves(items: Seq<(String, Option<String>)>) -> Seq<(Seq<char>, Seq<char>)>
    decreases items.len(),
{
    if items.len() == 0 {
        Seq::empty()
    } else {
        let rest = logged_moves(items.drop_last());
        match items.last().1 {
            Some(d) => rest.push((d@, items.last().0@)),
            None => rest,
        }
    }
}

/// Undoing a move puts every moved file back: the plan takes each file from
/// its logged destination to a folder and name that join into exactly its
/// logged source path, for source paths that are relative (do not start
/// with `/`).
pub proof fn lemma_moves_back_restore(items: Seq<(String, Option<String>)>)
    requires
        forall|i: int| 0 <= i < items.len() ==> (#[trigger] items[i]).0@.len() == 0 || items[i].0@[0] != '/',
    ensures
        moves_back(items).map_values(
            |m: (Seq<char>, Seq<char>, Seq<char>)| (m.0, join_spec(m.1, m.2)),
        ) == logged_moves(items),
    decreases items.len(),
{
    if items.len() > 0 {
        let rest = items.drop_last();
        assert forall|i: int| 0 <= i < rest.len() implies (#[trigger] rest[i]).0@.len() == 0 || rest[i].0@[0] != '/' by {
            assert(rest[i] == items[i]);
        }
        lemma_moves_back_restore(rest);
        let src = items.last().0@;
        assert(items[items.len() - 1] == items.last());
        crate::text::lemma_last_index_of(src, '/');
        if last_index_of(src, '/') == Some(0int) {
            assert(src[0] == '/');
        }
        lemma_split_join(src);
        let f = |m: (Seq<char>, Seq<char>, Seq<char>)| (m.0, join_spec(m.1, m.2));
        match items.last().1 {
            Some(d) => {
                let m = (d@, split_parent_spec(src).0, split_parent_spec(src).1);
                assert(moves_back(items) == moves_back(rest).push(m));
                assert(moves_back(items).map_values(f) =~= moves_back(rest).map_values(f).push(f(m)));
            },
            None => {},
        }
    }
}

/// The kind under which the trashing done by undoing an import is logged.
pub fn undo_import_kind() -> (r: String)
    ensures
        r@ == "undo-import"@,
{
    String::from_str("undo-import")
}

/// The message reporting an undo that moved or restored `n` files.
pub fn undo_message(undo: Undo, n: u64) -> (r: String)
    ensures
        undo == Undo::TrashImported ==> r@ == "Cofnięto import: "@ + decimal(n as nat)
            + " plików przeniesiono do kosza"@,
        undo == Undo::RestoreTrashed ==> r@ == "Przywrócono "@ + decimal(n as nat) + " plików z kosza"@,
        undo == Undo::MoveBack ==> r@ == "Cofnięto przeniesienie: "@ + decimal(n as nat)
            + " plików wróciło na miejsce"@,
{
    let mut r = String::new();
    match undo {
        Undo::TrashImported => {
            push_str(&mut r, "Cofnięto import: ");
            push_decimal(&mut r, n);
            push_str(&mut r, " plików przeniesiono do kosza");
            proof {
                assert(r@ =~= "Cofnięto import: "@ + decimal(n as nat) + " plików przeniesiono do kosza"@);
            }
        },
        Undo::RestoreTrashed => {
            push_str(&mut r, "Przywrócono ");
            push_decimal(&mut r, n);
            push_str(&mut r, " plików z kosza");
            proof {
                assert(r@ =~= "Przywrócono "@ + decimal(n as nat) + " plików z kosza"@);
            }
        },
        Undo::MoveBack => {
            push_str(&mut r, "Cofnięto przeniesienie: ");
            push_decimal(&mut r, n);
            push_str(&mut r, " plików wróciło na miejsce");
            proof {
                assert(r@ =~= "Cofnięto przeniesienie: "@ + decimal(n as nat) + " plików wróciło na miejsce"@);
            }
        },
    }
    r
}

/// A file in the trash.
#[derive(Clone, Debug)]
pub struct TrashItem {
    pub id: i64,
    pub orig_path: String,
    pub kind: i64,
    pub size: i64,
    pub thumb: Option<String>,
    pub blurhash: Option<String>,
    pub deleted_at: i64,
}

/// A logged operation.
#[derive(Clone, Debug)]
pub struct Operation {
    pub id: i64,
    pub kind: String,
    pub label: String,
    pub created_at: i64,
    pub undone_at: Option<i64>,
    pub items: i64,
}

} // verus!
