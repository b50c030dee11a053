//! The incremental scan of the library folder: comparing what is on disk
//! with what the catalogue knows, by path, size and modification time.

use vstd::prelude::*;

pub use crate::media::{kind_of, sprite_path, thumb_path};

use crate::seqs::{distinct_texts, find_text, sort_by_text, sorted_by_text};
use vstd::string::StringExecFns;

use crate::text::{chars_of, push_str, split_parent, split_parent_spec, string_of};

verus! {

/// A file the catalogue knows (protected files and deleted entries are not
/// compared). Status 0 is present, 1 missing.
#[derive(Clone, Debug)]
pub struct KnownFile {
    pub path: String,
    pub id: i64,
    pub size: i64,
    pub mtime: i64,
    pub status: i64,
}

/// A media file found on disk, by its path relative to the library.
#[derive(Clone, Debug)]
pub struct DiskFile {
    pub rel: String,
    pub kind: i64,
    pub size: i64,
    pub mtime: i64,
}

/// What the scan changes in the catalogue.
#[derive(Clone, Debug)]
pub enum ScanAction {
    /// A new file: recorded with its folder and name.
    Insert { path: String, parent: String, name: String, kind: i64, size: i64, mtime: i64 },
    /// A known file whose size or time changed: it is indexed again.
    Changed { id: i64, size: i64, mtime: i64 },
    /// A file marked missing is back unchanged.
    Returned { id: i64 },
    /// A present file is no longer on disk.
    Missing { id: i64 },
}

/// What an action is, over plain values.
pub enum ScanStep {
    Insert { path: Seq<char>, parent: Seq<char>, name: Seq<char>, kind: i64, size: i64, mtime: i64 },
    Changed { id: i64, size: i64, mtime: i64 },
    Returned { id: i64 },
    Missing { id: i64 },
}

pub open spec fn step_of(a: ScanAction) -> ScanStep {
    match a {
        ScanAction::Insert { path, parent, name, kind, size, mtime } => ScanStep::Insert {
            path: path@,
            parent: parent@,
            name: name@,
            kind,
            size,
            mtime,
        },
        ScanAction::Changed { id, size, mtime } => ScanStep::Changed { id, size, mtime },
        ScanAction::Returned { id } => ScanStep::Returned { id },
        ScanAction::Missing { id } => ScanStep::Missing { id },
    }
}

pub open spec fn steps_of(v: Seq<ScanAction>) -> Seq<ScanStep> {
    v.map_values(|a: ScanAction| step_of(a))
}

pub open spec fn known_paths(known: Seq<KnownFile>) -> Seq<Seq<char>> {
    known.map_values(|k: KnownFile| k.path@)
}

/// The first known file from position `from` on with path `p`, if any.
pub open spec fn known_from(known: Seq<KnownFile>, p: Seq<char>, from: int) -> Option<int>
    decreases known.len() - from,
{
    if from < 0 || from >= known.len() {
        None
    } else if known[from].path@ == p {
        Some(from)
    } else {
        known_from(known, p, from + 1)
    }
}

/// The known file with path `p`, if any.
pub open spec fn known_index(known: Seq<KnownFile>, p: Seq<char>) -> Option<int> {
    known_from(known, p, 0)
}

proof fn lemma_known_from(known: Seq<KnownFile>, p: Seq<char>, from: int)
    requires
        0 <= from,
    ensures
        match known_from(known, p, from) {
            Some(k) => from <= k < known.len() && known[k].path@ == p,
            None => forall|j: int| from <= j < known.len() ==> #[trigger] known[j].path@ != p,
        },
    decreases known.len() - from,
{
    if from < known.len() && known[from].path@ != p {
        lemma_known_from(known, p, from + 1);
    }
}

/// An earlier disk entry has the same path.
pub open spec fn seen_before(disk: Seq<DiskFile>, i: int) -> bool {
    exists|j: int| 0 <= j < i && #[trigger] disk[j].rel@ == disk[i].rel@
}

/// What the scan does for disk entry `i`: a known, unchanged and present
/// file needs nothing; a path seen for the first time that the catalogue
/// does not know (or a repeated path) is inserted.
pub open spec fn step_for(known: Seq<KnownFile>, disk: Seq<DiskFile>, i: int) -> Option<ScanStep> {
    let d = disk[i];
    let found = if seen_before(disk, i) {
        None
    } else {
        known_index(known, d.rel@)
    };
    match found {
        Some(k) => {
            let kf = known[k];
            if kf.size != d.size || kf.mtime != d.mtime {
                Some(ScanStep::Changed { id: kf.id, size: d.size, mtime: d.mtime })
            } else if kf.status != 0 {
                Some(ScanStep::Returned { id: kf.id })
            } else {
                None
            }
        },
        None => Some(
            ScanStep::Insert {
                path: d.rel@,
                parent: split_parent_spec(d.rel@).0,
                name: split_parent_spec(d.rel@).1,
                kind: d.kind,
                size: d.size,
                mtime: d.mtime,
            },
        ),
    }
}

pub open spec fn opt_seq(o: Option<ScanStep>) -> Seq<ScanStep> {
    match o {
        Some(s) => seq![s],
        None => Seq::empty(),
    }
}

/// The actions for the first `n` disk entries, in their order.
pub open spec fn disk_steps(known: Seq<KnownFile>, disk: Seq<DiskFile>, n: int) -> Seq<ScanStep>
    decreases n,
{
    if n <= 0 {
        Seq::empty()
    } else {
        disk_steps(known, disk, n - 1) + opt_seq(step_for(known, disk, n - 1))
    }
}

/// Some disk entry has path `p`.
pub open spec fn on_disk(disk: Seq<DiskFile>, p: Seq<char>) -> bool {
    exists|j: int| 0 <= j < disk.len() && #[trigger] disk[j].rel@ == p
}

/// The present known files among the first `n` that are not on disk any more.
pub open spec fn missing_steps(known: Seq<KnownFile>, disk: Seq<DiskFile>, n: int) -> Seq<ScanStep>
    decreases n,
{
    if n <= 0 {
        Seq::empty()
    } else {
        let k = known[n - 1];
        missing_steps(known, disk, n - 1) + if !on_disk(disk, k.path@) && k.status == 0 {
            seq![ScanStep::Missing { id: k.id }]
        } else {
            Seq::empty()
        }
    }
}

/// The changes of a scan: for the disk entries in order, then the missing files.
pub open spec fn scan_spec(known: Seq<KnownFile>, disk: Seq<DiskFile>) -> Seq<ScanStep> {
    disk_steps(known, disk, disk.len() as int) + missing_steps(known, disk, known.len() as int)
}

proof fn lemma_known_index(known: Seq<KnownFile>, k: int)
    requires
        distinct_texts(known_paths(known)),
        0 <= k < known.len(),
    ensures
        known_index(known, known[k].path@) == Some(k),
{
    let p = known[k].path@;
    lemma_known_from(known, p, 0);
    match known_from(known, p, 0) {
        Some(c) => {
            assert(known_paths(known)[c] == p);
            assert(known_paths(known)[k] == p);
            if c < k {
                assert(known_paths(known)[c] != known_paths(known)[k]);
            } else if c > k {
                assert(known_paths(known)[k] != known_paths(known)[c]);
            }
        },
        None => {
            assert(known[k].path@ != p);
        },
    }
}

/// Compares the disk with the catalogue: the changes to make, as `scan_spec`
/// says. The catalogue holds each path once.
pub fn scan_diff(known: &[KnownFile], disk: &[DiskFile]) -> (actions: Vec<ScanAction>)
    requires
        distinct_texts(known_paths(known@)),
    ensures
        steps_of(actions@) == scan_spec(known@, disk@),
{
    let nk = known.len();
    let mut keys: Vec<Vec<char>> = Vec::new();
    let mut q: usize = 0;
    while q < nk
        invariant
            nk == known@.len(),
            q <= nk,
            keys@.len() == q,
            forall|j: int| 0 <= j < q ==> #[trigger] keys@[j]@ == known@[j].path@,
        decreases nk - q,
    {
        keys.push(chars_of(known[q].path.as_str()));
        q = q + 1;
    }
    proof {
        assert(keys@.map_values(|k: Vec<char>| k@) =~= known_paths(known@));
    }
    let order = sort_by_text(&keys);
    proof {
        assert forall|i: int| 0 <= i < order@.len() implies order@[i] < keys@.len() by {
            assert(order@.contains(order@[i]));
        }
    }
    let mut matched: Vec<bool> = Vec::new();
    let mut q: usize = 0;
    while q < nk
        invariant
            q <= nk,
            matched@.len() == q,
            forall|j: int| 0 <= j < q ==> !#[trigger] matched@[j],
        decreases nk - q,
    {
        matched.push(false);
        q = q + 1;
    }
    let ghost kv = known@;
    let ghost dv = disk@;
    let mut actions: Vec<ScanAction> = Vec::new();
    let mut i: usize = 0;
    while i < disk.len()
        invariant
            kv == known@,
            dv == disk@,
            nk == known@.len(),
            keys@.len() == nk,
            forall|j: int| 0 <= j < nk ==> #[trigger] keys@[j]@ == known@[j].path@,
            distinct_texts(known_paths(known@)),
            sorted_by_text(keys@.map_values(|k: Vec<char>| k@), order@),
            forall|x: usize| order@.contains(x) <==> x < nk,
            forall|j: int| 0 <= j < order@.len() ==> order@[j] < keys@.len(),
            i <= disk@.len(),
            matched@.len() == nk,
            forall|k: int| 0 <= k < nk ==> (#[trigger] matched@[k] <==> exists|j: int|
                0 <= j < i && #[trigger] disk@[j].rel@ == known@[k].path@),
            steps_of(actions@) == disk_steps(kv, dv, i as int),
        decreases disk@.len() - i,
    {
        let d = &disk[i];
        let rel = chars_of(d.rel.as_str());
        let found = find_text(&keys, &order, &rel);
        let ghost before = actions@;
        let hit: Option<usize> = match found {
            Some(k) => if matched[k] {
                None
            } else {
                Some(k)
            },
            None => None,
        };
        proof {
            match found {
                Some(k) => {
                    if matched@[k as int] {
                        let j = choose|j: int| 0 <= j < i && #[trigger] disk@[j].rel@ == known@[k as int].path@;
                        assert(seen_before(dv, i as int));
                    } else {
                        if seen_before(dv, i as int) {
                            let j = choose|j: int| 0 <= j < i && #[trigger] disk@[j].rel@ == disk@[i as int].rel@;
                            assert(disk@[j].rel@ == known@[k as int].path@);
                        }
                        lemma_known_index(kv, k as int);
                    }
                },
                None => {
                    lemma_known_from(kv, dv[i as int].rel@, 0);
                    if let Some(k) = known_index(kv, dv[i as int].rel@) {
                        assert(order@.contains(k as usize));
                        let w = choose|w: int| 0 <= w < order@.len() && order@[w] == k as usize;
                        assert(keys@[order@[w] as int]@ != rel@);
                    }
                },
            }
        }
        match hit {
            Some(k) => {
                matched.set(k, true);
                let kf = &known[k];
                if kf.size != d.size || kf.mtime != d.mtime {
                    actions.push(ScanAction::Changed { id: kf.id, size: d.size, mtime: d.mtime });
                } else if kf.status != 0 {
                    actions.push(ScanAction::Returned { id: kf.id });
                }
            },
            None => {
                let (parent, name) = split_parent(d.rel.as_str());
                actions.push(
                    ScanAction::Insert {
                        path: d.rel.clone(),
                        parent,
                        name,
                        kind: d.kind,
                        size: d.size,
                        mtime: d.mtime,
                    },
                );
            },
        }
        proof {
            assert(steps_of(actions@) =~= before.map_values(|a: ScanAction| step_of(a)) + opt_seq(
                step_for(kv, dv, i as int),
            ));
            assert forall|k: int| 0 <= k < nk implies (#[trigger] matched@[k] <==> exists|j: int|
                0 <= j < i + 1 && #[trigger] disk@[j].rel@ == known@[k].path@) by {
                if matched@[k] && !(exists|j: int| 0 <= j < i && #[trigger] disk@[j].rel@ == known@[k].path@) {
                    assert(disk@[i as int].rel@ == known@[k].path@);
                }
                if exists|j: int| 0 <= j < i + 1 && #[trigger] disk@[j].rel@ == known@[k].path@ {
                    let j = choose|j: int| 0 <= j < i + 1 && #[trigger] disk@[j].rel@ == known@[k].path@;
                    if j == i {
                        match found {
                            Some(f) => {
                                if f as int != k {
                                    if (f as int) < k {
                                        assert(known_paths(kv)[f as int] == known_paths(kv)[k]);
                                    } else {
                                        assert(known_paths(kv)[k] == known_paths(kv)[f as int]);
                                    }
                                }
                            },
                            None => {
                                assert(order@.contains(k as usize));
                                let w = choose|w: int| 0 <= w < order@.len() && order@[w] == k as usize;
                                assert(keys@[order@[w] as int]@ != rel@);
                            },
                        }
                    }
                }
            }
        }
        i = i + 1;
    }
    let mut q: usize = 0;
    let ghost mid = actions@;
    while q < nk
        invariant
            kv == known@,
            dv == disk@,
            nk == known@.len(),
            q <= nk,
            matched@.len() == nk,
            forall|k: int| 0 <= k < nk ==> (#[trigger] matched@[k] <==> exists|j: int|
                0 <= j < disk@.len() && #[trigger] disk@[j].rel@ == known@[k].path@),
            steps_of(actions@) == steps_of(mid) + missing_steps(kv, dv, q as int),
        decreases nk - q,
    {
        let ghost before = actions@;
        let kf = &known[q];
        if !matched[q] && kf.status == 0 {
            actions.push(ScanAction::Missing { id: kf.id });
        }
        proof {
            assert(matched@[q as int] == on_disk(dv, kv[q as int].path@));
            let add = if !on_disk(dv, kv[q as int].path@) && kv[q as int].status == 0 {
                seq![ScanStep::Missing { id: kv[q as int].id }]
            } else {
                Seq::empty()
            };
            assert(missing_steps(kv, dv, q + 1) == missing_steps(kv, dv, q as int) + add);
            assert(steps_of(actions@) =~= steps_of(before) + add);
            assert(steps_of(actions@) =~= steps_of(mid) + missing_steps(kv, dv, q + 1));
        }
        q = q + 1;
    }
    actions
}


/// The disk entry `i` is a known present file with the same size and time.
pub open spec fn unchanged(known: Seq<KnownFile>, disk: Seq<DiskFile>, i: int) -> bool {
    exists|k: int|
        0 <= k < known.len() && #[trigger] known[k].path@ == disk[i].rel@ && known[k].size == disk[i].size
            && known[k].mtime == disk[i].mtime && known[k].status == 0
}

proof fn lemma_quiet_disk(known: Seq<KnownFile>, disk: Seq<DiskFile>, n: int)
    requires
        distinct_texts(known_paths(known)),
        0 <= n <= disk.len(),
        forall|i: int| 0 <= i < disk.len() ==> !seen_before(disk, i),
        forall|i: int| 0 <= i < disk.len() ==> unchanged(known, disk, i),
    ensures
        disk_steps(known, disk, n) == Seq::<ScanStep>::empty(),
    decreases n,
{
    if n > 0 {
        lemma_quiet_disk(known, disk, n - 1);
        let i = n - 1;
        assert(unchanged(known, disk, i));
        let k = choose|k: int|
            0 <= k < known.len() && #[trigger] known[k].path@ == disk[i].rel@ && known[k].size == disk[i].size
                && known[k].mtime == disk[i].mtime && known[k].status == 0;
        lemma_known_index(known, k);
        assert(!seen_before(disk, i));
        assert(step_for(known, disk, i) is None);
        assert(disk_steps(known, disk, n) =~= Seq::<ScanStep>::empty());
    }
}

proof fn lemma_quiet_missing(known: Seq<KnownFile>, disk: Seq<DiskFile>, n: int)
    requires
        0 <= n <= known.len(),
        forall|k: int| 0 <= k < known.len() && known[k].status == 0 ==> on_disk(disk, #[trigger] known[k].path@),
    ensures
        missing_steps(known, disk, n) == Seq::<ScanStep>::empty(),
    decreases n,
{
    if n > 0 {
        lemma_quiet_missing(known, disk, n - 1);
        assert(known[n - 1].status == 0 ==> on_disk(disk, known[n - 1].path@));
        assert(missing_steps(known, disk, n) =~= Seq::<ScanStep>::empty());
    }
}

/// A scan of a library that did not change changes nothing: every file on
/// disk is known with its size and time and present, and every present
/// known file is still on disk.
pub proof fn lemma_scan_quiet(known: Seq<KnownFile>, disk: Seq<DiskFile>)
    requires
        distinct_texts(known_paths(known)),
        forall|i: int| 0 <= i < disk.len() ==> !seen_before(disk, i),
        forall|i: int| 0 <= i < disk.len() ==> unchanged(known, disk, i),
        forall|k: int| 0 <= k < known.len() && known[k].status == 0 ==> on_disk(disk, #[trigger] known[k].path@),
    ensures
        scan_spec(known, disk) == Seq::<ScanStep>::empty(),
{
    lemma_quiet_disk(known, disk, disk.len() as int);
    lemma_quiet_missing(known, disk, known.len() as int);
    assert(scan_spec(known, disk) =~= Seq::<ScanStep>::empty());
}

// ── applying a scan ─────────────────────────────────────────────────────

/// A catalogue row, over plain values.
pub struct KnownRow {
    pub path: Seq<char>,
    pub id: i64,
    pub size: i64,
    pub mtime: i64,
    pub status: i64,
}

pub open spec fn row_of(k: KnownFile) -> KnownRow {
    KnownRow { path: k.path@, id: k.id, size: k.size, mtime: k.mtime, status: k.status }
}

/// The rows of a catalogue.
pub open spec fn known_rows(known: Seq<KnownFile>) -> Seq<KnownRow> {
    known.map_values(|k: KnownFile| row_of(k))
}

/// A row after a change that names rows by id.
pub open spec fn update_row(r: KnownRow, s: ScanStep) -> KnownRow {
    match s {
        ScanStep::Changed { id, size, mtime } => if r.id == id {
            KnownRow { path: r.path, id: r.id, size, mtime, status: 0 }
        } else {
            r
        },
        ScanStep::Returned { id } => if r.id == id {
            KnownRow { path: r.path, id: r.id, size: r.size, mtime: r.mtime, status: 0 }
        } else {
            r
        },
        ScanStep::Missing { id } => if r.id == id {
            KnownRow { path: r.path, id: r.id, size: r.size, mtime: r.mtime, status: 1 }
        } else {
            r
        },
        ScanStep::Insert { .. } => r,
    }
}

/// The catalogue after one change of a scan; a new file gets the id `fresh`.
pub open spec fn apply_step(cat: Seq<KnownRow>, s: ScanStep, fresh: i64) -> Seq<KnownRow> {
    match s {
        ScanStep::Insert { path, parent, name, kind, size, mtime } => cat.push(
            KnownRow { path, id: fresh, size, mtime, status: 0 },
        ),
        _ => cat.map_values(|r: KnownRow| update_row(r, s)),
    }
}

/// The catalogue after the changes `steps`, in order; the change at
/// position `t` that adds a file gives it the id `fresh[t]`.
pub open spec fn apply_steps(cat: Seq<KnownRow>, steps: Seq<ScanStep>, fresh: Seq<i64>) -> Seq<KnownRow>
    decreases steps.len(),
{
    if steps.len() == 0 {
        cat
    } else {
        apply_step(apply_steps(cat, steps.drop_last(), fresh), steps.last(), fresh[steps.len() - 1])
    }
}

/// No two known files share an id.
pub open spec fn distinct_ids(known: Seq<KnownFile>) -> bool {
    forall|a: int, b: int| 0 <= a < b < known.len() ==> known[a].id != known[b].id
}

/// The ids given to new files are not ids of known files.
pub open spec fn fresh_ids(known: Seq<KnownFile>, fresh: Seq<i64>) -> bool {
    forall|t: int, k: int| #![trigger fresh[t], known[k]] 0 <= t < fresh.len() && 0 <= k < known.len() ==> fresh[t] != known[k].id
}

/// Row `r` shows the disk entry `d`: same path, size and time, present.
pub open spec fn shows(r: KnownRow, d: DiskFile) -> bool {
    r.path == d.rel@ && r.size == d.size && r.mtime == d.mtime && r.status == 0
}

/// One of the first `i` disk entries has path `p`.
pub open spec fn seen_in(disk: Seq<DiskFile>, i: int, p: Seq<char>) -> bool {
    exists|j: int| 0 <= j < i && #[trigger] disk[j].rel@ == p
}

/// Some row shows the disk entry `d`.
pub open spec fn shown(rows: Seq<KnownRow>, d: DiskFile) -> bool {
    exists|r: int| 0 <= r < rows.len() && #[trigger] shows(rows[r], d)
}

/// The row shows one of the first `i` disk entries.
pub open spec fn from_disk(disk: Seq<DiskFile>, i: int, row: KnownRow) -> bool {
    exists|j: int| 0 <= j < i && #[trigger] shows(row, disk[j])
}

/// The row is new: no known file has its path or its id.
pub open spec fn new_row(known: Seq<KnownFile>, row: KnownRow) -> bool {
    forall|k: int| 0 <= k < known.len() ==> #[trigger] known[k].path@ != row.path && known[k].id != row.id
}

/// What holds of the catalogue once the changes for the first `i` disk
/// entries are applied.
#[verifier::opaque]
pub open spec fn disk_phase(known: Seq<KnownFile>, disk: Seq<DiskFile>, i: int, rows: Seq<KnownRow>) -> bool {
    let nk = known.len();
    &&& rows.len() >= nk
    &&& forall|k: int| 0 <= k < nk ==> #[trigger] rows[k].path == known[k].path@ && rows[k].id == known[k].id
    &&& forall|k: int, j: int|
        0 <= k < nk && 0 <= j < i && #[trigger] disk[j].rel@ == #[trigger] known[k].path@ ==> shows(rows[k], disk[j])
    &&& forall|k: int| 0 <= k < nk && !seen_in(disk, i, known[k].path@) ==> #[trigger] rows[k] == row_of(known[k])
    &&& forall|r: int| nk <= r < rows.len() ==> from_disk(disk, i, #[trigger] rows[r]) && new_row(known, rows[r])
    &&& forall|j: int| 0 <= j < i ==> shown(rows, #[trigger] disk[j])
    &&& forall|a: int, b: int| 0 <= a < b < rows.len() ==> rows[a].path != rows[b].path
}

proof fn lemma_disk_steps_len(known: Seq<KnownFile>, disk: Seq<DiskFile>, i: int, n: int)
    requires
        0 <= i <= n,
    ensures
        disk_steps(known, disk, i).len() <= disk_steps(known, disk, n).len(),
        disk_steps(known, disk, i).len() <= i,
    decreases n,
{
    if n > 0 {
        if i < n {
            lemma_disk_steps_len(known, disk, i, n - 1);
        } else {
            lemma_disk_steps_len(known, disk, i - 1, n - 1);
        }
    }
}

proof fn lemma_disk_phase_start(known: Seq<KnownFile>, disk: Seq<DiskFile>)
    requires
        distinct_texts(known_paths(known)),
    ensures
        disk_phase(known, disk, 0, known_rows(known)),
{
    reveal(disk_phase);
    let rows = known_rows(known);
    assert forall|a: int, b: int| 0 <= a < b < rows.len() implies rows[a].path != rows[b].path by {
        assert(known_paths(known)[a] != known_paths(known)[b]);
    }
}

/// The row of the known file with path `p`, when a disk entry has it.
proof fn lemma_known_row(known: Seq<KnownFile>, p: Seq<char>) -> (k: int)
    requires
        distinct_texts(known_paths(known)),
        known_index(known, p) is Some,
    ensures
        k == known_index(known, p).unwrap(),
        0 <= k < known.len(),
        known[k].path@ == p,
        forall|k2: int| 0 <= k2 < known.len() && known[k2].path@ == p ==> k2 == k,
{
    lemma_known_from(known, p, 0);
    let k = known_index(known, p).unwrap();
    assert forall|k2: int| 0 <= k2 < known.len() && known[k2].path@ == p implies k2 == k by {
        lemma_known_index(known, k2);
    }
    k
}

proof fn lemma_new_path(known: Seq<KnownFile>, disk: Seq<DiskFile>, i: int)
    requires
        0 <= i < disk.len(),
        !seen_before(disk, i),
    ensures
        forall|j: int| 0 <= j < i ==> #[trigger] disk[j].rel@ != disk[i].rel@,
        forall|q: Seq<char>| seen_in(disk, i + 1, q) && q != disk[i].rel@ ==> seen_in(disk, i, q),
        seen_in(disk, i + 1, disk[i].rel@),
        !seen_in(disk, i, disk[i].rel@),
{
    assert forall|j: int| 0 <= j < i implies #[trigger] disk[j].rel@ != disk[i].rel@ by {
        if disk[j].rel@ == disk[i].rel@ {
            assert(seen_before(disk, i));
        }
    }
    assert forall|q: Seq<char>| seen_in(disk, i + 1, q) && q != disk[i].rel@ implies seen_in(disk, i, q) by {
        let j = choose|j: int| 0 <= j < i + 1 && #[trigger] disk[j].rel@ == q;
        assert(j < i);
    }
}

proof fn lemma_phase_quiet(known: Seq<KnownFile>, disk: Seq<DiskFile>, i: int, rows: Seq<KnownRow>)
    requires
        distinct_texts(known_paths(known)),
        forall|j: int| 0 <= j < disk.len() ==> !seen_before(disk, j),
        0 <= i < disk.len(),
        disk_phase(known, disk, i, rows),
        step_for(known, disk, i) is None,
    ensures
        disk_phase(known, disk, i + 1, rows),
{
    reveal(disk_phase);
    let nk = known.len();
    let d = disk[i];
    let p = d.rel@;
    assert(!seen_before(disk, i));
    lemma_new_path(known, disk, i);
    let k = lemma_known_row(known, p);
    assert(rows[k] == row_of(known[k]));
    assert(shows(rows[k], d));
    assert forall|k2: int, j: int|
        0 <= k2 < nk && 0 <= j < i + 1 && #[trigger] disk[j].rel@ == #[trigger] known[k2].path@
        implies shows(rows[k2], disk[j]) by {
        if j == i {
            assert(k2 == k);
        }
    }
    assert forall|k2: int| 0 <= k2 < nk && !seen_in(disk, i + 1, known[k2].path@) implies
        #[trigger] rows[k2] == row_of(known[k2]) by {
        if known[k2].path@ == p {
            assert(seen_in(disk, i + 1, p));
        }
        assert(!seen_in(disk, i, known[k2].path@));
    }
    assert forall|r: int| nk <= r < rows.len() implies from_disk(disk, i + 1, #[trigger] rows[r]) by {
        let j = choose|j: int| 0 <= j < i && #[trigger] shows(rows[r], disk[j]);
        assert(shows(rows[r], disk[j]));
    }
    assert forall|j: int| 0 <= j < i + 1 implies shown(rows, #[trigger] disk[j]) by {
        if j == i {
            assert(shows(rows[k], disk[j]));
        }
    }
}

proof fn lemma_phase_update(
    known: Seq<KnownFile>,
    disk: Seq<DiskFile>,
    i: int,
    rows: Seq<KnownRow>,
    s: ScanStep,
    f: i64,
    rows2: Seq<KnownRow>,
)
    requires
        distinct_texts(known_paths(known)),
        distinct_ids(known),
        forall|j: int| 0 <= j < disk.len() ==> !seen_before(disk, j),
        0 <= i < disk.len(),
        disk_phase(known, disk, i, rows),
        step_for(known, disk, i) == Some(s),
        known_index(known, disk[i].rel@) is Some,
        rows2 == apply_step(rows, s, f),
    ensures
        disk_phase(known, disk, i + 1, rows2),
{
    reveal(disk_phase);
    let nk = known.len();
    let d = disk[i];
    let p = d.rel@;
    assert(!seen_before(disk, i));
    lemma_new_path(known, disk, i);
    let k = lemma_known_row(known, p);
    assert(rows[k] == row_of(known[k]));
    let id = known[k].id;
    assert(!(s is Insert));
    assert(rows2 =~= rows.map_values(|r: KnownRow| update_row(r, s)));
    assert forall|r: int| 0 <= r < rows.len() && r != k implies #[trigger] rows2[r] == rows[r] by {
        assert(rows2[r] == update_row(rows[r], s));
        if r < nk {
            if r < k {
                assert(known[r].id != known[k].id);
            } else {
                assert(known[k].id != known[r].id);
            }
        } else {
            assert(known[k].id != rows[r].id);
        }
    }
    assert(rows2[k] == update_row(rows[k], s));
    assert(shows(rows2[k], d));
    assert forall|r: int| 0 <= r < rows.len() implies #[trigger] rows2[r].path == rows[r].path by {
        assert(rows2[r] == update_row(rows[r], s));
    }
    assert forall|k2: int| 0 <= k2 < nk implies #[trigger] rows2[k2].path == known[k2].path@ && rows2[k2].id
        == known[k2].id by {
        assert(rows2[k2] == update_row(rows[k2], s));
    }
    assert forall|k2: int, j: int|
        0 <= k2 < nk && 0 <= j < i + 1 && #[trigger] disk[j].rel@ == #[trigger] known[k2].path@
        implies shows(rows2[k2], disk[j]) by {
        if j == i {
            assert(k2 == k);
        } else {
            assert(k2 != k);
            assert(rows2[k2] == rows[k2]);
        }
    }
    assert forall|k2: int| 0 <= k2 < nk && !seen_in(disk, i + 1, known[k2].path@) implies
        #[trigger] rows2[k2] == row_of(known[k2]) by {
        if known[k2].path@ == p {
            assert(seen_in(disk, i + 1, p));
        }
        assert(k2 != k);
        assert(rows2[k2] == rows[k2]);
        assert(!seen_in(disk, i, known[k2].path@));
    }
    assert forall|r: int| nk <= r < rows2.len() implies from_disk(disk, i + 1, #[trigger] rows2[r]) && new_row(
        known,
        rows2[r],
    ) by {
        assert(rows2[r] == rows[r]);
        assert(from_disk(disk, i, rows[r]));
        let j = choose|j: int| 0 <= j < i && #[trigger] shows(rows[r], disk[j]);
        assert(shows(rows2[r], disk[j]));
    }
    assert forall|j: int| 0 <= j < i + 1 implies shown(rows2, #[trigger] disk[j]) by {
        if j == i {
            assert(shows(rows2[k], disk[j]));
        } else {
            assert(shown(rows, disk[j]));
            let r = choose|r: int| 0 <= r < rows.len() && #[trigger] shows(rows[r], disk[j]);
            if r == k {
                assert(known[k].path@ == disk[j].rel@);
            }
            assert(rows2[r] == rows[r]);
            assert(shows(rows2[r], disk[j]));
        }
    }
    assert forall|a: int, b: int| 0 <= a < b < rows2.len() implies rows2[a].path != rows2[b].path by {
        assert(rows2[a].path == rows[a].path);
        assert(rows2[b].path == rows[b].path);
    }
}

proof fn lemma_phase_insert(
    known: Seq<KnownFile>,
    disk: Seq<DiskFile>,
    i: int,
    rows: Seq<KnownRow>,
    s: ScanStep,
    f: i64,
    rows2: Seq<KnownRow>,
)
    requires
        forall|j: int| 0 <= j < disk.len() ==> !seen_before(disk, j),
        0 <= i < disk.len(),
        disk_phase(known, disk, i, rows),
        step_for(known, disk, i) == Some(s),
        known_index(known, disk[i].rel@) is None,
        forall|k: int| 0 <= k < known.len() ==> f != #[trigger] known[k].id,
        rows2 == apply_step(rows, s, f),
    ensures
        disk_phase(known, disk, i + 1, rows2),
{
    reveal(disk_phase);
    let nk = known.len();
    let d = disk[i];
    let p = d.rel@;
    assert(!seen_before(disk, i));
    lemma_new_path(known, disk, i);
    lemma_known_from(known, p, 0);
    let added = KnownRow { path: p, id: f, size: d.size, mtime: d.mtime, status: 0 };
    assert(rows2 =~= rows.push(added));
    assert(shows(added, d));
    assert forall|r: int| 0 <= r < rows.len() implies #[trigger] rows2[r] == rows[r] by {}
    assert forall|k2: int| 0 <= k2 < nk implies #[trigger] known[k2].path@ != added.path && known[k2].id
        != added.id by {
        assert(known[k2].path@ != p);
        assert(f != known[k2].id);
    }
    assert forall|k2: int| 0 <= k2 < nk implies #[trigger] rows2[k2].path == known[k2].path@ && rows2[k2].id
        == known[k2].id by {
        assert(rows2[k2] == rows[k2]);
    }
    assert forall|k2: int, j: int|
        0 <= k2 < nk && 0 <= j < i + 1 && #[trigger] disk[j].rel@ == #[trigger] known[k2].path@
        implies shows(rows2[k2], disk[j]) by {
        assert(known[k2].path@ != p);
        assert(rows2[k2] == rows[k2]);
    }
    assert forall|k2: int| 0 <= k2 < nk && !seen_in(disk, i + 1, known[k2].path@) implies
        #[trigger] rows2[k2] == row_of(known[k2]) by {
        assert(known[k2].path@ != p);
        assert(rows2[k2] == rows[k2]);
        assert(!seen_in(disk, i, known[k2].path@));
    }
    assert forall|r: int| nk <= r < rows2.len() implies from_disk(disk, i + 1, #[trigger] rows2[r]) && new_row(
        known,
        rows2[r],
    ) by {
        if r == rows.len() {
            assert(rows2[r] == added);
            assert(shows(rows2[r], disk[i]));
        } else {
            assert(rows2[r] == rows[r]);
            assert(from_disk(disk, i, rows[r]));
            let j = choose|j: int| 0 <= j < i && #[trigger] shows(rows[r], disk[j]);
            assert(shows(rows2[r], disk[j]));
        }
    }
    assert forall|j: int| 0 <= j < i + 1 implies shown(rows2, #[trigger] disk[j]) by {
        if j == i {
            assert(shows(rows2[rows.len() as int], disk[j]));
        } else {
            assert(shown(rows, disk[j]));
            let r = choose|r: int| 0 <= r < rows.len() && #[trigger] shows(rows[r], disk[j]);
            assert(rows2[r] == rows[r]);
            assert(shows(rows2[r], disk[j]));
        }
    }
    assert forall|a: int, b: int| 0 <= a < b < rows2.len() implies rows2[a].path != rows2[b].path by {
        if b == rows.len() {
            assert(rows2[b] == added);
            assert(rows2[a] == rows[a]);
            if a < nk {
                assert(known[a].path@ != p);
            } else {
                assert(from_disk(disk, i, rows[a]));
                let j = choose|j: int| 0 <= j < i && #[trigger] shows(rows[a], disk[j]);
                assert(disk[j].rel@ != p);
            }
        } else {
            assert(rows2[a] == rows[a]);
            assert(rows2[b] == rows[b]);
        }
    }
}

proof fn lemma_disk_phase(known: Seq<KnownFile>, disk: Seq<DiskFile>, fresh: Seq<i64>, i: int)
    requires
        distinct_texts(known_paths(known)),
        distinct_ids(known),
        forall|j: int| 0 <= j < disk.len() ==> !seen_before(disk, j),
        0 <= i <= disk.len(),
        fresh.len() >= disk_steps(known, disk, i).len(),
        fresh_ids(known, fresh),
    ensures
        disk_phase(known, disk, i, apply_steps(known_rows(known), disk_steps(known, disk, i), fresh)),
    decreases i,
{
    if i == 0 {
        assert(disk_steps(known, disk, 0) =~= Seq::<ScanStep>::empty());
        lemma_disk_phase_start(known, disk);
    } else {
        lemma_disk_steps_len(known, disk, i - 1, i);
        lemma_disk_phase(known, disk, fresh, i - 1);
        let pre = disk_steps(known, disk, i - 1);
        let rows = apply_steps(known_rows(known), pre, fresh);
        match step_for(known, disk, i - 1) {
            None => {
                assert(disk_steps(known, disk, i) =~= pre);
                lemma_phase_quiet(known, disk, i - 1, rows);
            },
            Some(s) => {
                let next = disk_steps(known, disk, i);
                assert(next =~= pre.push(s));
                assert(next.drop_last() =~= pre);
                let f = fresh[pre.len() as int];
                let rows2 = apply_steps(known_rows(known), next, fresh);
                assert(rows2 == apply_step(rows, s, f));
                if known_index(known, disk[i - 1].rel@) is Some {
                    lemma_phase_update(known, disk, i - 1, rows, s, f, rows2);
                } else {
                    assert forall|k: int| 0 <= k < known.len() implies f != #[trigger] known[k].id by {
                        assert(fresh[pre.len() as int] != known[k].id);
                    }
                    lemma_phase_insert(known, disk, i - 1, rows, s, f, rows2);
                }
            },
        }
    }
}

/// What holds of the catalogue once the changes for the disk and the
/// first `k` known files are applied.
pub open spec fn missing_phase(known: Seq<KnownFile>, disk: Seq<DiskFile>, k: int, rows: Seq<KnownRow>) -> bool {
    let nk = known.len();
    let nd = disk.len() as int;
    &&& rows.len() >= nk
    &&& forall|q: int| 0 <= q < nk ==> #[trigger] rows[q].path == known[q].path@ && rows[q].id == known[q].id
    &&& forall|r: int| nk <= r < rows.len() ==> from_disk(disk, nd, #[trigger] rows[r]) && new_row(known, rows[r])
    &&& forall|j: int| 0 <= j < nd ==> shown(rows, #[trigger] disk[j])
    &&& forall|a: int, b: int| 0 <= a < b < rows.len() ==> rows[a].path != rows[b].path
    &&& forall|q: int| 0 <= q < k && #[trigger] rows[q].status == 0 ==> on_disk(disk, known[q].path@)
    &&& forall|q: int| k <= q < nk && !seen_in(disk, nd, known[q].path@) ==> #[trigger] rows[q] == row_of(known[q])
}

proof fn lemma_missing_phase(known: Seq<KnownFile>, disk: Seq<DiskFile>, fresh: Seq<i64>, k: int)
    requires
        distinct_ids(known),
        0 <= k <= known.len(),
        disk_phase(known, disk, disk.len() as int, apply_steps(known_rows(known), disk_steps(known, disk, disk.len() as int), fresh)),
    ensures
        missing_phase(known, disk, k, apply_steps(
            known_rows(known),
            disk_steps(known, disk, disk.len() as int) + missing_steps(known, disk, k),
            fresh,
        )),
    decreases k,
{
    reveal(disk_phase);
    let nd = disk.len() as int;
    let nk = known.len();
    let dsteps = disk_steps(known, disk, nd);
    if k == 0 {
        assert(dsteps + missing_steps(known, disk, 0) =~= dsteps);
    } else {
        lemma_missing_phase(known, disk, fresh, k - 1);
        let pre = dsteps + missing_steps(known, disk, k - 1);
        let rows = apply_steps(known_rows(known), pre, fresh);
        let q = k - 1;
        let kf = known[q];
        if !on_disk(disk, kf.path@) && kf.status == 0 {
            let s = ScanStep::Missing { id: kf.id };
            let next = dsteps + missing_steps(known, disk, k);
            assert(next =~= pre.push(s));
            assert(next.drop_last() =~= pre);
            let rows2 = apply_steps(known_rows(known), next, fresh);
            assert(rows2 == apply_step(rows, s, fresh[pre.len() as int]));
            assert(rows2 =~= rows.map_values(|r: KnownRow| update_row(r, s)));
            assert forall|r: int| 0 <= r < rows.len() && r != q implies #[trigger] rows2[r] == rows[r] by {
                assert(rows2[r] == update_row(rows[r], s));
                if r < nk {
                    if r < q {
                        assert(known[r].id != known[q].id);
                    } else {
                        assert(known[q].id != known[r].id);
                    }
                } else {
                    assert(new_row(known, rows[r]));
                    assert(known[q].id != rows[r].id);
                }
            }
            assert(rows2[q] == update_row(rows[q], s));
            assert forall|r: int| 0 <= r < rows.len() implies #[trigger] rows2[r].path == rows[r].path && rows2[r].id
                == rows[r].id by {
                assert(rows2[r] == update_row(rows[r], s));
            }
            assert forall|j: int| 0 <= j < nd implies shown(rows2, #[trigger] disk[j]) by {
                assert(shown(rows, disk[j]));
                let r = choose|r: int| 0 <= r < rows.len() && #[trigger] shows(rows[r], disk[j]);
                if r == q {
                    assert(on_disk(disk, kf.path@));
                }
                assert(rows2[r] == rows[r]);
                assert(shows(rows2[r], disk[j]));
            }
            assert forall|r: int| nk <= r < rows2.len() implies from_disk(disk, nd, #[trigger] rows2[r]) && new_row(
                known,
                rows2[r],
            ) by {
                assert(rows2[r] == rows[r]);
            }
            assert forall|q2: int| 0 <= q2 < k && #[trigger] rows2[q2].status == 0 implies on_disk(
                disk,
                known[q2].path@,
            ) by {
                if q2 < q {
                    assert(rows2[q2] == rows[q2]);
                }
            }
            assert forall|q2: int| k <= q2 < nk && !seen_in(disk, nd, known[q2].path@) implies
                #[trigger] rows2[q2] == row_of(known[q2]) by {
                assert(rows2[q2] == rows[q2]);
            }
            assert forall|a: int, b: int| 0 <= a < b < rows2.len() implies rows2[a].path != rows2[b].path by {
                assert(rows2[a].path == rows[a].path);
                assert(rows2[b].path == rows[b].path);
            }
        } else {
            assert(dsteps + missing_steps(known, disk, k) =~= pre);
            if rows[q].status == 0 && !on_disk(disk, kf.path@) {
                assert(!seen_in(disk, nd, kf.path@));
                assert(rows[q] == row_of(kf));
            }
        }
    }
}

/// Once the changes of a scan are applied to the catalogue, a scan of the
/// same disk finds nothing more to change. `after` is the catalogue with
/// the changes applied, the files added getting the ids `fresh`, which no
/// known file has.
pub proof fn lemma_scan_settles(known: Seq<KnownFile>, disk: Seq<DiskFile>, fresh: Seq<i64>, after: Seq<KnownFile>)
    requires
        distinct_texts(known_paths(known)),
        distinct_ids(known),
        forall|i: int| 0 <= i < disk.len() ==> !seen_before(disk, i),
        fresh.len() == scan_spec(known, disk).len(),
        fresh_ids(known, fresh),
        known_rows(after) == apply_steps(known_rows(known), scan_spec(known, disk), fresh),
    ensures
        scan_spec(after, disk) == Seq::<ScanStep>::empty(),
{
    let nd = disk.len() as int;
    let nk = known.len() as int;
    let dsteps = disk_steps(known, disk, nd);
    lemma_disk_steps_len(known, disk, nd, nd);
    lemma_disk_phase(known, disk, fresh, nd);
    lemma_missing_phase(known, disk, fresh, nk);
    assert(dsteps + missing_steps(known, disk, nk) == scan_spec(known, disk));
    let rows = known_rows(after);
    assert(missing_phase(known, disk, nk, rows));
    assert forall|a: int| 0 <= a < after.len() implies #[trigger] rows[a] == row_of(after[a]) by {}
    assert forall|a: int, b: int| 0 <= a < b < known_paths(after).len() implies known_paths(after)[a]
        != known_paths(after)[b] by {
        assert(rows[a] == row_of(after[a]));
        assert(rows[b] == row_of(after[b]));
    }
    assert forall|i: int| 0 <= i < disk.len() implies unchanged(after, disk, i) by {
        assert(shown(rows, disk[i]));
        let r = choose|r: int| 0 <= r < rows.len() && #[trigger] shows(rows[r], disk[i]);
        assert(rows[r] == row_of(after[r]));
        assert(after[r].path@ == disk[i].rel@);
    }
    assert forall|k: int| 0 <= k < after.len() && after[k].status == 0 implies on_disk(disk, #[trigger] after[k].path@) by {
        assert(rows[k] == row_of(after[k]));
        if k < nk {
            assert(rows[k].status == 0);
        } else {
            assert(from_disk(disk, nd, rows[k]));
            let j = choose|j: int| 0 <= j < nd && #[trigger] shows(rows[k], disk[j]);
            assert(disk[j].rel@ == after[k].path@);
        }
    }
    lemma_scan_quiet(after, disk);
}

// ── EXIF ────────────────────────────────────────────────────────────────

pub open spec fn opt_text(o: Option<String>) -> Option<Seq<char>> {
    match o {
        Some(t) => Some(t@),
        None => None,
    }
}

/// The EXIF fields read, over plain values: the orientation, and the texts
/// of `DateTimeOriginal` and of `DateTime`.
pub open spec fn fields_view(r: Option<(Option<u32>, Option<String>, Option<String>)>) -> Option<
    (Option<u32>, Option<Seq<char>>, Option<Seq<char>>),
> {
    match r {
        Some((o, a, b)) => Some((o, opt_text(a), opt_text(b))),
        None => None,
    }
}

/// What kamadak-exif reads from the bytes of a photo: nothing when it finds
/// no EXIF data; else the primary image's orientation (as an unsigned
/// integer) and the displayed texts of its `DateTimeOriginal` and `DateTime`
/// fields, each when present.
pub uninterp spec fn exif_fields_of(bytes: Seq<u8>) -> Option<(Option<u32>, Option<Seq<char>>, Option<Seq<char>>)>;

/// `exif::Reader::read_from_container` over the bytes, then `get_field` of
/// `Orientation` (`get_uint(0)`), `DateTimeOriginal` and `DateTime` in the
/// primary image (`display_value`). The result is named, not computed.
#[verifier::external_body]
fn exif_fields(bytes: &[u8]) -> (r: Option<(Option<u32>, Option<String>, Option<String>)>)
    ensures
        fields_view(r) == exif_fields_of(bytes@),
{
    let exif = exif::Reader::new().read_from_container(&mut std::io::Cursor::new(bytes)).ok()?;
    let orientation = exif.get_field(exif::Tag::Orientation, exif::In::PRIMARY).and_then(|f| f.value.get_uint(0));
    let original = exif.get_field(exif::Tag::DateTimeOriginal, exif::In::PRIMARY).map(|f| f.display_value().to_string());
    let plain = exif.get_field(exif::Tag::DateTime, exif::In::PRIMARY).map(|f| f.display_value().to_string());
    Some((orientation, original, plain))
}

/// The Unix time of a date and time read with a chrono format and taken as
/// UTC; nothing when the text does not match the format.
pub uninterp spec fn naive_utc_seconds(s: Seq<char>, fmt: Seq<char>) -> Option<i64>;

/// `chrono::NaiveDateTime::parse_from_str`, then `and_utc().timestamp()`.
#[verifier::external_body]
fn parse_naive_utc(s: &str, fmt: &str) -> (r: Option<i64>)
    ensures
        r == naive_utc_seconds(s@, fmt@),
{
    match chrono::NaiveDateTime::parse_from_str(s, fmt) {
        Ok(dt) => Some(dt.and_utc().timestamp()),
        Err(_) => None,
    }
}

/// The date of a photo from the texts of its EXIF date fields: the
/// original date when it has one, else the plain date; read as
/// "%Y-%m-%d %H:%M:%S", else as "%Y:%m:%d %H:%M:%S".
pub open spec fn exif_date_spec(original: Option<Seq<char>>, plain: Option<Seq<char>>) -> Option<i64> {
    let text = match original {
        Some(t) => Some(t),
        None => plain,
    };
    match text {
        Some(t) => match naive_utc_seconds(t, "%Y-%m-%d %H:%M:%S"@) {
            Some(v) => Some(v),
            None => naive_utc_seconds(t, "%Y:%m:%d %H:%M:%S"@),
        },
        None => None,
    }
}

/// The orientation (1 when unknown) and the date of a photo, from the
/// EXIF fields found.
pub open spec fn exif_summary_spec(f: Option<(Option<u32>, Option<Seq<char>>, Option<Seq<char>>)>) -> (u32, Option<i64>) {
    match f {
        Some((o, a, b)) => (
            match o {
                Some(v) => v,
                None => 1,
            },
            exif_date_spec(a, b),
        ),
        None => (1, None),
    }
}

/// The EXIF orientation (1 when unknown) and the date a photo was taken,
/// from the fields read: the orientation found, and the original date
/// when there is one, else the plain date, read in either format.
pub fn exif_summary_of(fields: Option<(Option<u32>, Option<String>, Option<String>)>) -> (r: (u32, Option<i64>))
    ensures
        r == exif_summary_spec(fields_view(fields)),
{
    match fields {
        None => (1, None),
        Some((o, original, plain)) => {
            let orientation = match o {
                Some(v) => v,
                None => 1,
            };
            let text = match original {
                Some(t) => Some(t),
                None => plain,
            };
            let date = match text {
                Some(t) => match parse_naive_utc(t.as_str(), "%Y-%m-%d %H:%M:%S") {
                    Some(v) => Some(v),
                    None => parse_naive_utc(t.as_str(), "%Y:%m:%d %H:%M:%S"),
                },
                None => None,
            };
            (orientation, date)
        },
    }
}

/// The EXIF orientation (1 when unknown) and the date a photo was taken,
/// from the bytes of its file.
pub fn exif_summary(bytes: &[u8]) -> (r: (u32, Option<i64>))
    ensures
        r == exif_summary_spec(exif_fields_of(bytes@)),
{
    exif_summary_of(exif_fields(bytes))
}

// ── the outcome of indexing one file ────────────────────────────────────

/// What indexing one file found, written back to its row (a video's
/// duration travels beside it).
#[derive(Clone, Debug)]
pub struct Done {
    pub id: i64,
    /// The content hash; empty when hashing failed, so the file leaves the
    /// queue.
    pub hash: Option<Vec<u8>>,
    pub width: Option<i64>,
    pub height: Option<i64>,
    pub taken_at: Option<i64>,
    pub blurhash: Option<String>,
    pub phash: Option<i64>,
    pub dhash: Option<i64>,
    /// The date comes from EXIF rather than from the file's modification time.
    pub exif_date: bool,
    /// 1 when the thumbnail is ready, 2 when there is none.
    pub thumb: i64,
    pub error: Option<String>,
}

/// `prefix` followed by `detail`.
fn error_text(prefix: &str, detail: &str) -> (r: String)
    ensures
        r@ == prefix@ + detail@,
{
    let mut e = String::from_str(prefix);
    push_str(&mut e, detail);
    e
}

/// The file could not be hashed: it is recorded with an empty hash and the
/// error, and is not tried again.
pub fn hash_failed(id: i64, err: &str) -> (d: Done)
    ensures
        d.id == id,
        d.hash matches Some(h) && h@.len() == 0,
        d.width is None && d.height is None && d.taken_at is None,
        d.blurhash is None && d.phash is None && d.dhash is None,
        !d.exif_date,
        d.thumb == 2,
        d.error matches Some(e) && e@ == "hash: "@ + err@,
{
    Done {
        id,
        hash: Some(Vec::new()),
        width: None,
        height: None,
        taken_at: None,
        blurhash: None,
        phash: None,
        dhash: None,
        exif_date: false,
        thumb: 2,
        error: Some(error_text("hash: ", err)),
    }
}

/// How decoding a photo went.
#[derive(Clone, Debug)]
pub enum PhotoOutcome {
    /// Decoded and turned upright: its size, the error of writing its
    /// thumbnail (none when written), the thumbnail's blurhash and its
    /// perceptual and difference hashes.
    Decoded { width: i64, height: i64, thumb_error: Option<String>, blurhash: Option<String>, phash: i64, dhash: i64 },
    /// Not decodable (the decoder's message).
    Undecodable(String),
}

/// The record of a hashed photo: dated by EXIF when it has a date there,
/// else by its modification time; with a thumbnail when it decoded and the
/// thumbnail was written.
pub fn photo_done(id: i64, hash: Vec<u8>, mtime: Option<i64>, exif_taken: Option<i64>, image: PhotoOutcome) -> (d: Done)
    ensures
        d.id == id,
        d.hash == Some(hash),
        d.taken_at == (if exif_taken is Some { exif_taken } else { mtime }),
        d.exif_date == exif_taken is Some,
        match image {
            PhotoOutcome::Decoded { width, height, thumb_error, blurhash, phash, dhash } => {
                &&& d.width == Some(width) && d.height == Some(height)
                &&& d.blurhash == blurhash
                &&& d.phash == Some(phash) && d.dhash == Some(dhash)
                &&& match thumb_error {
                    None => d.thumb == 1 && d.error is None,
                    Some(e) => d.thumb == 2 && (d.error matches Some(m) && m@ == "thumb: "@ + e@),
                }
            },
            PhotoOutcome::Undecodable(e) => {
                &&& d.width is None && d.height is None
                &&& d.blurhash is None && d.phash is None && d.dhash is None
                &&& d.thumb == 2
                &&& d.error matches Some(m) && m@ == "decode: "@ + e@
            },
        },
{
    let (taken_at, exif_date) = match exif_taken {
        Some(t) => (Some(t), true),
        None => (mtime, false),
    };
    match image {
        PhotoOutcome::Decoded { width, height, thumb_error, blurhash, phash, dhash } => {
            let (thumb, error) = match thumb_error {
                None => (1, None),
                Some(e) => (2, Some(error_text("thumb: ", e.as_str()))),
            };
            Done {
                id,
                hash: Some(hash),
                width: Some(width),
                height: Some(height),
                taken_at,
                blurhash,
                phash: Some(phash),
                dhash: Some(dhash),
                exif_date,
                thumb,
                error,
            }
        },
        PhotoOutcome::Undecodable(e) => Done {
            id,
            hash: Some(hash),
            width: None,
            height: None,
            taken_at,
            blurhash: None,
            phash: None,
            dhash: None,
            exif_date,
            thumb: 2,
            error: Some(error_text("decode: ", e.as_str())),
        },
    }
}

/// How probing a video and making its thumbnail went.
#[derive(Clone, Debug)]
pub enum VideoOutcome {
    /// `ffprobe` failed (its message).
    ProbeFailed(String),
    /// Probed (frame size when known); the thumbnail was there or was made,
    /// with its blurhash when it could be read back.
    Thumbnailed { width: Option<i64>, height: Option<i64>, blurhash: Option<String> },
    /// Probed, but no thumbnail came out of `ffmpeg`.
    NoThumbnail { width: Option<i64>, height: Option<i64> },
}

/// The record of a hashed video, dated by its modification time.
pub fn video_done(id: i64, hash: Vec<u8>, mtime: Option<i64>, video: VideoOutcome) -> (d: Done)
    ensures
        d.id == id,
        d.hash == Some(hash),
        d.taken_at == mtime,
        !d.exif_date,
        d.phash is None && d.dhash is None,
        match video {
            VideoOutcome::ProbeFailed(e) => {
                &&& d.width is None && d.height is None && d.blurhash is None
                &&& d.thumb == 2
                &&& d.error matches Some(m) && m@ == "probe: "@ + e@
            },
            VideoOutcome::Thumbnailed { width, height, blurhash } => {
                &&& d.width == width && d.height == height && d.blurhash == blurhash
                &&& d.thumb == 1 && d.error is None
            },
            VideoOutcome::NoThumbnail { width, height } => {
                &&& d.width == width && d.height == height && d.blurhash is None
                &&& d.thumb == 2
                &&& d.error matches Some(m) && m@ == "thumb: ffmpeg nie wygenerował miniaturki"@
            },
        },
{
    let (width, height, blurhash, thumb, error) = match video {
        VideoOutcome::ProbeFailed(e) => (None, None, None, 2, Some(error_text("probe: ", e.as_str()))),
        VideoOutcome::Thumbnailed { width, height, blurhash } => (width, height, blurhash, 1, None),
        VideoOutcome::NoThumbnail { width, height } => (
            width,
            height,
            None,
            2,
            Some(String::from_str("thumb: ffmpeg nie wygenerował miniaturki")),
        ),
    };
    Done {
        id,
        hash: Some(hash),
        width,
        height,
        taken_at: mtime,
        blurhash,
        phash: None,
        dhash: None,
        exif_date: false,
        thumb,
        error,
    }
}

} // verus!
