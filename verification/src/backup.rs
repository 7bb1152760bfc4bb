//! The rotating backup chain that wraps every write of the canonical
//! store file.
//!
//! Slot 1 is the most recent snapshot; a write shifts every slot one step
//! older (dropping the oldest when the chain is full), snapshots the
//! current canonical content into slot 1, and replaces the canonical
//! content.  A revert restores slot 1 into the canonical file and shifts
//! the remaining slots one step newer.  Depth 0 disables the chain.
//!
//! [`BackupChain`] models the contents of these files as plain strings
//! and is fully verified; [`write_plan`] and [`revert_plan`] list, for
//! the caller that owns the real files, the exact file operations of the
//! same protocol.

use vstd::prelude::*;
use crate::errors::Error;

verus! {

/// The contents of one store's files: the canonical file and the backup
/// slots, most recent first.
#[derive(Debug, PartialEq, Eq)]
pub struct BackupChain {
    /// The configured chain depth (`saved_actions`); 0 disables backups.
    pub depth: usize,
    /// The content of the canonical store file.
    pub canonical: String,
    /// The contents of the backup slots; index 0 is slot 1, the most
    /// recent.
    pub slots: Vec<String>,
}

/// The mathematical shape of a backup chain.
pub ghost struct ChainModel {
    pub depth: int,
    pub canonical: Seq<char>,
    pub slots: Seq<Seq<char>>,
}

impl View for BackupChain {
    type V = ChainModel;

    open spec fn view(&self) -> ChainModel {
        ChainModel {
            depth: self.depth as int,
            canonical: self.canonical@,
            slots: self.slots.deep_view(),
        }
    }
}

/// The chain never holds more slots than its depth allows.
pub open spec fn chain_wf(m: ChainModel) -> bool {
    m.slots.len() <= m.depth
}

/// The chain after one write of `content`.
pub open spec fn write_tr(m: ChainModel, content: Seq<char>) -> ChainModel {
    if m.depth == 0 {
        ChainModel { depth: m.depth, canonical: content, slots: m.slots }
    } else {
        let kept = if m.slots.len() == m.depth {
            m.slots.drop_last()
        } else {
            m.slots
        };
        ChainModel { depth: m.depth, canonical: content, slots: seq![m.canonical] + kept }
    }
}

/// Whether a revert can proceed: backups enabled and a slot left.
pub open spec fn revert_enabled(m: ChainModel) -> bool {
    m.depth > 0 && m.slots.len() > 0
}

/// The chain after one revert.
pub open spec fn revert_tr(m: ChainModel) -> ChainModel {
    ChainModel { depth: m.depth, canonical: m.slots[0], slots: m.slots.drop_first() }
}

impl BackupChain {
    /// Runs the write protocol for `content`: shift the slots one step
    /// older (dropping the oldest when the chain is full), snapshot the
    /// old canonical content into slot 1, and make `content` canonical.
    pub fn do_write(&mut self, content: String)
        requires
            chain_wf(old(self)@),
        ensures
            final(self)@ == write_tr(old(self)@, content@),
            chain_wf(final(self)@),
    {
        if self.depth > 0 {
            if self.slots.len() == self.depth {
                let ghost s0 = self.slots.deep_view();
                self.slots.pop();
                proof {
                    assert(self.slots.deep_view() =~= s0.drop_last());
                }
            }
            let ghost s1 = self.slots.deep_view();
            let old_canonical = self.canonical.clone();
            self.canonical = content;
            self.slots.insert(0, old_canonical);
            proof {
                assert(self.slots.deep_view() =~= seq![old(self)@.canonical] + s1);
            }
        } else {
            self.canonical = content;
        }
    }

    /// Runs the revert protocol: restore slot 1 into the canonical file
    /// and shift the remaining slots one step newer.  Fails with a
    /// storage error when backups are disabled or no slot is left.
    pub fn do_revert(&mut self) -> (res: Result<(), Error>)
        ensures
            revert_enabled(old(self)@) ==> res is Ok && final(self)@ == revert_tr(old(self)@),
            !revert_enabled(old(self)@) ==> res == Err::<(), Error>(Error::Storage) && *final(self)
                == *old(self),
    {
        if self.depth == 0 {
            return Err(Error::Storage);
        }
        if self.slots.len() == 0 {
            return Err(Error::Storage);
        }
        let ghost s0 = self.slots.deep_view();
        let restored = self.slots.remove(0);
        self.canonical = restored;
        proof {
            assert(self.slots.deep_view() =~= s0.drop_first());
        }
        Ok(())
    }
}

/// Backup rotation at depth 2: after three writes the slots hold, newest
/// first, the states after the second and the first write; a revert then
/// restores slot 1 as canonical content and shifts slot 2 into slot 1.
pub proof fn lemma_backup_rotation(
    c0: Seq<char>,
    w1: Seq<char>,
    w2: Seq<char>,
    w3: Seq<char>,
)
    ensures
        ({
            let b0 = ChainModel { depth: 2, canonical: c0, slots: Seq::empty() };
            let b3 = write_tr(write_tr(write_tr(b0, w1), w2), w3);
            &&& b3.canonical == w3
            &&& b3.slots =~= seq![w2, w1]
            &&& revert_enabled(b3)
            &&& revert_tr(b3).canonical == w2
            &&& revert_tr(b3).slots =~= seq![w1]
        }),
{
    let b0 = ChainModel { depth: 2, canonical: c0, slots: Seq::empty() };
    let b1 = write_tr(b0, w1);
    let b2 = write_tr(b1, w2);
    assert(b1.slots =~= seq![c0]);
    assert(b2.slots =~= seq![w1, c0]);
    let b3 = write_tr(b2, w3);
    assert(b2.slots.drop_last() =~= seq![w1]);
    assert(b3.slots =~= seq![w2, w1]);
    assert(revert_tr(b3).slots =~= seq![w1]);
}

/// One primitive file operation of the backup protocol.  Slot `i` names
/// the backup file with positional suffix `i`.
#[derive(Debug, PartialEq, Eq)]
pub enum FileOp {
    /// Delete the slot file `i`.
    DeleteSlot(usize),
    /// Rename slot `from` to slot `to`.
    ShiftSlot(usize, usize),
    /// Copy the canonical file into slot 1.
    SnapshotCanonical,
    /// Delete the canonical file and write the new content in its place.
    ReplaceCanonical,
    /// Delete the canonical file and rename slot 1 onto its path.
    RestoreCanonical,
}

/// The shift operations of one write at `depth`: slot `depth - 1` moves
/// to slot `depth`, and so on down to slot 1 moving to slot 2.
pub open spec fn shift_older_ops(depth: int) -> Seq<FileOp> {
    Seq::new(
        (if depth >= 1 {
            depth - 1
        } else {
            0
        }) as nat,
        |k: int| FileOp::ShiftSlot((depth - 1 - k) as usize, (depth - k) as usize),
    )
}

/// The exact file operations of one write: drop the oldest slot when the
/// chain is full, shift every slot one step older, snapshot the canonical
/// file into slot 1, then replace the canonical file.
pub open spec fn write_plan_spec(depth: int, num_slots: int) -> Seq<FileOp> {
    let head = if depth > 0 && num_slots == depth {
        seq![FileOp::DeleteSlot(depth as usize)]
    } else {
        Seq::empty()
    };
    let snap = if depth > 0 {
        seq![FileOp::SnapshotCanonical]
    } else {
        Seq::empty()
    };
    head + shift_older_ops(depth) + snap + seq![FileOp::ReplaceCanonical]
}

/// Lists the file operations of one write, for the caller that owns the
/// real files, given the configured depth and the number of existing
/// slot files.
pub fn write_plan(depth: usize, num_slots: usize) -> (r: Vec<FileOp>)
    ensures
        r@ == write_plan_spec(depth as int, num_slots as int),
{
    let mut r: Vec<FileOp> = Vec::new();
    if depth > 0 && num_slots == depth {
        r.push(FileOp::DeleteSlot(depth));
    }
    let ghost head = r@;
    let mut n: usize = 1;
    while n < depth
        invariant
            1 <= n <= depth || (depth == 0 && n == 1),
            r@ == head + shift_older_ops(depth as int).take(n - 1),
        decreases depth - n,
    {
        let i = depth - n;
        r.push(FileOp::ShiftSlot(i, i + 1));
        proof {
            assert(shift_older_ops(depth as int)[n - 1] == FileOp::ShiftSlot(
                (depth - n) as usize,
                (depth - n + 1) as usize,
            ));
            assert(r@ =~= head + shift_older_ops(depth as int).take(n as int));
        }
        n += 1;
    }
    proof {
        if depth == 0 {
            assert(shift_older_ops(depth as int).take(0) =~= shift_older_ops(depth as int));
        } else {
            assert(shift_older_ops(depth as int).take(depth - 1) =~= shift_older_ops(
                depth as int,
            ));
        }
    }
    if depth > 0 {
        r.push(FileOp::SnapshotCanonical);
    }
    r.push(FileOp::ReplaceCanonical);
    proof {
        assert(r@ =~= write_plan_spec(depth as int, num_slots as int));
    }
    r
}

/// The files of a chain as they lie on disk: key 0 is the canonical
/// file, key `i >= 1` is backup slot `i`.
pub open spec fn files_of(m: ChainModel) -> Map<int, Seq<char>> {
    Map::new(
        |k: int| k == 0 || 1 <= k <= m.slots.len(),
        |k: int|
            if k == 0 {
                m.canonical
            } else {
                m.slots[k - 1]
            },
    )
}

/// What one file operation does to the files on disk.  `content` is the
/// text handed to `ReplaceCanonical`.  A rename or copy whose source
/// file is missing is a no-op, as the real operations tolerate exactly
/// that.
pub open spec fn apply_op(files: Map<int, Seq<char>>, op: FileOp, content: Seq<char>) -> Map<
    int,
    Seq<char>,
> {
    match op {
        FileOp::DeleteSlot(i) => files.remove(i as int),
        FileOp::ShiftSlot(from, to) => if files.contains_key(from as int) {
            files.remove(from as int).insert(to as int, files[from as int])
        } else {
            files
        },
        FileOp::SnapshotCanonical => if files.contains_key(0) {
            files.insert(1, files[0])
        } else {
            files
        },
        FileOp::ReplaceCanonical => files.insert(0, content),
        FileOp::RestoreCanonical => if files.contains_key(1) {
            files.remove(1).insert(0, files[1])
        } else {
            files.remove(0)
        },
    }
}

/// The file operations applied in order.
pub open spec fn apply_ops(
    files: Map<int, Seq<char>>,
    ops: Seq<FileOp>,
    content: Seq<char>,
) -> Map<int, Seq<char>>
    decreases ops.len(),
{
    if ops.len() == 0 {
        files
    } else {
        apply_ops(apply_op(files, ops.first(), content), ops.drop_first(), content)
    }
}

/// The shifts of one write, as a recursion-friendly family: slot `t`
/// moves to `t + 1`, then slot `t - 1`, down to slot 1 moving to 2.
spec fn shifts_from(t: int) -> Seq<FileOp> {
    Seq::new(
        (if t >= 0 {
            t
        } else {
            0
        }) as nat,
        |k: int| FileOp::ShiftSlot((t - k) as usize, (t - k + 1) as usize),
    )
}

proof fn lemma_apply_shifts_up(t: int, n: int, files: Map<int, Seq<char>>, c: Seq<char>)
    requires
        0 <= n <= t < usize::MAX as int,
        forall|k: int| files.contains_key(k) ==> k <= 0 || 1 <= k <= n || k > t + 1,
    ensures
        ({
            let r = apply_ops(files, shifts_from(t), c);
            &&& forall|k: int|
                k <= 0 || k > t + 1 ==> (#[trigger] r.contains_key(k) <==> files.contains_key(k))
                    && (files.contains_key(k) ==> r[k] == files[k])
            &&& forall|k: int|
                2 <= k <= n + 1 ==> (#[trigger] r.contains_key(k) <==> files.contains_key(k - 1))
                    && (files.contains_key(k - 1) ==> r[k] == files[k - 1])
            &&& forall|k: int| 1 <= k <= t + 1 && !(2 <= k <= n + 1) ==> !r.contains_key(k)
        }),
    decreases t,
{
    if t == 0 {
        assert(shifts_from(0) =~= Seq::<FileOp>::empty());
    } else {
        let op = FileOp::ShiftSlot(t as usize, (t + 1) as usize);
        assert(shifts_from(t)[0] == op);
        assert(shifts_from(t).drop_first() =~= shifts_from(t - 1));
        let f1 = apply_op(files, op, c);
        assert(apply_ops(files, shifts_from(t), c) == apply_ops(f1, shifts_from(t - 1), c));
        if files.contains_key(t) {
            assert(n == t);
            lemma_apply_shifts_up(t - 1, n - 1, f1, c);
        } else {
            let n2 = if n <= t - 1 {
                n
            } else {
                t - 1
            };
            lemma_apply_shifts_up(t - 1, n2, f1, c);
        }
    }
}

/// The write plan, run on the files of a well-formed chain, produces
/// exactly the files of the chain after the model write.
pub proof fn lemma_write_plan_matches_model(m: ChainModel, c: Seq<char>)
    requires
        chain_wf(m),
        0 <= m.depth < usize::MAX as int,
    ensures
        apply_ops(files_of(m), write_plan_spec(m.depth, m.slots.len() as int), c) == files_of(
            write_tr(m, c),
        ),
{
    let f0 = files_of(m);
    let n = m.slots.len() as int;
    let plan = write_plan_spec(m.depth, n);
    if m.depth == 0 {
        assert(n == 0);
        assert(plan =~= seq![FileOp::ReplaceCanonical]);
        assert(plan.drop_first() =~= Seq::<FileOp>::empty());
        let f1 = apply_op(f0, FileOp::ReplaceCanonical, c);
        assert(plan.first() == FileOp::ReplaceCanonical);
        assert(apply_ops(f0, plan, c) == apply_ops(f1, plan.drop_first(), c));
        assert(apply_ops(f1, plan.drop_first(), c) == f1);
        assert(f1 == f0.insert(0, c));
        assert(f0.insert(0, c) =~= files_of(write_tr(m, c)));
    } else {
        let kept_len: int = if n == m.depth {
            n - 1
        } else {
            n
        };
        let head_done: Map<int, Seq<char>> = if n == m.depth {
            f0.remove(m.depth)
        } else {
            f0
        };
        let shifts = shifts_from(m.depth - 1);
        let after_shifts = apply_ops(head_done, shifts, c);
        assert(shift_older_ops(m.depth) =~= shifts);
        if n == m.depth {
            assert(plan =~= seq![FileOp::DeleteSlot(m.depth as usize)] + shifts + seq![
                FileOp::SnapshotCanonical,
            ] + seq![FileOp::ReplaceCanonical]);
            assert(plan[0] == FileOp::DeleteSlot(m.depth as usize));
            assert(apply_op(f0, plan[0], c) == head_done);
        } else {
            assert(plan =~= shifts + seq![FileOp::SnapshotCanonical] + seq![
                FileOp::ReplaceCanonical,
            ]);
        }
        assert(forall|k: int|
            head_done.contains_key(k) ==> k <= 0 || 1 <= k <= kept_len || k > m.depth);
        lemma_apply_shifts_up(m.depth - 1, kept_len, head_done, c);
        let after_snap = apply_op(after_shifts, FileOp::SnapshotCanonical, c);
        let after_all = apply_op(after_snap, FileOp::ReplaceCanonical, c);
        assert(after_shifts.contains_key(0) && after_shifts[0] == m.canonical);
        assert(after_snap == after_shifts.insert(1, m.canonical));
        assert(after_all == after_snap.insert(0, c));
        let tail2 = seq![FileOp::SnapshotCanonical] + seq![FileOp::ReplaceCanonical];
        assert(tail2.first() == FileOp::SnapshotCanonical);
        assert(tail2.drop_first() =~= seq![FileOp::ReplaceCanonical]);
        assert(apply_ops(after_shifts, tail2, c) == apply_ops(after_snap, tail2.drop_first(), c));
        assert(tail2.drop_first().first() == FileOp::ReplaceCanonical);
        assert(tail2.drop_first().drop_first() =~= Seq::<FileOp>::empty());
        assert(apply_ops(after_snap, tail2.drop_first(), c) == apply_ops(
            after_all,
            tail2.drop_first().drop_first(),
            c,
        ));
        assert(apply_ops(after_all, tail2.drop_first().drop_first(), c) == after_all);
        assert(apply_ops(after_shifts, tail2, c) == after_all);
        lemma_apply_ops_append(head_done, shifts, tail2, c);
        if n == m.depth {
            let rest = shifts + tail2;
            assert(plan.drop_first() =~= rest);
            assert(apply_ops(f0, plan, c) == apply_ops(head_done, rest, c));
        } else {
            assert(plan =~= shifts + tail2);
        }
        assert(apply_ops(head_done, shifts + tail2, c) == after_all);
        let w = write_tr(m, c);
        assert(w.slots.len() == kept_len + 1);
        assert forall|k: int| #[trigger]
            after_all.contains_key(k) implies files_of(w).contains_key(k) && after_all[k]
            == files_of(w)[k] by {
            if k == 0 {
                assert(files_of(w)[0] == c);
            } else if k == 1 {
                assert(w.slots[0] == m.canonical);
            } else {
                assert(2 <= k <= kept_len + 1);
                assert(after_all[k] == head_done[k - 1]);
                assert(head_done[k - 1] == m.slots[k - 2]);
                assert(w.slots[k - 1] == m.slots[k - 2]);
            }
        }
        assert forall|k: int| #[trigger]
            files_of(w).contains_key(k) implies after_all.contains_key(k) by {
            if k >= 2 {
                assert(head_done.contains_key(k - 1));
            }
        }
        assert(after_all =~= files_of(w));
    }
}

proof fn lemma_apply_ops_append(
    files: Map<int, Seq<char>>,
    a: Seq<FileOp>,
    b: Seq<FileOp>,
    c: Seq<char>,
)
    ensures
        apply_ops(files, a + b, c) == apply_ops(apply_ops(files, a, c), b, c),
    decreases a.len(),
{
    if a.len() == 0 {
        assert(a + b =~= b);
    } else {
        assert((a + b).first() == a.first());
        assert((a + b).drop_first() =~= a.drop_first() + b);
        lemma_apply_ops_append(apply_op(files, a.first(), c), a.drop_first(), b, c);
    }
}

/// The shifts of one revert, as a recursion-friendly family: slot `j`
/// moves to `j - 1`, then slot `j + 1`, up to slot `n`.
spec fn shifts_down(j: int, n: int) -> Seq<FileOp> {
    Seq::new(
        (if n - j + 1 >= 0 {
            n - j + 1
        } else {
            0
        }) as nat,
        |k: int| FileOp::ShiftSlot((j + k) as usize, (j + k - 1) as usize),
    )
}

proof fn lemma_apply_shifts_down(j: int, n: int, files: Map<int, Seq<char>>, c: Seq<char>)
    requires
        2 <= j <= n + 1,
        n < usize::MAX as int,
        forall|k: int| files.contains_key(k) ==> k <= j - 2 || j <= k <= n,
    ensures
        ({
            let r = apply_ops(files, shifts_down(j, n), c);
            &&& forall|k: int|
                k <= j - 2 && k <= n - 1 ==> (#[trigger] r.contains_key(k)
                    <==> files.contains_key(k)) && (files.contains_key(k) ==> r[k] == files[k])
            &&& forall|k: int|
                j - 1 <= k <= n - 1 ==> (#[trigger] r.contains_key(k) <==> files.contains_key(
                    k + 1,
                )) && (files.contains_key(k + 1) ==> r[k] == files[k + 1])
            &&& forall|k: int| k >= n ==> !r.contains_key(k)
        }),
    decreases n + 1 - j,
{
    if j == n + 1 {
        assert(shifts_down(j, n) =~= Seq::<FileOp>::empty());
    } else {
        let op = FileOp::ShiftSlot(j as usize, (j - 1) as usize);
        assert(shifts_down(j, n)[0] == op);
        assert(shifts_down(j, n).drop_first() =~= shifts_down(j + 1, n));
        let f1 = apply_op(files, op, c);
        assert(apply_ops(files, shifts_down(j, n), c) == apply_ops(f1, shifts_down(j + 1, n), c));
        lemma_apply_shifts_down(j + 1, n, f1, c);
    }
}

/// The revert plan, run on the files of a revert-enabled chain, produces
/// exactly the files of the chain after the model revert, whatever text
/// a write would have carried.
pub proof fn lemma_revert_plan_matches_model(m: ChainModel, c: Seq<char>)
    requires
        revert_enabled(m),
        m.slots.len() < usize::MAX as nat,
    ensures
        apply_ops(files_of(m), revert_plan_spec(m.slots.len() as int), c) == files_of(
            revert_tr(m),
        ),
{
    let f0 = files_of(m);
    let n = m.slots.len() as int;
    let plan = revert_plan_spec(n);
    assert(plan[0] == FileOp::RestoreCanonical);
    assert(plan.drop_first() =~= shifts_down(2, n));
    assert(f0.contains_key(1));
    let f1 = apply_op(f0, FileOp::RestoreCanonical, c);
    assert(f1 == f0.remove(1).insert(0, m.slots[0]));
    assert(apply_ops(f0, plan, c) == apply_ops(f1, shifts_down(2, n), c));
    assert(forall|k: int| f1.contains_key(k) ==> k <= 0 || 2 <= k <= n);
    lemma_apply_shifts_down(2, n, f1, c);
    let r = apply_ops(f1, shifts_down(2, n), c);
    let w = revert_tr(m);
    assert forall|k: int| #[trigger] r.contains_key(k) implies files_of(w).contains_key(k) && r[k]
        == files_of(w)[k] by {
        if k <= 0 {
            assert(k == 0);
            assert(r[0] == m.slots[0]);
        } else {
            assert(1 <= k <= n - 1);
            assert(r[k] == f1[k + 1]);
            assert(f1[k + 1] == m.slots[k]);
            assert(w.slots[k - 1] == m.slots[k]);
        }
    }
    assert forall|k: int| #[trigger] files_of(w).contains_key(k) implies r.contains_key(k) by {
        if k >= 1 {
            assert(f1.contains_key(k + 1));
        }
    }
    assert(r =~= files_of(w));
}

/// The exact file operations of one revert: restore slot 1 into the
/// canonical file, then shift every remaining slot one step newer.
pub open spec fn revert_plan_spec(num_slots: int) -> Seq<FileOp> {
    seq![FileOp::RestoreCanonical] + Seq::new(
        (if num_slots >= 1 {
            num_slots - 1
        } else {
            0
        }) as nat,
        |k: int| FileOp::ShiftSlot((k + 2) as usize, (k + 1) as usize),
    )
}

/// Lists the file operations of one revert, given the number of existing
/// slot files.
pub fn revert_plan(num_slots: usize) -> (r: Vec<FileOp>)
    requires
        num_slots < usize::MAX,
    ensures
        r@ == revert_plan_spec(num_slots as int),
{
    let mut r: Vec<FileOp> = Vec::new();
    r.push(FileOp::RestoreCanonical);
    let ghost head = r@;
    let mut n: usize = 2;
    while n <= num_slots
        invariant
            num_slots < usize::MAX,
            2 <= n <= num_slots + 1 || (num_slots <= 1 && n == 2),
            r@ == head + revert_plan_spec(num_slots as int).skip(1).take(n - 2),
        decreases num_slots + 1 - n,
    {
        r.push(FileOp::ShiftSlot(n, n - 1));
        proof {
            assert(revert_plan_spec(num_slots as int).skip(1)[n - 2] == FileOp::ShiftSlot(
                n,
                (n - 1) as usize,
            ));
            assert(r@ =~= head + revert_plan_spec(num_slots as int).skip(1).take(n - 1));
        }
        n += 1;
    }
    proof {
        assert(head =~= revert_plan_spec(num_slots as int).take(1));
        if num_slots >= 1 {
            assert(revert_plan_spec(num_slots as int).skip(1).take(num_slots - 1)
                =~= revert_plan_spec(num_slots as int).skip(1));
        } else {
            assert(revert_plan_spec(num_slots as int).skip(1).take(0) =~= revert_plan_spec(
                num_slots as int,
            ).skip(1));
        }
        assert(r@ =~= revert_plan_spec(num_slots as int));
    }
    r
}

} // verus!
