use vstd::prelude::*;

verus! {

/// How a file reaches its place in the mirror.
#[derive(PartialEq, Eq, Structural, Clone, Copy, Debug)]
pub enum Strategy {
    /// Link the destination to the source; copy where linking fails.
    LinkOrCopy,
    /// Copy the source unless the destination already holds the same bytes.
    CopyIfChanged,
}

/// A file-system operation that synchronization performs.
#[derive(PartialEq, Eq, Structural, Clone, Copy, Debug)]
pub enum FileOp {
    /// Create the destination's parent directories where they are missing.
    CreateParent,
    Link,
    Copy,
}

/// What became of one file.
#[derive(PartialEq, Eq, Structural, Clone, Copy, Debug)]
pub enum SyncOutcome {
    Skipped,
    Linked,
    Copied,
    Failed,
}

/// What synchronization of one file does next.
#[derive(PartialEq, Eq, Structural, Clone, Copy, Debug)]
pub enum SyncStep {
    Perform(FileOp),
    Finish(SyncOutcome),
}

/// Copy-if-changed writes unless the destination exists and holds exactly the
/// source's bytes.
pub open spec fn needs_write(src: Seq<u8>, dst: Option<Seq<u8>>) -> bool {
    dst != Some(src)
}

/// What the destination holds after copy-if-changed has run on it.
pub open spec fn after_copy_if_changed(src: Seq<u8>, dst: Option<Seq<u8>>) -> Seq<u8>
    recommends
        needs_write(src, dst) || dst is Some,
{
    if needs_write(src, dst) {
        src
    } else {
        dst->0
    }
}

/// The first step for one file under `strategy`: every write begins by
/// creating the destination's parent directories; copy-if-changed writes
/// nothing when the destination is current.
pub open spec fn first_step_of(strategy: Strategy, write_needed: bool) -> SyncStep {
    match strategy {
        Strategy::LinkOrCopy => SyncStep::Perform(FileOp::CreateParent),
        Strategy::CopyIfChanged => if write_needed {
            SyncStep::Perform(FileOp::CreateParent)
        } else {
            SyncStep::Finish(SyncOutcome::Skipped)
        },
    }
}

/// The step after `op` succeeded or failed under `strategy`, and whether the
/// failure is logged. A failed link falls back to a copy; any other failure
/// ends this file's synchronization without stopping the run.
pub open spec fn next_step_of(strategy: Strategy, op: FileOp, succeeded: bool) -> (SyncStep, bool) {
    let step = match (op, succeeded) {
        (FileOp::CreateParent, true) => match strategy {
            Strategy::LinkOrCopy => SyncStep::Perform(FileOp::Link),
            Strategy::CopyIfChanged => SyncStep::Perform(FileOp::Copy),
        },
        (FileOp::CreateParent, false) => SyncStep::Finish(SyncOutcome::Failed),
        (FileOp::Link, true) => SyncStep::Finish(SyncOutcome::Linked),
        (FileOp::Link, false) => SyncStep::Perform(FileOp::Copy),
        (FileOp::Copy, true) => SyncStep::Finish(SyncOutcome::Copied),
        (FileOp::Copy, false) => SyncStep::Finish(SyncOutcome::Failed),
    };
    (step, !succeeded)
}

/// Copy-if-changed writes unless both files could be read and the
/// destination holds exactly the source's bytes; a failed read of either side
/// means it writes. `None` stands for a file that is missing or unreadable.
pub open spec fn stale(src: Option<Seq<u8>>, dst: Option<Seq<u8>>) -> bool {
    src is None || needs_write(src->0, dst)
}

/// The cheap first test of copy-if-changed: the contents need to be compared
/// only where both sizes are known and equal. `None` stands for a size that
/// could not be read.
pub fn sizes_match(src_len: Option<u64>, dst_len: Option<u64>) -> (r: bool)
    ensures
        r == (src_len is Some && dst_len == src_len),
{
    match (src_len, dst_len) {
        (Some(a), Some(b)) => a == b,
        _ => false,
    }
}

/// Whether two byte strings are the same, byte for byte.
pub fn same_contents(a: &[u8], b: &[u8]) -> (r: bool)
    ensures
        r == (a@ == b@),
{
    let n = a.len();
    if n != b.len() {
        return false;
    }
    let mut i: usize = 0;
    while i < n
        invariant
            n == a@.len(),
            n == b@.len(),
            i <= n,
            forall|k: int| 0 <= k < i ==> a@[k] == b@[k],
        decreases n - i,
    {
        if a[i] != b[i] {
            return false;
        }
        i = i + 1;
    }
    assert(a@ =~= b@);
    true
}

/// Whether copy-if-changed writes the source over a destination that holds
/// `dst` (`None`: there is no destination file). Sizes are compared first,
/// bytes only where the sizes agree.
pub fn must_write(src: &[u8], dst: Option<&[u8]>) -> (r: bool)
    ensures
        r == needs_write(
            src@,
            match dst {
                Some(d) => Some(d@),
                None => None,
            },
        ),
{
    match dst {
        None => true,
        Some(d) => {
            if src.len() != d.len() {
                return true;
            }
            !same_contents(src, d)
        },
    }
}

/// Whether copy-if-changed writes, given what reading the source and the
/// destination gave (`None`: the read failed or the file is missing).
pub fn stale_after_reads(src: Option<&[u8]>, dst: Option<&[u8]>) -> (r: bool)
    ensures
        r == stale(
            match src {
                Some(b) => Some(b@),
                None => None,
            },
            match dst {
                Some(d) => Some(d@),
                None => None,
            },
        ),
{
    match src {
        None => true,
        Some(b) => must_write(b, dst),
    }
}

/// The first step for one file.
pub fn first_step(strategy: Strategy, write_needed: bool) -> (r: SyncStep)
    ensures
        r == first_step_of(strategy, write_needed),
{
    match strategy {
        Strategy::LinkOrCopy => SyncStep::Perform(FileOp::CreateParent),
        Strategy::CopyIfChanged => {
            if write_needed {
                SyncStep::Perform(FileOp::CreateParent)
            } else {
                SyncStep::Finish(SyncOutcome::Skipped)
            }
        },
    }
}

/// The step after `op`, and whether its failure is logged.
pub fn next_step(strategy: Strategy, op: FileOp, succeeded: bool) -> (r: (SyncStep, bool))
    ensures
        r == next_step_of(strategy, op, succeeded),
{
    let step = match op {
        FileOp::CreateParent => {
            if !succeeded {
                SyncStep::Finish(SyncOutcome::Failed)
            } else {
                match strategy {
                    Strategy::LinkOrCopy => SyncStep::Perform(FileOp::Link),
                    Strategy::CopyIfChanged => SyncStep::Perform(FileOp::Copy),
                }
            }
        },
        FileOp::Link => {
            if succeeded {
                SyncStep::Finish(SyncOutcome::Linked)
            } else {
                SyncStep::Perform(FileOp::Copy)
            }
        },
        FileOp::Copy => {
            if succeeded {
                SyncStep::Finish(SyncOutcome::Copied)
            } else {
                SyncStep::Finish(SyncOutcome::Failed)
            }
        },
    };
    (step, !succeeded)
}

/// Copy-if-changed is idempotent: once it has run on a file, running it again
/// with the source unchanged writes nothing.
pub proof fn copy_if_changed_idempotent(src: Seq<u8>, dst: Option<Seq<u8>>)
    ensures
        !stale(Some(src), Some(after_copy_if_changed(src, dst))),
        first_step_of(
            Strategy::CopyIfChanged,
            stale(Some(src), Some(after_copy_if_changed(src, dst))),
        ) == SyncStep::Finish(SyncOutcome::Skipped),
{
}

/// Copy-if-changed notices a change that keeps the size: a source that differs
/// from the destination in one byte passes the size test, is written, and the
/// destination then holds the new source. A file whose source did not change
/// is left alone.
pub proof fn copy_if_changed_detects_same_size_change(
    old_src: Seq<u8>,
    i: int,
    b: u8,
    dst: Option<Seq<u8>>,
    other_src: Seq<u8>,
    other_dst: Option<Seq<u8>>,
)
    requires
        0 <= i < old_src.len(),
        old_src[i] != b,
    ensures
        ({
            let new_src = old_src.update(i, b);
            let current = after_copy_if_changed(old_src, dst);
            let other = after_copy_if_changed(other_src, other_dst);
            &&& current.len() == new_src.len()
            &&& stale(Some(new_src), Some(current))
            &&& first_step_of(Strategy::CopyIfChanged, stale(Some(new_src), Some(current)))
                == SyncStep::Perform(FileOp::CreateParent)
            &&& next_step_of(Strategy::CopyIfChanged, FileOp::CreateParent, true).0
                == SyncStep::Perform(FileOp::Copy)
            &&& after_copy_if_changed(new_src, Some(current)) == new_src
            &&& first_step_of(Strategy::CopyIfChanged, stale(Some(other_src), Some(other)))
                == SyncStep::Finish(SyncOutcome::Skipped)
        }),
{
    let new_src = old_src.update(i, b);
    let current = after_copy_if_changed(old_src, dst);
    assert(current[i] != new_src[i]);
}

/// Link-or-copy falls back to a copy where the link fails: the failure is
/// logged, the copy is performed, and a copy that succeeds leaves the file
/// copied; one that fails is logged too and ends only this file.
pub proof fn link_failure_falls_back_to_copy(write_needed: bool)
    ensures
        first_step_of(Strategy::LinkOrCopy, write_needed) == SyncStep::Perform(FileOp::CreateParent),
        next_step_of(Strategy::LinkOrCopy, FileOp::CreateParent, true).0 == SyncStep::Perform(
            FileOp::Link,
        ),
        next_step_of(Strategy::LinkOrCopy, FileOp::Link, false) == (
            SyncStep::Perform(FileOp::Copy),
            true,
        ),
        next_step_of(Strategy::LinkOrCopy, FileOp::Copy, true) == (
            SyncStep::Finish(SyncOutcome::Copied),
            false,
        ),
        next_step_of(Strategy::LinkOrCopy, FileOp::Copy, false) == (
            SyncStep::Finish(SyncOutcome::Failed),
            true,
        ),
{
}

} // verus!
