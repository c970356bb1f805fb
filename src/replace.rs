//! Putting new contents in place of the vault file without a window in which
//! the file is truncated: the contents go to a temporary file beside it,
//! which is synced and then renamed over the vault in one atomic step. The
//! caller performs each step and reports whether it succeeded.
use vstd::prelude::*;

verus! {

/// A step of replacing the vault file.
#[derive(Clone, Copy, Debug, PartialEq, Eq, Structural)]
pub enum FileStep {
    /// Write the new contents to the temporary file, replacing what it held.
    WriteTemp,
    /// Flush the temporary file to stable storage.
    SyncTemp,
    /// Rename the temporary file over the vault.
    RenameOverVault,
    /// Remove the temporary file after a failed step.
    RemoveTemp,
    /// Done: the vault holds the new contents.
    Committed,
    /// Done: the vault still holds its old contents.
    Aborted,
}

/// The step after `s`, given whether `s` succeeded.
pub open spec fn next_step(s: FileStep, succeeded: bool) -> FileStep {
    match s {
        FileStep::WriteTemp => {
            if succeeded {
                FileStep::SyncTemp
            } else {
                FileStep::RemoveTemp
            }
        },
        FileStep::SyncTemp => {
            if succeeded {
                FileStep::RenameOverVault
            } else {
                FileStep::RemoveTemp
            }
        },
        FileStep::RenameOverVault => {
            if succeeded {
                FileStep::Committed
            } else {
                FileStep::RemoveTemp
            }
        },
        FileStep::RemoveTemp => FileStep::Aborted,
        FileStep::Committed => FileStep::Committed,
        FileStep::Aborted => FileStep::Aborted,
    }
}

/// One replacement of the vault file in progress.
pub struct Replacement {
    step: FileStep,
}

impl Replacement {
    pub closed spec fn current(&self) -> FileStep {
        self.step
    }

    /// A replacement that has not started: its first step writes the temporary file.
    pub fn new() -> (r: Replacement)
        ensures
            r.current() == FileStep::WriteTemp,
    {
        Replacement { step: FileStep::WriteTemp }
    }

    /// The step to perform now.
    pub fn step(&self) -> (r: FileStep)
        ensures
            r == self.current(),
    {
        self.step
    }

    /// Records how the current step went and returns the next one.
    pub fn advance(&mut self, succeeded: bool) -> (r: FileStep)
        ensures
            final(self).current() == next_step(old(self).current(), succeeded),
            r == final(self).current(),
    {
        let next = match self.step {
            FileStep::WriteTemp => if succeeded {
                FileStep::SyncTemp
            } else {
                FileStep::RemoveTemp
            },
            FileStep::SyncTemp => if succeeded {
                FileStep::RenameOverVault
            } else {
                FileStep::RemoveTemp
            },
            FileStep::RenameOverVault => if succeeded {
                FileStep::Committed
            } else {
                FileStep::RemoveTemp
            },
            FileStep::RemoveTemp => FileStep::Aborted,
            FileStep::Committed => FileStep::Committed,
            FileStep::Aborted => FileStep::Aborted,
        };
        self.step = next;
        next
    }
}

/// The two files as a reader sees them: the vault, and the temporary file
/// if there is one.
pub struct Disk {
    pub vault: Seq<u8>,
    pub temp: Option<Seq<u8>>,
}

/// The files after step `s`, writing `new`. A write that fails may leave any
/// `junk` in the temporary file; a rename is atomic, so one that fails leaves
/// both files as they were.
pub open spec fn apply(d: Disk, s: FileStep, succeeded: bool, new: Seq<u8>, junk: Seq<u8>) -> Disk {
    match s {
        FileStep::WriteTemp => Disk {
            vault: d.vault,
            temp: Some(
                if succeeded {
                    new
                } else {
                    junk
                },
            ),
        },
        FileStep::RenameOverVault => {
            if succeeded && d.temp is Some {
                Disk { vault: d.temp->Some_0, temp: None }
            } else {
                d
            }
        },
        FileStep::RemoveTemp => {
            if succeeded {
                Disk { vault: d.vault, temp: None }
            } else {
                d
            }
        },
        _ => d,
    }
}

/// The files and the pending step after performing steps from `s` with the
/// outcomes `outcomes`, in order. A run cut short is a crash.
pub open spec fn run(d: Disk, s: FileStep, outcomes: Seq<bool>, new: Seq<u8>, junk: Seq<u8>) -> (
    Disk,
    FileStep,
)
    decreases outcomes.len(),
{
    if outcomes.len() == 0 {
        (d, s)
    } else {
        run(
            apply(d, s, outcomes[0], new, junk),
            next_step(s, outcomes[0]),
            outcomes.drop_first(),
            new,
            junk,
        )
    }
}

/// What holds of the files at each pending step of a replacement of `old`
/// by `new`.
pub open spec fn step_inv(d: Disk, s: FileStep, old: Seq<u8>, new: Seq<u8>) -> bool {
    match s {
        FileStep::SyncTemp | FileStep::RenameOverVault => d.vault == old && d.temp == Some(new),
        FileStep::Committed => d.vault == new,
        _ => d.vault == old,
    }
}

proof fn lemma_run_inv(
    d: Disk,
    s: FileStep,
    outcomes: Seq<bool>,
    old: Seq<u8>,
    new: Seq<u8>,
    junk: Seq<u8>,
)
    requires
        step_inv(d, s, old, new),
    ensures
        step_inv(run(d, s, outcomes, new, junk).0, run(d, s, outcomes, new, junk).1, old, new),
    decreases outcomes.len(),
{
    if outcomes.len() > 0 {
        lemma_run_inv(
            apply(d, s, outcomes[0], new, junk),
            next_step(s, outcomes[0]),
            outcomes.drop_first(),
            old,
            new,
            junk,
        );
    }
}

/// A replacement is all or nothing. Whichever steps fail, and wherever the
/// run stops, a crash included, the vault holds exactly the new contents once
/// the replacement has committed, and its old contents before that or after
/// an abort; a leftover temporary file from an earlier run changes nothing.
pub proof fn lemma_replace_all_or_nothing(
    vault: Seq<u8>,
    leftover: Option<Seq<u8>>,
    outcomes: Seq<bool>,
    new: Seq<u8>,
    junk: Seq<u8>,
)
    ensures
        ({
            let (d, s) = run(
                Disk { vault: vault, temp: leftover },
                FileStep::WriteTemp,
                outcomes,
                new,
                junk,
            );
            &&& s == FileStep::Committed ==> d.vault == new
            &&& s != FileStep::Committed ==> d.vault == vault
        }),
{
    lemma_run_inv(Disk { vault: vault, temp: leftover }, FileStep::WriteTemp, outcomes, vault, new, junk);
}

} // verus!
