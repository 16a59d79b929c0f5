//! Putting a result where it belongs: which steps a write takes, and what survives when one of
//! them fails.
//!
//! The steps themselves are the caller's. [`Landing`] says which one is next, and is told whether
//! it succeeded.

use vstd::prelude::*;
use vstd::string::StringExecFns;

use crate::bytes::{decimal_chars, decimal_text};

verus! {

/// What a destination turns out to be, which decides whether the result can be swapped in or has to
/// be written where it stands.
#[derive(Clone, Copy, Debug, PartialEq, Eq, Structural)]
pub enum Target {
    /// A stream or device. There is nothing to preserve and no name a rename could put the result
    /// at.
    Direct,
    /// A regular file at a name a rename can replace, and how many names its inode has.
    Replaceable { mode: u32, links: u64 },
    /// Nothing is there yet, so the result is created at this name.
    Fresh,
}

/// Which file a name or an open file denotes.
#[derive(Clone, Copy, Debug, PartialEq, Eq, Structural)]
pub struct Identity {
    pub device: u64,
    pub inode: u64,
}

/// What opening a destination for writing found.
#[derive(Clone, Copy, Debug, PartialEq, Eq, Structural)]
pub struct Opened {
    pub is_file: bool,
    pub mode: u32,
    pub links: u64,
    pub identity: Identity,
    /// What the destination's resolved name denotes, where it resolves and denotes anything.
    pub named: Option<Identity>,
}

/// What `path` denotes once it could be opened. A rename may only replace a name that denotes the
/// very file that was opened, and anything failing that test is written where it stands.
pub fn resolve_target(opened: &Opened) -> (target: Target)
    ensures
        target == if opened.is_file && opened.named == Some(opened.identity) {
            Target::Replaceable { mode: opened.mode, links: opened.links }
        } else {
            Target::Direct
        },
{
    let denoted = match opened.named {
        Some(named) => denotes(named, opened.identity),
        None => false,
    };
    if opened.is_file && denoted {
        Target::Replaceable { mode: opened.mode, links: opened.links }
    } else {
        Target::Direct
    }
}

/// Whether a name denotes the same file as the one already opened.
pub fn denotes(named: Identity, opened: Identity) -> (same: bool)
    ensures
        same == (named == opened),
{
    named.device == opened.device && named.inode == opened.inode
}

/// Whether replacing this file by rename would detach it from other names for the same inode.
pub open spec fn hardlinked(target: Target) -> bool {
    target matches Target::Replaceable { mode, links } && links > 1
}

/// Whether replacing this file by rename would detach it from other names for the same inode.
pub fn is_hardlinked(target: Target) -> (yes: bool)
    ensures
        yes == hardlinked(target),
{
    match target {
        Target::Replaceable { links, .. } => links > 1,
        _ => false,
    }
}

/// The mode a temporary is created with: private, since while it is incomplete it can hold what the
/// finished file never does.
pub const PRIVATE_MODE: u32 = 0o600;

/// The mode an ordinary create asks for, which the umask narrows.
pub const CREATED_MODE: u32 = 0o666;

/// What a umask commonly clears, which stands in for one that could not be asked.
pub const COMMON_UMASK: u32 = 0o022;

/// The permission bits a umask clears, from the mode that an ordinary create gave.
pub fn cleared_by_umask(created: Option<u32>) -> (cleared: u32)
    ensures
        cleared == match created {
            Some(mode) => CREATED_MODE & !(mode & 0o777),
            None => COMMON_UMASK,
        },
{
    match created {
        Some(mode) => CREATED_MODE & !(mode & 0o777),
        None => COMMON_UMASK,
    }
}

/// The mode a finished temporary lands on: the one its target already had, or the one an ordinary
/// create would have produced.
pub fn landing_mode(existing: Option<u32>, cleared: u32) -> (mode: u32)
    ensures
        mode == match existing {
            Some(mode) => mode,
            None => CREATED_MODE & !cleared,
        },
{
    match existing {
        Some(mode) => mode,
        None => CREATED_MODE & !cleared,
    }
}

/// A fresh file lands where an ordinary create would have put it: asking what such a create gives
/// and clearing what the umask cleared comes back to the same mode.
pub proof fn a_fresh_file_lands_on_the_created_mode(created: u32)
    requires
        created & !CREATED_MODE == 0,
    ensures
        CREATED_MODE & !(CREATED_MODE & !(created & 0o777)) == created,
{
    assert(created & !0o666u32 == 0 ==> 0o666u32 & !(0o666u32 & !(created & 0o777)) == created)
        by (bit_vector);
}

/// One step of a write.
#[derive(Clone, Copy, Debug, PartialEq, Eq, Structural)]
pub enum Action {
    /// Write the content into the open destination, and flush it.
    WriteThrough,
    /// Create a temporary file beside the destination, at [`PRIVATE_MODE`].
    CreateTemporary,
    /// Write the content into the temporary, and flush it.
    WriteTemporary,
    /// Give the temporary the mode it lands on: this one, or an ordinary create's.
    Permit { mode: Option<u32> },
    /// See the temporary onto the disk.
    SyncTemporary,
    /// Rename the temporary over the destination.
    Rename,
    /// Empty the destination, copy the temporary into it, and see it onto the disk.
    CopyBack,
    /// Remove the temporary.
    RemoveTemporary,
    /// Nothing more.
    Finish(Ending),
}

/// How a write ended.
#[derive(Clone, Copy, Debug, PartialEq, Eq, Structural)]
pub enum Ending {
    /// The result is where it belongs.
    Landed,
    /// A step failed, and the result is nowhere.
    Failed,
    /// Copying back failed. The temporary holds the only whole copy, so it is kept and named.
    Kept,
}

/// Which step of a write is next, given which target it has and how far it came.
pub open spec fn next_action(target: Target, stage: Stage) -> Action {
    match stage {
        Stage::Opening => if target is Direct {
            Action::WriteThrough
        } else {
            Action::CreateTemporary
        },
        Stage::Created => Action::WriteTemporary,
        Stage::Written => Action::Permit {
            mode: match target {
                Target::Replaceable { mode, links } => Some(mode),
                _ => None,
            },
        },
        Stage::Permitted => Action::SyncTemporary,
        Stage::Durable => if hardlinked(target) {
            Action::CopyBack
        } else {
            Action::Rename
        },
        Stage::Copied => Action::RemoveTemporary,
        Stage::Abandoned => Action::RemoveTemporary,
        Stage::Over(ending) => Action::Finish(ending),
    }
}

/// How far a write came.
#[derive(Clone, Copy, Debug, PartialEq, Eq, Structural)]
pub enum Stage {
    /// Nothing was done.
    Opening,
    /// The temporary was created.
    Created,
    /// It holds the whole content.
    Written,
    /// It has the mode it lands on.
    Permitted,
    /// It is on the disk.
    Durable,
    /// The destination holds a copy of it.
    Copied,
    /// A step before the swap failed.
    Abandoned,
    Over(Ending),
}

/// Where a write stands after its next step succeeded or failed.
pub open spec fn next_stage(target: Target, stage: Stage, succeeded: bool) -> Stage {
    match next_action(target, stage) {
        Action::WriteThrough => Stage::Over(
            if succeeded {
                Ending::Landed
            } else {
                Ending::Failed
            },
        ),
        Action::CreateTemporary => if succeeded {
            Stage::Created
        } else {
            Stage::Over(Ending::Failed)
        },
        Action::WriteTemporary => if succeeded {
            Stage::Written
        } else {
            Stage::Abandoned
        },
        Action::Permit { mode } => if succeeded {
            Stage::Permitted
        } else {
            Stage::Abandoned
        },
        Action::SyncTemporary => if succeeded {
            Stage::Durable
        } else {
            Stage::Abandoned
        },
        Action::Rename => if succeeded {
            Stage::Over(Ending::Landed)
        } else {
            Stage::Abandoned
        },
        Action::CopyBack => if succeeded {
            Stage::Copied
        } else {
            Stage::Over(Ending::Kept)
        },
        // Whether a temporary goes away changes nothing about what was written.
        Action::RemoveTemporary => Stage::Over(
            if stage is Copied {
                Ending::Landed
            } else {
                Ending::Failed
            },
        ),
        Action::Finish(ending) => Stage::Over(ending),
    }
}

/// One write on its way to its destination.
#[derive(Clone, Copy, Debug)]
pub struct Landing {
    target: Target,
    stage: Stage,
}

impl Landing {
    pub closed spec fn target(&self) -> Target {
        self.target
    }

    pub closed spec fn stage(&self) -> Stage {
        self.stage
    }

    /// A write to this target.
    pub fn new(target: Target) -> (landing: Self)
        ensures
            landing.target() == target,
            landing.stage() == Stage::Opening,
    {
        Landing { target, stage: Stage::Opening }
    }

    /// The step to take now.
    pub fn next(&self) -> (action: Action)
        ensures
            action == next_action(self.target(), self.stage()),
    {
        match self.stage {
            Stage::Opening => match self.target {
                Target::Direct => Action::WriteThrough,
                _ => Action::CreateTemporary,
            },
            Stage::Created => Action::WriteTemporary,
            Stage::Written => Action::Permit {
                mode: match self.target {
                    Target::Replaceable { mode, .. } => Some(mode),
                    _ => None,
                },
            },
            Stage::Permitted => Action::SyncTemporary,
            // Only a file that already exists can carry other names for its inode, so a fresh one
            // always takes the atomic path.
            Stage::Durable => if is_hardlinked(self.target) {
                Action::CopyBack
            } else {
                Action::Rename
            },
            Stage::Copied => Action::RemoveTemporary,
            Stage::Abandoned => Action::RemoveTemporary,
            Stage::Over(ending) => Action::Finish(ending),
        }
    }

    /// Report whether the step that was next succeeded.
    pub fn report(&mut self, succeeded: bool)
        ensures
            final(self).target() == old(self).target(),
            final(self).stage() == next_stage(old(self).target(), old(self).stage(), succeeded),
    {
        let onward = match self.next() {
            Action::WriteThrough => Stage::Over(
                if succeeded {
                    Ending::Landed
                } else {
                    Ending::Failed
                },
            ),
            Action::CreateTemporary => if succeeded {
                Stage::Created
            } else {
                Stage::Over(Ending::Failed)
            },
            Action::WriteTemporary => if succeeded {
                Stage::Written
            } else {
                Stage::Abandoned
            },
            Action::Permit { .. } => if succeeded {
                Stage::Permitted
            } else {
                Stage::Abandoned
            },
            Action::SyncTemporary => if succeeded {
                Stage::Durable
            } else {
                Stage::Abandoned
            },
            Action::Rename => if succeeded {
                Stage::Over(Ending::Landed)
            } else {
                Stage::Abandoned
            },
            Action::CopyBack => if succeeded {
                Stage::Copied
            } else {
                Stage::Over(Ending::Kept)
            },
            Action::RemoveTemporary => Stage::Over(
                match self.stage {
                    Stage::Copied => Ending::Landed,
                    _ => Ending::Failed,
                },
            ),
            Action::Finish(ending) => Stage::Over(ending),
        };
        self.stage = onward;
    }
}

/// What the destination holds.
pub ghost enum Held {
    /// What it held before the write, which may be nothing.
    Before,
    /// The whole result.
    Result,
    /// Neither.
    Torn,
}

/// What the temporary holds.
pub ghost enum Scratch {
    /// There is none.
    Missing,
    /// Some part of the result.
    Partial,
    /// The whole result, though it may not be on the disk.
    Whole,
    /// The whole result, on the disk.
    OnDisk,
}

/// What is on the file system.
pub ghost struct Files {
    pub destination: Held,
    pub temporary: Scratch,
}

/// What a step leaves behind.
pub open spec fn performed(files: Files, action: Action, succeeded: bool) -> Files {
    match action {
        Action::WriteThrough => Files {
            destination: if succeeded {
                Held::Result
            } else {
                Held::Torn
            },
            ..files
        },
        Action::CreateTemporary => if succeeded {
            Files { temporary: Scratch::Partial, ..files }
        } else {
            files
        },
        Action::WriteTemporary => if succeeded {
            Files { temporary: Scratch::Whole, ..files }
        } else {
            files
        },
        Action::Permit { mode } => files,
        Action::SyncTemporary => if succeeded {
            Files { temporary: Scratch::OnDisk, ..files }
        } else {
            files
        },
        // The destination becomes what the temporary was.
        Action::Rename => if succeeded {
            Files {
                destination: if files.temporary is Whole || files.temporary is OnDisk {
                    Held::Result
                } else {
                    Held::Torn
                },
                temporary: Scratch::Missing,
            }
        } else {
            files
        },
        Action::CopyBack => Files {
            destination: if succeeded && (files.temporary is Whole || files.temporary is OnDisk) {
                Held::Result
            } else {
                Held::Torn
            },
            ..files
        },
        Action::RemoveTemporary => if succeeded {
            Files { temporary: Scratch::Missing, ..files }
        } else {
            files
        },
        Action::Finish(ending) => files,
    }
}

/// How far a write comes, and what it leaves behind, when its steps turn out like this.
pub open spec fn carried_out(target: Target, outcomes: Seq<bool>) -> (Stage, Files)
    decreases outcomes.len(),
{
    if outcomes.len() == 0 {
        (Stage::Opening, Files { destination: Held::Before, temporary: Scratch::Missing })
    } else {
        let (stage, files) = carried_out(target, outcomes.drop_last());
        (
            next_stage(target, stage, outcomes.last()),
            performed(files, next_action(target, stage), outcomes.last()),
        )
    }
}

/// What is on the file system at each stage of a write.
spec fn consistent(target: Target, stage: Stage, files: Files) -> bool {
    match stage {
        Stage::Opening => files.destination is Before && files.temporary is Missing,
        Stage::Created => !(target is Direct) && files.destination is Before && files.temporary
            is Partial,
        Stage::Written | Stage::Permitted => !(target is Direct) && files.destination is Before
            && files.temporary is Whole,
        Stage::Durable => !(target is Direct) && files.destination is Before && files.temporary
            is OnDisk,
        Stage::Copied => hardlinked(target) && files.destination is Result && files.temporary
            is OnDisk,
        Stage::Abandoned => !(target is Direct) && files.destination is Before,
        Stage::Over(Ending::Landed) => files.destination is Result,
        Stage::Over(Ending::Failed) => target is Direct || files.destination is Before,
        Stage::Over(Ending::Kept) => hardlinked(target) && files.temporary is OnDisk,
    }
}

proof fn lemma_consistent(target: Target, outcomes: Seq<bool>)
    ensures
        consistent(target, carried_out(target, outcomes).0, carried_out(target, outcomes).1),
    decreases outcomes.len(),
{
    if outcomes.len() > 0 {
        lemma_consistent(target, outcomes.drop_last());
    }
}

/// However a write's steps turn out, and wherever it is stopped between two of them: a destination
/// that is a file holds what it held before or the whole result, unless it has other names, and
/// then the whole result is on the disk beside it.
pub proof fn an_interrupted_write_loses_nothing(target: Target, outcomes: Seq<bool>)
    requires
        !(target is Direct),
    ensures
        ({
            let files = carried_out(target, outcomes).1;
            ||| files.destination is Before
            ||| files.destination is Result
            ||| hardlinked(target) && files.temporary is OnDisk
        }),
{
    lemma_consistent(target, outcomes);
}

/// No step touches a destination that is a file before the whole result is on the disk, so even a
/// step that is cut short leaves either the old content or a way back to the new.
pub proof fn the_result_is_on_the_disk_before_the_swap(target: Target, outcomes: Seq<bool>)
    ensures
        ({
            let (stage, files) = carried_out(target, outcomes);
            let action = next_action(target, stage);
            &&& !(target is Direct) ==> action != Action::WriteThrough
            &&& action == Action::Rename || action == Action::CopyBack ==> files.temporary
                is OnDisk && files.destination is Before
            &&& action == Action::CopyBack ==> hardlinked(target)
        }),
{
    lemma_consistent(target, outcomes);
}

/// How a write ends says what it left: a result where it belongs, a destination as it was, or a
/// temporary with the only whole copy.
pub proof fn an_ending_says_what_is_left(target: Target, outcomes: Seq<bool>)
    requires
        !(target is Direct),
    ensures
        ({
            let (stage, files) = carried_out(target, outcomes);
            &&& stage == Stage::Over(Ending::Landed) ==> files.destination is Result
            &&& stage == Stage::Over(Ending::Failed) ==> files.destination is Before
            &&& stage == Stage::Over(Ending::Kept) ==> files.temporary is OnDisk
        }),
{
    lemma_consistent(target, outcomes);
}

/// Whether every step that was taken succeeded.
pub open spec fn all_succeed(outcomes: Seq<bool>) -> bool {
    forall|i: int| 0 <= i < outcomes.len() ==> #[trigger] outcomes[i]
}

/// A write whose steps all succeed lands, within six of them, and leaves no temporary behind.
pub proof fn a_write_without_failures_lands(target: Target, outcomes: Seq<bool>)
    requires
        all_succeed(outcomes),
        outcomes.len() >= 6,
    ensures
        carried_out(target, outcomes).0 == Stage::Over(Ending::Landed),
        carried_out(target, outcomes).1.destination is Result,
        carried_out(target, outcomes).1.temporary is Missing,
    decreases outcomes.len(),
{
    if outcomes.len() > 6 {
        assert forall|i: int| 0 <= i < outcomes.drop_last().len() implies #[trigger]
            outcomes.drop_last()[i] by {
            assert(outcomes[i]);
        }
        a_write_without_failures_lands(target, outcomes.drop_last());
        assert(outcomes.last() == outcomes[outcomes.len() - 1]);
    } else {
        let five = outcomes.drop_last();
        let four = five.drop_last();
        let three = four.drop_last();
        let two = three.drop_last();
        let one = two.drop_last();
        let none = one.drop_last();
        assert(outcomes[5] && outcomes[4] && outcomes[3] && outcomes[2] && outcomes[1]
            && outcomes[0]);
        reveal_with_fuel(carried_out, 7);
        assert(outcomes.last() && five.last() && four.last() && three.last() && two.last()
            && one.last());
    }
}

/// A sixteenth digit, in lower case.
pub open spec fn hex_char(value: int) -> char {
    if value < 10 {
        (0x30 + value) as char
    } else {
        (0x57 + value) as char
    }
}

/// The low `count` hexadecimal digits of `value`, most significant first.
pub open spec fn hex_chars(value: int, count: nat) -> Seq<char>
    decreases count,
{
    if count == 0 {
        Seq::empty()
    } else {
        hex_chars(value / 16, (count - 1) as nat).push(hex_char(value % 16))
    }
}

fn push_hex(text: &mut String, value: u32, count: u8)
    ensures
        final(text)@ == old(text)@ + hex_chars(value as int, count as nat),
    decreases count,
{
    if count > 0 {
        push_hex(text, value / 16, count - 1);
        let digit: u8 = (value % 16) as u8;
        let character: char = if digit < 10 {
            (0x30 + digit) as char
        } else {
            (0x57 + digit) as char
        };
        text.push(character);
        assert(text@ =~= old(text)@ + hex_chars(value as int, count as nat));
    } else {
        assert(text@ =~= old(text)@ + Seq::<char>::empty());
    }
}

/// The name of the `attempt`-th candidate for a temporary file. The process and the nonce keep
/// concurrent runs in one directory apart.
pub open spec fn temporary_name_of(process: u32, nonce: u32, attempt: u16) -> Seq<char> {
    ".sz."@ + decimal_chars(process as nat) + "."@ + hex_chars(nonce as int, 8) + "."@ + hex_chars(
        attempt as int,
        4,
    ) + ".tmp"@
}

/// The name of the `attempt`-th candidate for a temporary file.
pub fn temporary_name(process: u32, nonce: u32, attempt: u16) -> (name: String)
    ensures
        name@ == temporary_name_of(process, nonce, attempt),
{
    let mut name = String::from_str(".sz.");
    name.append(decimal_text(process as u64).as_str());
    name.append(".");
    push_hex(&mut name, nonce, 8);
    name.append(".");
    push_hex(&mut name, attempt as u32, 4);
    name.append(".tmp");
    name
}

/// What warns that a file has other names, and so is rewritten rather than replaced.
pub fn hardlink_warning(tool: &str, path: &str) -> (warning: String)
    ensures
        warning@ == tool@ + ": warning: "@ + path@
            + " has other hardlinks, so it is rewritten in place rather than replaced; an interrupted run can leave it truncated"@,
{
    let mut warning = String::from_str(tool);
    warning.append(": warning: ");
    warning.append(path);
    warning.append(
        " has other hardlinks, so it is rewritten in place rather than replaced; an interrupted run can leave it truncated",
    );
    warning
}

/// What a failed copy says: its cause, and where the only whole copy is.
pub fn kept_message(cause: &str, temporary: &str) -> (message: String)
    ensures
        message@ == cause@ + "; the rewritten content is in "@ + temporary@,
{
    let mut message = String::from_str(cause);
    message.append("; the rewritten content is in ");
    message.append(temporary);
    message
}

/// A file that other names share is written in place, so that they keep it, and one with a name of
/// its own is swapped; either keeps its mode. What is no file is written through.
pub proof fn other_names_keep_their_file(target: Target, stage: Stage)
    ensures
        next_action(target, stage) is Rename ==> (target matches Target::Replaceable {
            mode,
            links,
        } ==> links <= 1),
        next_action(target, stage) is CopyBack ==> (target matches Target::Replaceable {
            mode,
            links,
        } && links > 1),
        next_action(target, stage) is WriteThrough ==> target is Direct,
        next_action(target, stage) is CreateTemporary ==> !(target is Direct),
        next_action(target, stage) matches Action::Permit { mode: permitted } ==> permitted
            == match target {
            Target::Replaceable { mode, links } => Some(mode),
            _ => None,
        },
        stage is Written ==> next_action(target, stage) is Permit,
        stage is Durable ==> next_action(target, stage) is CopyBack || next_action(
            target,
            stage,
        ) is Rename,
{
}

} // verus!
