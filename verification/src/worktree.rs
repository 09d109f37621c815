//! Decisions made when materializing one index entry into the working
//! tree.  The filesystem work itself happens outside this crate; here the
//! entry's mode and the filesystem's capabilities are turned into one
//! explicit action, and captured file times are converted for the entry's
//! stat fields.

use vstd::prelude::*;

verus! {

/// The kind of an index entry to check out.
#[derive(Clone, Copy, PartialEq, Eq, Structural, Debug)]
pub enum EntryMode {
    File,
    FileExecutable,
    Symlink,
    Dir,
    Commit,
}

/// What the caller must do on disk for one entry.
#[derive(Clone, Copy, PartialEq, Eq, Structural, Debug)]
pub enum CheckoutAction {
    /// Write the blob to a regular file; `create_new` demands a fresh
    /// file, and `executable` asks for the executable bit.
    WriteFile { executable: bool, create_new: bool },
    /// Create a real symbolic link whose target is the blob content.
    CreateSymlink,
    /// The filesystem cannot hold symlinks: write the link target bytes
    /// as a regular file instead.
    WriteSymlinkAsFile,
}

/// Decides the action for one entry: regular files are written (fresh
/// when the destination started empty), the executable bit is applied
/// only where the filesystem honours it, and symlinks degrade to plain
/// files where they are not supported.  Directory and commit entries are
/// not materialized by this path: callers must exclude them.
pub fn plan_checkout(
    mode: EntryMode,
    symlink_supported: bool,
    executable_bit: bool,
    destination_is_initially_empty: bool,
) -> (a: CheckoutAction)
    requires
        mode is File || mode is FileExecutable || mode is Symlink,
    ensures
        mode is File ==> a == (CheckoutAction::WriteFile {
            executable: false,
            create_new: destination_is_initially_empty,
        }),
        mode is FileExecutable ==> a == (CheckoutAction::WriteFile {
            executable: executable_bit,
            create_new: destination_is_initially_empty,
        }),
        mode is Symlink && symlink_supported ==> a == CheckoutAction::CreateSymlink,
        mode is Symlink && !symlink_supported ==> a == CheckoutAction::WriteSymlinkAsFile,
{
    match mode {
        EntryMode::File => CheckoutAction::WriteFile {
            executable: false,
            create_new: destination_is_initially_empty,
        },
        EntryMode::FileExecutable => CheckoutAction::WriteFile {
            executable: executable_bit,
            create_new: destination_is_initially_empty,
        },
        EntryMode::Symlink => {
            if symlink_supported {
                CheckoutAction::CreateSymlink
            } else {
                CheckoutAction::WriteSymlinkAsFile
            }
        },
        EntryMode::Dir => {
            proof {
                assert(false);
            }
            CheckoutAction::WriteSymlinkAsFile
        },
        EntryMode::Commit => {
            proof {
                assert(false);
            }
            CheckoutAction::WriteSymlinkAsFile
        },
    }
}

/// Whole seconds of a captured file time, narrowed for an index entry's
/// stat field; seconds that no longer fit are reported rather than
/// silently wrapped.
pub fn stat_seconds(secs: u64) -> (r: Option<u32>)
    ensures
        secs <= u32::MAX ==> r == Some(secs as u32),
        secs > u32::MAX ==> r is None,
{
    if secs <= 0xffff_ffffu64 {
        Some(secs as u32)
    } else {
        None
    }
}

} // verus!
