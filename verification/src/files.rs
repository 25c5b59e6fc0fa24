//! What the host refuses to do to files: it follows no symbolic link where it
//! publishes, and it never writes over what is there.
use vstd::prelude::*;
use vstd::string::*;

use crate::fault::{because, fault, fault_of, outcome_is, Fault, FaultKind, FaultView};

verus! {

/// Why a path is refused, if it is.
pub open spec fn link_refusal(is_link: bool, path: Seq<char>, what: &str) -> Option<FaultView> {
    if is_link {
        Some(
            FaultView {
                kind: FaultKind::InvalidInput,
                message: what@ + " must not be a symbolic link: "@ + path,
            },
        )
    } else {
        None
    }
}

/// Refuses a path that is a symbolic link.
pub fn reject_symlink(is_link: bool, path: &str, what: &str) -> (result: Result<(), Fault>)
    ensures
        outcome_is(result, link_refusal(is_link, path@, what)),
{
    if is_link {
        let mut message = what.to_owned();
        message.append(" must not be a symbolic link: ");
        message.append(path);
        return Err(fault_of(FaultKind::InvalidInput, message));
    }
    Ok(())
}

/// Why a data directory is not initialized, if it is not.
pub open spec fn initialize_refusal(
    node: u64,
    data_dir: Seq<char>,
    is_link: bool,
    holds_files: bool,
) -> Option<FaultView> {
    if node == 0 {
        Some(because(FaultKind::InvalidInput, "node id must be nonzero"))
    } else if is_link {
        link_refusal(true, data_dir, "data directory")
    } else if holds_files {
        Some(
            FaultView {
                kind: FaultKind::AlreadyExists,
                message: "refusing to initialize nonempty data directory "@ + data_dir,
            },
        )
    } else {
        None
    }
}

/// Decides whether a data directory may be initialized.
pub fn initialize_data_dir(node: u64, data_dir: &str, is_link: bool, holds_files: bool) -> (result:
    Result<(), Fault>)
    ensures
        outcome_is(result, initialize_refusal(node, data_dir@, is_link, holds_files)),
{
    if node == 0 {
        return Err(fault(FaultKind::InvalidInput, "node id must be nonzero"));
    }
    if is_link {
        return reject_symlink(true, data_dir, "data directory");
    }
    if holds_files {
        let mut message = "refusing to initialize nonempty data directory ".to_owned();
        message.append(data_dir);
        return Err(fault_of(FaultKind::AlreadyExists, message));
    }
    Ok(())
}

/// Why a node does not join from a data directory, if it does not.
pub open spec fn join_dir_refusal(data_dir: Seq<char>, is_link: bool, holds_files: bool) -> Option<
    FaultView,
> {
    if is_link {
        link_refusal(true, data_dir, "join data directory")
    } else if holds_files {
        Some(because(FaultKind::AlreadyExists, "join requires an empty data directory"))
    } else {
        None
    }
}

/// Decides whether a node may join from a data directory without an identity.
pub fn check_join_dir(data_dir: &str, is_link: bool, holds_files: bool) -> (result: Result<
    (),
    Fault,
>)
    ensures
        outcome_is(result, join_dir_refusal(data_dir@, is_link, holds_files)),
{
    if is_link {
        return reject_symlink(true, data_dir, "join data directory");
    }
    if holds_files {
        return Err(fault(FaultKind::AlreadyExists, "join requires an empty data directory"));
    }
    Ok(())
}

/// Why a data directory is not checked, if it is not.
pub open spec fn checked_dir_refusal(is_dir: bool, is_configured: bool) -> Option<FaultView> {
    if !is_dir {
        Some(because(FaultKind::NotFound, "data directory does not exist"))
    } else if !is_configured {
        Some(
            because(
                FaultKind::InvalidData,
                "config data_dir does not match checked directory",
            ),
        )
    } else {
        None
    }
}

/// Decides whether a data directory can be checked. `is_configured` says that a
/// configuration in it, if there is one, is about this directory.
pub fn check_checked_dir(is_dir: bool, is_configured: bool) -> (result: Result<(), Fault>)
    ensures
        outcome_is(result, checked_dir_refusal(is_dir, is_configured)),
{
    if !is_dir {
        return Err(fault(FaultKind::NotFound, "data directory does not exist"));
    }
    if !is_configured {
        return Err(
            fault(
                FaultKind::InvalidData,
                "config data_dir does not match checked directory",
            ),
        );
    }
    Ok(())
}

/// What is known of the place where a file is published.
#[derive(Clone, Copy, Debug, PartialEq, Eq, Structural)]
pub struct Place {
    pub parent_is_link: bool,
    pub is_link: bool,
    /// Whether something is in the way: the file itself, or the temporary file
    /// that would become it.
    pub taken: bool,
}

/// Why a new backup is not written, if it is not.
pub open spec fn backup_write_refusal(parent: Seq<char>, place: Place) -> Option<FaultView> {
    if place.parent_is_link {
        link_refusal(true, parent, "backup parent")
    } else if place.taken {
        Some(because(FaultKind::AlreadyExists, "backup output already exists"))
    } else {
        None
    }
}

/// Decides whether a new backup may be written.
pub fn write_new_backup(parent: &str, place: Place) -> (result: Result<(), Fault>)
    ensures
        outcome_is(result, backup_write_refusal(parent@, place)),
{
    if place.parent_is_link {
        return reject_symlink(true, parent, "backup parent");
    }
    if place.taken {
        return Err(fault(FaultKind::AlreadyExists, "backup output already exists"));
    }
    Ok(())
}

/// Why the identity of a node is not replaced, if it is not.
pub open spec fn identity_write_refusal(parent: Option<Seq<char>>, path: Seq<char>, place: Place) -> Option<
    FaultView,
> {
    match parent {
        None => Some(because(FaultKind::InvalidInput, "CCID identity path has no parent")),
        Some(parent) => if place.parent_is_link {
            link_refusal(true, parent, "CCID parent directory")
        } else if place.is_link {
            link_refusal(true, path, "CCID identity")
        } else if place.taken {
            Some(
                because(
                    FaultKind::AlreadyExists,
                    "CCID replacement temporary file already exists",
                ),
            )
        } else {
            None
        },
    }
}

/// Decides whether the identity of a node may be replaced.
pub fn replace_identity(parent: Option<&str>, path: &str, place: Place) -> (result: Result<
    (),
    Fault,
>)
    ensures
        outcome_is(
            result,
            identity_write_refusal(
                match parent {
                    Some(parent) => Some(parent@),
                    None => None,
                },
                path@,
                place,
            ),
        ),
{
    match parent {
        None => Err(fault(FaultKind::InvalidInput, "CCID identity path has no parent")),
        Some(parent) => {
            if place.parent_is_link {
                return reject_symlink(true, parent, "CCID parent directory");
            }
            if place.is_link {
                return reject_symlink(true, path, "CCID identity");
            }
            if place.taken {
                return Err(
                    fault(
                        FaultKind::AlreadyExists,
                        "CCID replacement temporary file already exists",
                    ),
                );
            }
            Ok(())
        },
    }
}

} // verus!
