//! The check of a data directory, step by step.
use vstd::prelude::*;

use crate::fault::{because, Fault, FaultKind, FaultView};
use crate::membership::MembershipView;
use crate::recovery::{
    check_deep, check_log, check_marked, check_marked_size, check_report, check_staging, configured_view,
    deep_refusal, log_records, log_refusal, marked_refusal, record_count, selfcheck, Configured,
    PublishedCheckpoint, RecoveredLog, SnapshotMark,
};

verus! {

/// What is known so far of the checkpoint that a checked log is marked with.
#[derive(Debug, PartialEq, Eq)]
pub enum FoundMark {
    Unseen,
    Measured { bytes: u64 },
    Read { bytes: u64, checkpoint: PublishedCheckpoint },
    Listed { bytes: u64, checkpoint: PublishedCheckpoint, manifest: Option<SnapshotMark> },
}

/// What is known of the directory in which transfers are staged.
#[derive(Clone, Copy, Debug, PartialEq, Eq, Structural)]
pub struct Staging {
    pub exists: bool,
    pub holds_files: bool,
}

/// What comes next in a check.
#[derive(Debug, PartialEq, Eq)]
pub enum CheckStep {
    /// Measures the checkpoint of a generation.
    Measure { generation: u64 },
    /// Reads that checkpoint.
    Read { generation: u64 },
    /// Reads its manifest.
    ReadManifest { generation: u64 },
    /// Reports that no fault was found.
    Report(String),
    Fail(Fault),
}

pub enum CheckStepView {
    Measure { generation: u64 },
    Read { generation: u64 },
    ReadManifest { generation: u64 },
    Report(Seq<char>),
    Fail(FaultView),
}

impl View for CheckStep {
    type V = CheckStepView;

    open spec fn view(&self) -> CheckStepView {
        match *self {
            CheckStep::Measure { generation } => CheckStepView::Measure { generation },
            CheckStep::Read { generation } => CheckStepView::Read { generation },
            CheckStep::ReadManifest { generation } => CheckStepView::ReadManifest { generation },
            CheckStep::Report(text) => CheckStepView::Report(text@),
            CheckStep::Fail(fault) => CheckStepView::Fail(fault@),
        }
    }
}

/// The mark of a log that is not empty.
pub open spec fn mark_of(log: Option<RecoveredLog>) -> Option<SnapshotMark> {
    match log {
        None => None,
        Some(log) => log.state.snapshot,
    }
}

/// What was too large to be looked at, if it was.
pub open spec fn marked_size_refusal(bytes: u64, max_snapshot_bytes: u64) -> Option<FaultView> {
    if bytes == 0 || bytes > max_snapshot_bytes {
        Some(because(FaultKind::InvalidData, "marked checkpoint exceeds host limit"))
    } else {
        None
    }
}

/// What comes next for a mark: a checkpoint is measured before it is read, held
/// against its mark before its manifest is read, and only then believed.
pub open spec fn mark_step(
    mark: SnapshotMark,
    max_snapshot_bytes: u64,
    found: FoundMark,
    report: Seq<char>,
) -> CheckStepView {
    match found {
        FoundMark::Unseen => CheckStepView::Measure { generation: mark.generation },
        FoundMark::Measured { bytes } => match marked_size_refusal(bytes, max_snapshot_bytes) {
            Some(fault) => CheckStepView::Fail(fault),
            None => CheckStepView::Read { generation: mark.generation },
        },
        FoundMark::Read { bytes, checkpoint } => match marked_size_refusal(
            bytes,
            max_snapshot_bytes,
        ) {
            Some(fault) => CheckStepView::Fail(fault),
            None => match marked_refusal(mark, checkpoint) {
                Some(fault) => CheckStepView::Fail(fault),
                None => CheckStepView::ReadManifest { generation: mark.generation },
            },
        },
        FoundMark::Listed { bytes, checkpoint, manifest } => match marked_size_refusal(
            bytes,
            max_snapshot_bytes,
        ) {
            Some(fault) => CheckStepView::Fail(fault),
            None => match deep_refusal(mark, checkpoint, manifest) {
                Some(fault) => CheckStepView::Fail(fault),
                None => CheckStepView::Report(report),
            },
        },
    }
}

/// What comes next in a check, by what is known so far: the log is checked
/// against the configuration, then what is staged, then the marked checkpoint.
/// The last two matter to a deep check only.
pub open spec fn check_next(
    deep: bool,
    data_dir: Seq<char>,
    log: Option<RecoveredLog>,
    configured: Option<(Seq<u8>, MembershipView)>,
    policy: Seq<u8>,
    staging: Staging,
    max_snapshot_bytes: u64,
    found: FoundMark,
) -> CheckStepView {
    let refused = match log {
        None => None,
        Some(log) => log_refusal(log, configured, policy),
    };
    let report = check_report(
        deep,
        data_dir,
        record_count(log),
        mark_of(log) is Some,
        staging.exists,
    );
    match refused {
        Some(fault) => CheckStepView::Fail(fault),
        None => if deep && staging.holds_files {
            CheckStepView::Fail(
                because(FaultKind::InvalidData, "snapshot staging contains an incomplete restore"),
            )
        } else {
            match mark_of(log) {
                Some(mark) if deep => mark_step(mark, max_snapshot_bytes, found, report),
                _ => CheckStepView::Report(report),
            }
        },
    }
}

/// Decides what comes next in a check of a data directory. An empty log is no
/// log.
pub fn check_step(
    deep: bool,
    data_dir: &str,
    log: &Option<RecoveredLog>,
    configured: &Option<Configured>,
    policy: &[u8],
    staging: Staging,
    max_snapshot_bytes: u64,
    found: &FoundMark,
) -> (step: CheckStep)
    ensures
        step@ == check_next(
            deep,
            data_dir@,
            *log,
            configured_view(*configured),
            policy@,
            staging,
            max_snapshot_bytes,
            *found,
        ),
{
    let mut mark: Option<SnapshotMark> = None;
    if let Some(log) = log {
        if let Err(error) = check_log(log, configured, policy) {
            return CheckStep::Fail(error);
        }
        mark = log.state.snapshot;
    }
    if let Err(error) = check_staging(deep, staging.holds_files) {
        return CheckStep::Fail(error);
    }
    if let (Some(mark), true) = (mark, deep) {
        match found {
            FoundMark::Unseen => return CheckStep::Measure { generation: mark.generation },
            FoundMark::Measured { bytes } => {
                return match check_marked_size(*bytes, max_snapshot_bytes) {
                    Err(error) => CheckStep::Fail(error),
                    Ok(_) => CheckStep::Read { generation: mark.generation },
                };
            },
            FoundMark::Read { bytes, checkpoint } => {
                if let Err(error) = check_marked_size(*bytes, max_snapshot_bytes) {
                    return CheckStep::Fail(error);
                }
                return match check_marked(&mark, checkpoint) {
                    Err(error) => CheckStep::Fail(error),
                    Ok(_) => CheckStep::ReadManifest { generation: mark.generation },
                };
            },
            FoundMark::Listed { bytes, checkpoint, manifest } => {
                if let Err(error) = check_marked_size(*bytes, max_snapshot_bytes) {
                    return CheckStep::Fail(error);
                }
                if let Err(error) = check_deep(&mark, checkpoint, *manifest) {
                    return CheckStep::Fail(error);
                }
            },
        }
    }
    let records: usize = log_records(log.as_ref());
    CheckStep::Report(selfcheck(deep, data_dir, records, mark.is_some(), staging.exists))
}

/// A deep check reports a mark as verified only where the marked checkpoint was
/// read and its mark and manifest agree with it. Its manifest is read only where
/// the mark agrees, and the check ends once that is read.
pub proof fn law_checks_verify_what_they_report(
    data_dir: Seq<char>,
    log: Option<RecoveredLog>,
    configured: Option<(Seq<u8>, MembershipView)>,
    policy: Seq<u8>,
    staging: Staging,
    max_snapshot_bytes: u64,
    found: FoundMark,
)
    ensures
        ({
            let step = check_next(
                true,
                data_dir,
                log,
                configured,
                policy,
                staging,
                max_snapshot_bytes,
                found,
            );
            &&& step is Report && mark_of(log) is Some ==> (found matches FoundMark::Listed {
                checkpoint,
                manifest,
                ..
            } && deep_refusal(mark_of(log)->0, checkpoint, manifest) is None)
            &&& step is Report ==> !staging.holds_files
            &&& step is Measure ==> found is Unseen
            &&& step is Read ==> found is Measured
            &&& step is ReadManifest ==> (found matches FoundMark::Read { checkpoint, .. }
                && marked_refusal(mark_of(log)->0, checkpoint) is None)
        }),
{
}

} // verus!
