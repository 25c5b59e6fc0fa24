//! What a host keeps count of outside the replicated state: its threads, its
//! clock and its recording.
use vstd::prelude::*;
use vstd::string::*;

use crate::fault::{because, fault, fault_of, outcome_is, Fault, FaultKind, FaultView};
use crate::ids::Time;
use crate::paths::FileId;
use crate::prose::{append_number, number_text};

verus! {

/// How many threads a host runs, and how many it may.
#[derive(Debug, PartialEq, Eq)]
pub struct ThreadBudget {
    pub live: u64,
    pub max: u64,
    pub stack_bytes: usize,
}

/// The right to run one thread.
#[derive(Debug, PartialEq, Eq)]
pub struct ThreadPermit {
    pub stack_bytes: usize,
}

impl ThreadBudget {
    /// Whether no more threads run than may.
    pub open spec fn bounded(self) -> bool {
        self.live <= self.max
    }

    pub fn new(max: usize, stack_bytes: usize) -> (budget: Self)
        ensures
            budget.live == 0,
            budget.max == max,
            budget.stack_bytes == stack_bytes,
            budget.bounded(),
    {
        ThreadBudget { live: 0, max: max as u64, stack_bytes }
    }

    /// Admits one more thread, where the budget has room for it.
    pub fn reserve(&mut self) -> (permit: Option<ThreadPermit>)
        ensures
            permit is Some <==> old(self).live < old(self).max,
            permit matches Some(permit) ==> permit.stack_bytes == old(self).stack_bytes,
            final(self).live == if old(self).live < old(self).max {
                (old(self).live + 1) as u64
            } else {
                old(self).live
            },
            final(self).max == old(self).max,
            final(self).stack_bytes == old(self).stack_bytes,
            old(self).bounded() ==> final(self).bounded(),
    {
        if self.live >= self.max {
            return None;
        }
        self.live = self.live + 1;
        Some(ThreadPermit { stack_bytes: self.stack_bytes })
    }

    /// Takes back the right of a thread that ended.
    pub fn release(&mut self, permit: ThreadPermit)
        requires
            old(self).live > 0,
        ensures
            final(self).live == old(self).live - 1,
            final(self).max == old(self).max,
            final(self).stack_bytes == old(self).stack_bytes,
            old(self).bounded() ==> final(self).bounded(),
    {
        self.live = self.live - 1;
    }
}

/// A later time, as far as it goes.
pub open spec fn later_by(time: Time, nanos: u64) -> Time {
    if time.0 + nanos <= u64::MAX {
        Time((time.0 + nanos) as u64)
    } else {
        Time(u64::MAX)
    }
}

/// One sample of the wall clock at boot, from where the host counts on.
#[derive(Clone, Copy, Debug, PartialEq, Eq, Structural)]
pub struct HostClock {
    pub boot_epoch: Time,
    pub floor: Time,
}

/// The wall clock at boot, in nanoseconds since the epoch, or why it cannot be
/// used. A clock before the epoch shows nothing.
pub open spec fn boot_epoch_of(wall: Option<u128>) -> Result<Time, FaultView> {
    match wall {
        None => Err(because(FaultKind::InvalidData, "wall clock predates Unix epoch")),
        Some(nanos) => if nanos > u64::MAX {
            Err(because(FaultKind::InvalidData, "wall clock exceeds logical time range"))
        } else {
            Ok(Time(nanos as u64))
        },
    }
}

impl HostClock {
    /// A clock that starts at the wall clock and never shows less than the
    /// recovered floor.
    pub fn new(wall: Option<u128>, floor: Time) -> (result: Result<Self, Fault>)
        ensures
            match result {
                Ok(clock) => clock.floor == floor && boot_epoch_of(wall) == Ok::<Time, FaultView>(
                    clock.boot_epoch,
                ),
                Err(error) => boot_epoch_of(wall) == Err::<Time, FaultView>(error@),
            },
    {
        match wall {
            None => Err(fault(FaultKind::InvalidData, "wall clock predates Unix epoch")),
            Some(nanos) => if nanos > u64::MAX as u128 {
                Err(fault(FaultKind::InvalidData, "wall clock exceeds logical time range"))
            } else {
                Ok(HostClock { boot_epoch: Time::from_nanos(nanos as u64), floor })
            },
        }
    }

    /// What the clock shows once some time has passed since boot.
    pub open spec fn shows(self, elapsed: u64) -> Time {
        let counted = later_by(self.boot_epoch, elapsed);
        if counted.0 >= self.floor.0 {
            counted
        } else {
            self.floor
        }
    }

    /// What the clock shows once some time has passed since boot.
    pub fn now(&self, elapsed: u64) -> (time: Time)
        ensures
            time == self.shows(elapsed),
    {
        let epoch: u64 = self.boot_epoch.as_nanos();
        let counted: u64 = if elapsed <= u64::MAX - epoch {
            epoch + elapsed
        } else {
            u64::MAX
        };
        if counted >= self.floor.as_nanos() {
            Time::from_nanos(counted)
        } else {
            self.floor
        }
    }
}

/// The clock never runs back, neither while the host runs nor behind what it
/// recovered.
pub proof fn law_clock_never_runs_back(clock: HostClock, earlier: u64, later: u64)
    requires
        earlier <= later,
    ensures
        clock.shows(earlier).0 <= clock.shows(later).0,
        clock.shows(earlier).0 >= clock.floor.0,
{
}

/// What came of a transition in a recording.
#[derive(Clone, Copy, Debug, PartialEq, Eq, Structural)]
pub enum RecordAppend {
    Written,
    Capped,
}

/// How far a recording has come.
#[derive(Clone, Copy, Debug, PartialEq, Eq, Structural)]
pub struct RecordLedger {
    pub next_ordinal: u64,
    pub last_now: Option<Time>,
    pub bytes_written: u64,
    pub max_bytes: u64,
}

/// Why a recording cannot begin at a path, if it cannot.
pub open spec fn record_path_refusal(
    exists: bool,
    has_parent: bool,
    parent_is_symlink: bool,
) -> Option<FaultView> {
    if exists {
        Some(because(FaultKind::AlreadyExists, "record path already exists"))
    } else if !has_parent {
        Some(because(FaultKind::InvalidInput, "record path has no parent"))
    } else if parent_is_symlink {
        Some(because(FaultKind::InvalidInput, "record parent must not be a symbolic link"))
    } else {
        None
    }
}

/// Decides whether a recording can begin at a path.
pub fn check_record_path(exists: bool, has_parent: bool, parent_is_symlink: bool) -> (result: Result<
    (),
    Fault,
>)
    ensures
        outcome_is(result, record_path_refusal(exists, has_parent, parent_is_symlink)),
{
    if exists {
        return Err(fault(FaultKind::AlreadyExists, "record path already exists"));
    }
    if !has_parent {
        return Err(fault(FaultKind::InvalidInput, "record path has no parent"));
    }
    if parent_is_symlink {
        return Err(fault(FaultKind::InvalidInput, "record parent must not be a symbolic link"));
    }
    Ok(())
}

/// Two numbers added, as far as they go.
pub open spec fn capped_sum(a: u64, b: u64) -> u64 {
    if a + b <= u64::MAX {
        (a + b) as u64
    } else {
        u64::MAX
    }
}

fn add_capped(a: u64, b: u64) -> (sum: u64)
    ensures
        sum == capped_sum(a, b),
{
    if b <= u64::MAX - a {
        a + b
    } else {
        u64::MAX
    }
}

impl RecordLedger {
    /// A recording that holds its header and has room for its last footer.
    pub fn create(header_bytes: u64, footer_bytes: u64, max_bytes: u64) -> (result: Result<
        Self,
        Fault,
    >)
        ensures
            match result {
                Ok(ledger) => max_bytes >= capped_sum(header_bytes, footer_bytes) && ledger == (
                RecordLedger {
                    next_ordinal: 1,
                    last_now: None,
                    bytes_written: header_bytes,
                    max_bytes,
                }),
                Err(error) => max_bytes < capped_sum(header_bytes, footer_bytes) && error@
                    == because(
                    FaultKind::InvalidInput,
                    "--record-max-bytes cannot contain the CCIJ header and capped footer",
                ),
            },
    {
        if max_bytes < add_capped(header_bytes, footer_bytes) {
            return Err(
                fault(
                    FaultKind::InvalidInput,
                    "--record-max-bytes cannot contain the CCIJ header and capped footer",
                ),
            );
        }
        Ok(
            RecordLedger {
                next_ordinal: 1,
                last_now: None,
                bytes_written: header_bytes,
                max_bytes,
            },
        )
    }

    /// The ordinal of the last transition in the recording.
    pub open spec fn recorded(self) -> u64 {
        if self.next_ordinal > 0 {
            (self.next_ordinal - 1) as u64
        } else {
            0
        }
    }

    pub fn last_ordinal(&self) -> (ordinal: u64)
        ensures
            ordinal == self.recorded(),
    {
        if self.next_ordinal > 0 {
            self.next_ordinal - 1
        } else {
            0
        }
    }

    /// Whether a frame and the footer after it fit.
    pub open spec fn fits(self, frame_bytes: u64, footer_bytes: u64) -> bool {
        capped_sum(capped_sum(self.bytes_written, frame_bytes), footer_bytes) <= self.max_bytes
    }

    /// What becomes of a transition at a time.
    pub open spec fn admitted(self, now: Time, frame_bytes: u64, footer_bytes: u64) -> Result<
        RecordAppend,
        FaultView,
    > {
        if self.last_now matches Some(previous) && now.0 < previous.0 {
            Err(because(FaultKind::InvalidData, "CCIJ transition time regressed"))
        } else if self.fits(frame_bytes, footer_bytes) {
            Ok(RecordAppend::Written)
        } else {
            Ok(RecordAppend::Capped)
        }
    }

    /// Decides whether a transition goes into the recording, or whether the
    /// recording ends here.
    pub fn append(&self, now: Time, frame_bytes: u64, footer_bytes: u64) -> (result: Result<
        RecordAppend,
        Fault,
    >)
        ensures
            match result {
                Ok(step) => self.admitted(now, frame_bytes, footer_bytes) == Ok::<
                    RecordAppend,
                    FaultView,
                >(step),
                Err(error) => self.admitted(now, frame_bytes, footer_bytes) == Err::<
                    RecordAppend,
                    FaultView,
                >(error@),
            },
    {
        if let Some(previous) = self.last_now {
            if now.as_nanos() < previous.as_nanos() {
                return Err(fault(FaultKind::InvalidData, "CCIJ transition time regressed"));
            }
        }
        let required: u64 = add_capped(add_capped(self.bytes_written, frame_bytes), footer_bytes);
        if required > self.max_bytes {
            return Ok(RecordAppend::Capped);
        }
        Ok(RecordAppend::Written)
    }

    /// Takes note of a transition that was written.
    pub fn wrote(&mut self, now: Time, frame_bytes: u64) -> (result: Result<(), Fault>)
        ensures
            match result {
                Ok(_) => old(self).next_ordinal < u64::MAX && *final(self) == (RecordLedger {
                    next_ordinal: (old(self).next_ordinal + 1) as u64,
                    last_now: Some(now),
                    bytes_written: capped_sum(old(self).bytes_written, frame_bytes),
                    max_bytes: old(self).max_bytes,
                }),
                Err(error) => old(self).next_ordinal == u64::MAX && *final(self) == *old(self)
                    && error@ == because(FaultKind::Other, "CCIJ ordinal exhausted"),
            },
    {
        if self.next_ordinal == u64::MAX {
            return Err(fault(FaultKind::Other, "CCIJ ordinal exhausted"));
        }
        self.next_ordinal = self.next_ordinal + 1;
        self.last_now = Some(now);
        self.bytes_written = add_capped(self.bytes_written, frame_bytes);
        Ok(())
    }

    /// Takes note of a footer that was written where the recording was capped.
    pub fn capped(&mut self, footer_bytes: u64)
        ensures
            *final(self) == (RecordLedger {
                bytes_written: capped_sum(old(self).bytes_written, footer_bytes),
                ..*old(self)
            }),
    {
        self.bytes_written = add_capped(self.bytes_written, footer_bytes);
    }

    /// Decides whether the last footer may be written.
    pub fn finish(&mut self, footer_bytes: u64) -> (result: Result<(), Fault>)
        ensures
            match result {
                Ok(_) => capped_sum(old(self).bytes_written, footer_bytes) <= old(self).max_bytes
                    && *final(self) == (RecordLedger {
                    bytes_written: capped_sum(old(self).bytes_written, footer_bytes),
                    ..*old(self)
                }),
                Err(error) => capped_sum(old(self).bytes_written, footer_bytes)
                    > old(self).max_bytes && *final(self) == *old(self) && error@ == because(
                    FaultKind::Other,
                    "CCIJ terminal footer exceeds reserved recording capacity",
                ),
            },
    {
        let required: u64 = add_capped(self.bytes_written, footer_bytes);
        if required > self.max_bytes {
            return Err(
                fault(
                    FaultKind::Other,
                    "CCIJ terminal footer exceeds reserved recording capacity",
                ),
            );
        }
        self.bytes_written = required;
        Ok(())
    }
}

/// A recording always has room for its last footer: one that has keeps it with
/// every transition that it takes, and so a footer of that size fits.
pub proof fn law_recordings_keep_room(
    ledger: RecordLedger,
    now: Time,
    frame_bytes: u64,
    footer_bytes: u64,
)
    requires
        ledger.bytes_written + footer_bytes <= ledger.max_bytes,
        ledger.admitted(now, frame_bytes, footer_bytes) == Ok::<RecordAppend, FaultView>(
            RecordAppend::Written,
        ),
        ledger.max_bytes < u64::MAX,
    ensures
        ledger.bytes_written + frame_bytes + footer_bytes <= ledger.max_bytes,
        capped_sum(ledger.bytes_written, frame_bytes) + footer_bytes <= ledger.max_bytes,
{
}

/// The times of a recording never run back.
pub proof fn law_recordings_run_forward(
    ledger: RecordLedger,
    now: Time,
    frame_bytes: u64,
    footer_bytes: u64,
)
    ensures
        ledger.admitted(now, frame_bytes, footer_bytes) is Ok ==> (ledger.last_now matches Some(
            previous,
        ) ==> previous.0 <= now.0),
{
}

/// What a host does about its recording.
#[derive(Clone, Debug, PartialEq, Eq)]
pub enum RecordStep {
    /// It goes on.
    Continue,
    /// It ends, and the host runs on without one.
    Disable(String),
    /// It was required, so the host ends.
    Fail(String),
}

pub enum RecordStepView {
    Continue,
    Disable(Seq<char>),
    Fail(Seq<char>),
}

impl View for RecordStep {
    type V = RecordStepView;

    open spec fn view(&self) -> RecordStepView {
        match *self {
            RecordStep::Continue => RecordStepView::Continue,
            RecordStep::Disable(text) => RecordStepView::Disable(text@),
            RecordStep::Fail(text) => RecordStepView::Fail(text@),
        }
    }
}

/// What a host does about its recording once a transition was offered to it. A
/// failed write is shown by its message.
pub open spec fn record_step_of(outcome: Result<RecordAppend, Seq<char>>, required: bool) -> RecordStepView {
    match outcome {
        Ok(RecordAppend::Written) => RecordStepView::Continue,
        Ok(RecordAppend::Capped) => if required {
            RecordStepView::Fail(
                "--record-max-bytes reached before the required recording completed"@,
            )
        } else {
            RecordStepView::Disable(
                "CCIJ recorder reached --record-max-bytes; continuing unrecorded"@,
            )
        },
        Err(message) => if required {
            RecordStepView::Fail("required CCIJ write failed: "@ + message)
        } else {
            RecordStepView::Disable("CCIJ recorder disabled after write error: "@ + message)
        },
    }
}

/// Decides what a host does about its recording.
pub fn record(outcome: Result<RecordAppend, String>, required: bool) -> (step: RecordStep)
    ensures
        step@ == record_step_of(
            match outcome {
                Ok(append) => Ok(append),
                Err(message) => Err(message@),
            },
            required,
        ),
{
    match outcome {
        Ok(RecordAppend::Written) => RecordStep::Continue,
        Ok(RecordAppend::Capped) => if required {
            RecordStep::Fail(
                "--record-max-bytes reached before the required recording completed".to_owned(),
            )
        } else {
            RecordStep::Disable(
                "CCIJ recorder reached --record-max-bytes; continuing unrecorded".to_owned(),
            )
        },
        Err(message) => if required {
            RecordStep::Fail("required CCIJ write failed: ".to_owned().concat(message.as_str()))
        } else {
            RecordStep::Disable(
                "CCIJ recorder disabled after write error: ".to_owned().concat(message.as_str()),
            )
        },
    }
}

/// What a host does next while it accepts connections.
#[derive(Clone, Copy, Debug, PartialEq, Eq, Structural)]
pub enum AcceptStep {
    /// It stops.
    Stop,
    /// It serves the connection that came.
    Serve,
    /// It closes its recording and stops: its time is up.
    Complete,
    /// Nobody came: it waits.
    Wait,
    /// It records the failure and stops.
    Fail,
}

/// What came of accepting a connection.
#[derive(Clone, Copy, Debug, PartialEq, Eq, Structural)]
pub enum Accepted {
    Connection,
    Nobody,
    Failure,
}

/// What a host does next while it accepts connections.
pub open spec fn next_accept(stopping: bool, accepted: Accepted, time_is_up: bool) -> AcceptStep {
    if stopping {
        AcceptStep::Stop
    } else {
        match accepted {
            Accepted::Connection => AcceptStep::Serve,
            Accepted::Nobody => if time_is_up {
                AcceptStep::Complete
            } else {
                AcceptStep::Wait
            },
            Accepted::Failure => AcceptStep::Fail,
        }
    }
}

/// Decides what a host does next while it accepts connections.
pub fn accept_step(stopping: bool, accepted: Accepted, time_is_up: bool) -> (step: AcceptStep)
    ensures
        step == next_accept(stopping, accepted, time_is_up),
{
    if stopping {
        return AcceptStep::Stop;
    }
    match accepted {
        Accepted::Connection => AcceptStep::Serve,
        Accepted::Nobody => if time_is_up {
            AcceptStep::Complete
        } else {
            AcceptStep::Wait
        },
        Accepted::Failure => AcceptStep::Fail,
    }
}

/// How a write reaches its file.
#[derive(Clone, Copy, Debug, PartialEq, Eq, Structural)]
pub enum WritePlan {
    /// At the end of a log.
    Append { len: u32 },
    /// Into another file, from scratch where it begins at its first byte.
    Stage { len: u32, truncate: bool },
}

/// How a log is called in a refusal.
pub open spec fn log_name(file: FileId) -> Seq<char> {
    if file is Wal {
        "Wal { segment: 0 }"@
    } else {
        "StoreWal { segment: 0 }"@
    }
}

/// How a write reaches its file, or why it is refused. `actual` is the length
/// of the log that it goes to.
pub open spec fn write_of(file: FileId, at: u64, len: nat, actual: u64) -> Result<
    WritePlan,
    FaultView,
> {
    if len > u32::MAX {
        Err(because(FaultKind::InvalidInput, "WAL write too large"))
    } else if !crate::paths::is_log(file) {
        Ok(WritePlan::Stage { len: len as u32, truncate: at == 0 })
    } else if actual != at {
        Err(
            FaultView {
                kind: FaultKind::InvalidData,
                message: "WAL append offset mismatch file="@ + log_name(file) + " expected="@
                    + number_text(at as nat) + " actual="@ + number_text(actual as nat),
            },
        )
    } else {
        Ok(WritePlan::Append { len: len as u32 })
    }
}

/// Decides how a write reaches its file.
pub fn write_file(file: FileId, at: u64, len: usize, actual: u64) -> (result: Result<WritePlan, Fault>)
    ensures
        match result {
            Ok(plan) => write_of(file, at, len as nat, actual) == Ok::<WritePlan, FaultView>(plan),
            Err(error) => write_of(file, at, len as nat, actual) == Err::<WritePlan, FaultView>(
                error@,
            ),
        },
{
    if len as u64 > u32::MAX as u64 {
        return Err(fault(FaultKind::InvalidInput, "WAL write too large"));
    }
    let name = match file {
        FileId::Wal { segment } => if segment == 0 {
            Some("Wal { segment: 0 }")
        } else {
            None
        },
        FileId::StoreWal { segment } => if segment == 0 {
            Some("StoreWal { segment: 0 }")
        } else {
            None
        },
        _ => None,
    };
    match name {
        None => Ok(WritePlan::Stage { len: len as u32, truncate: at == 0 }),
        Some(name) => {
            if actual != at {
                let mut message = "WAL append offset mismatch file=".to_owned();
                message.append(name);
                message.append(" expected=");
                append_number(&mut message, at);
                message.append(" actual=");
                append_number(&mut message, actual);
                return Err(fault_of(FaultKind::InvalidData, message));
            }
            Ok(WritePlan::Append { len: len as u32 })
        },
    }
}

} // verus!
