//! Setting up, opening and using a shared segment.
//!
//! The system calls are made outside: a set-up asks for one action after the
//! other and is told how each went.

use vstd::prelude::*;
use vstd::string::*;
use super::cursor;
use super::layout;
use super::layout::{mapping_size, ShmHeader, READY_MAGIC};
use super::spsc::RingMemory;
use crate::text;
use crate::text::{push_digits, push_text};
use crate::Candle;

verus! {

/// Why a segment could not be set up or opened.
#[derive(Debug, Clone, Copy, PartialEq, Eq, Structural)]
pub enum ShmError {
    /// The name holds a null character.
    InvalidName,
    /// A system call failed with this error number.
    Os(i32),
    /// The producer did not become ready in time.
    TimedOut,
    /// The segment was made with another capacity.
    CapacityMismatch { requested: usize, found: usize },
}

/// The error number of a segment that exists already.
pub const EEXIST: i32 = 17;

/// What sort of error it is.
#[derive(Debug, Clone, Copy, PartialEq, Eq, Structural)]
pub enum ShmErrorKind {
    InvalidInput,
    AlreadyExists,
    System,
    TimedOut,
    InvalidData,
}

impl ShmError {
    /// What sort of error it is.
    pub fn kind(&self) -> (r: ShmErrorKind)
        ensures
            r == match *self {
                ShmError::InvalidName => ShmErrorKind::InvalidInput,
                ShmError::Os(code) => if code == EEXIST {
                    ShmErrorKind::AlreadyExists
                } else {
                    ShmErrorKind::System
                },
                ShmError::TimedOut => ShmErrorKind::TimedOut,
                ShmError::CapacityMismatch { .. } => ShmErrorKind::InvalidData,
            },
    {
        match self {
            ShmError::InvalidName => ShmErrorKind::InvalidInput,
            ShmError::Os(code) => if *code == EEXIST {
                ShmErrorKind::AlreadyExists
            } else {
                ShmErrorKind::System
            },
            ShmError::TimedOut => ShmErrorKind::TimedOut,
            ShmError::CapacityMismatch { .. } => ShmErrorKind::InvalidData,
        }
    }

    /// What to tell the user. Nothing where the system has a message of its own.
    pub open spec fn text(self) -> Option<Seq<char>> {
        match self {
            ShmError::InvalidName => None,
            ShmError::Os(_) => None,
            ShmError::TimedOut => Some("shm writer did not become ready within 5s"@),
            ShmError::CapacityMismatch { requested, found } => Some(
                "ShmRingReader capacity mismatch: reader requested "@ + text::digits(
                    requested as nat,
                ) + ", writer created segment with "@ + text::digits(found as nat)
                    + ". The producer and consumer must agree on the ring size."@,
            ),
        }
    }

    /// What to tell the user. Nothing where the system has a message of its own.
    pub fn message(&self) -> (r: Option<String>)
        ensures
            match self.text() {
                Some(t) => r matches Some(s) && s@ == t,
                None => r is None,
            },
    {
        match self {
            ShmError::InvalidName => None,
            ShmError::Os(_) => None,
            ShmError::TimedOut => Some("shm writer did not become ready within 5s".to_owned()),
            ShmError::CapacityMismatch { requested, found } => {
                let mut s = "ShmRingReader capacity mismatch: reader requested ".to_owned();
                push_digits(&mut s, *requested as u64);
                push_text(&mut s, ", writer created segment with ");
                push_digits(&mut s, *found as u64);
                push_text(&mut s, ". The producer and consumer must agree on the ring size.");
                Some(s)
            },
        }
    }
}

/// What has to be done next.
#[derive(Debug, Clone, Copy)]
pub enum ShmAction {
    /// Remove the segment of this name; it does not matter whether there is one.
    Unlink,
    /// Open the segment; make it if `create` is set, and then fail if there is one
    /// and `exclusive` is set.
    Open { create: bool, exclusive: bool },
    /// Set the size of the segment.
    Resize { bytes: usize },
    /// Map the segment.
    MapSegment { bytes: usize },
    /// Close the descriptor.
    Close,
    /// Write the header, the field `ready` after all others.
    WriteHeader { header: ShmHeader },
    /// Read the field `ready`, and look whether the time is over.
    ReadReady,
    /// Read the field `capacity`.
    ReadCapacity,
    /// Remove the mapping.
    Unmap { bytes: usize },
    /// There is nothing more to do.
    Finish,
}

/// How it went.
#[derive(Debug, Clone, Copy)]
pub enum ShmEvent {
    /// The action was done.
    Done,
    /// The action failed with this error number.
    Failed(i32),
    /// What is in the field `ready`, and whether the time is over.
    Ready { value: u64, expired: bool },
    /// What is in the field `capacity`.
    Capacity(u64),
}

/// Where a set-up stands.
#[derive(Debug, Clone, Copy, PartialEq, Eq, Structural)]
pub enum CreatePhase {
    Unlinking,
    Opening,
    Resizing,
    Mapping,
    /// The segment is mapped, and the descriptor no longer needed.
    Closing,
    /// Something failed after the segment was opened.
    ClosingFailed(ShmError),
    Writing,
    Complete,
    Failed(ShmError),
}

impl CreatePhase {
    /// What follows on an event.
    pub open spec fn next(self, event: ShmEvent) -> CreatePhase {
        match self {
            CreatePhase::Unlinking => CreatePhase::Opening,
            CreatePhase::Opening => match event {
                ShmEvent::Failed(e) => CreatePhase::Failed(ShmError::Os(e)),
                _ => CreatePhase::Resizing,
            },
            CreatePhase::Resizing => match event {
                ShmEvent::Failed(e) => CreatePhase::ClosingFailed(ShmError::Os(e)),
                _ => CreatePhase::Mapping,
            },
            CreatePhase::Mapping => match event {
                ShmEvent::Failed(e) => CreatePhase::ClosingFailed(ShmError::Os(e)),
                _ => CreatePhase::Closing,
            },
            CreatePhase::Closing => CreatePhase::Writing,
            CreatePhase::ClosingFailed(e) => CreatePhase::Failed(e),
            CreatePhase::Writing => CreatePhase::Complete,
            CreatePhase::Complete => CreatePhase::Complete,
            CreatePhase::Failed(e) => CreatePhase::Failed(e),
        }
    }

    /// A descriptor is open.
    pub open spec fn holds_descriptor(self) -> bool {
        self is Resizing || self is Mapping || self is Closing || self is ClosingFailed
    }

    /// The segment is mapped.
    pub open spec fn holds_mapping(self) -> bool {
        self is Closing || self is Writing || self is Complete
    }
}

/// The setting-up of a segment.
pub struct ShmCreation {
    name: String,
    capacity: usize,
    exclusive: bool,
    phase: CreatePhase,
}

/// A segment with so many slots can be set up: the number is a power of two, and
/// the bytes can be counted.
pub open spec fn segment_fits(capacity: usize) -> bool {
    &&& cursor::power_of_two(capacity as int)
    &&& layout::segment_bytes(capacity as int) <= usize::MAX
}

/// The name can be handed to the operating system.
pub open spec fn name_ok(name: &str) -> bool {
    !name.spec_bytes().contains(0u8)
}

/// Whether the name can be handed to the operating system.
fn is_name_ok(name: &str) -> (r: bool)
    ensures
        r == name_ok(name),
{
    let bytes = name.as_bytes();
    let mut i: usize = 0;
    while i < bytes.len()
        invariant
            i <= bytes@.len(),
            bytes@ == name.spec_bytes(),
            forall|j: int| 0 <= j < i ==> bytes@[j] != 0,
        decreases bytes@.len() - i,
    {
        if bytes[i] == 0 {
            assert(name.spec_bytes()[i as int] == 0u8);
            return false;
        }
        i = i + 1;
    }
    true
}

impl ShmCreation {
    pub closed spec fn wf(&self) -> bool {
        segment_fits(self.capacity)
    }

    pub closed spec fn name(&self) -> Seq<char> {
        self.name@
    }

    pub closed spec fn cap(&self) -> usize {
        self.capacity
    }

    /// An existing segment is not taken over.
    pub closed spec fn is_exclusive(&self) -> bool {
        self.exclusive
    }

    pub closed spec fn phase(&self) -> CreatePhase {
        self.phase
    }

    /// What has to be done in each phase.
    pub open spec fn wants(&self, action: ShmAction) -> bool {
        match self.phase() {
            CreatePhase::Unlinking => action is Unlink,
            CreatePhase::Opening => action == (ShmAction::Open {
                create: true,
                exclusive: self.is_exclusive(),
            }),
            CreatePhase::Resizing => action matches ShmAction::Resize { bytes } && bytes
                == layout::segment_bytes(self.cap() as int),
            CreatePhase::Mapping => action matches ShmAction::MapSegment { bytes } && bytes
                == layout::segment_bytes(self.cap() as int),
            CreatePhase::Closing => action is Close,
            CreatePhase::ClosingFailed(_) => action is Close,
            CreatePhase::Writing => {
                &&& action matches ShmAction::WriteHeader { header }
                &&& header.ready == READY_MAGIC
                &&& header.capacity == self.cap()
                &&& header.head == 0
                &&& header.tail == 0
            },
            CreatePhase::Complete => action is Finish,
            CreatePhase::Failed(_) => action is Finish,
        }
    }

    /// What has to be done now.
    pub fn action(&self) -> (r: ShmAction)
        requires
            self.wf(),
        ensures
            self.wants(r),
    {
        match self.phase {
            CreatePhase::Unlinking => ShmAction::Unlink,
            CreatePhase::Opening => ShmAction::Open { create: true, exclusive: self.exclusive },
            CreatePhase::Resizing => ShmAction::Resize { bytes: mapping_size(self.capacity) },
            CreatePhase::Mapping => ShmAction::MapSegment { bytes: mapping_size(self.capacity) },
            CreatePhase::Closing => ShmAction::Close,
            CreatePhase::ClosingFailed(_) => ShmAction::Close,
            CreatePhase::Writing => ShmAction::WriteHeader {
                header: ShmHeader::initial(self.capacity),
            },
            CreatePhase::Complete => ShmAction::Finish,
            CreatePhase::Failed(_) => ShmAction::Finish,
        }
    }

    /// Go on from what was done.
    pub fn advance(&mut self, event: ShmEvent)
        requires
            old(self).wf(),
        ensures
            final(self).wf(),
            final(self).name() == old(self).name(),
            final(self).cap() == old(self).cap(),
            final(self).is_exclusive() == old(self).is_exclusive(),
            final(self).phase() == old(self).phase().next(event),
    {
        self.phase = match self.phase {
            CreatePhase::Unlinking => CreatePhase::Opening,
            CreatePhase::Opening => match event {
                ShmEvent::Failed(e) => CreatePhase::Failed(ShmError::Os(e)),
                _ => CreatePhase::Resizing,
            },
            CreatePhase::Resizing => match event {
                ShmEvent::Failed(e) => CreatePhase::ClosingFailed(ShmError::Os(e)),
                _ => CreatePhase::Mapping,
            },
            CreatePhase::Mapping => match event {
                ShmEvent::Failed(e) => CreatePhase::ClosingFailed(ShmError::Os(e)),
                _ => CreatePhase::Closing,
            },
            CreatePhase::Closing => CreatePhase::Writing,
            CreatePhase::ClosingFailed(e) => CreatePhase::Failed(e),
            CreatePhase::Writing => CreatePhase::Complete,
            CreatePhase::Complete => CreatePhase::Complete,
            CreatePhase::Failed(e) => CreatePhase::Failed(e),
        };
    }

    /// The producer's end, or why there is none; nothing while there is more to do.
    pub fn finish(&self) -> (r: Option<Result<ShmRingWriter, ShmError>>)
        requires
            self.wf(),
        ensures
            match self.phase() {
                CreatePhase::Complete => {
                    &&& r matches Some(Ok(w))
                    &&& w.name() == self.name()
                    &&& w.cap() == self.cap()
                    &&& w.stalls() == 0
                },
                CreatePhase::Failed(e) => r == Some(Err::<ShmRingWriter, ShmError>(e)),
                _ => r is None,
            },
    {
        match self.phase {
            CreatePhase::Complete => Some(
                Ok(
                    ShmRingWriter {
                        name: self.name.clone(),
                        capacity: self.capacity,
                        push_full: 0,
                    },
                ),
            ),
            CreatePhase::Failed(e) => Some(Err(e)),
            _ => None,
        }
    }
}

/// The counters of a producer.
#[derive(Debug, Clone, Copy)]
pub struct WriterStats {
    /// How often the ring was full when the producer had something to write.
    pub push_full_events: u64,
    /// The number of slots.
    pub ring_capacity: u64,
}

/// What to do after an attempt to write.
#[derive(Debug, Clone, Copy, PartialEq, Eq, Structural)]
pub enum PushStep {
    /// It is written.
    Pushed,
    /// The wait was called off.
    GivenUp,
    /// Try again.
    Again,
}

/// What to do after an attempt to write that found room or did not. A wait that is
/// called off still ends with an attempt of its own, so that it is only given up
/// after one.
pub open spec fn step_after(waiting: bool, pushed: bool, cancelled: bool) -> PushStep {
    if pushed {
        PushStep::Pushed
    } else if waiting && cancelled {
        PushStep::GivenUp
    } else {
        PushStep::Again
    }
}

/// What to do after an attempt to write, and whether it is to be counted as a
/// stall: the first failed attempt is, the others are part of the same wait.
pub fn after_attempt(waiting: bool, pushed: bool, cancelled: bool) -> (r: (PushStep, bool))
    ensures
        r.0 == step_after(waiting, pushed, cancelled),
        r.1 == (!pushed && !waiting),
{
    let step = if pushed {
        PushStep::Pushed
    } else if waiting && cancelled {
        PushStep::GivenUp
    } else {
        PushStep::Again
    };
    (step, !pushed && !waiting)
}

/// The producer's end of a shared segment.
pub struct ShmRingWriter {
    name: String,
    capacity: usize,
    push_full: u64,
}

impl ShmRingWriter {
    pub closed spec fn name(&self) -> Seq<char> {
        self.name@
    }

    pub closed spec fn cap(&self) -> usize {
        self.capacity
    }

    /// How often the ring was found full.
    pub closed spec fn stalls(&self) -> u64 {
        self.push_full
    }

    /// Set up a new segment. It is an error if there is one of this name, so that
    /// two producers never write to the same.
    pub fn create(name: &str, capacity: usize) -> (r: Result<ShmCreation, ShmError>)
        requires
            segment_fits(capacity),
        ensures
            r is Ok <==> name_ok(name),
            r is Err ==> r->Err_0 == ShmError::InvalidName,
            r matches Ok(c) ==> {
                &&& c.wf()
                &&& c.name() == name@
                &&& c.cap() == capacity
                &&& c.is_exclusive()
                &&& c.phase() is Opening
            },
    {
        ShmRingWriter::create_inner(name, capacity, false)
    }

    /// Set up a new segment in place of one that was left behind. A producer that
    /// still uses the old one is cut off.
    pub fn create_force(name: &str, capacity: usize) -> (r: Result<ShmCreation, ShmError>)
        requires
            segment_fits(capacity),
        ensures
            r is Ok <==> name_ok(name),
            r is Err ==> r->Err_0 == ShmError::InvalidName,
            r matches Ok(c) ==> {
                &&& c.wf()
                &&& c.name() == name@
                &&& c.cap() == capacity
                &&& !c.is_exclusive()
                &&& c.phase() is Unlinking
            },
    {
        ShmRingWriter::create_inner(name, capacity, true)
    }

    fn create_inner(name: &str, capacity: usize, force: bool) -> (r: Result<
        ShmCreation,
        ShmError,
    >)
        requires
            segment_fits(capacity),
        ensures
            r is Ok <==> name_ok(name),
            r is Err ==> r->Err_0 == ShmError::InvalidName,
            r matches Ok(c) ==> {
                &&& c.wf()
                &&& c.name() == name@
                &&& c.cap() == capacity
                &&& c.is_exclusive() == !force
                &&& c.phase() == if force {
                    CreatePhase::Unlinking
                } else {
                    CreatePhase::Opening
                }
            },
    {
        if !is_name_ok(name) {
            return Err(ShmError::InvalidName);
        }
        let phase = if force {
            CreatePhase::Unlinking
        } else {
            CreatePhase::Opening
        };
        Ok(ShmCreation { name: name.to_owned(), capacity, exclusive: !force, phase })
    }

    /// Count one more time that the ring was full.
    pub fn count_stall(&mut self)
        ensures
            final(self).name() == old(self).name(),
            final(self).cap() == old(self).cap(),
            final(self).stalls() == old(self).stalls().wrapping_add(1),
    {
        self.push_full = self.push_full.wrapping_add(1);
    }

    /// Write a candle to a ring that has room for it.
    pub fn push(&mut self, memory: &mut RingMemory<Candle>, candle: Candle)
        requires
            old(memory).wf(),
            old(self).cap() == old(memory).cap(),
            old(memory).view().len() < old(memory).cap(),
        ensures
            *final(self) == *old(self),
            final(memory).wf(),
            final(memory).cap() == old(memory).cap(),
            final(memory).view() == old(memory).view().push(candle),
    {
        let written = self.try_push(memory, candle);
    }

    /// Write a candle, waiting for room until there is some or the wait is called
    /// off. A wait is counted once, however long it lasts. Whoever waits for a full
    /// ring without an end waits forever, so either there is room or `cancel` is
    /// set.
    pub fn push_until(
        &mut self,
        memory: &mut RingMemory<Candle>,
        candle: Candle,
        cancel: bool,
    ) -> (r: bool)
        requires
            old(memory).wf(),
            old(self).cap() == old(memory).cap(),
            cancel || old(memory).view().len() < old(memory).cap(),
        ensures
            final(self).name() == old(self).name(),
            final(self).cap() == old(self).cap(),
            final(memory).wf(),
            final(memory).cap() == old(memory).cap(),
            r == (old(memory).view().len() < old(memory).cap()),
            final(self).stalls() == if r {
                old(self).stalls()
            } else {
                old(self).stalls().wrapping_add(1)
            },
            final(memory).view() == if r {
                old(memory).view().push(candle)
            } else {
                old(memory).view()
            },
    {
        let mut waiting = false;
        let mut step = PushStep::Again;
        let ghost start = *self;
        let ghost room = memory.view().len() < memory.cap();
        let ghost before = memory.view();
        while step == PushStep::Again
            invariant
                memory.wf(),
                self.cap() == memory.cap(),
                self.cap() == start.cap(),
                self.name() == start.name(),
                step is Again ==> {
                    &&& memory.view() == before
                    &&& room == (memory.view().len() < memory.cap())
                    &&& waiting ==> !room
                },
                cancel || room,
                self.stalls() == if waiting {
                    start.stalls().wrapping_add(1)
                } else {
                    start.stalls()
                },
                step is Pushed ==> room && !waiting && memory.view() == before.push(candle),
                step is GivenUp ==> !room && waiting && memory.view() == before,
            decreases
                    if step is Again {
                        if waiting {
                            1int
                        } else {
                            2int
                        }
                    } else {
                        0int
                    },
        {
            let pushed = self.try_push(memory, candle);
            let (next, stalled) = after_attempt(waiting, pushed, cancel);
            if stalled {
                self.count_stall();
                waiting = true;
            }
            step = next;
        }
        step == PushStep::Pushed
    }

    /// Write a candle, unless the ring is full.
    pub fn try_push(&self, memory: &mut RingMemory<Candle>, candle: Candle) -> (r: bool)
        requires
            old(memory).wf(),
            self.cap() == old(memory).cap(),
        ensures
            final(memory).wf(),
            final(memory).cap() == old(memory).cap(),
            r == (old(memory).view().len() < old(memory).cap()),
            final(memory).view() == if r {
                old(memory).view().push(candle)
            } else {
                old(memory).view()
            },
    {
        memory.write(candle)
    }

    /// The counters.
    pub fn stats(&self) -> (r: WriterStats)
        ensures
            r.push_full_events == self.stalls(),
            r.ring_capacity == self.cap(),
    {
        WriterStats { push_full_events: self.push_full, ring_capacity: self.capacity as u64 }
    }
}

/// Where an opening stands.
#[derive(Debug, Clone, Copy, PartialEq, Eq, Structural)]
pub enum OpenPhase {
    Opening,
    Mapping,
    /// The segment is mapped, and the descriptor no longer needed.
    Closing,
    /// The segment could not be mapped.
    ClosingFailed(ShmError),
    /// Waiting for the producer.
    Waiting,
    Comparing,
    /// The segment is of no use.
    Unmapping(ShmError),
    Complete,
    Failed(ShmError),
}

impl OpenPhase {
    /// What follows on an event, where so many slots are asked for.
    pub open spec fn next(self, capacity: usize, event: ShmEvent) -> OpenPhase {
        match self {
            OpenPhase::Opening => match event {
                ShmEvent::Failed(e) => OpenPhase::Failed(ShmError::Os(e)),
                _ => OpenPhase::Mapping,
            },
            OpenPhase::Mapping => match event {
                ShmEvent::Failed(e) => OpenPhase::ClosingFailed(ShmError::Os(e)),
                _ => OpenPhase::Closing,
            },
            OpenPhase::Closing => OpenPhase::Waiting,
            OpenPhase::ClosingFailed(e) => OpenPhase::Failed(e),
            OpenPhase::Waiting => match event {
                ShmEvent::Ready { value, expired } => if value == READY_MAGIC {
                    OpenPhase::Comparing
                } else if expired {
                    OpenPhase::Unmapping(ShmError::TimedOut)
                } else {
                    OpenPhase::Waiting
                },
                _ => OpenPhase::Waiting,
            },
            OpenPhase::Comparing => match event {
                ShmEvent::Capacity(found) => if found as usize == capacity {
                    OpenPhase::Complete
                } else {
                    OpenPhase::Unmapping(
                        ShmError::CapacityMismatch {
                            requested: capacity,
                            found: found as usize,
                        },
                    )
                },
                _ => OpenPhase::Comparing,
            },
            OpenPhase::Unmapping(e) => OpenPhase::Failed(e),
            OpenPhase::Complete => OpenPhase::Complete,
            OpenPhase::Failed(e) => OpenPhase::Failed(e),
        }
    }

    /// A descriptor is open.
    pub open spec fn holds_descriptor(self) -> bool {
        self is Mapping || self is Closing || self is ClosingFailed
    }

    /// The segment is mapped.
    pub open spec fn holds_mapping(self) -> bool {
        self is Closing || self is Waiting || self is Comparing || self is Unmapping
            || self is Complete
    }
}

/// The opening of a segment.
pub struct ShmOpening {
    name: String,
    capacity: usize,
    phase: OpenPhase,
}

impl ShmOpening {
    pub closed spec fn wf(&self) -> bool {
        segment_fits(self.capacity)
    }

    pub closed spec fn name(&self) -> Seq<char> {
        self.name@
    }

    pub closed spec fn cap(&self) -> usize {
        self.capacity
    }

    pub closed spec fn phase(&self) -> OpenPhase {
        self.phase
    }

    /// What has to be done in each phase.
    pub open spec fn wants(&self, action: ShmAction) -> bool {
        match self.phase() {
            OpenPhase::Opening => action == (ShmAction::Open { create: false, exclusive: false }),
            OpenPhase::Mapping => action matches ShmAction::MapSegment { bytes } && bytes
                == layout::segment_bytes(self.cap() as int),
            OpenPhase::Closing => action is Close,
            OpenPhase::ClosingFailed(_) => action is Close,
            OpenPhase::Waiting => action is ReadReady,
            OpenPhase::Comparing => action is ReadCapacity,
            OpenPhase::Unmapping(_) => action matches ShmAction::Unmap { bytes } && bytes
                == layout::segment_bytes(self.cap() as int),
            OpenPhase::Complete => action is Finish,
            OpenPhase::Failed(_) => action is Finish,
        }
    }

    /// What has to be done now.
    pub fn action(&self) -> (r: ShmAction)
        requires
            self.wf(),
        ensures
            self.wants(r),
    {
        match self.phase {
            OpenPhase::Opening => ShmAction::Open { create: false, exclusive: false },
            OpenPhase::Mapping => ShmAction::MapSegment { bytes: mapping_size(self.capacity) },
            OpenPhase::Closing => ShmAction::Close,
            OpenPhase::ClosingFailed(_) => ShmAction::Close,
            OpenPhase::Waiting => ShmAction::ReadReady,
            OpenPhase::Comparing => ShmAction::ReadCapacity,
            OpenPhase::Unmapping(_) => ShmAction::Unmap { bytes: mapping_size(self.capacity) },
            OpenPhase::Complete => ShmAction::Finish,
            OpenPhase::Failed(_) => ShmAction::Finish,
        }
    }

    /// Go on from what was done.
    pub fn advance(&mut self, event: ShmEvent)
        requires
            old(self).wf(),
        ensures
            final(self).wf(),
            final(self).name() == old(self).name(),
            final(self).cap() == old(self).cap(),
            final(self).phase() == old(self).phase().next(old(self).cap(), event),
    {
        self.phase = match self.phase {
            OpenPhase::Opening => match event {
                ShmEvent::Failed(e) => OpenPhase::Failed(ShmError::Os(e)),
                _ => OpenPhase::Mapping,
            },
            OpenPhase::Mapping => match event {
                ShmEvent::Failed(e) => OpenPhase::ClosingFailed(ShmError::Os(e)),
                _ => OpenPhase::Closing,
            },
            OpenPhase::Closing => OpenPhase::Waiting,
            OpenPhase::ClosingFailed(e) => OpenPhase::Failed(e),
            OpenPhase::Waiting => match event {
                ShmEvent::Ready { value, expired } => if value == READY_MAGIC {
                    OpenPhase::Comparing
                } else if expired {
                    OpenPhase::Unmapping(ShmError::TimedOut)
                } else {
                    OpenPhase::Waiting
                },
                _ => OpenPhase::Waiting,
            },
            OpenPhase::Comparing => match event {
                ShmEvent::Capacity(found) => if found as usize == self.capacity {
                    OpenPhase::Complete
                } else {
                    OpenPhase::Unmapping(
                        ShmError::CapacityMismatch {
                            requested: self.capacity,
                            found: found as usize,
                        },
                    )
                },
                _ => OpenPhase::Comparing,
            },
            OpenPhase::Unmapping(e) => OpenPhase::Failed(e),
            OpenPhase::Complete => OpenPhase::Complete,
            OpenPhase::Failed(e) => OpenPhase::Failed(e),
        };
    }

    /// The consumer's end, or why there is none; nothing while there is more to do.
    pub fn finish(&self) -> (r: Option<Result<ShmRingReader, ShmError>>)
        requires
            self.wf(),
        ensures
            match self.phase() {
                OpenPhase::Complete => r matches Some(Ok(reader)) && reader.cap() == self.cap(),
                OpenPhase::Failed(e) => r == Some(Err::<ShmRingReader, ShmError>(e)),
                _ => r is None,
            },
    {
        match self.phase {
            OpenPhase::Complete => Some(Ok(ShmRingReader { capacity: self.capacity })),
            OpenPhase::Failed(e) => Some(Err(e)),
            _ => None,
        }
    }
}

/// The consumer's end of a shared segment.
pub struct ShmRingReader {
    capacity: usize,
}

impl ShmRingReader {
    pub closed spec fn cap(&self) -> usize {
        self.capacity
    }

    /// Open a segment that a producer has set up.
    pub fn open(name: &str, capacity: usize) -> (r: Result<ShmOpening, ShmError>)
        requires
            segment_fits(capacity),
        ensures
            r is Ok <==> name_ok(name),
            r is Err ==> r->Err_0 == ShmError::InvalidName,
            r matches Ok(o) ==> {
                &&& o.wf()
                &&& o.name() == name@
                &&& o.cap() == capacity
                &&& o.phase() is Opening
            },
    {
        if !is_name_ok(name) {
            return Err(ShmError::InvalidName);
        }
        Ok(ShmOpening { name: name.to_owned(), capacity, phase: OpenPhase::Opening })
    }

    /// Read the oldest candle of a ring that has one.
    pub fn pop(&self, memory: &mut RingMemory<Candle>) -> (r: Candle)
        requires
            old(memory).wf(),
            self.cap() == old(memory).cap(),
            old(memory).view().len() > 0,
        ensures
            final(memory).wf(),
            final(memory).cap() == old(memory).cap(),
            r == old(memory).view()[0],
            final(memory).view() == old(memory).view().drop_first(),
    {
        let found = self.try_pop(memory);
        found.unwrap()
    }

    /// The number of candles that are still to be read.
    pub fn depth(&self, memory: &RingMemory<Candle>) -> (r: u64)
        requires
            memory.wf(),
        ensures
            r == memory.view().len(),
            r <= memory.cap(),
    {
        proof {
            memory.lemma_wf();
        }
        memory.depth()
    }

    /// The number of slots.
    pub fn capacity(&self) -> (r: usize)
        ensures
            r == self.cap(),
    {
        self.capacity
    }

    /// Read the oldest candle, unless the ring is empty.
    pub fn try_pop(&self, memory: &mut RingMemory<Candle>) -> (r: Option<Candle>)
        requires
            old(memory).wf(),
            self.cap() == old(memory).cap(),
        ensures
            final(memory).wf(),
            final(memory).cap() == old(memory).cap(),
            match r {
                Some(candle) => {
                    &&& old(memory).view().len() > 0
                    &&& candle == old(memory).view()[0]
                    &&& final(memory).view() == old(memory).view().drop_first()
                },
                None => old(memory).view().len() == 0 && final(memory).view() == old(memory).view(),
            },
    {
        memory.read()
    }
}

/// A set-up that is over holds no descriptor, and a mapping only if it succeeded.
/// No event leads from a phase that holds one to one that does not, but for the
/// phase in which it is given back.
pub proof fn lemma_creation_leaks_nothing(phase: CreatePhase, event: ShmEvent)
    ensures
        phase is Complete ==> phase.holds_mapping() && !phase.holds_descriptor(),
        phase is Failed ==> !phase.holds_mapping() && !phase.holds_descriptor(),
        phase.holds_descriptor() && !phase.next(event).holds_descriptor() ==> phase is Closing
            || phase is ClosingFailed,
        phase.holds_mapping() ==> phase.next(event).holds_mapping(),
        phase is ClosingFailed ==> !phase.holds_mapping(),
{
}

/// An opening that is over holds no descriptor, and a mapping only if it
/// succeeded; a mapping that is of no use is removed.
pub proof fn lemma_opening_leaks_nothing(phase: OpenPhase, capacity: usize, event: ShmEvent)
    ensures
        phase is Complete ==> phase.holds_mapping() && !phase.holds_descriptor(),
        phase is Failed ==> !phase.holds_mapping() && !phase.holds_descriptor(),
        phase.holds_descriptor() && !phase.next(capacity, event).holds_descriptor() ==> phase
            is Closing || phase is ClosingFailed,
        phase.holds_mapping() && !phase.next(capacity, event).holds_mapping() ==> phase
            is Unmapping,
        phase is ClosingFailed ==> !phase.holds_mapping(),
{
}

/// A consumer's end is had only where the producer was ready and has the same
/// number of slots.
pub proof fn lemma_opened_with_equal_capacity(phase: OpenPhase, capacity: usize, event: ShmEvent)
    requires
        !(phase is Complete),
        phase.next(capacity, event) is Complete,
    ensures
        phase is Comparing,
        event matches ShmEvent::Capacity(found) && found as usize == capacity,
{
}

/// The comparison comes only after the producer was ready.
pub proof fn lemma_compared_when_ready(phase: OpenPhase, capacity: usize, event: ShmEvent)
    requires
        !(phase is Comparing),
        phase.next(capacity, event) is Comparing,
    ensures
        phase is Waiting,
        event matches ShmEvent::Ready { value, .. } && value == READY_MAGIC,
{
}

/// A set-up that nothing goes wrong with removes what was left behind, where it is to,
/// and then opens, sizes and maps the segment, closes the descriptor, and writes the
/// header last. It does not matter whether there was anything to remove.
pub proof fn lemma_steps_of_a_set_up(event: ShmEvent)
    ensures
        CreatePhase::Unlinking.next(event) is Opening,
        CreatePhase::Opening.next(ShmEvent::Done) is Resizing,
        CreatePhase::Resizing.next(ShmEvent::Done) is Mapping,
        CreatePhase::Mapping.next(ShmEvent::Done) is Closing,
        CreatePhase::Closing.next(event) is Writing,
        CreatePhase::Writing.next(event) is Complete,
        CreatePhase::Complete.next(event) is Complete,
{
}

/// A set-up that fails ends with the error number of the call that failed, and closes the
/// descriptor before that, if it has one.
pub proof fn lemma_failed_set_up(phase: CreatePhase, code: i32, event: ShmEvent)
    requires
        phase is Opening || phase is Resizing || phase is Mapping,
    ensures
        ({
            let then = phase.next(ShmEvent::Failed(code));
            &&& phase is Opening ==> then == CreatePhase::Failed(ShmError::Os(code))
            &&& !(phase is Opening) ==> then is ClosingFailed && then.next(event)
                == CreatePhase::Failed(ShmError::Os(code))
            &&& CreatePhase::Failed(ShmError::Os(code)).next(event) == CreatePhase::Failed(
                ShmError::Os(code),
            )
        }),
{
}

/// A segment is mapped with as many bytes as it was given: the header's, and those of its
/// slots. What is there already is kept where it is not to be replaced.
pub proof fn lemma_what_a_set_up_asks_for(c: ShmCreation, action: ShmAction)
    requires
        c.wants(action),
    ensures
        match action {
            ShmAction::Unlink => c.phase() is Unlinking,
            ShmAction::Open { create, exclusive } => c.phase() is Opening && create && exclusive
                == c.is_exclusive(),
            ShmAction::Resize { bytes } => c.phase() is Resizing && bytes == 384 + 48 * c.cap(),
            ShmAction::MapSegment { bytes } => c.phase() is Mapping && bytes == 384 + 48 * c.cap(),
            ShmAction::Close => c.phase().holds_descriptor(),
            ShmAction::WriteHeader { header } => c.phase() is Writing && header.capacity == c.cap()
                && header.head == header.tail && header.head == 0 && header.ready == READY_MAGIC,
            ShmAction::Finish => c.phase() is Complete || c.phase() is Failed,
            _ => false,
        },
{
}

/// A consumer opens what is there and makes nothing; what it maps and what it unmaps is
/// what the producer mapped.
pub proof fn lemma_what_an_opening_asks_for(o: ShmOpening, action: ShmAction)
    requires
        o.wants(action),
    ensures
        match action {
            ShmAction::Open { create, exclusive } => o.phase() is Opening && !create && !exclusive,
            ShmAction::MapSegment { bytes } => o.phase() is Mapping && bytes == 384 + 48 * o.cap(),
            ShmAction::Close => o.phase().holds_descriptor(),
            ShmAction::ReadReady => o.phase() is Waiting,
            ShmAction::ReadCapacity => o.phase() is Comparing,
            ShmAction::Unmap { bytes } => o.phase() is Unmapping && bytes == 384 + 48 * o.cap(),
            ShmAction::Finish => o.phase() is Complete || o.phase() is Failed,
            _ => false,
        },
{
}

/// An opening that nothing goes wrong with opens and maps the segment, closes the
/// descriptor, waits for the producer and compares the capacities. A failed call ends it
/// with its error number, a producer that is not ready in time with a time-out, and
/// another capacity with both of them; as long as there is time it waits.
pub proof fn lemma_steps_of_an_opening(
    capacity: usize,
    event: ShmEvent,
    code: i32,
    value: u64,
    found: usize,
)
    requires
        value != READY_MAGIC,
        found != capacity,
    ensures
        ({
            let failed = ShmEvent::Failed(code);
            let unready = |expired: bool| ShmEvent::Ready { value, expired };
            &&& OpenPhase::Opening.next(capacity, ShmEvent::Done) is Mapping
            &&& OpenPhase::Opening.next(capacity, failed) == OpenPhase::Failed(ShmError::Os(code))
            &&& OpenPhase::Mapping.next(capacity, ShmEvent::Done) is Closing
            &&& OpenPhase::Mapping.next(capacity, failed) == OpenPhase::ClosingFailed(
                ShmError::Os(code),
            )
            &&& OpenPhase::ClosingFailed(ShmError::Os(code)).next(capacity, event)
                == OpenPhase::Failed(ShmError::Os(code))
            &&& OpenPhase::Closing.next(capacity, event) is Waiting
            &&& OpenPhase::Waiting.next(
                capacity,
                ShmEvent::Ready { value: READY_MAGIC, expired: true },
            ) is Comparing
            &&& OpenPhase::Waiting.next(
                capacity,
                ShmEvent::Ready { value: READY_MAGIC, expired: false },
            ) is Comparing
            &&& OpenPhase::Waiting.next(capacity, unready(false)) is Waiting
            &&& OpenPhase::Waiting.next(capacity, unready(true)) == OpenPhase::Unmapping(
                ShmError::TimedOut,
            )
            &&& OpenPhase::Unmapping(ShmError::TimedOut).next(capacity, event)
                == OpenPhase::Failed(ShmError::TimedOut)
            &&& OpenPhase::Comparing.next(capacity, ShmEvent::Capacity(capacity as u64)) is Complete
            &&& OpenPhase::Comparing.next(capacity, ShmEvent::Capacity(found as u64))
                == OpenPhase::Unmapping(
                ShmError::CapacityMismatch { requested: capacity, found },
            )
        }),
{
}

/// Who is told of two capacities that do not agree is told first what was asked for and
/// then what there is.
pub proof fn lemma_mismatch_names_both(requested: usize, found: usize) -> (parts: (
    Seq<char>,
    Seq<char>,
    Seq<char>,
))
    ensures
        (ShmError::CapacityMismatch { requested, found }).text() == Some(
            parts.0 + text::digits(requested as nat) + parts.1 + text::digits(found as nat)
                + parts.2,
        ),
        parts.0 == "ShmRingReader capacity mismatch: reader requested "@,
        parts.1 == ", writer created segment with "@,
{
    (
        "ShmRingReader capacity mismatch: reader requested "@,
        ", writer created segment with "@,
        ". The producer and consumer must agree on the ring size."@,
    )
}

} // verus!
