//! The global logger: who may write to the log, and what becomes of interrupts
//! meanwhile.
use vstd::prelude::*;

use crate::packing;
use crate::producer;
use crate::producer::{LogProducer, MAX_ENCODING_SIZE};
use crate::queue::LOG_BUFFER_SIZE;

verus! {

/// Whether the logger has been handed out, and what to do when it is given back.
#[derive(Clone, Copy, Debug, PartialEq, Eq, Structural)]
pub struct Logger {
    /// Whether the logger has been handed out.
    pub taken: bool,
    /// Whether interrupts were active when it was.
    pub interrupts_active: bool,
}

/// The answer to a request for the logger, for which interrupts are disabled.
#[derive(Clone, Copy, Debug, PartialEq, Eq, Structural)]
pub enum Acquired {
    /// The logger is handed out; interrupts stay disabled.
    Granted,
    /// The logger is in use; interrupts are enabled again if they were active.
    Refused {
        /// Whether to enable interrupts.
        enable_interrupts: bool,
    },
}

/// The frame of the message `bytes`, or nothing where there is no room for it.
pub open spec fn message_frame(bytes: Seq<u8>) -> Option<Seq<u8>> {
    let done = producer::encoding(0, 0, MAX_ENCODING_SIZE - 1, bytes);
    producer::sealed(
        done.out,
        done.run,
        done.zeros,
        MAX_ENCODING_SIZE - 1 - done.out.len(),
    )
}

impl Logger {
    /// The logger after a request for it, and the answer: it is handed out
    /// where it has not been before.
    pub open spec fn acquired(self, interrupts_active: bool) -> (Logger, Acquired) {
        if self.taken {
            (self, Acquired::Refused { enable_interrupts: interrupts_active })
        } else {
            (Logger { taken: true, interrupts_active }, Acquired::Granted)
        }
    }

    /// The logger after it has been given back, and whether to enable interrupts.
    pub open spec fn released(self) -> (Logger, bool) {
        (Logger { taken: false, ..self }, self.interrupts_active)
    }

    /// A logger that has not been handed out.
    pub fn new() -> (r: Self)
        ensures
            !r.taken,
            !r.interrupts_active,
    {
        Logger { taken: false, interrupts_active: false }
    }

    /// Hands out the logger, unless it has been handed out already. Interrupts
    /// are disabled; `interrupts_active` says whether they were active before.
    pub fn acquire(&mut self, interrupts_active: bool) -> (r: Acquired)
        ensures
            (*final(self), r) == old(self).acquired(interrupts_active),
    {
        if !self.taken {
            // no need for CAS because interrupts are disabled
            self.taken = true;
            self.interrupts_active = interrupts_active;
            Acquired::Granted
        } else {
            // re-enable interrupts
            Acquired::Refused { enable_interrupts: interrupts_active }
        }
    }

    /// Gives the logger back, and says whether to enable interrupts.
    pub fn release(&mut self) -> (r: bool)
        ensures
            (*final(self), r) == old(self).released(),
    {
        self.taken = false;
        self.interrupts_active
    }

    /// Writes `bytes` to the log: as a part of the frame that has been begun,
    /// or else as a frame of its own. What does not fit is lost.
    pub fn write(&self, handle: &mut LogProducer, bytes: &[u8])
        requires
            old(handle).valid(),
        ensures
            final(handle).valid(),
            final(handle).blocks() == old(handle).blocks(),
            final(handle).encoding() == old(handle).encoding(),
            old(handle).encoding() ==> {
                let done = producer::encoding(
                    old(handle).state().0,
                    old(handle).state().1,
                    old(handle).room(),
                    bytes@,
                );
                &&& final(handle).sent() == old(handle).sent()
                &&& final(handle).state() == (done.run, done.zeros)
                &&& final(handle).written() == old(handle).written() + done.out
                &&& final(handle).room() == old(handle).room() - done.out.len()
                &&& done.out.len() <= producer::largest(
                    old(handle).state().0 as int,
                    bytes@.len() as int,
                )
                &&& bytes@.len() > 0 ==> final(handle).begun_with()
            },
            !old(handle).encoding() ==> final(handle).sent() == old(handle).sent() || (
            message_frame(bytes@) matches Some(frame) && final(handle).sent() == old(
                handle,
            ).sent().push(frame) && producer::single_frame(frame) && (bytes@.len() > 0 ==> frame.len()
                > 1)),
            !old(handle).encoding() ==> exists|outcome|
                {
                    &&& #[trigger] old(handle).grant_gives(outcome)
                    &&& match message_frame(bytes@) {
                        Some(frame) => outcome is Ok ==> final(handle).sent() == old(
                            handle,
                        ).sent().push(frame),
                        None => true,
                    }
                },
            !old(handle).encoding() && old(handle).committed().len() + MAX_ENCODING_SIZE
                <= LOG_BUFFER_SIZE ==> match message_frame(bytes@) {
                Some(frame) => final(handle).sent() == old(handle).sent().push(frame),
                None => {
                    &&& final(handle).sent() == old(handle).sent()
                    &&& producer::largest(0, bytes@.len() as int) >= MAX_ENCODING_SIZE - 1
                },
            },
    {
        let started = handle.start_encoder();
        self.write_started(started.is_ok(), handle, bytes)
    }

    /// Writes `bytes` to the log when a frame has been begun for them, as
    /// `started` says, or has not.
    pub fn write_started(&self, started: bool, handle: &mut LogProducer, bytes: &[u8])
        requires
            old(handle).valid(),
            started ==> {
                &&& old(handle).encoding()
                &&& old(handle).state() == (0u8, 0u8)
                &&& old(handle).written() == Seq::<u8>::empty()
                &&& old(handle).room() == MAX_ENCODING_SIZE - 1
            },
        ensures
            final(handle).valid(),
            final(handle).blocks() == old(handle).blocks(),
            started ==> !final(handle).encoding() && match message_frame(bytes@) {
                Some(frame) => {
                    &&& final(handle).sent() == old(handle).sent().push(frame)
                    &&& producer::single_frame(frame)
                    &&& bytes@.len() > 0 ==> frame.len() > 1
                },
                None => {
                    &&& final(handle).sent() == old(handle).sent()
                    &&& producer::largest(0, bytes@.len() as int) >= MAX_ENCODING_SIZE - 1
                },
            },
            !started && old(handle).encoding() ==> {
                let done = producer::encoding(
                    old(handle).state().0,
                    old(handle).state().1,
                    old(handle).room(),
                    bytes@,
                );
                &&& final(handle).encoding()
                &&& final(handle).sent() == old(handle).sent()
                &&& final(handle).state() == (done.run, done.zeros)
                &&& final(handle).written() == old(handle).written() + done.out
                &&& final(handle).room() == old(handle).room() - done.out.len()
                &&& done.out.len() <= producer::largest(
                    old(handle).state().0 as int,
                    bytes@.len() as int,
                )
                &&& bytes@.len() > 0 ==> final(handle).begun_with()
            },
            !old(handle).encoding() ==> *final(handle) == *old(handle),
    {
        let ghost begun = *handle;
        let _ = handle.encode(bytes);
        if started {
            assert(begun.written() + producer::encoding(0, 0, MAX_ENCODING_SIZE - 1, bytes@).out
                =~= producer::encoding(0, 0, MAX_ENCODING_SIZE - 1, bytes@).out);
            let _ = handle.finalize_encoder();
        }
    }
}

/// While the logger is handed out every other request is refused and changes
/// nothing, and its return restores interrupts as they were when it was handed out.
pub proof fn law_interrupts_restored(logger: Logger, active: bool, other: bool)
    requires
        !logger.taken,
    ensures
        ({
            let (held, answer) = logger.acquired(active);
            let (still_held, refusal) = held.acquired(other);
            let (back, enable) = still_held.released();
            &&& answer == Acquired::Granted
            &&& refusal == Acquired::Refused { enable_interrupts: other }
            &&& still_held == held
            &&& enable == active
            &&& !back.taken
        }),
{
}

/// A message for which there is room, whatever its bytes, has a frame, and the
/// frame stands for it with up to six zeros behind it.
pub proof fn law_message_frame(message: Seq<u8>)
    requires
        producer::largest(0, message.len() as int) < MAX_ENCODING_SIZE - 1,
    ensures
        message_frame(message) matches Some(frame) && {
            &&& frame.len() <= MAX_ENCODING_SIZE
            &&& message.len() > 0 ==> frame.len() > 1
            &&& packing::stands_for(producer::masked(frame.drop_last()), message)
        },
{
    let room = MAX_ENCODING_SIZE - 1;
    let none = Seq::<u8>::empty();
    let done = producer::encoding(0, 0, room, message);
    producer::law_room_for_message(0, 0, room, message);
    producer::law_nothing_packed();
    producer::law_message_packed(none, none, 0, 0, room, message);
    assert(none + message =~= message);
    assert(none + done.out =~= done.out);
    producer::law_frame_stands_for_message(
        message,
        done.out,
        done.run,
        done.zeros,
        room - done.out.len(),
    );
}

} // verus!
