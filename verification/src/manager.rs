//! The reading end of the log, with the storage behind it.
use vstd::prelude::*;

use crate::error;
use crate::error::Error;
use crate::frames;
use crate::helper;
use crate::helper::StorageHelper;
use crate::laws;
use crate::layout;
use crate::producer;
use crate::producer::{set_producer, LogProducer};
use crate::queue;
use crate::queue::{LogBuffer, QueueConsumer, QueueError, QueueProducer, ReadGrant};
use crate::storage;
use crate::storage::{ErasableStorage, Fault, Medium, Storage, COBS_SENTINEL_BYTE};

verus! {

/// Moves frames from the log buffer to a storage, and reads them back.
pub struct LogManager<S> {
    inner: Option<QueueConsumer>,
    helper: StorageHelper<S>,
}

/// What draining reports when the log buffer gives nothing to read: that
/// nothing has been drained, or that the buffer is in use.
pub fn refused_outcome(e: QueueError) -> (r: Result<usize, Error>)
    ensures
        r == if e == QueueError::InsufficientSize {
            Ok::<usize, Error>(0)
        } else {
            Err(Error::BBBuffer)
        },
{
    match e {
        QueueError::InsufficientSize => Ok(0),
        _ => Err(Error::BBBuffer),
    }
}

impl<S> LogManager<S> where S: Storage + ErasableStorage {
    /// Whether there is an end of the log buffer to read from, and what has
    /// been taken out of the log buffer is whole.
    pub closed spec fn valid(self) -> bool {
        self.inner is Some && self.whole()
    }

    /// All the blocks of bytes that ever pass the log buffer.
    pub closed spec fn blocks(self) -> Seq<Seq<u8>> {
        queue::blocks_out(self.inner->0)
    }

    /// Whether what has been taken out of the log buffer are the first blocks
    /// that pass it, each of them whole.
    pub open spec fn whole(self) -> bool {
        queue::at_boundary(self.released(), self.blocks())
    }

    /// The log in the storage.
    pub closed spec fn log(self) -> StorageHelper<S> {
        self.helper
    }

    /// The bytes that have been taken out of the log buffer.
    pub closed spec fn released(self) -> Seq<u8> {
        queue::released(self.inner->0)
    }

    /// Whether `outcome` is what the log buffer has answered to a request for
    /// its two ends.
    pub closed spec fn split_gives(
        buffer: &'static LogBuffer,
        outcome: Result<(QueueProducer, QueueConsumer), QueueError>,
    ) -> bool {
        call_ensures(queue::try_split, (buffer,), outcome)
    }

    /// Whether `outcome` is what the log buffer has answered to a request for
    /// bytes to read at the end that the manager has.
    pub closed spec fn read_gives(
        self,
        outcome: Result<ReadGrant, (QueueConsumer, QueueError)>,
    ) -> bool {
        call_ensures(queue::read, (self.inner->0,), outcome)
    }

    /// Whether setting up a manager for an empty slot can have the result `r`
    /// and turn `first` into `next`, when the log buffer answers with `outcome`.
    pub open spec fn opens(
        first: Medium,
        next: Medium,
        outcome: Result<(QueueProducer, QueueConsumer), QueueError>,
        r: Result<Self, Error>,
    ) -> bool {
        match outcome {
            Ok(_) => StorageHelper::opening(first, next, Self::log_of(r)),
            Err(_) => r == Err::<Self, Error>(Error::BBBuffer) && next == first,
        }
    }

    /// Whether draining can have the result `r`, and turn `self` into `after`
    /// and `first` into `next`, when the log buffer answers with `outcome`.
    pub open spec fn drains(
        self,
        after: Self,
        first: Medium,
        next: Medium,
        outcome: Result<ReadGrant, (QueueConsumer, QueueError)>,
        r: Result<usize, Error>,
    ) -> bool {
        match outcome {
            Ok(grant) => {
                &&& 0 < queue::readable(grant).len()
                &&& Self::storing(
                    self.log(),
                    after.log(),
                    first,
                    next,
                    queue::readable(grant),
                    r,
                )
                &&& after.released() == if r is Ok {
                    self.released() + queue::readable(grant)
                } else {
                    self.released()
                }
            },
            Err(refused) => {
                &&& r == if refused.1 == QueueError::InsufficientSize {
                    Ok::<usize, Error>(0)
                } else {
                    Err(Error::BBBuffer)
                }
                &&& after.released() == self.released()
                &&& after.log() == self.log()
                &&& next == first
            },
        }
    }

    /// The log that opening has given, or why it has given none.
    pub open spec fn log_of(r: Result<Self, Error>) -> Result<StorageHelper<S>, Error> {
        match r {
            Ok(manager) => Ok(manager.log()),
            Err(e) => Err(e),
        }
    }

    /// Initialize a new LogManager.
    ///
    /// This function can only be called once, and will return `Error` if called
    /// multiple times: where there is a producer in `slot`, or the ends of
    /// `buffer` have been handed out. It puts the other end of `buffer` in `slot`.
    #[verifier::spinoff_prover]
    #[verifier::rlimit(60)]
    pub fn try_new(
        buffer: &'static LogBuffer,
        storage: &mut S,
        slot: &mut Option<LogProducer>,
    ) -> (r: Result<Self, Error>)
        requires
            8 <= old(storage).medium().bytes.len() <= u32::MAX,
            old(storage).medium().bytes.len() % 8 == 0,
        ensures
            *old(slot) is Some ==> r == Err::<Self, Error>(Error::BBBuffer),
            *old(slot) is None ==> exists|outcome|
                {
                    let first = old(storage).medium();
                    &&& #[trigger] Self::split_gives(buffer, outcome)
                    &&& Self::opens(first, final(storage).medium(), outcome, r)
                    &&& r == Err::<Self, Error>(Error::BBBuffer) <==> outcome is Err
                    &&& outcome is Ok && first.reliable && (first.bytes.subrange(0, 8) == seq![
                        0xFEu8,
                        0xED,
                        0xBE,
                        0xEF,
                        0xCA,
                        0xFE,
                        0xBA,
                        0xBE,
                    ] || !first.locked.contains(0)) ==> r is Ok
                },
            ({
                let first = old(storage).medium();
                let next = final(storage).medium();
                let put = *final(slot);
                &&& r == Err::<Self, Error>(Error::BBBuffer) ==> next == first && put == *old(
                    slot,
                )
                &&& r != Err::<Self, Error>(Error::BBBuffer) ==> {
                    &&& StorageHelper::opening(first, next, Self::log_of(r))
                    &&& put matches Some(producer) && {
                        &&& producer.valid()
                        &&& !producer.encoding()
                        &&& producer.sent() == Seq::<Seq<u8>>::empty()
                        &&& r matches Ok(manager) ==> {
                            &&& manager.valid()
                            &&& manager.released() == Seq::<u8>::empty()
                            &&& manager.whole()
                            &&& manager.blocks() == producer.blocks()
                        }
                    }
                }
            }),
    {
        if slot.is_some() {
            return Err(Error::BBBuffer);
        }
        // NOTE: A buffer can only be split once, which makes this function non-reentrant
        let outcome = queue::try_split(buffer);
        proof {
            let none = queue::blocks_out(outcome->Ok_0.1).take(0);
            assert(none =~= Seq::empty());
            assert(none.flatten() =~= Seq::empty());
            assert(Self::split_gives(buffer, outcome));
            if !old(storage).medium().locked.contains(0) {
                assert(old(storage).medium().writable(0, 8));
            }
        }
        Self::opened(outcome, storage, slot)
    }

    /// Puts one end of the log buffer in `slot` and opens the log in `storage`
    /// for the other, if the ends have been handed out.
    pub fn opened(
        outcome: Result<(QueueProducer, QueueConsumer), QueueError>,
        storage: &mut S,
        slot: &mut Option<LogProducer>,
    ) -> (r: Result<Self, Error>)
        requires
            8 <= old(storage).medium().bytes.len() <= u32::MAX,
            old(storage).medium().bytes.len() % 8 == 0,
            outcome matches Ok(ends) ==> {
                &&& queue::sent(ends.0).is_prefix_of(queue::blocks_in(ends.0))
                &&& producer::all_frames(queue::sent(ends.0))
                &&& queue::at_boundary(queue::released(ends.1), queue::blocks_out(ends.1))
            },
        ensures
            ({
                let first = old(storage).medium();
                let next = final(storage).medium();
                let put = *final(slot);
                match outcome {
                    Ok(ends) => {
                        &&& StorageHelper::opening(first, next, Self::log_of(r))
                        &&& put matches Some(producer) && {
                            &&& producer.valid()
                            &&& !producer.encoding()
                            &&& producer.sent() == queue::sent(ends.0)
                            &&& producer.blocks() == queue::blocks_in(ends.0)
                        }
                        &&& r matches Ok(manager) ==> {
                            &&& manager.valid()
                            &&& manager.released() == queue::released(ends.1)
                            &&& manager.whole()
                            &&& manager.blocks() == queue::blocks_out(ends.1)
                        }
                    },
                    Err(_) => {
                        &&& r == Err::<Self, Error>(Error::BBBuffer)
                        &&& next == first
                        &&& put == *old(slot)
                    },
                }
            }),
    {
        match outcome {
            Ok((prod, cons)) => {
                set_producer(slot, prod);
                match StorageHelper::try_new(storage) {
                    Ok(helper) => Ok(Self { inner: Some(cons), helper }),
                    Err(e) => Err(e),
                }
            },
            Err(_) => Err(Error::BBBuffer),
        }
    }

    /// Whether `data` has been written to the log in a storage, or has been
    /// refused, with the result `r`: `before` and `first` have become `after`
    /// and `next`.
    pub open spec fn storing(
        before: StorageHelper<S>,
        after: StorageHelper<S>,
        first: Medium,
        next: Medium,
        data: Seq<u8>,
        r: Result<usize, Error>,
    ) -> bool {
        let page = S::page_size() as int;
        let len = layout::padded_len(data.len() as int);
        let plan = layout::plan(first.bytes, page, before.write_addr() as int, len);
        let accepted = layout::accepts(
            first.bytes.len() as int,
            page,
            data.len() as int,
        );
        &&& r matches Ok(n) ==> {
            &&& accepted
            &&& n == data.len()
            &&& layout::stored(first, next, page, plan, data)
            &&& after.write_addr() == plan.pos + len
            &&& after.read_addr() == before.read_addr()
            &&& after.valid(next.bytes)
        }
        &&& r matches Err(e) ==> {
            &&& e != Error::BBBuffer
            &&& e == Error::StorageErase ==> plan.wraps || plan.clears
            &&& e == Error::StorageRead && !plan.wraps ==> next == first.failed(Fault::Read)
            &&& e == Error::StorageRead ==> next.bytes == first.bytes || next.bytes
                == layout::restarted(first.bytes, page)
            &&& after == before
        }
        &&& r == Err::<usize, Error>(Error::StorageSize) <==> !accepted
        &&& !accepted ==> next == first
        &&& next.bytes.len() == first.bytes.len()
        &&& next.reliable == first.reliable
        &&& next.faults == error::faulted(first.faults, r)
        &&& first.reliable && accepted ==> (r is Ok <==> layout::place_writable(
            first,
            page,
            plan,
            len,
        ))
        &&& first.reliable && accepted && r is Err ==> {
            &&& r == Err::<usize, Error>(Error::StorageWrite)
            &&& next.bytes == storage::patched(
                layout::prepared(first.bytes, page, plan),
                plan.pos,
                layout::taken(
                    data,
                    layout::place_writable(
                        first,
                        page,
                        plan,
                        data.len() as int / 8 * 8,
                    ),
                ),
            )
        }
    }

    /// Writes `data` to the log in the storage, if it has a place there.
    pub fn store(helper: &mut StorageHelper<S>, storage: &mut S, data: &[u8]) -> (r: Result<
        usize,
        Error,
    >)
        requires
            layout::paged(old(storage).medium().bytes, S::page_size() as int),
            old(helper).valid(old(storage).medium().bytes),
            data@.len() > 0,
        ensures
            Self::storing(
                *old(helper),
                *final(helper),
                old(storage).medium(),
                final(storage).medium(),
                data@,
                r,
            ),
    {
        proof {
            S::erase_size();
        }
        let len: usize = data.len();
        let capacity: usize = storage.capacity();
        let page: usize = S::ERASE_SIZE as usize;
        // Data slice size can't be more than a minimum erase size, nor, where
        // there is but one page, more than the magic word leaves of it
        let free: usize = if page < capacity {
            page
        } else {
            page - 8
        };
        if len > free {
            return Err(Error::StorageSize);
        }
        match helper.write_slice(storage, data) {
            Ok(_) => Ok(len),
            Err(e) => Err(e),
        }
    }

    /// Drains the log buffer into persistent storage.
    ///
    /// It's better to call this function as rare as possible as this may help to
    /// use persistent storage memory more optimally.
    ///
    /// **NOTE**: This function may be IO-heavy, and should ideally be called only
    /// when the processor is otherwise idle.
    #[verifier::spinoff_prover]
    #[verifier::rlimit(60)]
    pub fn drain_storage(&mut self, storage: &mut S) -> (r: Result<usize, Error>)
        requires
            old(self).valid(),
            layout::paged(old(storage).medium().bytes, S::page_size() as int),
            old(self).log().valid(old(storage).medium().bytes),
        ensures
            final(self).valid(),
            final(self).whole(),
            final(self).blocks() == old(self).blocks(),
            exists|outcome|
                {
                    &&& #[trigger] old(self).read_gives(outcome)
                    &&& old(self).drains(
                        *final(self),
                        old(storage).medium(),
                        final(storage).medium(),
                        outcome,
                        r,
                    )
                    &&& match outcome {
                        Ok(grant) => {
                            let data = queue::readable(grant);
                            &&& Self::storing(
                                old(self).log(),
                                final(self).log(),
                                old(storage).medium(),
                                final(storage).medium(),
                                data,
                                r,
                            )
                            &&& r != Err::<usize, Error>(Error::BBBuffer)
                            &&& r matches Ok(n) ==> 0 < n == data.len() && final(self).released()
                                == old(self).released() + data
                        },
                        Err(refused) => r == if refused.1 == QueueError::InsufficientSize {
                            Ok::<usize, Error>(0)
                        } else {
                            Err(Error::BBBuffer)
                        },
                    }
                },
            ({
                let first = old(storage).medium();
                let next = final(storage).medium();
                let page = S::page_size() as int;
                &&& r matches Ok(n) ==> {
                    let before = old(self).released();
                    let data = final(self).released().skip(before.len() as int);
                    let len = layout::padded_len(n as int);
                    let plan = layout::plan(
                        first.bytes,
                        page,
                        old(self).log().write_addr() as int,
                        len,
                    );
                    &&& final(self).released() == before + data
                    &&& n == data.len()
                    &&& n == 0 ==> next == first && final(self).log() == old(self).log()
                    &&& n > 0 ==> {
                        &&& layout::stored(first, next, page, plan, data)
                        &&& final(self).log().write_addr() == plan.pos + len
                        &&& final(self).log().read_addr() == old(self).log().read_addr()
                        &&& final(self).log().valid(next.bytes)
                    }
                }
                &&& r matches Err(e) ==> {
                    &&& final(self).released() == old(self).released()
                    &&& final(self).log() == old(self).log()
                    &&& e == Error::BBBuffer || e == Error::StorageSize ==> next == first
                    &&& e != Error::BBBuffer ==> exists|data: Seq<u8>|
                        {
                            &&& 0 < data.len()
                            &&& queue::at_boundary(old(self).released() + data, old(self).blocks())
                            &&& #[trigger] Self::storing(
                                old(self).log(),
                                final(self).log(),
                                first,
                                next,
                                data,
                                r,
                            )
                        }
                }
                &&& next.bytes.len() == first.bytes.len()
                &&& next.reliable == first.reliable
                &&& next.faults == error::faulted(first.faults, r)
            }),
    {
        let ghost before = self.released();
        match self.inner.take() {
            Some(consumer) => {
                let outcome = queue::read(consumer);
                let ghost given = outcome;
                assert(old(self).read_gives(given));
                let (consumer, r) = Self::drain_outcome(&mut self.helper, storage, outcome);
                self.inner = Some(consumer);
                proof {
                    match given {
                        Ok(grant) => {
                            let data = queue::readable(grant);
                            assert((before + data).skip(before.len() as int) =~= data);
                            assert(Self::storing(
                                old(self).log(),
                                self.log(),
                                old(storage).medium(),
                                storage.medium(),
                                data,
                                r,
                            ));
                        },
                        Err(_) => {
                            assert(before.skip(before.len() as int) =~= Seq::empty());
                            assert(before + Seq::<u8>::empty() =~= before);
                        },
                    }
                }
                r
            },
            None => Err(Error::BBBuffer),
        }
    }

    /// Drains what the log buffer gives to read, or reports that it gives
    /// nothing. Returns the end of the log buffer, at which the bytes have been
    /// released if they have been stored.
    #[verifier::spinoff_prover]
    #[verifier::rlimit(60)]
    pub fn drain_outcome(
        helper: &mut StorageHelper<S>,
        storage: &mut S,
        outcome: Result<ReadGrant, (QueueConsumer, QueueError)>,
    ) -> (r: (QueueConsumer, Result<usize, Error>))
        requires
            layout::paged(old(storage).medium().bytes, S::page_size() as int),
            old(helper).valid(old(storage).medium().bytes),
            outcome matches Ok(grant) ==> 0 < queue::readable(grant).len(),
        ensures
            match outcome {
                Ok(grant) => {
                    let end = queue::consumer_of(grant);
                    let data = queue::readable(grant);
                    &&& Self::storing(
                        *old(helper),
                        *final(helper),
                        old(storage).medium(),
                        final(storage).medium(),
                        data,
                        r.1,
                    )
                    &&& queue::blocks_out(r.0) == queue::blocks_out(end)
                    &&& queue::released(r.0) == if r.1 is Ok {
                        queue::released(end) + data
                    } else {
                        queue::released(end)
                    }
                },
                Err((consumer, e)) => {
                    &&& r.0 == consumer
                    &&& r.1 == if e == QueueError::InsufficientSize {
                        Ok::<usize, Error>(0)
                    } else {
                        Err(Error::BBBuffer)
                    }
                    &&& *final(helper) == *old(helper)
                    &&& final(storage).medium() == old(storage).medium()
                },
            },
    {
        match outcome {
            Ok(grant) => {
                let ghost data = queue::readable(grant);
                match Self::store(helper, storage, queue::read_buf(&grant)) {
                    Ok(len) => {
                        assert(data.take(len as int) =~= data);
                        (queue::release(grant, len), Ok(len))
                    },
                    Err(e) => (queue::give_back(grant), Err(e)),
                }
            },
            Err((consumer, e)) => (consumer, refused_outcome(e)),
        }
    }

    /// Reads log frames from storage
    ///
    /// Pushes complete log frames into `buf` until a log frame can no longer
    /// fit into `buf`, or there is no more complete log frames available in
    /// storage.
    ///
    /// Returns the number of bytes pushed to `buf`
    pub fn retrieve_frames(&mut self, storage: &mut S, buf: &mut [u8]) -> (r: Result<usize, Error>)
        requires
            old(storage).medium().bytes.len() <= u32::MAX,
        ensures
            final(self).valid() == old(self).valid(),
            final(self).blocks() == old(self).blocks(),
            final(self).released() == old(self).released(),
            ({
                let bytes = old(storage).medium().bytes;
                let from = old(self).log().read_addr() as int;
                let found = frames::frames(bytes, from);
                let count = frames::fitting(found, old(buf)@.len() as int);
                let out = frames::delimited(found.take(count as int));
                &&& r matches Ok(n) ==> {
                    &&& n == out.len()
                    &&& final(buf)@ == out + old(buf)@.skip(out.len() as int)
                    &&& final(self).log().read_addr() == frames::resume(bytes, from, count)
                    &&& final(self).log().write_addr() == old(self).log().write_addr()
                }
                &&& r matches Err(e) ==> e == Error::StorageRead && final(self).log() == old(
                    self,
                ).log()
            }),
            final(storage).medium() == old(storage).medium().read(r is Ok),
            final(buf)@.len() == old(buf)@.len(),
            old(storage).medium().reliable ==> r is Ok,
    {
        Self::retrieve_frames_helper(&mut self.helper, storage, buf)
    }

    /// Scans storage area for COBS-encoded frames.
    /// Skips sequences of `COBS_SENTINEL_BYTE`s of any length.
    ///
    /// Due to possible wrapping during writes, the frames may appear in random order.
    /// It is recommended for frames contain a timestamp and to be sorted using it by a host application.
    pub fn retrieve_frames_helper(
        helper: &mut StorageHelper<S>,
        storage: &mut S,
        buf: &mut [u8],
    ) -> (r: Result<usize, Error>)
        requires
            old(storage).medium().bytes.len() <= u32::MAX,
        ensures
            ({
                let bytes = old(storage).medium().bytes;
                let from = old(helper).read_addr() as int;
                let found = frames::frames(bytes, from);
                let count = frames::fitting(found, old(buf)@.len() as int);
                let out = frames::delimited(found.take(count as int));
                &&& r matches Ok(n) ==> {
                    &&& n == out.len()
                    &&& final(buf)@ == out + old(buf)@.skip(out.len() as int)
                    &&& final(helper).read_addr() == frames::resume(bytes, from, count)
                    &&& final(helper).write_addr() == old(helper).write_addr()
                }
                &&& r matches Err(e) ==> e == Error::StorageRead && *final(helper) == *old(helper)
            }),
            final(storage).medium() == old(storage).medium().read(r is Ok),
            final(buf)@.len() == old(buf)@.len(),
            old(storage).medium().reliable ==> r is Ok,
    {
        helper.read_frames(storage, buf)
    }
}

/// What is drained from the log buffer is what has been put in it: the bytes of
/// the frames, in their order, with none left out and none twice.
pub proof fn law_drained_as_committed<S: Storage + ErasableStorage>(
    manager: LogManager<S>,
    producer: LogProducer,
)
    requires
        manager.valid(),
        producer.valid(),
        manager.blocks() == producer.blocks(),
        manager.released().len() <= producer.committed().len(),
    ensures
        exists|count: int|
            0 <= count <= producer.sent().len() && manager.released() == (
            #[trigger] producer.sent().take(count)).flatten(),
{
    let blocks = producer.blocks();
    let sent = producer.sent();
    producer.lemma_sent_first();
    let k = choose|k: int|
        0 <= k <= blocks.len() && manager.released() == (#[trigger] blocks.take(k)).flatten();
    assert(blocks.take(sent.len() as int) =~= sent);
    if k <= sent.len() {
        assert(sent.take(k) =~= blocks.take(k));
    } else {
        queue::lemma_first_blocks(blocks, sent.len() as int, k);
        assert(manager.released() =~= sent.flatten());
        assert(sent.take(sent.len() as int) =~= sent);
    }
}

/// A drain takes whole frames: what `after` has released more than `before` are
/// consecutive frames that have been put in the log buffer.
pub proof fn law_drained_frames<S: Storage + ErasableStorage>(
    before: LogManager<S>,
    after: LogManager<S>,
    producer: LogProducer,
    data: Seq<u8>,
)
    requires
        before.valid(),
        after.valid(),
        producer.valid(),
        before.blocks() == producer.blocks(),
        after.blocks() == producer.blocks(),
        after.released() == before.released() + data,
        after.released().len() <= producer.committed().len(),
    ensures
        exists|first: int, last: int|
            #![trigger producer.sent().subrange(first, last)]
            drained(producer.sent(), before.released(), data, first, last),
{
    let sent = producer.sent();
    law_drained_as_committed(before, producer);
    law_drained_as_committed(after, producer);
    let a = choose|a: int|
        0 <= a <= sent.len() && before.released() == (#[trigger] sent.take(a)).flatten();
    let b = choose|b: int|
        0 <= b <= sent.len() && after.released() == (#[trigger] sent.take(b)).flatten();
    let first = if a <= b {
        a
    } else {
        b
    };
    if a > b {
        queue::lemma_first_blocks(sent, b, a);
        assert(before.released() =~= after.released());
    }
    queue::lemma_first_blocks(sent, first, b);
    let len = before.released().len() as int;
    assert(data =~= after.released().skip(len));
    assert(sent.subrange(first, b).flatten() =~= after.released().skip(len));
    assert(drained(sent, before.released(), data, first, b));
}

/// Whether `data` are the frames of `sent` from `first` up to `last`, and those
/// before them are the `earlier` bytes.
pub open spec fn drained(
    sent: Seq<Seq<u8>>,
    earlier: Seq<u8>,
    data: Seq<u8>,
    first: int,
    last: int,
) -> bool {
    &&& 0 <= first <= last <= sent.len()
    &&& earlier == sent.take(first).flatten()
    &&& data == sent.subrange(first, last).flatten()
}

/// What has been logged and drained is retrieved: when a drain has stored `data`
/// in the erased rest of a log, behind a separator, a buffer with room for all
/// frames of the log gets those from before and then the messages of the
/// frames that were drained. Where a first drain takes all that has been put
/// in the log buffer, these are all that have been logged.
#[verifier::spinoff_prover]
#[verifier::rlimit(60)]
pub proof fn law_drained_is_retrieved<S: Storage + ErasableStorage>(
    before: LogManager<S>,
    after: LogManager<S>,
    producer: LogProducer,
    first: Medium,
    next: Medium,
    data: Seq<u8>,
    from: int,
    room: int,
)
    requires
        before.valid(),
        after.valid(),
        producer.valid(),
        before.blocks() == producer.blocks(),
        after.blocks() == producer.blocks(),
        after.released() == before.released() + data,
        after.released().len() <= producer.committed().len(),
        0 < data.len(),
        ({
            let page = S::page_size() as int;
            let head = before.log().write_addr() as int;
            let len = layout::padded_len(data.len() as int);
            &&& layout::paged(first.bytes, page)
            &&& 8 <= from <= head < first.bytes.len()
            &&& head % 8 == 0
            &&& layout::accepts(first.bytes.len() as int, page, data.len() as int)
            &&& layout::blank(first.bytes, head, first.bytes.len() as int)
            &&& from == head || first.bytes[head - 1] == COBS_SENTINEL_BYTE
            &&& layout::fit(head, len, page) + len <= first.bytes.len()
            &&& layout::stored(first, next, page, layout::plan(first.bytes, page, head, len), data)
        }),
        frames::delimited(frames::frames(first.bytes, from)).len() + data.len() <= room,
    ensures
        ({
            let earlier = frames::frames(first.bytes, from);
            let found = frames::frames(next.bytes, from);
            let read = found.take(frames::fitting(found, room) as int);
            let sent = producer.sent();
            &&& exists|i: int, k: int|
                drained(sent, before.released(), data, i, k) && read == earlier + laws::logged(
                    #[trigger] sent.subrange(i, k),
                )
            &&& before.released().len() == 0 && after.released() == producer.committed() ==> read
                == earlier + laws::logged(sent)
        }),
{
    let sent = producer.sent();
    law_drained_frames(before, after, producer, data);
    producer.lemma_sent_first();
    let (i, k) = choose|i: int, k: int|
        #![trigger sent.subrange(i, k)]
        drained(sent, before.released(), data, i, k);
    let part = sent.subrange(i, k);
    assert forall|j: int| 0 <= j < part.len() implies producer::single_frame(#[trigger] part[j]) by {
        assert(part[j] == sent[i + j]);
    }
    laws::law_logged_is_retrieved(
        first,
        next,
        S::page_size() as int,
        before.log().write_addr() as int,
        part,
        from,
        room,
    );
    if before.released().len() == 0 && after.released() == producer.committed() {
        let head = sent.take(i);
        if i > 0 {
            assert forall|j: int| 0 <= j < head.len() implies producer::single_frame(
                #[trigger] head[j],
            ) by {
                assert(head[j] == sent[j]);
            }
            laws::lemma_sent_ends(head);
        }
        let rest = sent.skip(k);
        assert(sent.take(k) + rest =~= sent);
        assert(sent.take(k) =~= part);
        vstd::seq_lib::lemma_flatten_concat(sent.take(k), rest);
        if k < sent.len() {
            assert forall|j: int| 0 <= j < rest.len() implies producer::single_frame(
                #[trigger] rest[j],
            ) by {
                assert(rest[j] == sent[k + j]);
            }
            laws::lemma_sent_ends(rest);
        }
        assert(part =~= sent);
    }
}

/// What is given to be stored is stored whole: success reports the number of
/// its bytes, and they lie right before the new write head, up to the whole
/// word. Only what does not fit in a page, or beside the magic word in the only
/// page, is refused for its size. A reliable storage whose locked words all
/// hold something takes all else.
#[verifier::spinoff_prover]
#[verifier::rlimit(60)]
pub proof fn law_all_is_stored<S: Storage + ErasableStorage>(
    before: StorageHelper<S>,
    after: StorageHelper<S>,
    first: Medium,
    next: Medium,
    data: Seq<u8>,
    r: Result<usize, Error>,
    i: int,
)
    requires
        layout::paged(first.bytes, S::page_size() as int),
        before.valid(first.bytes),
        0 <= i < data.len(),
        LogManager::<S>::storing(before, after, first, next, data, r),
    ensures
        ({
            let page = S::page_size() as int;
            let fits = data.len() <= page && (page < first.bytes.len() || data.len() <= page - 8);
            let start = after.write_addr() - (data.len() + 7) as int / 8 * 8;
            &&& r matches Ok(n) ==> {
                &&& n == data.len()
                &&& 8 <= start
                &&& start % 8 == 0
                &&& next.bytes[start + i] == data[i]
                &&& after.read_addr() == before.read_addr()
            }
            &&& r is Err ==> after == before
            &&& r == Err::<usize, Error>(Error::StorageSize) <==> !fits
            &&& r != Err::<usize, Error>(Error::BBBuffer)
            &&& fits && first.reliable && (forall|word: int| #[trigger]
                first.locked.contains(word) ==> !laws::all_ones(
                    first.bytes,
                    8 * word,
                    8 * word + 8,
                )) ==> r is Ok
        }),
{
    let page = S::page_size() as int;
    let len = layout::padded_len(data.len() as int);
    let head = before.write_addr() as int;
    laws::law_which_slices_fit(first.bytes.len() as int, page, data.len() as int);
    if layout::accepts(first.bytes.len() as int, page, data.len() as int) {
        layout::lemma_plan(first.bytes, page, head, len);
        if forall|word: int| #[trigger]
            first.locked.contains(word) ==> !laws::all_ones(first.bytes, 8 * word, 8 * word + 8) {
            laws::law_slices_taken(first, page, head, data);
        }
    }
}

/// Draining reports 0 bytes only where the log buffer has nothing to read. Where
/// it gives bytes, all of them are stored and released, and their number is
/// reported, unless the storage fails or they do not fit: then all are kept.
#[verifier::spinoff_prover]
#[verifier::rlimit(60)]
pub proof fn law_drain_takes_what_is_given<S: Storage + ErasableStorage>(
    before: LogManager<S>,
    after: LogManager<S>,
    first: Medium,
    next: Medium,
    outcome: Result<ReadGrant, (QueueConsumer, QueueError)>,
    r: Result<usize, Error>,
)
    requires
        layout::paged(first.bytes, S::page_size() as int),
        before.log().valid(first.bytes),
        before.drains(after, first, next, outcome, r),
    ensures
        r == Ok::<usize, Error>(0) ==> outcome is Err && outcome->Err_0.1
            == QueueError::InsufficientSize,
        r == Err::<usize, Error>(Error::BBBuffer) ==> outcome is Err,
        outcome matches Ok(grant) ==> {
            let data = queue::readable(grant);
            let page = S::page_size() as int;
            &&& r matches Ok(n) ==> {
                let start = after.log().write_addr() - (data.len() + 7) as int / 8 * 8;
                &&& 0 < n == data.len()
                &&& after.released() == before.released() + data
                &&& next.bytes.subrange(start, start + n) == data
            }
            &&& r is Err ==> after.released() == before.released() && after.log() == before.log()
            &&& first.reliable && data.len() <= page && (page < first.bytes.len() || data.len()
                <= page - 8) && (forall|word: int| #[trigger]
                first.locked.contains(word) ==> !laws::all_ones(
                    first.bytes,
                    8 * word,
                    8 * word + 8,
                )) ==> r is Ok
        },
        outcome is Err ==> next == first && after.released() == before.released(),
{
    if let Ok(grant) = outcome {
        let data = queue::readable(grant);
        law_all_is_stored(before.log(), after.log(), first, next, data, r, 0);
        if let Ok(n) = r {
            let page = S::page_size() as int;
            let len = layout::padded_len(data.len() as int);
            layout::lemma_plan(first.bytes, page, before.log().write_addr() as int, len);
            let start = after.log().write_addr() - len;
            assert forall|i: int| 0 <= i < n implies next.bytes[start + i] == data[i] by {
                law_all_is_stored(before.log(), after.log(), first, next, data, r, i);
            }
            assert(next.bytes.subrange(start, start + n) =~= data);
        }
    }
}

/// Setting up a manager fails for the log buffer only where that has refused its
/// ends, whatever the storage is. Where it has not, a reliable storage that
/// holds the magic word, or can be given it, is opened.
pub proof fn law_manager_set_up<S: Storage + ErasableStorage>(
    first: Medium,
    next: Medium,
    outcome: Result<(QueueProducer, QueueConsumer), QueueError>,
    r: Result<LogManager<S>, Error>,
)
    requires
        8 <= first.bytes.len(),
        LogManager::<S>::opens(first, next, outcome, r),
    ensures
        r == Err::<LogManager<S>, Error>(Error::BBBuffer) <==> outcome is Err,
        outcome is Err ==> next == first,
        ({
            let word = seq![0xFEu8, 0xED, 0xBE, 0xEF, 0xCA, 0xFE, 0xBA, 0xBE];
            let found = first.bytes.subrange(0, 8) == word;
            &&& outcome is Ok && first.reliable && (found || !first.locked.contains(0)) ==> r is Ok
            &&& r is Ok ==> next.bytes.subrange(0, 8) == word
        }),
{
    if outcome is Ok {
        helper::law_log_opened(first, next, LogManager::<S>::log_of(r), 0);
    }
}

} // verus!
