//! The log buffer: a queue of bytes of the `bbqueue` crate.
//!
//! The two ends of the queue live apart from each other, and either can be
//! used while the other is. So what an end finds in the queue depends on more
//! than its own past. The contracts here speak of all the blocks of bytes that
//! ever pass the queue, one for every commit, in their order, and of how many
//! of them have gone in at one end and have been taken out at the other so far.
use bbqueue::{consts, BBBuffer, Consumer, GrantR, GrantW, Producer};
use vstd::prelude::*;

verus! {

/// Number of bytes that the log buffer holds.
pub const LOG_BUFFER_SIZE: usize = 1024;

/// The log buffer.
#[verifier::external_body]
pub struct LogBuffer {
    inner: BBBuffer<consts::U1024>,
}

/// The end of the log buffer at which bytes go in.
#[verifier::external_body]
pub struct QueueProducer {
    inner: Producer<'static, consts::U1024>,
}

/// The end of the log buffer at which bytes are taken out.
#[verifier::external_body]
pub struct QueueConsumer {
    inner: Consumer<'static, consts::U1024>,
}

/// A part of the log buffer that can be written, with the end that it was
/// granted at.
#[verifier::external_body]
pub struct WriteGrant {
    inner: GrantW<'static, consts::U1024>,
    producer: Producer<'static, consts::U1024>,
}

/// A part of the log buffer that can be read, with the end that it was granted at.
#[verifier::external_body]
pub struct ReadGrant {
    inner: GrantR<'static, consts::U1024>,
    consumer: Consumer<'static, consts::U1024>,
}

/// Why the log buffer refuses a request.
#[derive(Clone, Copy, Debug, PartialEq, Eq, Structural)]
pub enum QueueError {
    /// There is not enough room, or nothing to read.
    InsufficientSize,
    /// There is a grant already.
    GrantInProgress,
    /// The ends have been handed out already.
    AlreadySplit,
}

/// The blocks of bytes that have been committed at this end of a `bbqueue`
/// queue, from its split on, one for every commit.
pub uninterp spec fn sent(producer: QueueProducer) -> Seq<Seq<u8>>;

/// The bytes that have been released at this end of a `bbqueue` queue, from
/// its split on.
pub uninterp spec fn released(consumer: QueueConsumer) -> Seq<u8>;

/// All the blocks of bytes that ever pass the `bbqueue` queue of this end, in
/// the order in which they are committed.
pub uninterp spec fn blocks_in(producer: QueueProducer) -> Seq<Seq<u8>>;

/// All the blocks of bytes that ever pass the `bbqueue` queue of this end, in
/// the order in which they are committed.
pub uninterp spec fn blocks_out(consumer: QueueConsumer) -> Seq<Seq<u8>>;

/// The bytes that have been committed at this end.
pub open spec fn committed(producer: QueueProducer) -> Seq<u8> {
    sent(producer).flatten()
}

/// Whether `bytes` are some of the first `blocks`, each of them whole.
pub open spec fn at_boundary(bytes: Seq<u8>, blocks: Seq<Seq<u8>>) -> bool {
    exists|k: int| 0 <= k <= blocks.len() && bytes == (#[trigger] blocks.take(k)).flatten()
}

/// The first blocks are in front of the others.
pub proof fn lemma_first_blocks(blocks: Seq<Seq<u8>>, first: int, count: int)
    requires
        0 <= first <= count <= blocks.len(),
    ensures
        blocks.take(first).flatten() + blocks.subrange(first, count).flatten() == blocks.take(
            count,
        ).flatten(),
        blocks.take(first).flatten().len() <= blocks.take(count).flatten().len(),
        blocks.take(count).flatten().is_prefix_of(blocks.flatten()),
{
    assert(blocks.take(first) + blocks.subrange(first, count) =~= blocks.take(count));
    vstd::seq_lib::lemma_flatten_concat(blocks.take(first), blocks.subrange(first, count));
    assert(blocks.take(count) + blocks.skip(count) =~= blocks);
    vstd::seq_lib::lemma_flatten_concat(blocks.take(count), blocks.skip(count));
}

/// The bytes of the part that a `bbqueue` write grant gives access to.
pub uninterp spec fn grant_bytes(grant: WriteGrant) -> Seq<u8>;

/// The end at which a `bbqueue` write grant was given, as it was then.
pub uninterp spec fn producer_of(grant: WriteGrant) -> QueueProducer;

/// The bytes of the part that a `bbqueue` read grant gives access to.
pub uninterp spec fn readable(grant: ReadGrant) -> Seq<u8>;

/// The end at which a `bbqueue` read grant was given, as it was then.
pub uninterp spec fn consumer_of(grant: ReadGrant) -> QueueConsumer;

/// Calls `bbqueue::BBBuffer::new`.
#[verifier::external_body]
pub(crate) fn new_buffer() -> (r: LogBuffer) {
    LogBuffer { inner: BBBuffer::new() }
}

impl LogBuffer {
    /// A log buffer with nothing in it, whose ends can still be handed out.
    pub fn new() -> Self {
        new_buffer()
    }
}

/// Calls `bbqueue::BBBuffer::try_split`.
///
/// The ends are new, with nothing committed or released at them, and the same
/// blocks pass both. The only reason to refuse them is that they have been
/// handed out already; whether they have been is not stated, it depends on the
/// earlier uses of the buffer.
#[verifier::external_body]
pub(crate) fn try_split(buffer: &'static LogBuffer) -> (r: Result<(QueueProducer, QueueConsumer), QueueError>)
    ensures
        r matches Ok(ends) ==> {
            &&& sent(ends.0) == Seq::<Seq<u8>>::empty()
            &&& released(ends.1) == Seq::<u8>::empty()
            &&& blocks_in(ends.0) == blocks_out(ends.1)
        },
        r matches Err(e) ==> e == QueueError::AlreadySplit,
{
    match buffer.inner.try_split() {
        Ok((p, c)) => Ok((QueueProducer { inner: p }, QueueConsumer { inner: c })),
        Err(bbqueue::Error::InsufficientSize) => Err(QueueError::InsufficientSize),
        Err(bbqueue::Error::GrantInProgress) => Err(QueueError::GrantInProgress),
        Err(bbqueue::Error::AlreadySplit) => Err(QueueError::AlreadySplit),
    }
}

/// Calls `bbqueue::Producer::grant_exact`.
///
/// A grant is of exactly the size that was asked for, and neither outcome
/// commits anything. A grant larger than the buffer is refused. One is given
/// where it fits in the buffer together with all that has ever been committed,
/// as no place has to be used a second time for it, and no other grant is out
/// while the end is at hand. Whether any other is given is not stated, it
/// depends on what has been read from the other end.
#[verifier::external_body]
pub(crate) fn grant_exact(producer: QueueProducer, size: usize) -> (r: Result<
    WriteGrant,
    (QueueProducer, QueueError),
>)
    requires
        size <= usize::MAX - LOG_BUFFER_SIZE,
    ensures
        committed(producer).len() + size <= LOG_BUFFER_SIZE ==> r is Ok,
        r matches Ok(grant) ==> {
            &&& size <= LOG_BUFFER_SIZE
            &&& grant_bytes(grant).len() == size
            &&& producer_of(grant) == producer
        },
        r matches Err(refused) ==> {
            &&& sent(refused.0) == sent(producer)
            &&& blocks_in(refused.0) == blocks_in(producer)
            &&& refused.1 != QueueError::AlreadySplit
        },
{
    let mut inner = producer.inner;
    match inner.grant_exact(size) {
        Ok(grant) => Ok(WriteGrant { inner: grant, producer: inner }),
        Err(bbqueue::Error::InsufficientSize) => {
            Err((QueueProducer { inner }, QueueError::InsufficientSize))
        },
        Err(bbqueue::Error::GrantInProgress) => {
            Err((QueueProducer { inner }, QueueError::GrantInProgress))
        },
        Err(bbqueue::Error::AlreadySplit) => Err((QueueProducer { inner }, QueueError::AlreadySplit)),
    }
}

/// Calls `bbqueue::GrantW::buf`: access to the bytes of the grant.
#[verifier::external_body]
pub(crate) fn grant_buf(grant: &mut WriteGrant) -> (r: &mut [u8])
    ensures
        r@ == grant_bytes(*old(grant)),
        grant_bytes(*final(grant)) == final(r)@,
        producer_of(*final(grant)) == producer_of(*old(grant)),
{
    grant.inner.buf()
}

/// Calls `bbqueue::GrantW::commit`: the first `used` bytes of the grant, or
/// all of them if there are fewer, are committed behind those before. Unless
/// there are none, they are the next block to pass the queue.
#[verifier::external_body]
pub(crate) fn commit(grant: WriteGrant, used: usize) -> (r: QueueProducer)
    ensures
        ({
            let bytes = grant_bytes(grant).take(
                if used <= grant_bytes(grant).len() {
                    used as int
                } else {
                    grant_bytes(grant).len() as int
                },
            );
            sent(r) == if bytes.len() == 0 {
                sent(producer_of(grant))
            } else {
                sent(producer_of(grant)).push(bytes)
            }
        }),
        blocks_in(r) == blocks_in(producer_of(grant)),
        sent(r).is_prefix_of(blocks_in(r)),
{
    grant.inner.commit(used);
    QueueProducer { inner: grant.producer }
}

/// Drops a `bbqueue::GrantW` that was given nothing to commit when it is
/// dropped: nothing is committed.
#[verifier::external_body]
pub(crate) fn abandon(grant: WriteGrant) -> (r: QueueProducer)
    ensures
        sent(r) == sent(producer_of(grant)),
        blocks_in(r) == blocks_in(producer_of(grant)),
{
    drop(grant.inner);
    QueueProducer { inner: grant.producer }
}

/// Calls `bbqueue::Consumer::read`.
///
/// A grant is of at least one byte and at most the whole buffer, and neither
/// outcome releases anything. It gives access to the bytes that follow those
/// that have been released, and it ends where a block ends: at the end of the
/// last commit, or of the last one before the queue goes on at the start of
/// its memory. How many blocks these are, and whether there are any, is not
/// stated, it depends on what has been committed at the other end.
#[verifier::external_body]
pub(crate) fn read(consumer: QueueConsumer) -> (r: Result<ReadGrant, (QueueConsumer, QueueError)>)
    ensures
        r matches Ok(grant) ==> {
            &&& 0 < readable(grant).len() <= LOG_BUFFER_SIZE
            &&& consumer_of(grant) == consumer
            &&& (released(consumer) + readable(grant)).is_prefix_of(blocks_out(consumer).flatten())
            &&& at_boundary(released(consumer), blocks_out(consumer)) ==> at_boundary(
                released(consumer) + readable(grant),
                blocks_out(consumer),
            )
        },
        r matches Err(refused) ==> {
            &&& released(refused.0) == released(consumer)
            &&& blocks_out(refused.0) == blocks_out(consumer)
            &&& refused.1 != QueueError::AlreadySplit
        },
{
    let mut inner = consumer.inner;
    match inner.read() {
        Ok(grant) => Ok(ReadGrant { inner: grant, consumer: inner }),
        Err(bbqueue::Error::InsufficientSize) => {
            Err((QueueConsumer { inner }, QueueError::InsufficientSize))
        },
        Err(bbqueue::Error::GrantInProgress) => {
            Err((QueueConsumer { inner }, QueueError::GrantInProgress))
        },
        Err(bbqueue::Error::AlreadySplit) => Err((QueueConsumer { inner }, QueueError::AlreadySplit)),
    }
}

/// Calls `bbqueue::GrantR::buf`: the bytes of the grant.
#[verifier::external_body]
pub(crate) fn read_buf(grant: &ReadGrant) -> (r: &[u8])
    ensures
        r@ == readable(*grant),
{
    grant.inner.buf()
}

/// Calls `bbqueue::GrantR::release`: the first `used` bytes of the grant, or
/// all of them if there are fewer, are released behind those before.
#[verifier::external_body]
pub(crate) fn release(grant: ReadGrant, used: usize) -> (r: QueueConsumer)
    ensures
        released(r) == released(consumer_of(grant)) + readable(grant).take(
            if used <= readable(grant).len() {
                used as int
            } else {
                readable(grant).len() as int
            },
        ),
        blocks_out(r) == blocks_out(consumer_of(grant)),
{
    grant.inner.release(used);
    QueueConsumer { inner: grant.consumer }
}

/// Drops a `bbqueue::GrantR` that was given nothing to release when it is
/// dropped: nothing is released.
#[verifier::external_body]
pub(crate) fn give_back(grant: ReadGrant) -> (r: QueueConsumer)
    ensures
        released(r) == released(consumer_of(grant)),
        blocks_out(r) == blocks_out(consumer_of(grant)),
{
    drop(grant.inner);
    QueueConsumer { inner: grant.consumer }
}

} // verus!
