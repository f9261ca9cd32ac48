//! rzCOBS, the encoding of the `rzcobs` crate: what encoded bytes stand for.
//!
//! Encoded bytes are read from their end. A code byte says how many bytes
//! before it belong to its block, and which zeros stand among or behind them.
use vstd::prelude::*;

use crate::writer;

verus! {

/// Whether the bit `i` of `bits` is set.
pub open spec fn bit(bits: u8, i: int) -> bool {
    bits & (1u8 << (i as u8)) != 0
}

/// The number of places below `n` whose bit in `bits` is not set.
pub open spec fn gaps(bits: u8, n: nat) -> nat
    decreases n,
{
    if n == 0 {
        0
    } else {
        gaps(bits, (n - 1) as nat) + if bit(bits, n - 1) {
            0nat
        } else {
            1
        }
    }
}

/// `n` bytes: zeros at the places whose bit in `bits` is set, and the bytes of
/// `data` at the others.
pub open spec fn spread(bits: u8, n: nat, data: Seq<u8>) -> Seq<u8>
    decreases n,
{
    if n == 0 {
        Seq::empty()
    } else if bit(bits, n - 1) {
        spread(bits, (n - 1) as nat, data).push(0)
    } else {
        spread(bits, (n - 1) as nat, data.drop_last()).push(data.last())
    }
}

/// The number of bytes before the code byte `code` that belong to its block.
pub open spec fn block_len(code: u8) -> nat {
    if code < 0x80 {
        gaps(code, 7)
    } else if code == 0xFF {
        134
    } else {
        (code - 0x80 + 7) as nat
    }
}

/// What the block of the code byte `code` stands for.
pub open spec fn block(code: u8, data: Seq<u8>) -> Seq<u8> {
    if code < 0x80 {
        spread(code, 7, data)
    } else if code == 0xFF {
        data
    } else {
        data.push(0)
    }
}

/// The message that `source` stands for, or nothing where it is malformed.
pub open spec fn unpacked(source: Seq<u8>) -> Option<Seq<u8>>
    decreases source.len(),
{
    if source.len() == 0 {
        Some(Seq::empty())
    } else {
        let code = source.last();
        let rest = source.len() - 1 - block_len(code);
        if code == 0 || rest < 0 {
            None
        } else {
            match unpacked(source.take(rest)) {
                Some(message) => Some(
                    message + block(code, source.subrange(rest, source.len() - 1)),
                ),
                None => None,
            }
        }
    }
}

/// The number of bytes that have been written for a run that is not closed.
pub open spec fn run_len(run: u8, zeros: u8) -> nat {
    if run < 7 {
        gaps(zeros, run as nat)
    } else {
        run as nat
    }
}

/// What a run that is not closed stands for.
pub open spec fn run_bytes(run: u8, zeros: u8, data: Seq<u8>) -> Seq<u8> {
    if run < 7 {
        spread(zeros, run as nat, data)
    } else {
        data
    }
}

/// Whether `written`, by an encoder that remembers `run` and `zeros`, stands
/// for `message`.
pub open spec fn packs(message: Seq<u8>, written: Seq<u8>, run: u8, zeros: u8) -> bool {
    let rest = written.len() - run_len(run, zeros);
    &&& run < 134
    &&& run < 7 ==> zeros < (1u8 << run)
    &&& run >= 7 ==> zeros == 0
    &&& 0 <= rest
    &&& unpacked(written.take(rest)) matches Some(closed) && message == closed + run_bytes(
        run,
        zeros,
        written.skip(rest),
    )
}

/// A block behind others stands for its part of the message.
proof fn lemma_block(closed: Seq<u8>, data: Seq<u8>, code: u8, message: Seq<u8>)
    requires
        unpacked(closed) == Some(message),
        code != 0,
        data.len() == block_len(code),
    ensures
        unpacked(closed + data + seq![code]) == Some(message + block(code, data)),
{
    let all = closed + data + seq![code];
    let rest = all.len() - 1 - block_len(code);
    assert(all.take(rest) =~= closed);
    assert(all.subrange(rest, all.len() - 1) =~= data);
}

/// Only the bits below `n` count.
proof fn lemma_same_bits(bits: u8, other: u8, n: nat, data: Seq<u8>)
    requires
        forall|i: int| 0 <= i < n ==> bit(bits, i) == bit(other, i),
    ensures
        gaps(bits, n) == gaps(other, n),
        spread(bits, n, data) == spread(other, n, data),
    decreases n,
{
    if n > 0 {
        assert(bit(bits, n - 1) == bit(other, n - 1));
        lemma_same_bits(bits, other, (n - 1) as nat, data);
        lemma_same_bits(bits, other, (n - 1) as nat, data.drop_last());
    }
}

/// Where no bit is set there are only bytes.
proof fn lemma_no_bits(n: nat, data: Seq<u8>)
    requires
        n <= 7,
        data.len() == n,
    ensures
        gaps(0, n) == n,
        spread(0, n, data) == data,
    decreases n,
{
    if n > 0 {
        let i = (n - 1) as u8;
        assert(0u8 & (1u8 << i) == 0) by (bit_vector);
        assert(!bit(0, n - 1));
        lemma_no_bits((n - 1) as nat, data.drop_last());
        assert(spread(0, n, data) =~= data);
    }
}

/// Where all bits from `run` on are set there are zeros behind the run.
proof fn lemma_zeros_behind(bits: u8, run: nat, n: nat, data: Seq<u8>)
    requires
        run <= n <= 7,
        forall|i: int| run <= i < n ==> bit(bits, i),
    ensures
        gaps(bits, n) == gaps(bits, run),
        spread(bits, n, data) == spread(bits, run, data) + Seq::new((n - run) as nat, |i: int| 0u8),
    decreases n,
{
    let zeros = Seq::new((n - run) as nat, |i: int| 0u8);
    if n > run {
        assert(bit(bits, n - 1));
        lemma_zeros_behind(bits, run, (n - 1) as nat, data);
    }
    assert(spread(bits, n, data) =~= spread(bits, run, data) + zeros);
}

/// A bit that is set below the others, and the bits above.
proof fn lemma_set_bit(zeros: u8, run: u8)
    requires
        run < 7,
        zeros < (1u8 << run),
    ensures
        zeros < (1u8 << (run + 1) as u8),
        !bit(zeros, run as int),
        ({
            let next = zeros | (1u8 << run);
            &&& next < (1u8 << (run + 1) as u8)
            &&& 0 < next < 0x80
            &&& bit(next, run as int)
            &&& forall|i: int| 0 <= i < run ==> bit(next, i) == bit(zeros, i)
        }),
{
    let next = zeros | (1u8 << run);
    let above = (run + 1) as u8;
    assert(zeros < (1u8 << above) && zeros & (1u8 << run) == 0 && next < (1u8 << above) && 0 < next
        && next < 0x80 && next & (1u8 << run) != 0) by (bit_vector)
        requires
            run < 7,
            above == run + 1,
            zeros < (1u8 << run),
            next == zeros | (1u8 << run),
    ;
    assert forall|i: int| 0 <= i < run implies bit(next, i) == bit(zeros, i) by {
        let k = i as u8;
        assert(next & (1u8 << k) == zeros & (1u8 << k)) by (bit_vector)
            requires
                k < run,
                run < 7,
                next == zeros | (1u8 << run),
        ;
    }
}

/// Encoding one more byte of the message keeps what is written in step with it.
pub proof fn lemma_packed_byte(
    message: Seq<u8>,
    written: Seq<u8>,
    run: u8,
    zeros: u8,
    room: int,
    byte: u8,
)
    requires
        packs(message, written, run, zeros),
        writer::stepped(run, zeros, room, byte).3,
    ensures
        ({
            let (run1, zeros1, out, _) = writer::stepped(run, zeros, room, byte);
            packs(message.push(byte), written + out, run1, zeros1)
        }),
{
    let (run1, zeros1, out, _) = writer::stepped(run, zeros, room, byte);
    let rest = written.len() - run_len(run, zeros);
    let closed = written.take(rest);
    let data = written.skip(rest);
    let head = unpacked(closed)->0;
    let all = written + out;
    assert(written =~= closed + data);
    assert((1u8 << 0u8) == 1u8) by (bit_vector);
    if run < 7 {
        lemma_set_bit(zeros, run);
        let next = if byte == 0 {
            zeros | (1u8 << run)
        } else {
            zeros
        };
        let more = if byte == 0 {
            data
        } else {
            data.push(byte)
        };
        lemma_same_bits(next, zeros, run as nat, data);
        assert(more.len() == gaps(next, (run + 1) as nat));
        assert(data.push(byte).drop_last() =~= data);
        assert(spread(next, (run + 1) as nat, more) =~= spread(zeros, run as nat, data).push(byte));
        if run == 6 && next != 0 {
            assert((1u8 << 7u8) == 0x80u8) by (bit_vector);
            assert(zeros < 0x80) by (bit_vector)
                requires
                    zeros < (1u8 << 6u8),
            ;
            lemma_block(closed, more, next, head);
            assert(all =~= closed + more + seq![next]);
            assert(all.take(all.len() as int) =~= all);
            assert(all.skip(all.len() as int) =~= Seq::empty());
            assert(message.push(byte) =~= head + spread(next, 7, more));
            assert((head + spread(next, 7, more)) + run_bytes(0, 0, Seq::empty())
                =~= message.push(byte));
        } else {
            assert(all =~= closed + more);
            if run == 6 {
                lemma_no_bits(7, no_more(7));
                lemma_no_bits(7, more);
            }
            assert(all.take(all.len() - run_len(run1, zeros1)) =~= closed);
            assert(all.skip(all.len() - run_len(run1, zeros1)) =~= more);
            assert(message.push(byte) =~= head + run_bytes(run1, zeros1, more));
        }
    } else if byte == 0 {
        let short = (run - 7) as u8;
        assert(short | 0x80u8 == short + 0x80u8) by (bit_vector)
            requires
                short < 127,
        ;
        let code = short | 0x80u8;
        lemma_block(closed, data, code, head);
        assert(all =~= closed + data + seq![code]);
        assert(all.take(all.len() as int) =~= all);
        assert(message.push(byte) =~= head + data.push(0));
        assert((head + data.push(0)) + run_bytes(0, 0, all.skip(all.len() as int))
            =~= message.push(byte));
    } else {
        let more = data.push(byte);
        if run == 133 {
            lemma_block(closed, more, 0xFF, head);
            assert(all =~= closed + more + seq![0xFFu8]);
            assert(all.take(all.len() as int) =~= all);
            assert((head + more) + run_bytes(0, 0, all.skip(all.len() as int)) =~= message.push(
                byte,
            ));
        } else {
            assert(all =~= closed + more);
            assert(all.take(all.len() - run_len(run1, zeros1)) =~= closed);
            assert(all.skip(all.len() - run_len(run1, zeros1)) =~= more);
            assert(message.push(byte) =~= head + more);
        }
    }
}

/// What has been written, with the end of the message behind it, stands for the
/// message and up to six zeros behind it.
pub proof fn lemma_packed_end(message: Seq<u8>, written: Seq<u8>, run: u8, zeros: u8, room: int)
    requires
        packs(message, written, run, zeros),
        writer::ended(run, zeros, room).1,
    ensures
        stands_for(written + writer::ended(run, zeros, room).0, message),
{
    let out = writer::ended(run, zeros, room).0;
    let rest = written.len() - run_len(run, zeros);
    let closed = written.take(rest);
    let data = written.skip(rest);
    let head = unpacked(closed)->0;
    let all = written + out;
    assert(written =~= closed + data);
    if run == 0 {
        assert(all =~= closed);
        assert(head + run_bytes(0, zeros, data) =~= head);
        assert(message + no_more(0) =~= message);
    } else if run < 7 {
        let code = (zeros | (0xFFu8 << run)) & 0x7Fu8;
        assert(0 < code && code < 0x80) by (bit_vector)
            requires
                0 < run < 7,
                code == (zeros | (0xFFu8 << run)) & 0x7Fu8,
        ;
        assert forall|i: int| 0 <= i < run implies bit(code, i) == bit(zeros, i) by {
            let k = i as u8;
            assert(code & (1u8 << k) == zeros & (1u8 << k)) by (bit_vector)
                requires
                    k < run,
                    run < 7,
                    code == (zeros | (0xFFu8 << run)) & 0x7Fu8,
            ;
        }
        assert forall|i: int| run <= i < 7 implies bit(code, i) by {
            let k = i as u8;
            assert(code & (1u8 << k) != 0) by (bit_vector)
                requires
                    run <= k < 7,
                    code == (zeros | (0xFFu8 << run)) & 0x7Fu8,
            ;
        }
        lemma_same_bits(code, zeros, run as nat, data);
        lemma_zeros_behind(code, run as nat, 7, data);
        lemma_block(closed, data, code, head);
        assert(all =~= closed + data + seq![code]);
        assert(head + block(code, data) =~= message + no_more((7 - run) as nat));
    } else {
        let short = (run - 7) as u8;
        assert(short | 0x80u8 == short + 0x80u8) by (bit_vector)
            requires
                short < 127,
        ;
        lemma_block(closed, data, short | 0x80u8, head);
        assert(all =~= closed + data + seq![short | 0x80u8]);
        assert(head + data.push(0) =~= message + no_more(1));
    }
}

/// `count` zeros.
pub open spec fn no_more(count: nat) -> Seq<u8> {
    Seq::new(count, |i: int| 0u8)
}

/// Whether `source` stands for `message` with at most six zeros behind it.
pub open spec fn stands_for(source: Seq<u8>, message: Seq<u8>) -> bool {
    exists|count: nat|
        count <= 6 && unpacked(source) == Some(message + #[trigger] no_more(count))
}

} // verus!
