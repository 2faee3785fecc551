//! Interrupt lines as resources: a read reports an interrupt that has not
//! been acknowledged yet, a write acknowledges it.
use vstd::prelude::*;

use crate::error::SchemeError;
use crate::text::{parse_below, parse_number};

verus! {

/// Bytes in the machine word that reads and writes carry.
pub const WORD_BYTES: usize = 8;

/// The little-endian bytes of a count.
pub open spec fn word_bytes(v: u64) -> Seq<u8> {
    seq![
        v as u8,
        (v >> 8u64) as u8,
        (v >> 16u64) as u8,
        (v >> 24u64) as u8,
        (v >> 32u64) as u8,
        (v >> 40u64) as u8,
        (v >> 48u64) as u8,
        (v >> 56u64) as u8
    ]
}

/// The count held in the first eight bytes of `b`, little-endian.
pub open spec fn word_of(b: Seq<u8>) -> u64
    recommends
        b.len() >= 8,
{
    (b[0] as u64) | ((b[1] as u64) << 8u64) | ((b[2] as u64) << 16u64) | ((b[3] as u64) << 24u64)
        | ((b[4] as u64) << 32u64) | ((b[5] as u64) << 40u64) | ((b[6] as u64) << 48u64) | ((
    b[7] as u64) << 56u64)
}

/// The count that follows `v` on a new interrupt.
pub open spec fn next_count(v: u64) -> u64 {
    if v == u64::MAX {
        0
    } else {
        (v + 1) as u64
    }
}

/// Reading back the bytes of a count gives the count.
pub proof fn lemma_word_round_trip(v: u64)
    ensures
        word_of(word_bytes(v)) == v,
{
    let b0 = v as u8;
    let b1 = (v >> 8u64) as u8;
    let b2 = (v >> 16u64) as u8;
    let b3 = (v >> 24u64) as u8;
    let b4 = (v >> 32u64) as u8;
    let b5 = (v >> 40u64) as u8;
    let b6 = (v >> 48u64) as u8;
    let b7 = (v >> 56u64) as u8;
    assert((b0 as u64) | ((b1 as u64) << 8u64) | ((b2 as u64) << 16u64) | ((b3 as u64) << 24u64)
        | ((b4 as u64) << 32u64) | ((b5 as u64) << 40u64) | ((b6 as u64) << 48u64) | ((b7 as u64)
        << 56u64) == v) by (bit_vector)
        requires
            b0 == v as u8,
            b1 == (v >> 8u64) as u8,
            b2 == (v >> 16u64) as u8,
            b3 == (v >> 24u64) as u8,
            b4 == (v >> 32u64) as u8,
            b5 == (v >> 40u64) as u8,
            b6 == (v >> 48u64) as u8,
            b7 == (v >> 56u64) as u8,
    ;
}

/// The interrupt lines: for each, how many interrupts have occurred and the
/// count that was last acknowledged. A resource descriptor is the index of
/// its line.
pub struct IrqScheme {
    counts: Vec<u64>,
    acks: Vec<u64>,
}

impl IrqScheme {
    /// Interrupts that occurred on each line.
    pub closed spec fn counts(&self) -> Seq<u64> {
        self.counts@
    }

    /// The count last acknowledged on each line.
    pub closed spec fn acks(&self) -> Seq<u64> {
        self.acks@
    }

    /// Every line has a count and an acknowledged count.
    pub open spec fn wf(&self) -> bool {
        self.counts().len() == self.acks().len()
    }

    /// An interrupt on `irq` has occurred since the last acknowledgement.
    pub open spec fn pending(&self, irq: int) -> bool {
        self.acks()[irq] != self.counts()[irq]
    }

    /// `lines` interrupt lines, none of which has fired.
    pub fn new(lines: usize) -> (r: IrqScheme)
        ensures
            r.wf(),
            r.counts() == Seq::new(lines as nat, |i: int| 0u64),
            r.acks() == Seq::new(lines as nat, |i: int| 0u64),
    {
        let mut counts: Vec<u64> = Vec::new();
        let mut i: usize = 0;
        while i < lines
            invariant
                i <= lines,
                counts@ == Seq::new(i as nat, |k: int| 0u64),
            decreases lines - i,
        {
            counts.push(0);
            i = i + 1;
            assert(counts@ =~= Seq::new(i as nat, |k: int| 0u64));
        }
        let acks = counts.clone();
        assert(acks@ =~= counts@);
        IrqScheme { counts, acks }
    }

    /// The number of interrupt lines.
    pub fn lines(&self) -> (r: usize)
        ensures
            r == self.counts().len(),
    {
        self.counts.len()
    }

    /// Records an interrupt on `irq`; false when there is no such line.
    pub fn trigger(&mut self, irq: usize) -> (r: bool)
        requires
            old(self).wf(),
        ensures
            final(self).wf(),
            r == (irq < old(self).counts().len()),
            final(self).acks() == old(self).acks(),
            r ==> final(self).counts() == old(self).counts().update(
                irq as int,
                next_count(old(self).counts()[irq as int]),
            ),
            !r ==> final(self).counts() == old(self).counts(),
    {
        if irq >= self.counts.len() {
            return false;
        }
        let c = self.counts[irq];
        let n = if c == u64::MAX {
            0
        } else {
            c + 1
        };
        self.counts.set(irq, n);
        true
    }

    /// Opens the line whose index `path` spells in decimal; `NotFound` when
    /// it spells no number or no line.
    pub fn open(&self, path: &[u8], flags: usize) -> (r: Result<usize, SchemeError>)
        ensures
            r is Ok <==> (parse_number(path@, 10) matches Some(v) && v < self.counts().len()),
            r matches Ok(id) ==> parse_number(path@, 10) == Some(id as nat),
            r is Err ==> r == Err::<usize, SchemeError>(SchemeError::NotFound),
    {
        match parse_below(path, 10, self.counts.len()) {
            Some(id) => Ok(id),
            None => Err(SchemeError::NotFound),
        }
    }

    /// The same line.
    pub fn dup(&self, resource: usize) -> (r: Result<usize, SchemeError>)
        ensures
            r == Ok::<usize, SchemeError>(resource),
    {
        Ok(resource)
    }

    /// Polls `resource`: when an interrupt is pending, its current count is
    /// written to the first `WORD_BYTES` bytes of `buffer` and the result is
    /// `WORD_BYTES`; otherwise nothing is written and the result is 0. A
    /// buffer shorter than a word is `InvalidArgument`, an unknown line
    /// `BadDescriptor`.
    pub fn read(&self, resource: usize, buffer: &mut [u8]) -> (r: Result<usize, SchemeError>)
        requires
            self.wf(),
        ensures
            (r == Err::<usize, SchemeError>(SchemeError::InvalidArgument)) == (old(buffer)@.len() < WORD_BYTES),
            (r == Err::<usize, SchemeError>(SchemeError::BadDescriptor)) == (old(buffer)@.len() >= WORD_BYTES
                && resource >= self.counts().len()),
            r is Ok <==> old(buffer)@.len() >= WORD_BYTES && resource < self.counts().len(),
            r matches Ok(n) ==> (n == WORD_BYTES) == self.pending(resource as int) && (n == 0) == !self.pending(
                resource as int,
            ),
            r == Ok::<usize, SchemeError>(WORD_BYTES) ==> final(buffer)@ == word_bytes(
                self.counts()[resource as int],
            ) + old(buffer)@.skip(8),
            r != Ok::<usize, SchemeError>(WORD_BYTES) ==> final(buffer)@ == old(buffer)@,
    {
        if buffer.len() < WORD_BYTES {
            return Err(SchemeError::InvalidArgument);
        }
        if resource >= self.counts.len() {
            return Err(SchemeError::BadDescriptor);
        }
        let ack = self.acks[resource];
        let current = self.counts[resource];
        if ack != current {
            let ghost before = buffer@;
            buffer[0] = current as u8;
            buffer[1] = (current >> 8u64) as u8;
            buffer[2] = (current >> 16u64) as u8;
            buffer[3] = (current >> 24u64) as u8;
            buffer[4] = (current >> 32u64) as u8;
            buffer[5] = (current >> 40u64) as u8;
            buffer[6] = (current >> 48u64) as u8;
            buffer[7] = (current >> 56u64) as u8;
            assert(buffer@ =~= word_bytes(current) + before.skip(8));
            Ok(WORD_BYTES)
        } else {
            Ok(0)
        }
    }

    /// Acknowledges the count in the first `WORD_BYTES` bytes of `buffer`.
    /// When it is the current count, it becomes the acknowledged count and
    /// the result is `WORD_BYTES`: the line may be re-enabled at the
    /// interrupt controller. A stale count changes nothing and the result
    /// is 0. A buffer shorter than a word is `InvalidArgument`, an unknown
    /// line `BadDescriptor`.
    pub fn write(&mut self, resource: usize, buffer: &[u8]) -> (r: Result<usize, SchemeError>)
        requires
            old(self).wf(),
        ensures
            final(self).wf(),
            final(self).counts() == old(self).counts(),
            (r == Err::<usize, SchemeError>(SchemeError::InvalidArgument)) == (buffer@.len() < WORD_BYTES),
            (r == Err::<usize, SchemeError>(SchemeError::BadDescriptor)) == (buffer@.len() >= WORD_BYTES
                && resource >= old(self).counts().len()),
            r is Ok <==> buffer@.len() >= WORD_BYTES && resource < old(self).counts().len(),
            r == Ok::<usize, SchemeError>(WORD_BYTES) <==> r is Ok && word_of(buffer@) == old(
                self,
            ).counts()[resource as int],
            r == Ok::<usize, SchemeError>(WORD_BYTES) ==> final(self).acks() == old(self).acks().update(
                resource as int,
                word_of(buffer@),
            ),
            r != Ok::<usize, SchemeError>(WORD_BYTES) ==> final(self).acks() == old(self).acks(),
            r is Ok ==> r == Ok::<usize, SchemeError>(WORD_BYTES) || r == Ok::<usize, SchemeError>(0),
    {
        if buffer.len() < WORD_BYTES {
            return Err(SchemeError::InvalidArgument);
        }
        if resource >= self.counts.len() {
            return Err(SchemeError::BadDescriptor);
        }
        let ack = (buffer[0] as u64) | ((buffer[1] as u64) << 8u64) | ((buffer[2] as u64) << 16u64)
            | ((buffer[3] as u64) << 24u64) | ((buffer[4] as u64) << 32u64) | ((buffer[5] as u64)
            << 40u64) | ((buffer[6] as u64) << 48u64) | ((buffer[7] as u64) << 56u64);
        let current = self.counts[resource];
        if ack == current {
            self.acks.set(resource, ack);
            Ok(WORD_BYTES)
        } else {
            Ok(0)
        }
    }

    /// Nothing is buffered.
    pub fn fsync(&self, resource: usize) -> (r: Result<usize, SchemeError>)
        ensures
            r == Ok::<usize, SchemeError>(0),
    {
        Ok(0)
    }

    /// The line is a window onto the counters and owns nothing.
    pub fn close(&self, resource: usize) -> (r: Result<usize, SchemeError>)
        ensures
            r == Ok::<usize, SchemeError>(0),
    {
        Ok(0)
    }
}


/// The bytes that `read` leaves in a buffer, written back as they are, carry
/// the count that was read.
pub proof fn lemma_read_bytes_acknowledge(v: u64, rest: Seq<u8>)
    ensures
        word_of(word_bytes(v) + rest) == v,
{
    lemma_word_round_trip(v);
    let b = word_bytes(v) + rest;
    assert(b.subrange(0, 8) =~= word_bytes(v));
    assert(forall|i: int| 0 <= i < 8 ==> b[i] == word_bytes(v)[i]);
}

/// On a line whose interrupts are all acknowledged, a new interrupt makes it
/// pending, so that the next read reports the new count. The premises are
/// what `trigger` guarantees.
pub proof fn lemma_interrupt_becomes_pending(before: &IrqScheme, after: &IrqScheme, irq: int)
    requires
        0 <= irq < before.counts().len(),
        !before.pending(irq),
        after.counts() == before.counts().update(irq, next_count(before.counts()[irq])),
        after.acks() == before.acks(),
    ensures
        after.pending(irq),
        after.counts()[irq] == next_count(before.counts()[irq]),
{
}

/// Acknowledging with the bytes that a read reported clears the pending
/// interrupt, so that a read that follows, with no new interrupt, returns
/// zero bytes. The premises are what `read` and then `write` guarantee.
pub proof fn lemma_acknowledged_read_clears(
    read_from: &IrqScheme,
    acked: &IrqScheme,
    irq: int,
    rest: Seq<u8>,
)
    requires
        0 <= irq < read_from.counts().len(),
        read_from.acks().len() == read_from.counts().len(),
        acked.counts() == read_from.counts(),
        acked.acks() == read_from.acks().update(irq, word_of(word_bytes(read_from.counts()[irq]) + rest)),
    ensures
        word_of(word_bytes(read_from.counts()[irq]) + rest) == read_from.counts()[irq],
        !acked.pending(irq),
{
    lemma_read_bytes_acknowledge(read_from.counts()[irq], rest);
}

} // verus!
