//! Send-side pacing: which shards of a frame go out in which send, and when.
use super::rate::RateFactor;
use vstd::arithmetic::div_mod::{lemma_fundamental_div_mod, lemma_mod_bound};
use vstd::prelude::*;
use vstd::slice::slice_subrange;

verus! {

/// Largest payload the kernel will segment from a single GSO send.
pub const MAX_GSO_BYTES: usize = 65_535;

/// Spacing of paced sends and shortest sleep between them, in nanoseconds.
/// Aligned with the async timer's granularity of about one millisecond: shorter
/// sleeps would just round up to this anyway.
pub const MIN_GAP_NANOS: u64 = 1_000_000;

/// Nanoseconds in a second.
pub const NANOS_PER_SEC: u64 = 1_000_000_000;

/// `n`, or one where `n` is zero.
pub open spec fn at_least_one(n: nat) -> nat {
    if n == 0 {
        1
    } else {
        n
    }
}

/// The smaller of two numbers.
pub open spec fn smaller(a: nat, b: nat) -> nat {
    if a < b {
        a
    } else {
        b
    }
}

/// How many shards of `seg_size` bytes fit in `bytes` bytes; shards without bytes
/// count as one byte each.
pub open spec fn shards_in(bytes: nat, seg_size: nat) -> nat {
    if seg_size == 0 {
        bytes
    } else {
        bytes / seg_size
    }
}

/// How many runs of `run` it takes to hold `n`.
pub open spec fn runs_for(n: nat, run: nat) -> nat {
    if n % run == 0 {
        n / run
    } else {
        n / run + 1
    }
}

/// Send-side packet pacer with UDP GSO batching.
///
/// Sends a frame's shards at a target rate rather than bursting them, so a
/// microburst does not overflow the last-hop queue. The spread is rate-based: a
/// frame drains in about its size divided by the rate, so small frames go out
/// almost immediately and only large ones are spread.
///
/// Each send is a contiguous run of equal-sized shards, transmitted with UDP
/// GSO. Pacing happens between these sends.
#[derive(Clone, Copy, Debug, PartialEq, Eq, Structural)]
pub struct Pacer {
    /// Target send rate in bytes per second. Zero disables pacing: sends are
    /// flushed back-to-back in the largest GSO batches.
    pub rate: u64,
    /// Spacing of paced sends in nanoseconds. No sleep shorter than this is
    /// issued; sends coalesce instead. Sub-millisecond sleeps fight the timer's
    /// granularity and only add overhead.
    pub min_gap_nanos: u64,
    /// Platform cap on segments per GSO send.
    pub max_gso_segments: usize,
}

/// One send of a batch.
#[derive(Clone, Copy, Debug, PartialEq, Eq, Structural)]
pub struct SendChunk {
    /// Where the send starts in the batch, in bytes.
    pub start: usize,
    /// Where the send ends in the batch, in bytes.
    pub end: usize,
    /// Size of the datagrams that the send is segmented into; `None` where it is
    /// a single datagram.
    pub segment_size: Option<usize>,
    /// When the send is due, in nanoseconds after the first; `None` where it is
    /// due immediately.
    pub due_nanos: Option<u64>,
}

impl Pacer {
    /// Most shards of `seg_size` bytes that fit in one send: bounded by the
    /// platform's segment cap and by the GSO payload limit, but at least one.
    pub open spec fn gso_limit(self, seg_size: nat) -> nat {
        at_least_one(
            smaller(self.max_gso_segments as nat, shards_in(MAX_GSO_BYTES as nat, seg_size)),
        )
    }

    /// Bytes that drain in one gap at the target rate, cut to the width of a
    /// `usize`.
    pub open spec fn bytes_per_gap(self) -> nat {
        ((self.rate * self.min_gap_nanos) / (NANOS_PER_SEC as int)) as usize as nat
    }

    /// Shards of `seg_size` bytes that go in each send: without pacing as many
    /// as GSO takes, with pacing about one gap's worth, never more than GSO
    /// takes and never none.
    pub open spec fn chunk_segments(self, seg_size: nat) -> nat {
        if self.rate == 0 {
            self.gso_limit(seg_size)
        } else {
            smaller(
                at_least_one(shards_in(self.bytes_per_gap(), seg_size)),
                self.gso_limit(seg_size),
            )
        }
    }

    /// When, in nanoseconds after the first send, `bytes` bytes have drained at
    /// the target rate.
    pub open spec fn drain_nanos(self, bytes: nat) -> nat {
        bytes * (NANOS_PER_SEC as nat) / (self.rate as nat)
    }

    /// The send of a batch of `count` shards of `seg_size` bytes that follows the
    /// first `sent` shards.
    ///
    /// It is due once the bytes before it have drained at the target rate, a time
    /// that is cut to 64 bits; the first send, and every one without pacing, is
    /// due immediately.
    pub open spec fn chunk_after(self, count: nat, seg_size: nat, sent: nat) -> SendChunk {
        let shards = smaller(self.chunk_segments(seg_size), (count - sent) as nat);
        SendChunk {
            start: (sent * seg_size) as usize,
            end: ((sent + shards) * seg_size) as usize,
            segment_size: if shards > 1 {
                Some(seg_size as usize)
            } else {
                None
            },
            due_nanos: if self.rate > 0 && sent > 0 {
                Some(self.drain_nanos(sent * seg_size) as u64)
            } else {
                None
            },
        }
    }

    /// How many sends the shards of a batch from `sent` on take.
    pub open spec fn chunks_after(self, count: nat, seg_size: nat, sent: nat) -> nat {
        runs_for((count - sent) as nat, self.chunk_segments(seg_size))
    }

    /// The sends that take the shards of a batch from `sent` on: each starts
    /// where the one before it ended, and all but the last are full.
    pub open spec fn schedule_after(self, count: nat, seg_size: nat, sent: nat) -> Seq<SendChunk> {
        Seq::new(
            self.chunks_after(count, seg_size, sent),
            |i: int|
                self.chunk_after(
                    count,
                    seg_size,
                    (sent + i * self.chunk_segments(seg_size)) as nat,
                ),
        )
    }

    /// The sends of a batch of `count` shards of `seg_size` bytes.
    pub open spec fn schedule(self, count: nat, seg_size: nat) -> Seq<SendChunk> {
        self.schedule_after(count, seg_size, 0)
    }

    /// The deadline of a send where it is at least one gap away, `elapsed_nanos`
    /// after the first send.
    pub open spec fn deadline_ahead(self, chunk: SendChunk, elapsed_nanos: nat) -> Option<u64> {
        match chunk.due_nanos {
            Some(due) => if due >= elapsed_nanos + self.min_gap_nanos {
                Some(due)
            } else {
                None
            },
            None => None,
        }
    }

    /// A pacer for a stream of `bitrate` bits per second, sent at `rate_factor`
    /// times that, on a platform that takes `max_gso_segments` segments per send.
    pub fn new(rate_factor: RateFactor, bitrate: usize, max_gso_segments: usize) -> (pacer: Self)
        ensures
            pacer.rate == rate_factor.paced_rate(bitrate as nat),
            pacer.min_gap_nanos == MIN_GAP_NANOS,
            pacer.max_gso_segments == at_least_one(max_gso_segments as nat),
            pacer.max_gso_segments >= 1,
            max_gso_segments >= 1 ==> pacer.max_gso_segments == max_gso_segments,
            max_gso_segments == 0 ==> pacer.max_gso_segments == 1,
    {
        Self {
            rate: rate_factor.pacing_rate(bitrate),
            min_gap_nanos: MIN_GAP_NANOS,
            max_gso_segments: if max_gso_segments == 0 {
                1
            } else {
                max_gso_segments
            },
        }
    }

    /// Shards of `seg_size` bytes to put in each send.
    pub fn segs_per_send(&self, seg_size: usize) -> (segments: usize)
        ensures
            segments == self.chunk_segments(seg_size as nat),
            1 <= segments <= self.gso_limit(seg_size as nat),
    {
        let divisor: usize = if seg_size == 0 {
            1
        } else {
            seg_size
        };
        let by_bytes: usize = MAX_GSO_BYTES / divisor;
        let capped: usize = if self.max_gso_segments < by_bytes {
            self.max_gso_segments
        } else {
            by_bytes
        };
        let gso_max: usize = if capped == 0 {
            1
        } else {
            capped
        };
        if self.rate == 0 {
            gso_max
        } else {
            assert(self.rate * self.min_gap_nanos <= u64::MAX * u64::MAX) by (nonlinear_arith)
                requires
                    self.rate <= u64::MAX,
                    self.min_gap_nanos <= u64::MAX,
            ;
            let bytes_per_gap: usize = ((self.rate as u128) * (self.min_gap_nanos as u128)
                / (NANOS_PER_SEC as u128)) as usize;
            let segments: usize = bytes_per_gap / divisor;
            if segments == 0 {
                1
            } else if segments < gso_max {
                segments
            } else {
                gso_max
            }
        }
    }

    /// Starts sending `batch`.
    pub fn begin(&self, batch: &ShardBatch) -> (send: BatchSend)
        ensures
            send@ == self.schedule(batch.count(), batch.size()),
    {
        proof {
            use_type_invariant(batch);
        }
        let seg_size: usize = batch.shard_size();
        let count: usize = batch.shard_count();
        assert(count * seg_size <= usize::MAX) by {
            assert(batch.bytes.len() == batch.bytes@.len());
        }
        BatchSend {
            pacer: *self,
            count,
            seg_size,
            segs_per_send: self.segs_per_send(seg_size),
            sent: 0,
        }
    }

    /// When to sleep until before the send `chunk`, in nanoseconds after the
    /// first send, if `elapsed_nanos` have passed since then; `None` to send at
    /// once, as where the deadline is less than one gap away.
    pub fn sleep_until(&self, chunk: &SendChunk, elapsed_nanos: u128) -> (res: Option<u64>)
        ensures
            res == self.deadline_ahead(*chunk, elapsed_nanos as nat),
            res is Some <==> chunk.due_nanos is Some && chunk.due_nanos->0 - elapsed_nanos
                >= self.min_gap_nanos,
            res is Some ==> res == chunk.due_nanos,
    {
        match chunk.due_nanos {
            Some(due) => {
                if (due as u128) >= elapsed_nanos && (due as u128) - elapsed_nanos >= (
                self.min_gap_nanos as u128) {
                    Some(due)
                } else {
                    None
                }
            },
            None => None,
        }
    }
}

/// The packets of a frame: equal-sized shards, one after the other.
pub struct ShardBatch {
    bytes: Vec<u8>,
    shard_count: usize,
    shard_size: usize,
}

impl View for ShardBatch {
    type V = Seq<u8>;

    closed spec fn view(&self) -> Seq<u8> {
        self.bytes@
    }
}

impl ShardBatch {
    #[verifier::type_invariant]
    closed spec fn well_formed(self) -> bool {
        self.shard_count * self.shard_size == self.bytes@.len()
    }

    /// Number of shards.
    pub closed spec fn count(self) -> nat {
        self.shard_count as nat
    }

    /// Size of each shard in bytes.
    pub closed spec fn size(self) -> nat {
        self.shard_size as nat
    }

    /// The batch of `shard_count` shards of `shard_size` bytes that `bytes`
    /// holds; `None` where that is not its length.
    pub fn new(bytes: Vec<u8>, shard_count: usize, shard_size: usize) -> (res: Option<Self>)
        ensures
            res is Some <==> shard_count * shard_size == bytes@.len(),
            res matches Some(batch) ==> {
                &&& batch@ == bytes@
                &&& batch.count() == shard_count
                &&& batch.size() == shard_size
            },
    {
        let available: usize = bytes.len();
        match shard_count.checked_mul(shard_size) {
            Some(len) => if len == available {
                Some(ShardBatch { bytes, shard_count, shard_size })
            } else {
                None
            },
            None => None,
        }
    }

    /// Number of shards.
    pub fn shard_count(&self) -> (count: usize)
        ensures
            count == self.count(),
    {
        self.shard_count
    }

    /// Size of each shard in bytes.
    pub fn shard_size(&self) -> (size: usize)
        ensures
            size == self.size(),
    {
        self.shard_size
    }

    /// The bytes of all shards.
    pub fn as_bytes(&self) -> (bytes: &[u8])
        ensures
            bytes@ == self@,
            bytes@.len() == self.count() * self.size(),
    {
        proof {
            use_type_invariant(self);
        }
        self.bytes.as_slice()
    }

    /// The bytes of one send of this batch.
    pub fn chunk_bytes(&self, chunk: &SendChunk) -> (bytes: &[u8])
        requires
            chunk.start <= chunk.end <= self.count() * self.size(),
        ensures
            bytes@ == self@.subrange(chunk.start as int, chunk.end as int),
    {
        slice_subrange(self.as_bytes(), chunk.start, chunk.end)
    }
}

/// A batch that is being sent: what is left of its schedule.
pub struct BatchSend {
    pacer: Pacer,
    count: usize,
    seg_size: usize,
    segs_per_send: usize,
    sent: usize,
}

/// How the latest send of a batch turned out.
#[derive(Debug)]
pub enum SendEvent<E> {
    /// There was none yet.
    Begun,
    /// It went out.
    Sent,
    /// It failed.
    Failed(E),
}

/// What to do once a send of a batch has turned out.
#[derive(Debug)]
pub struct SendStep<E> {
    /// The failure to report, if any.
    pub failure: Option<E>,
    /// The send to make next; `None` where the batch is done.
    pub next: Option<SendChunk>,
}

/// What to do after an event while the sends `rest` are left: report a failure, and
/// make the first of them.
pub open spec fn step_after<E>(rest: Seq<SendChunk>, event: SendEvent<E>) -> SendStep<E> {
    SendStep {
        failure: match event {
            SendEvent::Failed(e) => Some(e),
            _ => None,
        },
        next: if rest.len() > 0 {
            Some(rest[0])
        } else {
            None
        },
    }
}

/// What is left of the sends `rest` after an event, whatever it is: all but the
/// first, which is made next.
pub open spec fn rest_after<E>(rest: Seq<SendChunk>, event: SendEvent<E>) -> Seq<SendChunk> {
    if rest.len() > 0 {
        rest.skip(1)
    } else {
        rest
    }
}

impl View for BatchSend {
    type V = Seq<SendChunk>;

    closed spec fn view(&self) -> Seq<SendChunk> {
        self.pacer.schedule_after(self.count as nat, self.seg_size as nat, self.sent as nat)
    }
}

impl BatchSend {
    #[verifier::type_invariant]
    closed spec fn well_formed(self) -> bool {
        &&& self.sent <= self.count
        &&& self.count * self.seg_size <= usize::MAX
        &&& self.segs_per_send == self.pacer.chunk_segments(self.seg_size as nat)
        &&& self.segs_per_send >= 1
    }

    /// Takes the next send off the schedule; `None` once all have been taken.
    pub fn next_chunk(&mut self) -> (res: Option<SendChunk>)
        ensures
            old(self)@.len() == 0 ==> res is None && final(self)@ == old(self)@,
            old(self)@.len() > 0 ==> res == Some(old(self)@[0]) && final(self)@ == old(
                self,
            )@.skip(1),
    {
        proof {
            use_type_invariant(&*self);
            lemma_schedule_step(
                self.pacer,
                self.count as nat,
                self.seg_size as nat,
                self.sent as nat,
            );
        }
        if self.sent == self.count {
            return None;
        }
        let left: usize = self.count - self.sent;
        let shards: usize = if self.segs_per_send < left {
            self.segs_per_send
        } else {
            left
        };
        let seg_size: usize = self.seg_size;
        let next: usize = self.sent + shards;
        proof {
            lemma_within(self.sent as nat, self.count as nat, seg_size as nat);
            lemma_within(next as nat, self.count as nat, seg_size as nat);
        }
        let start: usize = self.sent * seg_size;
        let end: usize = next * seg_size;
        let segment_size: Option<usize> = if shards > 1 {
            Some(seg_size)
        } else {
            None
        };
        let due_nanos: Option<u64> = if self.pacer.rate > 0 && self.sent > 0 {
            Some(((start as u128) * (NANOS_PER_SEC as u128) / (self.pacer.rate as u128)) as u64)
        } else {
            None
        };
        self.sent = next;
        Some(SendChunk { start, end, segment_size, due_nanos })
    }

    /// Takes in how the latest send turned out and says what to do next.
    ///
    /// A failure is reported and otherwise makes no difference: the send is not
    /// repeated, and the rest of the batch is sent as if it had succeeded.
    pub fn step<E>(&mut self, event: SendEvent<E>) -> (step: SendStep<E>)
        ensures
            step == step_after(old(self)@, event),
            final(self)@ == rest_after(old(self)@, event),
            step.failure is Some <==> event is Failed,
            event matches SendEvent::Failed(e) ==> step.failure == Some(e),
            old(self)@.len() == 0 ==> step.next is None && final(self)@ == old(self)@,
            old(self)@.len() > 0 ==> step.next == Some(old(self)@[0]) && final(self)@ == old(
                self,
            )@.skip(1),
    {
        let failure: Option<E> = match event {
            SendEvent::Begun => None,
            SendEvent::Sent => None,
            SendEvent::Failed(e) => Some(e),
        };
        SendStep { failure, next: self.next_chunk() }
    }
}

pub(crate) proof fn lemma_within(a: nat, b: nat, size: nat)
    requires
        a <= b,
    ensures
        a * size <= b * size,
{
    assert(a * size <= b * size) by (nonlinear_arith)
        requires
            a <= b,
    ;
}

/// What is left of a schedule once its first send has been taken off.
proof fn lemma_schedule_step(pacer: Pacer, count: nat, seg_size: nat, sent: nat)
    requires
        sent <= count,
    ensures
        pacer.schedule_after(count, seg_size, sent).len() > 0 <==> sent < count,
        sent < count ==> {
            let shards = smaller(pacer.chunk_segments(seg_size), (count - sent) as nat);
            &&& pacer.schedule_after(count, seg_size, sent)[0] == pacer.chunk_after(
                count,
                seg_size,
                sent,
            )
            &&& pacer.schedule_after(count, seg_size, sent).skip(1) == pacer.schedule_after(
                count,
                seg_size,
                (sent + shards) as nat,
            )
        },
{
    let g = pacer.chunk_segments(seg_size);
    let left = (count - sent) as nat;
    let n = pacer.chunks_after(count, seg_size, sent) as int;
    lemma_runs(left, g);
    if sent < count {
        let shards = smaller(g, left);
        let rest = pacer.schedule_after(count, seg_size, (sent + shards) as nat);
        let whole = pacer.schedule_after(count, seg_size, sent);
        lemma_runs((left - shards) as nat, g);
        assert(rest.len() == n - 1) by {
            if g < left {
                assert((n - 1) * g == n * g - g && (n - 2) * g == (n - 1) * g - g)
                    by (nonlinear_arith);
                lemma_runs_unique((left - shards) as nat, g, (n - 1) as nat);
            } else {
                assert(n <= 1) by (nonlinear_arith)
                    requires
                        (n - 1) * g < left,
                        left <= g,
                        g > 0,
                ;
            }
        }
        assert(whole.skip(1) =~= rest) by {
            assert forall|i: int| 0 <= i < n - 1 implies whole.skip(1)[i] == rest[i] by {
                assert(g < left) by {
                    assert(n >= 2);
                    assert(g < left) by (nonlinear_arith)
                        requires
                            (n - 1) * g < left,
                            n >= 2,
                            g > 0,
                    ;
                }
                assert((i + 1) * g == g + i * g) by (nonlinear_arith);
                assert(whole[i + 1] == pacer.chunk_after(
                    count,
                    seg_size,
                    (sent + (i + 1) * g) as nat,
                ));
            }
        }
    }
}

/// Holding `left` shards takes the fewest runs of `g` that are enough.
pub(crate) proof fn lemma_runs(left: nat, g: nat)
    requires
        g > 0,
    ensures
        runs_for(left, g) > 0 <==> left > 0,
        (runs_for(left, g) - 1) * g < left,
        left <= runs_for(left, g) * g,
{
    let n = runs_for(left, g) as int;
    let q = (left / g) as int;
    lemma_fundamental_div_mod(left as int, g as int);
    lemma_mod_bound(left as int, g as int);
    assert(g * q == q * g) by (nonlinear_arith);
    assert((n - 1) * g == n * g - g) by (nonlinear_arith);
    assert((q + 1) * g == q * g + g) by (nonlinear_arith);
    if left > 0 {
        assert(n > 0) by (nonlinear_arith)
            requires
                left <= n * g,
                left > 0,
                g > 0,
        ;
    } else {
        assert(n == 0) by (nonlinear_arith)
            requires
                (n - 1) * g < 0,
                0 <= n,
                g > 0,
        ;
    }
}

/// The number of runs is the only one between being enough and being one too many.
proof fn lemma_runs_unique(left: nat, g: nat, n: nat)
    requires
        g > 0,
        (n - 1) * g < left,
        left <= n * g,
    ensures
        runs_for(left, g) == n,
{
    lemma_runs(left, g);
    let m = runs_for(left, g) as int;
    assert(m == n) by (nonlinear_arith)
        requires
            (n - 1) * g < left,
            left <= n * g,
            (m - 1) * g < left,
            left <= m * g,
            g > 0,
    ;
}

} // verus!
