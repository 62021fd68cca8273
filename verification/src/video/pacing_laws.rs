//! What holds of every schedule that a pacer makes.
use super::pacer::{
    lemma_runs, lemma_within, rest_after, shards_in, step_after, Pacer, SendChunk, SendEvent,
    MAX_GSO_BYTES, NANOS_PER_SEC,
};
use super::rate::{
    paced_rate_covers_the_bitrate, rate_grows_with_factor_and_bitrate,
    rate_is_factor_times_bitrate, rounded, RateFactor, SIGNIFICAND_LIMIT,
};
use vstd::arithmetic::div_mod::{
    lemma_div_is_ordered, lemma_div_is_ordered_by_denominator, lemma_fundamental_div_mod,
    lemma_mod_bound,
};
use vstd::arithmetic::power2::{lemma_pow2_pos, pow2};
use vstd::prelude::*;

verus! {

/// The bytes that a series of sends puts on the wire, one send after the other.
pub open spec fn wire_bytes(bytes: Seq<u8>, chunks: Seq<SendChunk>) -> Seq<u8>
    decreases chunks.len(),
{
    if chunks.len() == 0 {
        Seq::empty()
    } else {
        wire_bytes(bytes, chunks.drop_last()) + bytes.subrange(
            chunks.last().start as int,
            chunks.last().end as int,
        )
    }
}

/// The shards that have been sent once the first `i` sends of a schedule have.
spec fn shards_before(pacer: Pacer, count: nat, seg_size: nat, i: int) -> int {
    let reached = i * pacer.chunk_segments(seg_size);
    if reached < count {
        reached
    } else {
        count as int
    }
}

/// The `i`th send of a schedule takes the shards between the first `i` sends and
/// the first `i + 1`.
proof fn lemma_chunk(pacer: Pacer, count: nat, seg_size: nat, i: int)
    requires
        count * seg_size <= usize::MAX,
        0 <= i < pacer.schedule(count, seg_size).len(),
    ensures
        ({
            let chunk = pacer.schedule(count, seg_size)[i];
            let before = shards_before(pacer, count, seg_size, i);
            let after = shards_before(pacer, count, seg_size, i + 1);
            &&& 0 <= before < after <= count
            &&& before == i * pacer.chunk_segments(seg_size)
            &&& i == 0 ==> before == 0 && chunk.start == 0
            &&& after - before <= pacer.chunk_segments(seg_size)
            &&& i + 1 < pacer.schedule(count, seg_size).len() ==> after - before
                == pacer.chunk_segments(seg_size)
            &&& i + 1 == pacer.schedule(count, seg_size).len() ==> after == count
            &&& chunk.start == before * seg_size
            &&& chunk.end == after * seg_size
            &&& chunk.start <= chunk.end <= count * seg_size
            &&& chunk.segment_size == if after - before > 1 {
                Some(seg_size as usize)
            } else {
                None
            }
            &&& chunk.due_nanos == if pacer.rate > 0 && before > 0 {
                Some(pacer.drain_nanos((before * seg_size) as nat) as u64)
            } else {
                None
            }
        }),
{
    let g = pacer.chunk_segments(seg_size) as int;
    let n = pacer.schedule(count, seg_size).len() as int;
    lemma_runs(count, g as nat);
    assert(0 * g == 0 && 0 * seg_size == 0) by (nonlinear_arith);
    assert(i * g <= (n - 1) * g) by (nonlinear_arith)
        requires
            i <= n - 1,
            g > 0,
    ;
    assert(i * g >= 0) by (nonlinear_arith)
        requires
            i >= 0,
            g > 0,
    ;
    assert((i + 1) * g == i * g + g) by (nonlinear_arith);
    if i + 1 < n {
        assert((i + 1) * g <= (n - 1) * g) by (nonlinear_arith)
            requires
                i + 1 <= n - 1,
                g > 0,
        ;
    }
    let before = shards_before(pacer, count, seg_size, i);
    let after = shards_before(pacer, count, seg_size, i + 1);
    lemma_within(before as nat, after as nat, seg_size);
    lemma_within(after as nat, count, seg_size);
    assert(pacer.schedule(count, seg_size)[i] == pacer.chunk_after(
        count,
        seg_size,
        (0 + i * g) as nat,
    ));
    if seg_size > usize::MAX {
        assert(count * seg_size > usize::MAX) by (nonlinear_arith)
            requires
                seg_size > usize::MAX,
                count >= 1,
        ;
    }
}

/// The sends of a batch follow each other without gap or overlap: the first
/// starts where the batch starts, each later one where the one before it ended,
/// and the last ends where the batch ends. None is empty of shards.
pub proof fn sends_are_contiguous(pacer: Pacer, count: nat, seg_size: nat, i: int)
    requires
        count * seg_size <= usize::MAX,
        0 <= i < pacer.schedule(count, seg_size).len(),
    ensures
        ({
            let sends = pacer.schedule(count, seg_size);
            &&& i == 0 ==> sends[i].start == 0
            &&& i > 0 ==> sends[i].start == sends[i - 1].end
            &&& i == sends.len() - 1 ==> sends[i].end == count * seg_size
            &&& sends[i].start <= sends[i].end <= count * seg_size
            &&& seg_size > 0 ==> sends[i].start < sends[i].end
        }),
{
    lemma_chunk(pacer, count, seg_size, i);
    if i > 0 {
        lemma_chunk(pacer, count, seg_size, i - 1);
    }
    let before = shards_before(pacer, count, seg_size, i);
    let after = shards_before(pacer, count, seg_size, i + 1);
    if seg_size > 0 {
        assert(before * seg_size < after * seg_size) by (nonlinear_arith)
            requires
                before < after,
                seg_size > 0,
        ;
    }
}

/// A batch without shards takes no send; any other takes at least one.
pub proof fn empty_batch_sends_nothing(pacer: Pacer, count: nat, seg_size: nat)
    ensures
        pacer.schedule(count, seg_size).len() == 0 <==> count == 0,
{
    lemma_runs(count, pacer.chunk_segments(seg_size));
}

/// The sends of a batch put every byte of it on the wire once, in order.
pub proof fn every_byte_goes_out_once(pacer: Pacer, bytes: Seq<u8>, count: nat, seg_size: nat)
    requires
        count * seg_size == bytes.len(),
        bytes.len() <= usize::MAX,
    ensures
        wire_bytes(bytes, pacer.schedule(count, seg_size)) == bytes,
{
    let sends = pacer.schedule(count, seg_size);
    lemma_prefix_on_wire(pacer, bytes, count, seg_size, sends.len() as int);
    assert(sends.take(sends.len() as int) =~= sends);
    empty_batch_sends_nothing(pacer, count, seg_size);
    if count > 0 {
        lemma_chunk(pacer, count, seg_size, sends.len() - 1);
    }
    assert(bytes.take(bytes.len() as int) =~= bytes);
}

proof fn lemma_prefix_on_wire(pacer: Pacer, bytes: Seq<u8>, count: nat, seg_size: nat, i: int)
    requires
        count * seg_size == bytes.len(),
        bytes.len() <= usize::MAX,
        0 <= i <= pacer.schedule(count, seg_size).len(),
    ensures
        0 <= shards_before(pacer, count, seg_size, i) * seg_size <= bytes.len(),
        wire_bytes(bytes, pacer.schedule(count, seg_size).take(i)) == bytes.take(
            shards_before(pacer, count, seg_size, i) * seg_size,
        ),
    decreases i,
{
    let sends = pacer.schedule(count, seg_size);
    if i == 0 {
        assert(sends.take(0).len() == 0);
        assert(0 * pacer.chunk_segments(seg_size) == 0 && 0 * seg_size == 0) by (nonlinear_arith);
        assert(bytes.take(0) =~= Seq::empty());
    } else {
        lemma_prefix_on_wire(pacer, bytes, count, seg_size, i - 1);
        lemma_chunk(pacer, count, seg_size, i - 1);
        assert(sends.take(i).drop_last() =~= sends.take(i - 1));
        let chunk = sends[i - 1];
        assert(bytes.take(chunk.start as int) + bytes.subrange(
            chunk.start as int,
            chunk.end as int,
        ) =~= bytes.take(chunk.end as int));
    }
}

/// What is left of the sends `rest` after a series of events.
pub open spec fn rest_after_all<E>(rest: Seq<SendChunk>, events: Seq<SendEvent<E>>) -> Seq<
    SendChunk,
>
    decreases events.len(),
{
    if events.len() == 0 {
        rest
    } else {
        rest_after(rest_after_all(rest, events.drop_last()), events.last())
    }
}

/// The sends that are attempted, in order, in the course of a series of events while
/// the sends `rest` are left.
pub open spec fn attempts<E>(rest: Seq<SendChunk>, events: Seq<SendEvent<E>>) -> Seq<SendChunk>
    decreases events.len(),
{
    if events.len() == 0 {
        Seq::empty()
    } else {
        let earlier = attempts(rest, events.drop_last());
        match step_after(rest_after_all(rest, events.drop_last()), events.last()).next {
            Some(chunk) => earlier.push(chunk),
            None => earlier,
        }
    }
}

/// The sends are attempted one per event, in order, each once.
proof fn lemma_attempts<E>(rest: Seq<SendChunk>, events: Seq<SendEvent<E>>)
    ensures
        events.len() <= rest.len() ==> attempts(rest, events) == rest.take(events.len() as int),
        events.len() <= rest.len() ==> rest_after_all(rest, events) == rest.skip(
            events.len() as int,
        ),
        events.len() >= rest.len() ==> attempts(rest, events) == rest,
        events.len() >= rest.len() ==> rest_after_all(rest, events).len() == 0,
    decreases events.len(),
{
    if events.len() == 0 {
        assert(rest.take(0) =~= Seq::empty());
        assert(rest.skip(0) =~= rest);
        if rest.len() == 0 {
            assert(rest =~= Seq::empty());
        }
    } else {
        let n = events.len() as int;
        lemma_attempts(rest, events.drop_last());
        if n <= rest.len() {
            assert(rest.skip(n - 1).skip(1) =~= rest.skip(n));
            assert(rest.take(n - 1).push(rest[n - 1]) =~= rest.take(n));
        }
        if n == rest.len() {
            assert(rest.take(n) =~= rest);
        }
    }
}

/// How sends turn out makes no difference to what is sent: whichever of them fail,
/// the same sends are attempted in the same order, and the same ones are left. A
/// failed send neither stops the batch nor is repeated.
pub proof fn failed_sends_change_nothing<E>(
    rest: Seq<SendChunk>,
    events: Seq<SendEvent<E>>,
    others: Seq<SendEvent<E>>,
)
    requires
        events.len() == others.len(),
    ensures
        attempts(rest, events) == attempts(rest, others),
        rest_after_all(rest, events) == rest_after_all(rest, others),
{
    lemma_attempts(rest, events);
    lemma_attempts(rest, others);
    if events.len() > rest.len() {
        assert(rest_after_all(rest, events) =~= rest_after_all(rest, others));
    }
}

/// Every send of a batch is attempted once, in order, however the sends before it
/// turned out: by the time that all have turned out there is no next one, and the
/// bytes of the attempts are those of the batch.
pub proof fn every_send_is_attempted<E>(
    pacer: Pacer,
    bytes: Seq<u8>,
    count: nat,
    seg_size: nat,
    events: Seq<SendEvent<E>>,
    last: SendEvent<E>,
)
    requires
        count * seg_size == bytes.len(),
        bytes.len() <= usize::MAX,
        events.len() == pacer.schedule(count, seg_size).len(),
    ensures
        ({
            let schedule = pacer.schedule(count, seg_size);
            &&& attempts(schedule, events) == schedule
            &&& wire_bytes(bytes, attempts(schedule, events)) == bytes
            &&& step_after(rest_after_all(schedule, events), last).next is None
        }),
{
    lemma_attempts(pacer.schedule(count, seg_size), events);
    every_byte_goes_out_once(pacer, bytes, count, seg_size);
}

/// No send is over what GSO takes: it has no more shards than the platform's
/// segment cap, and unless it is a single shard no more bytes than the GSO
/// payload limit. It carries a segment size exactly where it is more than one
/// shard.
pub proof fn sends_fit_gso(pacer: Pacer, count: nat, seg_size: nat, i: int)
    requires
        count * seg_size <= usize::MAX,
        seg_size > 0,
        0 <= i < pacer.schedule(count, seg_size).len(),
    ensures
        ({
            let send = pacer.schedule(count, seg_size)[i];
            let len = send.end - send.start;
            &&& len == seg_size || len <= MAX_GSO_BYTES
            &&& len == seg_size || len <= pacer.max_gso_segments * seg_size
            &&& send.segment_size == if len > seg_size {
                Some(seg_size as usize)
            } else {
                None
            }
        }),
{
    lemma_chunk(pacer, count, seg_size, i);
    let send = pacer.schedule(count, seg_size)[i];
    let before = shards_before(pacer, count, seg_size, i);
    let after = shards_before(pacer, count, seg_size, i + 1);
    let shards = after - before;
    let by_bytes = MAX_GSO_BYTES as nat / seg_size;
    assert(send.end - send.start == shards * seg_size) by (nonlinear_arith)
        requires
            send.start == before * seg_size,
            send.end == after * seg_size,
            shards == after - before,
    ;
    if shards == 1 {
        assert(shards * seg_size == seg_size) by (nonlinear_arith)
            requires
                shards == 1,
        ;
    } else {
        assert(shards * seg_size > seg_size) by (nonlinear_arith)
            requires
                shards >= 2,
                seg_size > 0,
        ;
        assert(shards <= by_bytes && shards <= pacer.max_gso_segments);
        lemma_fundamental_div_mod(MAX_GSO_BYTES as int, seg_size as int);
        assert(shards * seg_size <= seg_size * by_bytes) by (nonlinear_arith)
            requires
                shards <= by_bytes,
                seg_size > 0,
        ;
        assert(shards * seg_size <= pacer.max_gso_segments * seg_size) by (nonlinear_arith)
            requires
                shards <= pacer.max_gso_segments,
                seg_size > 0,
        ;
    }
}

/// Without pacing every send is due immediately, all but the last are filled to
/// the GSO limit, and no series of sends within that limit is shorter.
pub proof fn unpaced_takes_fewest_sends(pacer: Pacer, count: nat, seg_size: nat)
    requires
        count * seg_size <= usize::MAX,
        pacer.rate == 0,
    ensures
        ({
            let sends = pacer.schedule(count, seg_size);
            let limit = pacer.gso_limit(seg_size);
            &&& forall|i: int| 0 <= i < sends.len() ==> (#[trigger] sends[i]).due_nanos is None
            &&& forall|i: int|
                0 <= i < sends.len() - 1 ==> (#[trigger] sends[i]).end - sends[i].start == limit
                    * seg_size
            &&& forall|m: nat| #[trigger] (m * limit) >= count ==> sends.len() <= m
        }),
{
    let sends = pacer.schedule(count, seg_size);
    let limit = pacer.gso_limit(seg_size);
    lemma_runs(count, limit);
    assert forall|i: int| 0 <= i < sends.len() implies (#[trigger] sends[i]).due_nanos is None by {
        lemma_chunk(pacer, count, seg_size, i);
    }
    assert forall|i: int| 0 <= i < sends.len() - 1 implies (#[trigger] sends[i]).end
        - sends[i].start == limit * seg_size by {
        lemma_chunk(pacer, count, seg_size, i);
        let before = shards_before(pacer, count, seg_size, i);
        let after = shards_before(pacer, count, seg_size, i + 1);
        assert(after * seg_size - before * seg_size == limit * seg_size) by (nonlinear_arith)
            requires
                after - before == limit,
        ;
    }
    assert forall|m: nat| #[trigger] (m * limit) >= count implies sends.len() <= m by {
        let n = sends.len() as int;
        assert(n <= m) by (nonlinear_arith)
            requires
                (n - 1) * limit < count,
                m * limit >= count,
                limit > 0,
        ;
    }
}

/// A frame of at most one send's worth of shards, paced or not, goes out in a
/// single send that is due immediately.
pub proof fn small_frame_goes_out_at_once(pacer: Pacer, count: nat, seg_size: nat)
    requires
        count * seg_size <= usize::MAX,
        0 < count <= pacer.chunk_segments(seg_size),
    ensures
        pacer.schedule(count, seg_size).len() == 1,
        pacer.schedule(count, seg_size)[0].due_nanos is None,
{
    let g = pacer.chunk_segments(seg_size) as int;
    let n = pacer.schedule(count, seg_size).len() as int;
    lemma_runs(count, g as nat);
    assert(n <= 1) by (nonlinear_arith)
        requires
            (n - 1) * g < count,
            count <= g,
            g > 0,
    ;
    lemma_chunk(pacer, count, seg_size, 0);
}

/// The first send of a batch is due immediately.
pub proof fn first_send_is_immediate(pacer: Pacer, count: nat, seg_size: nat)
    requires
        count * seg_size <= usize::MAX,
        count > 0,
    ensures
        pacer.schedule(count, seg_size)[0].due_nanos is None,
        forall|elapsed: nat|
            (#[trigger] pacer.deadline_ahead(pacer.schedule(count, seg_size)[0], elapsed)) is None,
{
    empty_batch_sends_nothing(pacer, count, seg_size);
    lemma_chunk(pacer, count, seg_size, 0);
}

/// With pacing, a later send is due at the moment, to the nanosecond, at which
/// the bytes before it have drained at the target rate, as far as that moment
/// can be counted in 64 bits.
pub proof fn sends_keep_the_rate(pacer: Pacer, count: nat, seg_size: nat, i: int)
    requires
        count * seg_size <= usize::MAX,
        pacer.rate > 0,
        0 < i < pacer.schedule(count, seg_size).len(),
        pacer.drain_nanos(count * seg_size) <= u64::MAX,
    ensures
        ({
            let send = pacer.schedule(count, seg_size)[i];
            &&& send.due_nanos is Some
            &&& send.due_nanos->0 * pacer.rate <= send.start * NANOS_PER_SEC
            &&& send.start * NANOS_PER_SEC < (send.due_nanos->0 + 1) * pacer.rate
        }),
{
    lemma_due(pacer, count, seg_size, i);
    let send = pacer.schedule(count, seg_size)[i];
    lemma_drain_bounds(pacer, send.start as nat);
}

proof fn lemma_drain_bounds(pacer: Pacer, bytes: nat)
    requires
        pacer.rate > 0,
    ensures
        pacer.drain_nanos(bytes) * pacer.rate <= bytes * NANOS_PER_SEC,
        bytes * NANOS_PER_SEC < (pacer.drain_nanos(bytes) + 1) * pacer.rate,
{
    let x = (bytes * (NANOS_PER_SEC as nat)) as int;
    let r = pacer.rate as int;
    let q = x / r;
    lemma_fundamental_div_mod(x, r);
    lemma_mod_bound(x, r);
    assert(r * q == q * r) by (nonlinear_arith);
    assert((q + 1) * r == q * r + r) by (nonlinear_arith);
}

proof fn lemma_drain_monotone(pacer: Pacer, a: nat, b: nat)
    requires
        pacer.rate > 0,
        a <= b,
    ensures
        pacer.drain_nanos(a) <= pacer.drain_nanos(b),
{
    lemma_div_is_ordered(
        (a * (NANOS_PER_SEC as nat)) as int,
        (b * (NANOS_PER_SEC as nat)) as int,
        pacer.rate as int,
    );
}

proof fn lemma_due(pacer: Pacer, count: nat, seg_size: nat, i: int)
    requires
        count * seg_size <= usize::MAX,
        pacer.rate > 0,
        0 < i < pacer.schedule(count, seg_size).len(),
        pacer.drain_nanos(count * seg_size) <= u64::MAX,
    ensures
        ({
            let send = pacer.schedule(count, seg_size)[i];
            &&& send.start <= send.end <= count * seg_size
            &&& send.due_nanos is Some
            &&& send.due_nanos->0 == pacer.drain_nanos(send.start as nat)
        }),
{
    lemma_chunk(pacer, count, seg_size, i);
    let g = pacer.chunk_segments(seg_size) as int;
    assert(i * g > 0) by (nonlinear_arith)
        requires
            i > 0,
            g > 0,
    ;
    let send = pacer.schedule(count, seg_size)[i];
    lemma_drain_monotone(pacer, send.start as nat, count * seg_size);
}

/// With pacing, the deadlines of a batch never go back, and all of them are past
/// by the time at which the whole batch has drained at the target rate.
pub proof fn batch_drains_in_time(pacer: Pacer, count: nat, seg_size: nat, i: int, j: int)
    requires
        count * seg_size <= usize::MAX,
        pacer.rate > 0,
        0 < i <= j < pacer.schedule(count, seg_size).len(),
        pacer.drain_nanos(count * seg_size) <= u64::MAX,
    ensures
        ({
            let sends = pacer.schedule(count, seg_size);
            &&& sends[i].due_nanos is Some
            &&& sends[j].due_nanos is Some
            &&& sends[i].due_nanos->0 <= sends[j].due_nanos->0
            &&& sends[j].due_nanos->0 <= pacer.drain_nanos(count * seg_size)
        }),
{
    lemma_due(pacer, count, seg_size, i);
    lemma_due(pacer, count, seg_size, j);
    lemma_chunk(pacer, count, seg_size, i);
    lemma_chunk(pacer, count, seg_size, j);
    let sends = pacer.schedule(count, seg_size);
    let bi = shards_before(pacer, count, seg_size, i);
    let bj = shards_before(pacer, count, seg_size, j);
    let g = pacer.chunk_segments(seg_size) as int;
    assert(i * g <= j * g) by (nonlinear_arith)
        requires
            i <= j,
            g > 0,
    ;
    lemma_within(bi as nat, bj as nat, seg_size);
    lemma_drain_monotone(pacer, sends[i].start as nat, sends[j].start as nat);
    lemma_drain_monotone(pacer, sends[j].start as nat, count * seg_size);
}

/// When a send is due, in nanoseconds after the first; zero where it is due
/// immediately.
pub open spec fn due_or_now(send: SendChunk) -> nat {
    match send.due_nanos {
        Some(due) => due as nat,
        None => 0,
    }
}

/// With pacing, the deadline after a send of more than one shard is at most one
/// gap, up to the rounding of a nanosecond, behind that send's own.
pub proof fn sends_are_at_most_one_gap_apart(pacer: Pacer, count: nat, seg_size: nat, i: int)
    requires
        count * seg_size <= usize::MAX,
        pacer.rate > 0,
        0 <= i < pacer.schedule(count, seg_size).len() - 1,
        pacer.drain_nanos(count * seg_size) <= u64::MAX,
        pacer.schedule(count, seg_size)[i].segment_size is Some,
    ensures
        ({
            let sends = pacer.schedule(count, seg_size);
            due_or_now(sends[i + 1]) - due_or_now(sends[i]) <= pacer.min_gap_nanos + 1
        }),
{
    let sends = pacer.schedule(count, seg_size);
    lemma_chunk(pacer, count, seg_size, i);
    lemma_chunk(pacer, count, seg_size, i + 1);
    lemma_due(pacer, count, seg_size, i + 1);
    let a = sends[i].start as int;
    let b = sends[i + 1].start as int;
    lemma_drain_bounds(pacer, a as nat);
    lemma_drain_bounds(pacer, b as nat);
    let da = due_or_now(sends[i]) as int;
    let db = due_or_now(sends[i + 1]) as int;
    let r = pacer.rate as int;
    let gap = pacer.min_gap_nanos as int;
    let ns = NANOS_PER_SEC as int;
    if i > 0 {
        lemma_due(pacer, count, seg_size, i);
    } else {
        assert(0 * ns < (0 + 1) * r) by (nonlinear_arith)
            requires
                r > 0,
        ;
    }
    let g = pacer.chunk_segments(seg_size) as int;
    let before = shards_before(pacer, count, seg_size, i);
    let after = shards_before(pacer, count, seg_size, i + 1);
    assert(b - a == g * seg_size) by (nonlinear_arith)
        requires
            a == before * seg_size,
            b == after * seg_size,
            after - before == g,
    ;
    lemma_gap_bytes(pacer, seg_size);
    assert((b - a) * ns == b * ns - a * ns) by (nonlinear_arith);
    assert(db - da <= gap + 1) by (nonlinear_arith)
        requires
            db * r <= b * ns,
            a * ns < (da + 1) * r,
            b * ns - a * ns <= r * gap,
            r > 0,
    ;
}

/// With pacing, a send that GSO does not cap holds as many whole shards as drain
/// in one gap: with one more it would hold over a gap's worth of bytes.
pub proof fn sends_fill_the_gap(pacer: Pacer, seg_size: nat)
    requires
        pacer.rate > 0,
        seg_size > 0,
        pacer.chunk_segments(seg_size) < pacer.gso_limit(seg_size),
        pacer.rate * pacer.min_gap_nanos / (NANOS_PER_SEC as int) <= usize::MAX,
    ensures
        (pacer.chunk_segments(seg_size) + 1) * seg_size > pacer.rate * pacer.min_gap_nanos / (
        NANOS_PER_SEC as int),
{
    let per_gap = pacer.rate * pacer.min_gap_nanos / (NANOS_PER_SEC as int);
    let g = pacer.chunk_segments(seg_size) as int;
    assert(per_gap >= 0) by (nonlinear_arith)
        requires
            per_gap == pacer.rate * pacer.min_gap_nanos / (NANOS_PER_SEC as int),
            pacer.rate >= 0,
            pacer.min_gap_nanos >= 0,
            NANOS_PER_SEC > 0,
    ;
    assert(per_gap / (seg_size as int) <= g);
    lemma_fundamental_div_mod(per_gap, seg_size as int);
    lemma_mod_bound(per_gap, seg_size as int);
    assert((g + 1) * seg_size > per_gap) by (nonlinear_arith)
        requires
            per_gap == seg_size * (per_gap / (seg_size as int)) + per_gap % (seg_size as int),
            per_gap % (seg_size as int) < seg_size,
            per_gap / (seg_size as int) <= g,
            seg_size > 0,
    ;
}

/// A send of more than one shard holds no more than drains in one gap.
proof fn lemma_gap_bytes(pacer: Pacer, seg_size: nat)
    requires
        pacer.rate > 0,
        pacer.chunk_segments(seg_size) > 1,
    ensures
        pacer.chunk_segments(seg_size) * seg_size * NANOS_PER_SEC <= pacer.rate
            * pacer.min_gap_nanos,
{
    let g = pacer.chunk_segments(seg_size) as int;
    let per_gap = pacer.bytes_per_gap() as int;
    let ns = NANOS_PER_SEC as int;
    let x = pacer.rate * pacer.min_gap_nanos;
    assert(x >= 0) by (nonlinear_arith)
        requires
            x == pacer.rate * pacer.min_gap_nanos,
            pacer.rate >= 0,
            pacer.min_gap_nanos >= 0,
    ;
    assert(per_gap <= x / ns);
    assert(g <= shards_in(per_gap as nat, seg_size));
    if seg_size == 0 {
        assert(g * seg_size == 0) by (nonlinear_arith)
            requires
                seg_size == 0,
        ;
    } else {
        lemma_fundamental_div_mod(per_gap, seg_size as int);
        lemma_mod_bound(per_gap, seg_size as int);
        assert(g * seg_size <= per_gap) by (nonlinear_arith)
            requires
                g <= per_gap / (seg_size as int),
                per_gap == seg_size * (per_gap / (seg_size as int)) + per_gap % (seg_size as int),
                per_gap % (seg_size as int) >= 0,
                seg_size > 0,
        ;
    }
    assert(ns * (x / ns) <= x);
    assert(g * seg_size * ns <= x) by (nonlinear_arith)
        requires
            g * seg_size <= per_gap,
            per_gap <= x / ns,
            ns * (x / ns) <= x,
            ns > 0,
    ;
}

/// At the rate that a stream is paced with, a frame within its share of the
/// bitrate, as double precision holds it, has every send due within its own frame
/// interval: frames do not back up.
pub proof fn frame_drains_within_its_interval(
    pacer: Pacer,
    factor: RateFactor,
    bitrate: nat,
    fps: nat,
    count: nat,
    seg_size: nat,
    i: int,
)
    requires
        pacer.rate == factor.paced_rate(bitrate),
        factor.is_positive(),
        0 < bitrate <= usize::MAX,
        fps > 0,
        count * seg_size <= usize::MAX,
        count * seg_size * 8 * fps <= rounded(bitrate),
        0 < i < pacer.schedule(count, seg_size).len(),
    ensures
        due_or_now(pacer.schedule(count, seg_size)[i]) * fps <= NANOS_PER_SEC,
{
    lemma_chunk(pacer, count, seg_size, i);
    if pacer.rate > 0 {
        paced_rate_covers_the_bitrate(factor, bitrate);
        lemma_due_within_interval(pacer, rounded(bitrate), fps, count, seg_size, i);
    } else {
        assert(0 * fps == 0) by (nonlinear_arith);
    }
}

proof fn lemma_due_within_interval(
    pacer: Pacer,
    bits: nat,
    fps: nat,
    count: nat,
    seg_size: nat,
    i: int,
)
    requires
        pacer.rate > 0,
        pacer.rate >= bits / 8,
        fps > 0,
        count * seg_size <= usize::MAX,
        count * seg_size * 8 * fps <= bits,
        0 < i < pacer.schedule(count, seg_size).len(),
    ensures
        due_or_now(pacer.schedule(count, seg_size)[i]) * fps <= NANOS_PER_SEC,
        due_or_now(pacer.schedule(count, seg_size)[i]) * pacer.rate <= count * seg_size
            * NANOS_PER_SEC,
{
    let total = (count * seg_size) as int;
    let ns = NANOS_PER_SEC as int;
    let r = pacer.rate as int;
    let drain = pacer.drain_nanos(count * seg_size) as int;
    lemma_drain_bounds(pacer, count * seg_size);
    assert(total * 8 * fps == 8 * (total * fps)) by (nonlinear_arith);
    assert(total * fps <= r);
    assert(drain * fps <= ns) by (nonlinear_arith)
        requires
            drain * r <= total * ns,
            total * fps <= r,
            fps > 0,
            r > 0,
            total >= 0,
            drain >= 0,
            ns > 0,
    {
        assert(drain * r * fps <= total * ns * fps);
        assert(total * ns * fps == (total * fps) * ns);
        assert((total * fps) * ns <= r * ns);
        assert(drain * r * fps == (drain * fps) * r);
        assert((drain * fps) * r <= ns * r);
    }
    assert(drain <= ns) by (nonlinear_arith)
        requires
            drain * fps <= ns,
            fps >= 1,
            drain >= 0,
    ;
    batch_drains_in_time(pacer, count, seg_size, i, i);
    let due = pacer.schedule(count, seg_size)[i].due_nanos->0 as int;
    assert(due * fps <= drain * fps) by (nonlinear_arith)
        requires
            due <= drain,
            fps > 0,
    ;
    assert(due * r <= drain * r) by (nonlinear_arith)
        requires
            due <= drain,
            r > 0,
    ;
}

/// At the rate that a stream is paced with, bytes drain in the time that they take
/// at the clamped factor times the bitrate. What is between the two is the rate's
/// cut to whole bytes per second, the drain time's cut to whole nanoseconds and one
/// part in 2^53 of rounding.
pub proof fn bytes_drain_at_factor_times_bitrate(
    pacer: Pacer,
    factor: RateFactor,
    bitrate: nat,
    bytes: nat,
)
    requires
        pacer.rate == factor.paced_rate(bitrate),
        0 < pacer.rate < u64::MAX,
        factor.is_positive_finite(),
    ensures
        ({
            let drain = pacer.drain_nanos(bytes);
            let exact = rounded(bitrate) * factor.clamped().units();
            let one = 8 * pow2(149);
            &&& drain * (exact * (SIGNIFICAND_LIMIT - 1)) <= (bytes * NANOS_PER_SEC + drain) * (
            one * SIGNIFICAND_LIMIT)
            &&& bytes * NANOS_PER_SEC * (one * SIGNIFICAND_LIMIT) <= (drain + 1) * (exact * (
            SIGNIFICAND_LIMIT + 1))
        }),
{
    let d = pacer.drain_nanos(bytes) as int;
    let r = pacer.rate as int;
    let limit = SIGNIFICAND_LIMIT as int;
    let one = 8 * pow2(149) as int;
    let scale = one * limit;
    let work = bytes * NANOS_PER_SEC;
    let exact = rounded(bitrate) * factor.clamped().units();
    let below = exact * (limit - 1);
    let above = exact * (limit + 1);
    lemma_drain_bounds(pacer, bytes);
    rate_is_factor_times_bitrate(factor, bitrate);
    lemma_pow2_pos(149);
    assert(scale > 0) by (nonlinear_arith)
        requires
            scale == one * limit,
            one > 0,
            limit > 0,
    ;
    assert(r * one * limit == r * scale && (r + 1) * one * limit == (r + 1) * scale)
        by (nonlinear_arith)
        requires
            scale == one * limit,
    ;
    assert(d * below <= (work + d) * scale) by (nonlinear_arith)
        requires
            below <= (r + 1) * scale,
            d * r <= work,
            d >= 0,
            scale > 0,
    {
        assert(d * below <= d * ((r + 1) * scale));
        assert(d * ((r + 1) * scale) == (d * r + d) * scale);
        assert((d * r + d) * scale <= (work + d) * scale);
    }
    assert(work * scale <= (d + 1) * above) by (nonlinear_arith)
        requires
            r * scale <= above,
            work <= (d + 1) * r,
            d >= 0,
            scale > 0,
    {
        assert(work * scale <= ((d + 1) * r) * scale);
        assert(((d + 1) * r) * scale == (d + 1) * (r * scale));
        assert((d + 1) * (r * scale) <= (d + 1) * above);
    }
}

/// A frame within its share of the bitrate drains in its interval divided by the
/// clamped factor: the deadline of each send, times frame rate and factor, is at
/// most a second, but for the byte per second that the rate loses to being cut to
/// an integer and for one part in 2^53 of rounding. Where the rate saturates, the
/// frame drains at that rate.
pub proof fn frame_drains_in_its_interval_over_the_factor(
    pacer: Pacer,
    factor: RateFactor,
    bitrate: nat,
    fps: nat,
    count: nat,
    seg_size: nat,
    i: int,
)
    requires
        pacer.rate == factor.paced_rate(bitrate),
        factor.is_positive(),
        0 < bitrate <= usize::MAX,
        fps > 0,
        count * seg_size <= usize::MAX,
        count * seg_size * 8 * fps <= rounded(bitrate),
        0 < i < pacer.schedule(count, seg_size).len(),
    ensures
        ({
            let due = due_or_now(pacer.schedule(count, seg_size)[i]);
            let exact = rounded(bitrate) * factor.clamped().units();
            if pacer.rate < u64::MAX {
                due * fps * (exact * (SIGNIFICAND_LIMIT - 1)) <= NANOS_PER_SEC * (rounded(bitrate)
                    + 8) * (pow2(149) * SIGNIFICAND_LIMIT)
            } else {
                due * fps * 8 * u64::MAX <= NANOS_PER_SEC * rounded(bitrate)
            }
        }),
{
    frame_drains_within_its_interval(pacer, factor, bitrate, fps, count, seg_size, i);
    lemma_chunk(pacer, count, seg_size, i);
    let due = due_or_now(pacer.schedule(count, seg_size)[i]) as int;
    let bits = rounded(bitrate) as int;
    let f = fps as int;
    let ns = NANOS_PER_SEC as int;
    let r = pacer.rate as int;
    let total = (count * seg_size) as int;
    let limit = SIGNIFICAND_LIMIT as int;
    let unit = pow2(149) as int;
    let scale = unit * limit;
    assert(due * r <= total * ns) by {
        if pacer.rate > 0 {
            paced_rate_covers_the_bitrate(factor, bitrate);
            lemma_due_within_interval(pacer, bits as nat, fps, count, seg_size, i);
        } else {
            assert(0 * r == 0 && total * ns >= 0) by (nonlinear_arith)
                requires
                    total >= 0,
                    ns >= 0,
            ;
        }
    }
    assert(8 * (due * f * r) <= ns * bits) by (nonlinear_arith)
        requires
            due * r <= total * ns,
            total * 8 * f <= bits,
            f > 0,
            ns > 0,
    {
        assert(due * f * r == (due * r) * f);
        assert((due * r) * f <= (total * ns) * f);
        assert(8 * ((total * ns) * f) == ns * (total * 8 * f));
        assert(ns * (total * 8 * f) <= ns * bits);
    }
    if pacer.rate < u64::MAX {
        rate_is_factor_times_bitrate(factor, bitrate);
        lemma_pow2_pos(149);
        let below = rounded(bitrate) * factor.clamped().units() * (limit - 1);
        assert((r + 1) * (8 * unit) * limit == 8 * ((r + 1) * scale)) by (nonlinear_arith)
            requires
                scale == unit * limit,
        ;
        assert(scale > 0) by (nonlinear_arith)
            requires
                scale == unit * limit,
                unit > 0,
                limit > 0,
        ;
        assert(due * f >= 0) by (nonlinear_arith)
            requires
                due >= 0,
                f > 0,
        ;
        let df = due * f;
        assert(df * below <= ns * (bits + 8) * scale) by (nonlinear_arith)
            requires
                below <= 8 * ((r + 1) * scale),
                8 * (df * r) <= ns * bits,
                0 <= df <= ns,
                scale > 0,
        {
            assert(df * below <= df * (8 * ((r + 1) * scale)));
            assert(df * (8 * ((r + 1) * scale)) == (8 * (df * r) + 8 * df) * scale);
            assert((8 * (df * r) + 8 * df) * scale <= (ns * bits + 8 * ns) * scale);
            assert(ns * bits + 8 * ns == ns * (bits + 8));
        }
    } else {
        assert(due * f * 8 * r == 8 * (due * f * r)) by (nonlinear_arith);
    }
}

/// The higher the factor, the sooner bytes have drained.
pub proof fn higher_factors_drain_sooner(
    slower: Pacer,
    faster: Pacer,
    lower: RateFactor,
    higher: RateFactor,
    bitrate: nat,
    bytes: nat,
)
    requires
        slower.rate == lower.paced_rate(bitrate),
        faster.rate == higher.paced_rate(bitrate),
        slower.rate > 0,
        higher.is_positive(),
        lower.bits <= higher.bits,
    ensures
        faster.rate > 0,
        faster.drain_nanos(bytes) <= slower.drain_nanos(bytes),
{
    rate_grows_with_factor_and_bitrate(lower, higher, bitrate, bitrate);
    lemma_div_is_ordered_by_denominator(
        (bytes * (NANOS_PER_SEC as nat)) as int,
        slower.rate as int,
        faster.rate as int,
    );
}

/// The size that shards count for: their own, or one byte where they have none.
spec fn counted_size(seg_size: nat) -> nat {
    if seg_size == 0 {
        1
    } else {
        seg_size
    }
}

proof fn lemma_fits(bytes: nat, seg_size: nat, n: nat)
    ensures
        n * counted_size(seg_size) <= bytes <==> n <= shards_in(bytes, seg_size),
{
    let size = counted_size(seg_size) as int;
    let q = bytes as int / size;
    assert(bytes as int / 1 == bytes);
    lemma_fundamental_div_mod(bytes as int, size);
    lemma_mod_bound(bytes as int, size);
    assert(n * size <= bytes <==> n <= q) by (nonlinear_arith)
        requires
            bytes == size * q + bytes as int % size,
            0 <= bytes as int % size < size,
    ;
}

/// GSO takes as many shards in a send as are within the platform's cap on segments
/// and together within 65,535 bytes, and a single one in any case: no number of
/// shards that is within both is over the limit, and the limit itself, unless it is
/// one, is within both. Shards without bytes count as one byte.
pub proof fn gso_limit_is_the_largest_that_fits(pacer: Pacer, seg_size: nat, n: nat)
    ensures
        ({
            let limit = pacer.gso_limit(seg_size);
            let size = if seg_size == 0 {
                1
            } else {
                seg_size
            };
            &&& limit >= 1
            &&& limit == 1 || (limit <= pacer.max_gso_segments && limit * size <= 65_535)
            &&& n <= pacer.max_gso_segments && n * size <= 65_535 ==> n <= limit
        }),
{
    lemma_fits(65_535, seg_size, n);
    lemma_fits(65_535, seg_size, pacer.gso_limit(seg_size));
}

/// Without pacing a send holds the most shards that GSO takes: no number that is
/// within the platform's cap and, in bytes, within 65,535 is larger.
pub proof fn unpaced_sends_hold_the_most(pacer: Pacer, seg_size: nat, n: nat)
    requires
        pacer.rate == 0,
        seg_size > 0,
    ensures
        ({
            let held = pacer.chunk_segments(seg_size);
            &&& held >= 1
            &&& held == 1 || (held <= pacer.max_gso_segments && held * seg_size <= 65_535)
            &&& n <= pacer.max_gso_segments && n * seg_size <= 65_535 ==> n <= held
        }),
{
    gso_limit_is_the_largest_that_fits(pacer, seg_size, n);
}

/// With pacing a send holds the most shards that GSO takes and that drain, by their
/// bytes, in one gap at the target rate, and a single one in any case. The bytes of a
/// gap are cut to the width of a `usize`; shards without bytes count as one.
pub proof fn paced_sends_hold_the_most_of_a_gap(pacer: Pacer, seg_size: nat, n: nat)
    requires
        pacer.rate > 0,
    ensures
        ({
            let held = pacer.chunk_segments(seg_size);
            let size = if seg_size == 0 {
                1
            } else {
                seg_size
            };
            let gap_bytes = (pacer.rate * pacer.min_gap_nanos / 1_000_000_000) as usize;
            &&& held >= 1
            &&& held == 1 || (held <= pacer.max_gso_segments && held * size <= 65_535 && held * size
                <= gap_bytes)
            &&& n <= pacer.max_gso_segments && n * size <= 65_535 && n * size <= gap_bytes ==> n
                <= held
        }),
{
    let held = pacer.chunk_segments(seg_size);
    gso_limit_is_the_largest_that_fits(pacer, seg_size, n);
    gso_limit_is_the_largest_that_fits(pacer, seg_size, held);
    lemma_fits(65_535, seg_size, held);
    lemma_fits(pacer.bytes_per_gap(), seg_size, n);
    lemma_fits(pacer.bytes_per_gap(), seg_size, held);
}

/// The shards of a series of sends, by how many each holds.
pub open spec fn shards_of(sends: Seq<nat>) -> nat
    decreases sends.len(),
{
    if sends.len() == 0 {
        0
    } else {
        shards_of(sends.drop_last()) + sends.last()
    }
}

proof fn lemma_shards_bounded(sends: Seq<nat>, most: nat)
    requires
        forall|i: int| 0 <= i < sends.len() ==> (#[trigger] sends[i]) <= most,
    ensures
        shards_of(sends) <= sends.len() * most,
    decreases sends.len(),
{
    if sends.len() == 0 {
        assert(0 * most == 0) by (nonlinear_arith);
    } else {
        let earlier = sends.drop_last();
        assert forall|i: int| 0 <= i < earlier.len() implies (#[trigger] earlier[i]) <= most by {
            assert(earlier[i] == sends[i]);
        }
        lemma_shards_bounded(earlier, most);
        assert(sends.last() == sends[sends.len() - 1]);
        assert((earlier.len() + 1) * most == earlier.len() * most + most) by (nonlinear_arith);
    }
}

/// Without pacing, no way of sending a batch takes fewer sends than its schedule: not
/// any series of sends that together hold its shards and that each are a single shard
/// or within the platform's cap on segments and within 65,535 bytes.
pub proof fn no_other_sends_are_fewer(pacer: Pacer, count: nat, seg_size: nat, sends: Seq<nat>)
    requires
        pacer.rate == 0,
        seg_size > 0,
        shards_of(sends) == count,
        forall|i: int|
            0 <= i < sends.len() ==> (#[trigger] sends[i]) <= 1 || (sends[i]
                <= pacer.max_gso_segments && sends[i] * seg_size <= 65_535),
    ensures
        pacer.schedule(count, seg_size).len() <= sends.len(),
{
    let held = pacer.chunk_segments(seg_size);
    assert forall|i: int| 0 <= i < sends.len() implies (#[trigger] sends[i]) <= held by {
        unpaced_sends_hold_the_most(pacer, seg_size, sends[i]);
    }
    lemma_shards_bounded(sends, held);
    lemma_runs(count, held);
    let n = pacer.schedule(count, seg_size).len() as int;
    let m = sends.len() as int;
    assert(n <= m) by (nonlinear_arith)
        requires
            (n - 1) * held < count,
            count <= m * held,
            held > 0,
    ;
}

/// The schedule in full. There are as many sends as it takes to hold the shards of a
/// batch, all but the last with the same number of them. A send starts where the bytes
/// of the sends before it end, says the size of its shards where it holds more than
/// one, and, where the stream is paced and it is not the first, is due when the bytes
/// before it have drained at the target rate, in nanoseconds cut to 64 bits.
pub proof fn sends_in_full(pacer: Pacer, count: nat, seg_size: nat, i: int)
    requires
        count * seg_size <= usize::MAX,
        0 <= i < pacer.schedule(count, seg_size).len(),
    ensures
        ({
            let sends = pacer.schedule(count, seg_size);
            let held = pacer.chunk_segments(seg_size) as int;
            let before = i * held;
            let here = if count - before < held {
                count - before
            } else {
                held
            };
            &&& (sends.len() - 1) * held < count <= sends.len() * held
            &&& here >= 1
            &&& sends[i].start == before * seg_size
            &&& sends[i].end == (before + here) * seg_size
            &&& sends[i].segment_size is Some <==> here > 1
            &&& here > 1 ==> sends[i].segment_size->0 == seg_size
            &&& sends[i].due_nanos is Some <==> pacer.rate > 0 && i > 0
            &&& sends[i].due_nanos is Some ==> sends[i].due_nanos->0 == (sends[i].start
                * 1_000_000_000 / pacer.rate as int) as u64
        }),
{
    lemma_chunk(pacer, count, seg_size, i);
    let held = pacer.chunk_segments(seg_size) as int;
    lemma_runs(count, held as nat);
    assert((i + 1) * held == i * held + held) by (nonlinear_arith);
    if i > 0 {
        assert(i * held > 0) by (nonlinear_arith)
            requires
                i > 0,
                held > 0,
        ;
    }
    let after = shards_before(pacer, count, seg_size, i + 1);
    if after - i * held > 1 && seg_size > usize::MAX {
        assert(count * seg_size > usize::MAX) by (nonlinear_arith)
            requires
                seg_size > usize::MAX,
                count >= 1,
        ;
    }
}

/// Bytes have drained, to the nanosecond, once the target rate has moved them.
pub proof fn drain_time_is_bytes_over_rate(pacer: Pacer, bytes: nat)
    requires
        pacer.rate > 0,
    ensures
        pacer.drain_nanos(bytes) * pacer.rate <= bytes * 1_000_000_000,
        bytes * 1_000_000_000 < (pacer.drain_nanos(bytes) + 1) * pacer.rate,
{
    lemma_drain_bounds(pacer, bytes);
}

/// A send is waited for exactly where its deadline is at least one gap away, whatever
/// else it carries, and then until that deadline.
pub proof fn distant_deadlines_are_slept_for(pacer: Pacer, send: SendChunk, elapsed: nat)
    ensures
        pacer.deadline_ahead(send, elapsed) is Some <==> send.due_nanos is Some
            && send.due_nanos->0 - elapsed >= pacer.min_gap_nanos,
        pacer.deadline_ahead(send, elapsed) is Some ==> pacer.deadline_ahead(send, elapsed)
            == send.due_nanos,
{
}

/// Whether a send is waited for depends on its deadline alone: sends of one deadline
/// are waited for alike.
pub proof fn sleeps_depend_on_the_deadline(
    pacer: Pacer,
    other: Pacer,
    send: SendChunk,
    other_send: SendChunk,
    elapsed: nat,
)
    requires
        pacer.min_gap_nanos == other.min_gap_nanos,
        send.due_nanos == other_send.due_nanos,
    ensures
        pacer.deadline_ahead(send, elapsed) == other.deadline_ahead(other_send, elapsed),
{
}

/// With pacing, a send after the first is waited for in full by a sender that is on
/// time: until a gap before the bytes ahead of it have drained, the sender sleeps
/// until they have.
pub proof fn paced_sends_are_waited_for(
    pacer: Pacer,
    count: nat,
    seg_size: nat,
    i: int,
    elapsed: nat,
)
    requires
        count * seg_size <= usize::MAX,
        pacer.rate > 0,
        0 < i < pacer.schedule(count, seg_size).len(),
        pacer.drain_nanos(count * seg_size) <= u64::MAX,
    ensures
        ({
            let send = pacer.schedule(count, seg_size)[i];
            let sleep = pacer.deadline_ahead(send, elapsed);
            &&& (elapsed + pacer.min_gap_nanos) * pacer.rate <= send.start * 1_000_000_000
                <==> sleep is Some
            &&& sleep is Some ==> sleep->0 * pacer.rate <= send.start * 1_000_000_000 < (sleep->0
                + 1) * pacer.rate
        }),
{
    lemma_due(pacer, count, seg_size, i);
    let send = pacer.schedule(count, seg_size)[i];
    lemma_drain_bounds(pacer, send.start as nat);
    let due = send.due_nanos->0 as int;
    let r = pacer.rate as int;
    let x = send.start * 1_000_000_000;
    let wake = elapsed + pacer.min_gap_nanos;
    assert(wake * r <= x <==> wake <= due) by (nonlinear_arith)
        requires
            due * r <= x < (due + 1) * r,
            r > 0,
    ;
}

/// A failure of a send, and nothing else, is reported; and whatever happened, the next
/// send is the first of those that are left, which are then the others.
pub proof fn steps_go_through_the_sends<E>(rest: Seq<SendChunk>, event: SendEvent<E>)
    ensures
        step_after(rest, event).failure is Some <==> event is Failed,
        event matches SendEvent::Failed(e) ==> step_after(rest, event).failure == Some(e),
        rest.len() > 0 ==> step_after(rest, event).next == Some(rest[0]) && seq![rest[0]]
            + rest_after(rest, event) == rest,
        rest.len() == 0 ==> step_after(rest, event).next is None && rest_after(rest, event) == rest,
{
    if rest.len() > 0 {
        assert(seq![rest[0]] + rest_after(rest, event) =~= rest);
    }
}

/// A sleep before a send always ends at the send's deadline and is never shorter
/// than the pacer's gap; a deadline nearer than that is not slept for, neither now
/// nor later, and neither is one that has come.
pub proof fn sleeps_are_worth_it(pacer: Pacer, send: SendChunk, elapsed: nat, later: nat)
    requires
        elapsed <= later,
    ensures
        pacer.deadline_ahead(send, elapsed) matches Some(due) ==> {
            &&& send.due_nanos == Some(due)
            &&& due - elapsed >= pacer.min_gap_nanos
            &&& later > due - pacer.min_gap_nanos ==> pacer.deadline_ahead(send, later) is None
        },
        send.due_nanos matches Some(due) && due - elapsed < pacer.min_gap_nanos
            ==> pacer.deadline_ahead(send, elapsed) is None,
        send.due_nanos is None ==> pacer.deadline_ahead(send, elapsed) is None,
        pacer.deadline_ahead(send, elapsed) is None ==> pacer.deadline_ahead(send, later) is None,
{
}

} // verus!
