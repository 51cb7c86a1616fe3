//! The worker pool: routing of a batch to the workers' queues and the
//! reassembly of their results in input order.

use crate::silero::{DetectError, Segment};
use vstd::prelude::*;

verus! {

/// What a worker makes of one clip: its segments, or why there are none.
pub type Outcome = Result<Vec<Segment>, DetectError>;

/// Why a batch has no result list.
#[derive(Clone, Copy, Debug, PartialEq, Eq, Structural)]
pub enum PoolError {
    /// A worker's queue was closed, so a clip could not be handed to it.
    WorkerGone,
    /// A result arrived under a position outside the batch, or under one
    /// that had a result already.
    UnexpectedPosition,
    /// No result arrived for some position.
    MissingResult,
}

/// A clip on its way to a worker: its position in the batch, the threshold of
/// the batch, and its samples.
pub type WorkItem<T, S> = (usize, T, Vec<S>);

/// A worker's answer: the position of the clip, and what the worker made of it.
pub type ResultItem = (usize, Outcome);

/// `flume::Sender`, the sending end of a channel, as an opaque value.
#[verifier::external_type_specification]
#[verifier::external_body]
#[verifier::reject_recursive_types(T)]
pub struct ExSender<T>(flume::Sender<T>);

/// `flume::Receiver`, the receiving end of a channel, as an opaque value.
#[verifier::external_type_specification]
#[verifier::external_body]
#[verifier::reject_recursive_types(T)]
pub struct ExReceiver<T>(flume::Receiver<T>);

/// `flume::SendError`, the failure of a send, as an opaque value.
#[verifier::external_type_specification]
#[verifier::external_body]
#[verifier::reject_recursive_types(T)]
pub struct ExSendError<T>(flume::SendError<T>);

/// `flume::RecvError`, the failure of a receive, as an opaque value.
#[verifier::external_type_specification]
#[verifier::external_body]
pub struct ExRecvError(flume::RecvError);

/// `flume::unbounded` makes a new channel and returns its two ends. Nothing
/// is claimed of them.
pub assume_specification<T>[ flume::unbounded::<T> ]() -> (ends: (
    flume::Sender<T>,
    flume::Receiver<T>,
));

/// `flume::Sender::send` queues the message, or fails when every receiver of
/// the channel is gone. Which of the two happens is left open.
pub assume_specification<T>[ flume::Sender::<T>::send ](
    sender: &flume::Sender<T>,
    msg: T,
) -> (sent: Result<(), flume::SendError<T>>);

/// `flume::Receiver::recv` waits for the next message, for as long as the
/// queue is empty and a sender lives, or fails when the queue is empty and
/// every sender of the channel is gone. Nothing is claimed of what arrives.
pub assume_specification<T>[ flume::Receiver::<T>::recv ](receiver: &flume::Receiver<T>) -> (got:
    Result<T, flume::RecvError>);

/// `Clone::clone` of a `flume::Sender` returns another sender of the same
/// channel. Nothing is claimed of it.
pub assume_specification<T>[ <flume::Sender<T> as Clone>::clone ](
    sender: &flume::Sender<T>,
) -> (other: flume::Sender<T>);

/// The ends of the pool's queues that one worker holds.
#[verifier::reject_recursive_types(T)]
#[verifier::reject_recursive_types(S)]
pub struct WorkerLink<T, S> {
    /// The worker's own queue of clips, in the order they were submitted.
    pub inbound: flume::Receiver<WorkItem<T, S>>,
    /// The queue of results that all workers share.
    pub outbound: flume::Sender<ResultItem>,
}

/// A pool of workers, seen from the caller's side: one queue into each
/// worker and one queue of results back from all of them.
#[verifier::reject_recursive_types(T)]
#[verifier::reject_recursive_types(S)]
pub struct SileroParallel<T, S> {
    workers_tx: Vec<flume::Sender<WorkItem<T, S>>>,
    response_rx: flume::Receiver<ResultItem>,
}

/// The worker that the clip at `position` goes to: round robin, by position alone.
pub open spec fn worker_for_spec(position: int, workers: int) -> int {
    position % workers
}

impl<T, S> SileroParallel<T, S> {
    #[verifier::type_invariant]
    spec fn well_formed(self) -> bool {
        self.workers_tx@.len() > 0
    }

    /// The number of workers.
    pub closed spec fn workers_spec(&self) -> int {
        self.workers_tx@.len() as int
    }

    /// Makes the queues of a pool of `workers` workers. The caller starts one
    /// worker on each of the links returned.
    pub fn new(workers: usize) -> (made: (Self, Vec<WorkerLink<T, S>>))
        requires
            workers > 0,
        ensures
            made.0.workers_spec() == workers,
            made.1@.len() == workers,
    {
        let (response_tx, response_rx) = flume::unbounded::<ResultItem>();
        let mut workers_tx: Vec<flume::Sender<WorkItem<T, S>>> = Vec::with_capacity(workers);
        let mut links: Vec<WorkerLink<T, S>> = Vec::with_capacity(workers);
        let mut made: usize = 0;
        while made < workers
            invariant
                made <= workers,
                workers_tx@.len() == made,
                links@.len() == made,
            decreases workers - made,
        {
            let (worker_tx, worker_rx) = flume::unbounded::<WorkItem<T, S>>();
            workers_tx.push(worker_tx);
            links.push(WorkerLink { inbound: worker_rx, outbound: response_tx.clone() });
            made += 1;
        }
        (SileroParallel { workers_tx, response_rx }, links)
    }

    /// The number of workers.
    pub fn workers(&self) -> (workers: usize)
        ensures
            workers == self.workers_spec(),
            workers > 0,
    {
        proof {
            use_type_invariant(self);
        }
        self.workers_tx.len()
    }

    /// The worker that the clip at `position` of a batch goes to.
    pub fn worker_for(&self, position: usize) -> (worker: usize)
        ensures
            worker == worker_for_spec(position as int, self.workers_spec()),
            worker < self.workers_spec(),
    {
        proof {
            use_type_invariant(self);
        }
        position % self.workers_tx.len()
    }
}

/// The batch as it is handed out: each clip tagged with its position and the
/// threshold, beside the worker it goes to.
pub open spec fn routed_spec<T, S>(audios: Seq<Vec<S>>, threshold: T, workers: int) -> Seq<
    (usize, WorkItem<T, S>),
> {
    Seq::new(
        audios.len(),
        |k: int| (worker_for_spec(k, workers) as usize, (k as usize, threshold, audios[k])),
    )
}

impl<T: Copy, S> SileroParallel<T, S> {
    /// Tags each clip of a batch with its position and the threshold, and
    /// names the worker it goes to. The clips stay in the order of the batch.
    pub fn route(&self, audios: Vec<Vec<S>>, threshold: T) -> (routed: Vec<(usize, WorkItem<T, S>)>)
        ensures
            routed@ == routed_spec(audios@, threshold, self.workers_spec()),
    {
        let ghost batch = audios@;
        let n = audios.len();
        let mut routed: Vec<(usize, WorkItem<T, S>)> = Vec::with_capacity(n);
        let mut position: usize = 0;
        for audio in it: audios
            invariant
                it.seq() == batch,
                batch.len() == n,
                position == it.index(),
                routed@ == routed_spec(batch.take(position as int), threshold, self.workers_spec()),
        {
            assert(it.index() < it.seq().len());
            let worker = self.worker_for(position);
            routed.push((worker, (position, threshold, audio)));
            position += 1;
        }
        assert(batch.take(position as int) == batch);
        routed
    }

    /// Hands each item to the worker named beside it, in order, and stops at
    /// the first worker whose queue is closed. Returns how many were handed over.
    fn submit(&self, routed: Vec<(usize, WorkItem<T, S>)>) -> (sent: usize)
        requires
            forall|k: int| 0 <= k < routed@.len() ==> (#[trigger] routed@[k]).0 < self.workers_spec(),
        ensures
            sent <= routed@.len(),
    {
        let ghost batch = routed@;
        let n = routed.len();
        let mut sent: usize = 0;
        let mut open = true;
        for entry in it: routed
            invariant
                it.seq() == batch,
                batch.len() == n,
                sent <= it.index(),
                forall|k: int| 0 <= k < batch.len() ==> (#[trigger] batch[k]).0 < self.workers_spec(),
        {
            assert(it.index() < it.seq().len());
            assert(entry == batch[it.index() as int]);
            let (worker, item) = entry;
            if open {
                if self.workers_tx[worker].send(item).is_ok() {
                    sent += 1;
                } else {
                    open = false;
                }
            }
        }
        sent
    }

    /// Takes `expected` results from the shared queue, fewer if the queue is
    /// closed before.
    fn collect(&self, expected: usize) -> (arrivals: Vec<ResultItem>)
        ensures
            arrivals@.len() <= expected,
    {
        let mut arrivals: Vec<ResultItem> = Vec::new();
        let mut open = true;
        while open && arrivals.len() < expected
            invariant
                arrivals@.len() <= expected,
            decreases (if open { 1int } else { 0int }) + expected - arrivals@.len(),
        {
            match self.response_rx.recv() {
                Ok(item) => arrivals.push(item),
                Err(_) => {
                    open = false;
                },
            }
        }
        arrivals
    }

    /// Segments a batch of clips on the pool's workers and returns one
    /// outcome per clip, in the order of `audios`.
    ///
    /// The clips are handed out as [`Self::route`] says, then as many results
    /// are awaited as clips were handed out, and [`assemble`] puts them in
    /// place. What the workers answer, and whether they answer, is theirs to
    /// decide: an empty batch always succeeds, any other succeeds when every
    /// clip was handed over and every position came back exactly once.
    ///
    /// Results are told apart by position alone, so a pool serves one batch
    /// at a time. The call waits for as long as a worker that holds a clip
    /// stays alive without answering.
    pub fn detect_multi(&self, audios: Vec<Vec<S>>, threshold: T) -> (result: Result<
        Vec<Outcome>,
        PoolError,
    >)
        ensures
            audios@.len() == 0 ==> result is Ok,
            result matches Ok(outcomes) ==> outcomes@.len() == audios@.len(),
    {
        let n = audios.len();
        let routed = self.route(audios, threshold);
        proof {
            use_type_invariant(self);
            assert forall|k: int| 0 <= k < routed@.len() implies (#[trigger] routed@[k]).0
                < self.workers_spec() by {
                assert(0 <= worker_for_spec(k, self.workers_spec()) < self.workers_spec());
            }
        }
        let sent = self.submit(routed);
        let arrivals = self.collect(sent);
        if sent < n {
            Err(PoolError::WorkerGone)
        } else {
            assemble(n, arrivals)
        }
    }
}

/// Arrival `i` carries a position outside a batch of `n`, or one that an
/// earlier arrival carried.
pub open spec fn unexpected<P>(n: int, arrivals: Seq<(usize, P)>, i: int) -> bool {
    ||| arrivals[i].0 >= n
    ||| exists|j: int| 0 <= j < i && (#[trigger] arrivals[j]).0 == arrivals[i].0
}

/// No arrival carries position `k`.
pub open spec fn missing<P>(arrivals: Seq<(usize, P)>, k: int) -> bool {
    forall|i: int| 0 <= i < arrivals.len() ==> (#[trigger] arrivals[i]).0 != k
}

/// Every position of a batch of `n` arrived exactly once and nothing else arrived.
pub open spec fn complete<P>(n: int, arrivals: Seq<(usize, P)>) -> bool {
    &&& forall|i: int| 0 <= i < arrivals.len() ==> !unexpected(n, arrivals, i)
    &&& forall|k: int| 0 <= k < n ==> !missing(arrivals, k)
}

/// The index of an arrival that carries position `k`.
pub open spec fn arrival_of<P>(arrivals: Seq<(usize, P)>, k: int) -> int {
    choose|i: int| 0 <= i < arrivals.len() && (#[trigger] arrivals[i]).0 == k
}

/// The result list of a batch of `n`: at each position the payload that
/// arrived under it.
pub open spec fn assembled<P>(n: int, arrivals: Seq<(usize, P)>) -> Seq<P> {
    Seq::new(n as nat, |k: int| arrivals[arrival_of(arrivals, k)].1)
}

/// The result list follows the positions, not the order of arrival: when
/// every position of a batch arrives exactly once, each with the payload that
/// belongs to it, the list assembled is the list of those payloads, in
/// whatever order they arrived and whichever worker sent them.
pub proof fn lemma_order_preserved<P>(payloads: Seq<P>, arrivals: Seq<(usize, P)>)
    requires
        complete(payloads.len() as int, arrivals),
        forall|i: int|
            0 <= i < arrivals.len() ==> (#[trigger] arrivals[i]).1 == payloads[arrivals[i].0 as int],
    ensures
        assembled(payloads.len() as int, arrivals) == payloads,
{
    let n = payloads.len() as int;
    assert forall|k: int| 0 <= k < n implies assembled(n, arrivals)[k] == payloads[k] by {
        assert(!missing(arrivals, k));
        let i = arrival_of(arrivals, k);
        assert(0 <= i < arrivals.len() && arrivals[i].0 == k);
    }
    assert(assembled(n, arrivals) =~= payloads);
}

/// In a complete batch no position is filled twice: two arrivals under one
/// position are one arrival.
pub proof fn lemma_each_position_once<P>(n: int, arrivals: Seq<(usize, P)>, i: int, j: int)
    requires
        complete(n, arrivals),
        0 <= i < arrivals.len(),
        0 <= j < arrivals.len(),
        arrivals[i].0 == arrivals[j].0,
    ensures
        i == j,
        assembled(n, arrivals)[arrivals[i].0 as int] == arrivals[i].1,
{
    if i < j {
        assert(!unexpected(n, arrivals, j));
    } else if j < i {
        assert(!unexpected(n, arrivals, i));
    }
    let k = arrivals[i].0 as int;
    assert(!unexpected(n, arrivals, i));
    let c = arrival_of(arrivals, k);
    assert(0 <= c < arrivals.len() && arrivals[c].0 == k);
    if c < i {
        assert(!unexpected(n, arrivals, i));
    } else if i < c {
        assert(!unexpected(n, arrivals, c));
    }
}

/// What the slots hold once the first `upto` arrivals have been placed, none
/// of them unexpected.
spec fn placed<P>(n: int, arrivals: Seq<(usize, P)>, upto: int, slots: Seq<Option<P>>) -> bool {
    &&& slots.len() == n
    &&& forall|i: int| 0 <= i < upto ==> !unexpected(n, arrivals, i)
    &&& forall|k: int|
        0 <= k < n ==> ((#[trigger] slots[k]) is None <==> forall|i: int|
            0 <= i < upto ==> (#[trigger] arrivals[i]).0 != k)
    &&& forall|i: int|
        0 <= i < upto ==> slots[(#[trigger] arrivals[i]).0 as int] == Some(arrivals[i].1)
}

/// Puts the payloads that arrived, in whatever order, at their positions.
///
/// The list is returned when every position of the batch arrived exactly
/// once. An arrival that is out of range or repeats a position is reported
/// first; otherwise a position without arrival is.
pub fn assemble<P>(n: usize, arrivals: Vec<(usize, P)>) -> (result: Result<Vec<P>, PoolError>)
    ensures
        result is Ok <==> complete(n as int, arrivals@),
        result matches Ok(r) ==> r@ == assembled(n as int, arrivals@),
        result == Err::<Vec<P>, PoolError>(PoolError::UnexpectedPosition) <==> exists|i: int|
            0 <= i < arrivals@.len() && unexpected(n as int, arrivals@, i),
        result == Err::<Vec<P>, PoolError>(PoolError::MissingResult) <==> {
            &&& forall|i: int| 0 <= i < arrivals@.len() ==> !unexpected(n as int, arrivals@, i)
            &&& exists|k: int| 0 <= k < n && missing(arrivals@, k)
        },
{
    let mut slots: Vec<Option<P>> = Vec::new();
    let mut k: usize = 0;
    while k < n
        invariant
            k <= n,
            slots@.len() == k,
            forall|j: int| 0 <= j < k ==> slots@[j] is None,
        decreases n - k,
    {
        slots.push(None);
        k += 1;
    }
    let ghost all = arrivals@;
    for item in it: arrivals
        invariant
            it.seq() == all,
            all == arrivals@,
            placed(n as int, all, it.index() as int, slots@),
    {
        let ghost at = it.index() as int;
        let ghost before = slots@;
        assert(item == all[at]);
        let (position, payload) = item;
        if position >= n || slots[position].is_some() {
            proof {
                if position < n {
                    let j = choose|j: int| 0 <= j < at && (#[trigger] all[j]).0 == position;
                    assert(all[j].0 == all[at].0);
                }
                assert(unexpected(n as int, all, at));
            }
            return Err(PoolError::UnexpectedPosition);
        }
        slots[position] = Some(payload);
        proof {
            assert(!unexpected(n as int, all, at));
            assert forall|k: int| 0 <= k < n implies ((#[trigger] slots@[k]) is None <==> forall|
                i: int,
            |
                0 <= i < at + 1 ==> (#[trigger] all[i]).0 != k) by {
                if k == position {
                    assert(all[at].0 == k);
                } else {
                    assert(slots@[k] == before[k]);
                }
            }
            assert forall|i: int| 0 <= i < at + 1 implies slots@[(#[trigger] all[i]).0 as int]
                == Some(all[i].1) by {
                if i < at {
                    assert(!unexpected(n as int, all, i));
                    assert(before[all[i].0 as int] == Some(all[i].1));
                }
            }
        }
    }
    let ghost filled = slots@;
    let mut results: Vec<P> = Vec::new();
    for slot in it: slots
        invariant
            it.seq() == filled,
            all == arrivals@,
            placed(n as int, all, all.len() as int, filled),
            results@.len() == it.index(),
            forall|j: int| 0 <= j < it.index() ==> filled[j] == Some(#[trigger] results@[j]),
    {
        let ghost at = it.index() as int;
        assert(slot == filled[at]);
        match slot {
            Some(payload) => results.push(payload),
            None => {
                proof {
                    assert(filled[at] is None);
                    assert(missing(all, at));
                }
                return Err(PoolError::MissingResult);
            },
        }
    }
    proof {
        assert(results@.len() == n);
        assert forall|k: int| 0 <= k < n implies !missing(all, k) by {
            assert(filled[k] == Some(results@[k]));
        }
        assert forall|k: int| 0 <= k < n implies results@[k] == all[arrival_of(all, k)].1 by {
            assert(!missing(all, k));
            let i = arrival_of(all, k);
            assert(0 <= i < all.len() && all[i].0 == k);
            assert(filled[all[i].0 as int] == Some(all[i].1));
        }
        assert(results@ =~= assembled(n as int, all));
    }
    Ok(results)
}

} // verus!
