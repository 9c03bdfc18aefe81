//! The ordering discipline of the server's worker pools: requests are
//! handed to workers in turn, and each request of a chain waits for the one
//! before it to finish.

use vstd::prelude::*;
use vstd::arithmetic::div_mod::{lemma_add_mod_noop, lemma_small_mod, lemma_mod_self_0};
use crate::broker::Partition;

verus! {

/// Moving on by one in round-robin order.
proof fn lemma_next_in_turn(issued: nat, n: nat)
    requires
        n > 0,
    ensures
        ((issued % n) + 1) % n == (issued + 1) % n,
{
    lemma_add_mod_noop(issued as int, 1, n as int);
    if n == 1 {
        lemma_mod_self_0(1);
    } else {
        lemma_small_mod(1, n);
    }
}


/// A pool asked for with no workers.
#[derive(Clone, Copy, Debug, PartialEq, Eq)]
pub enum DispatchError {
    NoWorkers,
}

/// Where one request goes: the worker that takes it, and whether it must
/// wait for the request handed out before it to finish first.
#[derive(Clone, Copy, Debug, PartialEq, Eq)]
pub struct Assignment {
    pub worker: usize,
    pub waits_for_previous: bool,
}

/// Hands requests to `worker_count` workers in turn, optionally chaining
/// each request to the one before it.
pub struct Dispatcher {
    worker_count: usize,
    next_worker: usize,
    chained: bool,
    started: bool,
    issued: Ghost<nat>,
}

/// The mathematical value of a `Dispatcher`: its worker count, whether it
/// chains requests, and how many requests it has handed out.
pub struct DispatcherView {
    pub worker_count: usize,
    pub chained: bool,
    pub issued: nat,
}

impl View for Dispatcher {
    type V = DispatcherView;

    closed spec fn view(&self) -> DispatcherView {
        DispatcherView { worker_count: self.worker_count, chained: self.chained, issued: self.issued@ }
    }
}

impl Dispatcher {
    /// The next worker in turn is the count handed out so far modulo the
    /// worker count.
    pub closed spec fn wf(&self) -> bool {
        &&& self.worker_count > 0
        &&& self.next_worker == self.issued@ % (self.worker_count as nat)
        &&& self.started == (self.issued@ > 0)
    }

    /// A dispatcher over `worker_count` workers that has handed out nothing;
    /// refused when there are no workers.
    pub fn new(worker_count: usize, chained: bool) -> (r: Result<Dispatcher, DispatchError>)
        ensures
            worker_count == 0 ==> r == Err::<Dispatcher, DispatchError>(DispatchError::NoWorkers),
            worker_count > 0 ==> (r matches Ok(d) && d.wf() && d@ == DispatcherView {
                worker_count,
                chained,
                issued: 0,
            }),
    {
        if worker_count == 0 {
            return Err(DispatchError::NoWorkers);
        }
        let d = Dispatcher { worker_count, next_worker: 0, chained, started: false, issued: Ghost(0) };
        proof {
            lemma_small_mod(0, worker_count as nat);
        }
        Ok(d)
    }

    /// Hands out the next request: the `k`-th (counting from zero) goes to
    /// worker `k % worker_count` and, in a chained dispatcher, waits for the
    /// one before it unless it is the first.
    pub fn assign(&mut self) -> (r: Assignment)
        requires
            old(self).wf(),
        ensures
            final(self).wf(),
            final(self)@ == (DispatcherView { issued: old(self)@.issued + 1, ..old(self)@ }),
            r.worker == old(self)@.issued % (old(self)@.worker_count as nat),
            r.waits_for_previous == (old(self)@.chained && old(self)@.issued > 0),
    {
        let r = Assignment { worker: self.next_worker, waits_for_previous: self.chained && self.started };
        proof {
            lemma_next_in_turn(self.issued@, self.worker_count as nat);
        }
        self.next_worker = (self.next_worker + 1) % self.worker_count;
        self.started = true;
        self.issued = Ghost(self.issued@ + 1);
        r
    }
}

/// Round robin is fair: of any `n` requests handed out one after another
/// to `n` workers, no two go to the same worker, so each worker takes one.
pub proof fn lemma_round_robin_fair(first: nat, later: nat, n: nat)
    requires
        n > 0,
        first < later < first + n,
    ensures
        first % n != later % n,
{
    let d = (later - first) as nat;
    assert(0 < d < n);
    vstd::arithmetic::div_mod::lemma_fundamental_div_mod(first as int, n as int);
    vstd::arithmetic::div_mod::lemma_fundamental_div_mod(later as int, n as int);
    if first % n == later % n {
        assert(n * (later as int / n as int) - n * (first as int / n as int) == d);
        vstd::arithmetic::mul::lemma_mul_is_distributive_sub(n as int, later as int / n as int, first as int / n as int);
        let q = later as int / n as int - first as int / n as int;
        assert(n * q == d);
        assert(false) by (nonlinear_arith)
            requires
                n * q == d,
                0 < d < n,
        ;
    }
}


/// What a request worker does once its request has been handled.
pub enum WorkerStep<E> {
    /// Wait for the request before this one to finish when there is one,
    /// then queue the write of `value` to `partition`, then report this
    /// request finished.
    QueueWrite { value: Vec<u8>, partition: Partition, wait_for_previous: bool },
    /// Queue the answer to the client (success, or failure with `error`)
    /// without waiting, then report this request finished.
    Respond { ack: bool, error: Option<E> },
}

/// Decides what a request worker does with the outcome of a request: a
/// record to store is written only after the request before it has
/// finished; everything else is answered at once.
pub fn worker_step<E>(outcome: Result<Option<(Vec<u8>, Partition)>, E>, has_previous: bool) -> (r: WorkerStep<E>)
    ensures
        match outcome {
            Ok(Some((value, partition))) => r == (WorkerStep::<E>::QueueWrite {
                value,
                partition,
                wait_for_previous: has_previous,
            }),
            Ok(None) => r == (WorkerStep::<E>::Respond { ack: true, error: None }),
            Err(e) => r == (WorkerStep::<E>::Respond { ack: false, error: Some(e) }),
        },
{
    match outcome {
        Ok(Some((value, partition))) => WorkerStep::QueueWrite { value, partition, wait_for_previous: has_previous },
        Ok(None) => WorkerStep::Respond { ack: true, error: None },
        Err(e) => WorkerStep::Respond { ack: false, error: Some(e) },
    }
}

} // verus!
