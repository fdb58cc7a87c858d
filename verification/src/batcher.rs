//! Collecting requests into batches: a batch is handed on as soon as it
//! holds `max_batch_size` requests, or when `max_wait_time` has passed since
//! its first request, and what is left is handed on when the request stream
//! ends.
use vstd::prelude::*;

verus! {

/// How requests are batched.
pub struct BatcherConfig {
    pub max_batch_size: usize,
    pub max_wait_time: u64,
}

/// One request arrives while `pending` waits: the batch handed on, if the
/// pending requests now fill one, and what waits afterwards.
pub open spec fn batch_step<T>(max_batch_size: nat, pending: Seq<T>, item: T) -> (Option<Seq<T>>, Seq<T>) {
    let all = pending.push(item);
    if all.len() >= max_batch_size {
        (Some(all), seq![])
    } else {
        (None, all)
    }
}

/// The batches handed on while `items` arrive one by one, and what waits
/// afterwards.
pub open spec fn batch_all<T>(max_batch_size: nat, items: Seq<T>) -> (Seq<Seq<T>>, Seq<T>)
    decreases items.len(),
{
    if items.len() == 0 {
        (seq![], seq![])
    } else {
        let (batches, pending) = batch_all(max_batch_size, items.drop_last());
        let (out, rest) = batch_step(max_batch_size, pending, items.last());
        match out {
            Some(b) => (batches.push(b), rest),
            None => (batches, rest),
        }
    }
}

pub open spec fn concat<T>(batches: Seq<Seq<T>>) -> Seq<T>
    decreases batches.len(),
{
    if batches.len() == 0 {
        seq![]
    } else {
        concat(batches.drop_last()) + batches.last()
    }
}

/// Batching loses, duplicates and reorders no request: the batches handed
/// on, followed by what waits, are the requests in the order they arrived.
/// Every batch handed on holds exactly `max_batch_size` requests (one, when
/// that is zero), and fewer wait.
pub proof fn lemma_batching_preserves_requests<T>(max_batch_size: nat, items: Seq<T>)
    ensures
        ({
            let (batches, pending) = batch_all(max_batch_size, items);
            let full = if max_batch_size == 0 { 1 } else { max_batch_size };
            &&& concat(batches) + pending == items
            &&& forall|i: int| 0 <= i < batches.len() ==> (#[trigger] batches[i]).len() == full
            &&& pending.len() < full
        }),
    decreases items.len(),
{
    if items.len() > 0 {
        let init = items.drop_last();
        lemma_batching_preserves_requests(max_batch_size, init);
        let (batches, pending) = batch_all(max_batch_size, init);
        let all = pending.push(items.last());
        let (out, rest) = batch_step(max_batch_size, pending, items.last());
        match out {
            Some(b) => {
                let nb = batches.push(b);
                assert(nb.drop_last() =~= batches);
                assert(concat(nb) + rest =~= items) by {
                    assert(concat(batches) + pending + seq![items.last()] =~= items);
                }
                assert forall|i: int| 0 <= i < nb.len() implies (#[trigger] nb[i]).len() == (if max_batch_size
                    == 0 { 1 } else { max_batch_size }) by {
                    if i < batches.len() {
                        assert(nb[i] == batches[i]);
                    }
                }
            },
            None => {
                assert(concat(batches) + rest =~= items) by {
                    assert(concat(batches) + pending + seq![items.last()] =~= items);
                }
            },
        }
    }
}

/// The batching decisions: the requests that wait, and the size at which a
/// batch is handed on.
pub struct Batcher<T> {
    max_batch_size: usize,
    batch: Vec<T>,
}

impl<T> Batcher<T> {
    pub closed spec fn max_size(&self) -> nat {
        self.max_batch_size as nat
    }

    pub closed spec fn waiting(&self) -> Seq<T> {
        self.batch@
    }

    pub fn new(config: &BatcherConfig) -> (res: Self)
        ensures
            res.max_size() == config.max_batch_size,
            res.waiting() == Seq::<T>::empty(),
    {
        Batcher { max_batch_size: config.max_batch_size, batch: Vec::new() }
    }

    /// A request arrives. Returns whether the wait timer restarts (the
    /// request is the first of a new batch) and the batch to hand on, if
    /// the waiting requests now fill one.
    pub fn on_item(&mut self, item: T) -> (res: (bool, Option<Vec<T>>))
        ensures
            final(self).max_size() == old(self).max_size(),
            res.0 == (old(self).waiting().len() == 0),
            ({
                let (out, rest) = batch_step(old(self).max_size(), old(self).waiting(), item);
                &&& final(self).waiting() == rest
                &&& match out {
                    Some(b) => res.1 matches Some(v) && v@ == b,
                    None => res.1 is None,
                }
            }),
    {
        let restart = self.batch.len() == 0;
        self.batch.push(item);
        if self.batch.len() >= self.max_batch_size {
            let mut full: Vec<T> = Vec::new();
            std::mem::swap(&mut full, &mut self.batch);
            (restart, Some(full))
        } else {
            (restart, None)
        }
    }

    /// The wait for the first waiting request ran out: the waiting requests,
    /// if any, to hand on.
    pub fn on_timeout(&mut self) -> (res: Option<Vec<T>>)
        ensures
            final(self).max_size() == old(self).max_size(),
            final(self).waiting() == Seq::<T>::empty(),
            old(self).waiting().len() == 0 ==> res is None,
            old(self).waiting().len() > 0 ==> (res matches Some(v) && v@ == old(self).waiting()),
    {
        let mut rest: Vec<T> = Vec::new();
        std::mem::swap(&mut rest, &mut self.batch);
        if rest.len() == 0 {
            None
        } else {
            Some(rest)
        }
    }

    /// The request stream ended: the waiting requests, if any, to hand on.
    pub fn on_close(&mut self) -> (res: Option<Vec<T>>)
        ensures
            final(self).max_size() == old(self).max_size(),
            final(self).waiting() == Seq::<T>::empty(),
            old(self).waiting().len() == 0 ==> res is None,
            old(self).waiting().len() > 0 ==> (res matches Some(v) && v@ == old(self).waiting()),
    {
        let mut rest: Vec<T> = Vec::new();
        std::mem::swap(&mut rest, &mut self.batch);
        if rest.len() == 0 {
            None
        } else {
            Some(rest)
        }
    }
}

} // verus!
