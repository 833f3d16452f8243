//! The bookkeeping of the keep-alive pool: which heartbeat workers exist,
//! which of them takes a new stream, when a worker hands its streams back,
//! and when a stream is due for a ping.
use vstd::prelude::*;

verus! {

/// Whether a worker that serves `count` streams may take one more. A limit of
/// zero means no limit.
pub open spec fn has_capacity(limit: u64, count: usize) -> bool {
    limit == 0 || (count as int) < (limit as int)
}

/// Whether a worker that serves `count` streams may take one more. A limit of
/// zero means no limit.
pub fn worker_has_capacity(limit: u64, count: usize) -> (b: bool)
    ensures
        b == has_capacity(limit, count),
{
    limit == 0 || (count as u128) < (limit as u128)
}

/// Whether a worker serves so few streams that it should hand them back to
/// the pool: only under a limit, only with streams left, and only under half
/// the limit.
pub fn is_underloaded(limit: u64, count: usize) -> (b: bool)
    ensures
        b == (limit > 0 && count > 0 && (count as int) < (limit as int) / 2),
{
    limit > 0 && count > 0 && (count as u128) < (limit / 2) as u128
}

/// Whether a stream last pinged at `last_ping` is due for a ping at `now`,
/// all in nanoseconds: whether at least `interval` has passed. A `last_ping`
/// later than `now` counts as no time passed.
pub fn ping_due(now: u128, last_ping: u128, interval: u128) -> (b: bool)
    ensures
        b == (if now >= last_ping {
            now - last_ping
        } else {
            0
        } >= interval),
{
    let elapsed = if now >= last_ping {
        now - last_ping
    } else {
        0
    };
    elapsed >= interval
}

/// The streams of a worker after a round of pings at `now`: a stream that
/// was due and whose ping failed is dropped; one that was due and pinged
/// is stamped with `now`; the others stay as they were, in order. Each
/// entry holds a stream and when it was last pinged.
pub open spec fn after_ping_round<T>(entries: Seq<(T, u128)>, due: Seq<bool>, ok: Seq<bool>, now: u128) -> Seq<
    (T, u128),
>
    decreases entries.len(),
{
    if entries.len() == 0 {
        entries
    } else {
        let i = entries.len() - 1;
        let rest = after_ping_round(entries.drop_last(), due, ok, now);
        if due[i] && !ok[i] {
            rest
        } else if due[i] {
            rest.push((entries[i].0, now))
        } else {
            rest.push(entries[i])
        }
    }
}

/// Settles a round of pings at `now`: drops the streams that were due and
/// whose ping failed, and stamps the ones that were due and pinged.
pub fn settle_ping_round<T>(entries: Vec<(T, u128)>, due: &Vec<bool>, ok: &Vec<bool>, now: u128) -> (r: Vec<
    (T, u128),
>)
    requires
        due@.len() == entries@.len(),
        ok@.len() == entries@.len(),
    ensures
        r@ == after_ping_round(entries@, due@, ok@, now),
{
    let ghost all = entries@;
    let mut rest = entries;
    let mut kept: Vec<(T, u128)> = Vec::new();
    let total = rest.len();
    let mut i: usize = 0;
    assert(all.take(0) =~= Seq::<(T, u128)>::empty());
    while i < total
        invariant
            total == all.len(),
            due@.len() == total,
            ok@.len() == total,
            i <= total,
            rest@ == all.skip(i as int),
            kept@ == after_ping_round(all.take(i as int), due@, ok@, now),
        decreases total - i,
    {
        let e = rest.remove(0);
        assert(e == all[i as int]);
        let ghost before = kept@;
        proof {
            let p = all.take(i + 1);
            assert(p.drop_last() =~= all.take(i as int));
            assert(p[i as int] == e);
            assert(after_ping_round(p, due@, ok@, now) == if due@[i as int] && !ok@[i as int] {
                before
            } else if due@[i as int] {
                before.push((e.0, now))
            } else {
                before.push(e)
            });
        }
        if due[i] && !ok[i] {
        } else if due[i] {
            let (stream, _) = e;
            kept.push((stream, now));
        } else {
            kept.push(e);
        }
        assert(rest@ =~= all.skip(i + 1));
        i = i + 1;
    }
    assert(all.take(total as int) =~= all);
    kept
}

/// The position of the first worker, in the order the workers were made,
/// that may take one more stream; `counts` holds each worker's id and the
/// number of streams it serves.
pub fn choose_worker(limit: u64, counts: &Vec<(usize, usize)>) -> (r: Option<usize>)
    ensures
        match r {
            Some(i) => i < counts@.len() && has_capacity(limit, counts@[i as int].1) && forall|j: int|
                0 <= j < i ==> !has_capacity(limit, #[trigger] counts@[j].1),
            None => forall|j: int| 0 <= j < counts@.len() ==> !has_capacity(limit, #[trigger] counts@[j].1),
        },
{
    let mut i: usize = 0;
    while i < counts.len()
        invariant
            i <= counts@.len(),
            forall|j: int| 0 <= j < i ==> !has_capacity(limit, #[trigger] counts@[j].1),
        decreases counts@.len() - i,
    {
        if worker_has_capacity(limit, counts[i].1) {
            return Some(i);
        }
        i = i + 1;
    }
    None
}

/// The heartbeat workers of a pool, by id, in the order they were made, and
/// the id the next worker gets.
pub struct WorkerRoster {
    ids: Vec<usize>,
    next_worker_id: usize,
}

impl View for WorkerRoster {
    type V = Seq<usize>;

    /// The ids of the workers, oldest first.
    closed spec fn view(&self) -> Seq<usize> {
        self.ids@
    }
}

impl WorkerRoster {
    /// The id the next worker gets.
    pub closed spec fn next_id(&self) -> usize {
        self.next_worker_id
    }

    /// Ids are given out in increasing order and never twice: every worker's
    /// id is below the next one, and no id occurs twice.
    pub closed spec fn wf(&self) -> bool {
        &&& forall|i: int| 0 <= i < self.ids@.len() ==> #[trigger] self.ids@[i] < self.next_worker_id
        &&& forall|i: int, j: int|
            0 <= i < j < self.ids@.len() ==> #[trigger] self.ids@[i] != #[trigger] self.ids@[j]
    }

    /// A pool without workers; the first worker gets id zero.
    pub fn new() -> (r: Self)
        ensures
            r.wf(),
            r@ == Seq::<usize>::empty(),
            r.next_id() == 0,
    {
        WorkerRoster { ids: Vec::new(), next_worker_id: 0 }
    }

    /// The id the next worker gets.
    pub fn next_worker_id(&self) -> (id: usize)
        ensures
            id == self.next_id(),
    {
        self.next_worker_id
    }

    /// The ids of the workers, oldest first.
    pub fn ids(&self) -> (v: Vec<usize>)
        ensures
            v@ == self@,
    {
        self.ids.clone()
    }

    /// Records a new worker and returns its id, which no worker had before.
    pub fn add_worker(&mut self) -> (id: usize)
        requires
            old(self).wf(),
            old(self).next_id() < usize::MAX,
        ensures
            final(self).wf(),
            id == old(self).next_id(),
            final(self).next_id() == old(self).next_id() + 1,
            final(self)@ == old(self)@.push(id),
            !old(self)@.contains(id),
    {
        let id = self.next_worker_id;
        self.ids.push(id);
        self.next_worker_id = id + 1;
        proof {
            assert(!old(self)@.contains(id)) by {
                if old(self)@.contains(id) {
                    let k = choose|k: int| 0 <= k < old(self)@.len() && old(self)@[k] == id;
                    assert(old(self).ids@[k] < old(self).next_worker_id);
                }
            }
        }
        id
    }

    /// Forgets the worker with this id; the others keep their order.
    pub fn remove_worker(&mut self, worker_id: usize)
        requires
            old(self).wf(),
        ensures
            final(self).wf(),
            final(self)@ == old(self)@.filter(|id: usize| id != worker_id),
            final(self).next_id() == old(self).next_id(),
            !final(self)@.contains(worker_id),
    {
        let ghost before = self.ids@;
        let mut kept: Vec<usize> = Vec::new();
        let mut i: usize = 0;
        while i < self.ids.len()
            invariant
                i <= before.len(),
                self.ids@ == before,
                kept@ == before.take(i as int).filter(|id: usize| id != worker_id),
                forall|k: int| 0 <= k < kept@.len() ==> #[trigger] kept@[k] < self.next_worker_id,
                forall|k: int| 0 <= k < kept@.len() ==> #[trigger] kept@[k] != worker_id,
                forall|k: int|
                    0 <= k < kept@.len() ==> exists|m: int| 0 <= m < i && #[trigger] kept@[k] == before[m],
                forall|a: int, b: int| 0 <= a < b < kept@.len() ==> #[trigger] kept@[a] != #[trigger] kept@[b],
                forall|a: int| 0 <= a < before.len() ==> #[trigger] before[a] < self.next_worker_id,
                forall|a: int, b: int| 0 <= a < b < before.len() ==> #[trigger] before[a] != #[trigger] before[b],
            decreases before.len() - i,
        {
            let id = self.ids[i];
            proof {
                assert(before.take(i as int + 1).drop_last() == before.take(i as int));
                assert(before.take(i as int + 1).last() == id);
                reveal(Seq::filter);
            }
            if id != worker_id {
                proof {
                    assert forall|k: int| 0 <= k < kept@.len() implies #[trigger] kept@[k] != id by {
                        let m = choose|m: int| 0 <= m < i && kept@[k] == before[m];
                        assert(before[m] != before[i as int]);
                    }
                }
                kept.push(id);
            }
            i = i + 1;
        }
        proof {
            assert(before.take(before.len() as int) == before);
        }
        self.ids = kept;
    }
}

} // verus!
