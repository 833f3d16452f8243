//! Session bookkeeping: reconnection backoff and the eviction of sessions
//! whose creator has gone silent.
//!
//! Durations and instants are counted in nanoseconds; an instant is the
//! time elapsed since an arbitrary fixed origin.
use vstd::prelude::*;

verus! {

/// The largest duration, `Duration::MAX`, in nanoseconds.
pub const MAX_DURATION_NANOS: u128 = 18_446_744_073_709_551_615_999_999_999u128;

/// `2` to the power `e`, saturating at `u32::MAX`.
pub open spec fn saturating_pow2(e: nat) -> nat {
    if e >= 32 {
        u32::MAX as nat
    } else {
        vstd::arithmetic::power2::pow2(e)
    }
}

/// The backoff before jitter after `attempts` attempts: `base` doubled for
/// each attempt after the first (the factor saturating at `u32::MAX`, the
/// product at the largest duration), capped at `max`.
pub open spec fn raw_backoff(base: u128, max: u128, attempts: nat) -> u128 {
    let e: nat = if attempts == 0 {
        0
    } else {
        (attempts - 1) as nat
    };
    let scaled = base * saturating_pow2(e);
    let scaled = if scaled > MAX_DURATION_NANOS {
        MAX_DURATION_NANOS as int
    } else {
        scaled
    };
    if scaled > max {
        max
    } else {
        scaled as u128
    }
}

/// While no cap applies, the backoff after `attempts` attempts is `base`
/// doubled `attempts - 1` times.
pub proof fn law_backoff_doubles_from_base(base: u128, max: u128, attempts: nat)
    requires
        1 <= attempts <= 32,
        base * vstd::arithmetic::power2::pow2((attempts - 1) as nat) <= max,
        max <= MAX_DURATION_NANOS,
    ensures
        raw_backoff(base, max, attempts) == base * vstd::arithmetic::power2::pow2((attempts - 1) as nat),
{
}

/// Each attempt doubles the previous backoff, up to `max`, while the factor
/// and the product stay in range.
pub proof fn law_backoff_next_doubles_up_to_max(base: u128, max: u128, attempts: nat)
    requires
        1 <= attempts < 32,
        base * vstd::arithmetic::power2::pow2(attempts) <= MAX_DURATION_NANOS,
    ensures
        raw_backoff(base, max, attempts + 1) == if 2 * raw_backoff(base, max, attempts) > max {
            max as int
        } else {
            2 * raw_backoff(base, max, attempts)
        },
{
    let e = (attempts - 1) as nat;
    vstd::arithmetic::power2::lemma_pow2_unfold(attempts);
    let x = vstd::arithmetic::power2::pow2(e);
    assert(base * vstd::arithmetic::power2::pow2(attempts) == 2 * (base * x)) by (nonlinear_arith)
        requires
            vstd::arithmetic::power2::pow2(attempts) == 2 * x,
    ;
    assert(base * x <= base * vstd::arithmetic::power2::pow2(attempts)) by (nonlinear_arith)
        requires
            vstd::arithmetic::power2::pow2(attempts) == 2 * x,
            x >= 0,
    ;
    assert((((attempts + 1) - 1) as nat) == attempts);
}

/// Calculates exponential backoff intervals.
pub struct ExponentialBackoff {
    base: u128,
    max: u128,
    attempts: u32,
}

impl ExponentialBackoff {
    /// The initial backoff, in nanoseconds.
    pub closed spec fn base(&self) -> u128 {
        self.base
    }

    /// The cap on the backoff, in nanoseconds.
    pub closed spec fn max(&self) -> u128 {
        self.max
    }

    /// The number of backoffs computed since creation or the last reset.
    pub closed spec fn attempts(&self) -> nat {
        self.attempts as nat
    }

    /// Durations are at most the largest `Duration`.
    pub closed spec fn wf(&self) -> bool {
        self.base <= MAX_DURATION_NANOS && self.max <= MAX_DURATION_NANOS
    }

    /// Creates a backoff that starts at `base` and never exceeds `max`
    /// (both in nanoseconds).
    pub fn new(base: u128, max: u128) -> (b: Self)
        requires
            base <= MAX_DURATION_NANOS,
            max <= MAX_DURATION_NANOS,
        ensures
            b.wf(),
            b.base() == base,
            b.max() == max,
            b.attempts() == 0,
    {
        ExponentialBackoff { base, max, attempts: 0 }
    }

    /// Counts one more attempt and returns the backoff before jitter:
    /// `base * 2^(attempts-1)`, capped at `max`.
    pub fn next_raw_backoff(&mut self) -> (d: u128)
        requires
            old(self).wf(),
            old(self).attempts() < u32::MAX,
        ensures
            final(self).wf(),
            final(self).base() == old(self).base(),
            final(self).max() == old(self).max(),
            final(self).attempts() == old(self).attempts() + 1,
            d == raw_backoff(old(self).base(), old(self).max(), final(self).attempts()),
    {
        self.attempts = self.attempts + 1;
        let e = self.attempts - 1;
        let factor = saturating_pow2_u32(e);
        let scaled: u128 = if self.base > MAX_DURATION_NANOS / (factor as u128) {
            MAX_DURATION_NANOS
        } else {
            proof {
                assert(self.base * factor <= MAX_DURATION_NANOS) by (nonlinear_arith)
                    requires
                        self.base <= MAX_DURATION_NANOS / (factor as u128),
                        factor >= 1,
                ;
            }
            self.base * (factor as u128)
        };
        proof {
            if self.base > MAX_DURATION_NANOS / (factor as u128) {
                assert(self.base * factor > MAX_DURATION_NANOS) by (nonlinear_arith)
                    requires
                        self.base > MAX_DURATION_NANOS / (factor as u128),
                        factor >= 1,
                ;
            }
        }
        if scaled > self.max {
            self.max
        } else {
            scaled
        }
    }

    /// The number of backoffs computed since creation or the last reset.
    pub fn attempt_count(&self) -> (n: u32)
        ensures
            n == self.attempts(),
    {
        self.attempts
    }

    /// Resets the attempt count, restarting the backoff sequence.
    pub fn reset(&mut self)
        ensures
            final(self).base() == old(self).base(),
            final(self).max() == old(self).max(),
            final(self).attempts() == 0,
            old(self).wf() ==> final(self).wf(),
    {
        self.attempts = 0;
    }
}

/// `2u32.saturating_pow(e)`.
fn saturating_pow2_u32(e: u32) -> (p: u32)
    ensures
        p == saturating_pow2(e as nat),
        p >= 1,
{
    if e >= 32 {
        return u32::MAX;
    }
    let mut p: u32 = 1;
    let mut i: u32 = 0;
    proof {
        vstd::arithmetic::power2::lemma2_to64();
    }
    while i < e
        invariant
            i <= e,
            e < 32,
            p == vstd::arithmetic::power2::pow2(i as nat),
            p >= 1,
        decreases e - i,
    {
        proof {
            vstd::arithmetic::power2::lemma_pow2_unfold((i + 1) as nat);
            vstd::arithmetic::power2::lemma_pow2_strictly_increases(i as nat, 31);
            vstd::arithmetic::power2::lemma2_to64();
        }
        p = p * 2;
        i = i + 1;
    }
    p
}

/// A synchronised application session inside the flow mesh.
#[derive(Clone, Debug)]
pub struct Session {
    pub session_id: String,
    /// The node that created the session.
    pub creator_node: String,
    pub flow_ids: Vec<String>,
    /// Creation time in milliseconds since the Unix epoch.
    pub created_at: u64,
    pub metadata: Vec<(String, String)>,
    pub state_data: Vec<u8>,
    pub state_version: u64,
    /// Time of the last state update, in milliseconds.
    pub state_timestamp: u64,
}

/// The time elapsed from `earlier` to `now`, zero if `earlier` is later.
pub open spec fn elapsed(now: u128, earlier: u128) -> u128 {
    if now >= earlier {
        (now - earlier) as u128
    } else {
        0
    }
}

/// Whether the creator of a session has been silent for longer than `ttl`:
/// it is known in `last_seen`, and its last sighting is older than that.
pub open spec fn creator_expired(
    creator: Seq<char>,
    last_seen: Seq<(String, u128)>,
    now: u128,
    ttl: u128,
) -> bool {
    exists|j: int| 0 <= j < last_seen.len() && last_seen[j].0@ == creator && elapsed(now, last_seen[j].1) > ttl
}

/// The sessions that stay, in order.
pub open spec fn kept_sessions(sessions: Seq<Session>, last_seen: Seq<(String, u128)>, now: u128, ttl: u128) -> Seq<Session>
    decreases sessions.len(),
{
    if sessions.len() == 0 {
        sessions
    } else {
        let rest = kept_sessions(sessions.drop_last(), last_seen, now, ttl);
        if creator_expired(sessions.last().creator_node@, last_seen, now, ttl) {
            rest
        } else {
            rest.push(sessions.last())
        }
    }
}

/// The identifiers of the sessions that go, in order.
pub open spec fn evicted_sessions(sessions: Seq<Session>, last_seen: Seq<(String, u128)>, now: u128, ttl: u128) -> Seq<
    Seq<char>,
>
    decreases sessions.len(),
{
    if sessions.len() == 0 {
        Seq::empty()
    } else {
        let rest = evicted_sessions(sessions.drop_last(), last_seen, now, ttl);
        if creator_expired(sessions.last().creator_node@, last_seen, now, ttl) {
            rest.push(sessions.last().session_id@)
        } else {
            rest
        }
    }
}

/// No two sessions share an identifier.
pub open spec fn session_ids_distinct(sessions: Seq<Session>) -> bool {
    forall|a: int, b: int| 0 <= a < b < sessions.len() ==> (#[trigger] sessions[a]).session_id@ != (#[trigger] sessions[b]).session_id@
}

/// Whether some session of `sessions` has the identifier `id`.
pub open spec fn has_session_id(sessions: Seq<Session>, id: Seq<char>) -> bool {
    exists|i: int| 0 <= i < sessions.len() && (#[trigger] sessions[i]).session_id@ == id
}

/// A session whose creator has not expired stays; one whose creator has
/// expired has its identifier among the evicted.
proof fn lemma_gc_fate(sessions: Seq<Session>, last_seen: Seq<(String, u128)>, now: u128, ttl: u128, k: int)
    requires
        0 <= k < sessions.len(),
    ensures
        !creator_expired(sessions[k].creator_node@, last_seen, now, ttl) ==> kept_sessions(
            sessions,
            last_seen,
            now,
            ttl,
        ).contains(sessions[k]),
        creator_expired(sessions[k].creator_node@, last_seen, now, ttl) ==> evicted_sessions(
            sessions,
            last_seen,
            now,
            ttl,
        ).contains(sessions[k].session_id@),
    decreases sessions.len(),
{
    let d = sessions.drop_last();
    let kd = kept_sessions(d, last_seen, now, ttl);
    let ed = evicted_sessions(d, last_seen, now, ttl);
    if k < sessions.len() - 1 {
        lemma_gc_fate(d, last_seen, now, ttl, k);
        assert(d[k] == sessions[k]);
        if !creator_expired(sessions[k].creator_node@, last_seen, now, ttl) {
            let i = choose|i: int| 0 <= i < kd.len() && kd[i] == sessions[k];
            assert(kd.push(sessions.last())[i] == sessions[k]);
        } else {
            let i = choose|i: int| 0 <= i < ed.len() && ed[i] == sessions[k].session_id@;
            assert(ed.push(sessions.last().session_id@)[i] == sessions[k].session_id@);
        }
    } else {
        if !creator_expired(sessions[k].creator_node@, last_seen, now, ttl) {
            assert(kd.push(sessions.last())[kd.len() as int] == sessions[k]);
        } else {
            assert(ed.push(sessions.last().session_id@)[ed.len() as int] == sessions[k].session_id@);
        }
    }
}

/// Sessions go only once their creator has been silent for longer than the
/// TTL: a session whose creator was always last seen no more than `ttl`
/// before `now` (or never seen) stays, and one whose creator was last seen
/// more than `ttl` before `now` is evicted.
pub proof fn law_gc_evicts_only_past_ttl(
    sessions: Seq<Session>,
    last_seen: Seq<(String, u128)>,
    now: u128,
    ttl: u128,
    k: int,
)
    requires
        0 <= k < sessions.len(),
    ensures
        (forall|j: int|
            0 <= j < last_seen.len() && (#[trigger] last_seen[j]).0@ == sessions[k].creator_node@ ==> now
                <= last_seen[j].1 + ttl) ==> kept_sessions(sessions, last_seen, now, ttl).contains(sessions[k]),
        (exists|j: int|
            0 <= j < last_seen.len() && (#[trigger] last_seen[j]).0@ == sessions[k].creator_node@ && now
                > last_seen[j].1 + ttl) ==> evicted_sessions(sessions, last_seen, now, ttl).contains(
            sessions[k].session_id@,
        ),
{
    lemma_gc_fate(sessions, last_seen, now, ttl, k);
}

/// Garbage collection keeps identifiers unique: of sessions with distinct
/// identifiers, the kept ones have distinct identifiers, each evicted
/// identifier is listed once, and every kept or evicted identifier is one
/// of the sessions'.
pub proof fn law_gc_keeps_ids_distinct(sessions: Seq<Session>, last_seen: Seq<(String, u128)>, now: u128, ttl: u128)
    requires
        session_ids_distinct(sessions),
    ensures
        session_ids_distinct(kept_sessions(sessions, last_seen, now, ttl)),
        evicted_sessions(sessions, last_seen, now, ttl).no_duplicates(),
        forall|k: int|
            0 <= k < kept_sessions(sessions, last_seen, now, ttl).len() ==> has_session_id(
                sessions,
                (#[trigger] kept_sessions(sessions, last_seen, now, ttl)[k]).session_id@,
            ),
        forall|k: int|
            0 <= k < evicted_sessions(sessions, last_seen, now, ttl).len() ==> has_session_id(
                sessions,
                #[trigger] evicted_sessions(sessions, last_seen, now, ttl)[k],
            ),
    decreases sessions.len(),
{
    if sessions.len() > 0 {
        let d = sessions.drop_last();
        let l = sessions.last();
        let n = sessions.len() - 1;
        assert(session_ids_distinct(d)) by {
            assert forall|a: int, b: int| 0 <= a < b < d.len() implies (#[trigger] d[a]).session_id@
                != (#[trigger] d[b]).session_id@ by {
                assert(d[a] == sessions[a] && d[b] == sessions[b]);
            }
        }
        law_gc_keeps_ids_distinct(d, last_seen, now, ttl);
        let kd = kept_sessions(d, last_seen, now, ttl);
        let ed = evicted_sessions(d, last_seen, now, ttl);
        let k = kept_sessions(sessions, last_seen, now, ttl);
        let e = evicted_sessions(sessions, last_seen, now, ttl);
        // what comes from `d` differs from the last session's identifier
        assert forall|id: Seq<char>| has_session_id(d, id) implies #[trigger] has_session_id(sessions, id)
            && id != l.session_id@ by {
            let i = choose|i: int| 0 <= i < d.len() && (#[trigger] d[i]).session_id@ == id;
            assert(sessions[i] == d[i]);
            assert(sessions[i].session_id@ != sessions[n].session_id@);
        }
        assert(has_session_id(sessions, l.session_id@)) by {
            assert(sessions[n].session_id@ == l.session_id@);
        }
        assert forall|x: int| 0 <= x < kd.len() implies has_session_id(d, (#[trigger] kd[x]).session_id@) by {}
        assert forall|x: int| 0 <= x < ed.len() implies has_session_id(d, #[trigger] ed[x]) by {}
        if creator_expired(l.creator_node@, last_seen, now, ttl) {
            assert(k == kd);
            assert(e == ed.push(l.session_id@));
            assert forall|a: int, b: int| 0 <= a < e.len() && 0 <= b < e.len() && a != b implies e[a] != e[b] by {
                if a < ed.len() && b < ed.len() {
                } else if a < ed.len() {
                    assert(has_session_id(d, ed[a]));
                } else {
                    assert(has_session_id(d, ed[b]));
                }
            }
            assert forall|x: int| 0 <= x < e.len() implies has_session_id(sessions, #[trigger] e[x]) by {
                if x < ed.len() {
                    assert(has_session_id(d, ed[x]));
                }
            }
        } else {
            assert(e == ed);
            assert(k == kd.push(l));
            assert forall|a: int, b: int| 0 <= a < b < k.len() implies (#[trigger] k[a]).session_id@
                != (#[trigger] k[b]).session_id@ by {
                if b < kd.len() {
                    assert(k[a] == kd[a] && k[b] == kd[b]);
                } else {
                    assert(k[a] == kd[a]);
                    assert(has_session_id(d, kd[a].session_id@));
                }
            }
            assert forall|x: int| 0 <= x < k.len() implies has_session_id(sessions, (#[trigger] k[x]).session_id@) by {
                if x < kd.len() {
                    assert(k[x] == kd[x]);
                    assert(has_session_id(d, kd[x].session_id@));
                }
            }
        }
    }
}

/// Evicts every session whose creator node was last seen more than
/// `session_ttl` before `now`. Sessions whose creator was never seen stay.
/// Returns the identifiers of the evicted sessions, to be propagated across
/// the mesh.
pub fn gc_inactive_sessions(
    sessions: &mut Vec<Session>,
    node_last_seen: &Vec<(String, u128)>,
    now: u128,
    session_ttl: u128,
) -> (evicted: Vec<String>)
    requires
        session_ids_distinct(old(sessions)@),
        forall|a: int, b: int|
            0 <= a < node_last_seen@.len() && 0 <= b < node_last_seen@.len() && a != b ==> (#[trigger] node_last_seen@[a]).0@
                != (#[trigger] node_last_seen@[b]).0@,
    ensures
        final(sessions)@ == kept_sessions(old(sessions)@, node_last_seen@, now, session_ttl),
        evicted@.map_values(|s: String| s@) == evicted_sessions(old(sessions)@, node_last_seen@, now, session_ttl),
        session_ids_distinct(final(sessions)@),
        evicted@.map_values(|s: String| s@).no_duplicates(),
{
    proof {
        law_gc_keeps_ids_distinct(sessions@, node_last_seen@, now, session_ttl);
    }
    let ghost all = sessions@;
    let mut rest: Vec<Session> = Vec::new();
    std::mem::swap(&mut rest, sessions);
    let total = rest.len();
    let mut evicted: Vec<String> = Vec::new();
    let mut i: usize = 0;
    assert(all.take(0) =~= Seq::<Session>::empty());
    while i < total
        invariant
            total == all.len(),
            i <= total,
            rest@ == all.skip(i as int),
            sessions@ == kept_sessions(all.take(i as int), node_last_seen@, now, session_ttl),
            evicted@.map_values(|s: String| s@) == evicted_sessions(all.take(i as int), node_last_seen@, now, session_ttl),
        decreases total - i,
    {
        let s = rest.remove(0);
        assert(s == all[i as int]);
        assert(all.take(i + 1).drop_last() =~= all.take(i as int));
        assert(all.take(i + 1).last() == s);
        // look up the creator's last sighting
        let mut expired = false;
        let mut j: usize = 0;
        while j < node_last_seen.len()
            invariant
                j <= node_last_seen@.len(),
                expired == exists|k: int|
                    0 <= k < j && node_last_seen@[k].0@ == s.creator_node@ && elapsed(now, node_last_seen@[k].1) > session_ttl,
            decreases node_last_seen@.len() - j,
        {
            if node_last_seen[j].0 == s.creator_node {
                let last = node_last_seen[j].1;
                let since = if now >= last {
                    now - last
                } else {
                    0
                };
                if since > session_ttl {
                    expired = true;
                }
            }
            j = j + 1;
        }
        let ghost ev = evicted@;
        if expired {
            evicted.push(s.session_id.clone());
            assert(evicted@.map_values(|x: String| x@) =~= ev.map_values(|x: String| x@).push(s.session_id@));
        } else {
            sessions.push(s);
        }
        assert(rest@ =~= all.skip(i + 1));
        i = i + 1;
    }
    assert(all.take(total as int) =~= all);
    evicted
}

/// Every session either stays or is evicted, never both: as many remain and
/// go as there were.
pub proof fn law_gc_partitions_sessions(sessions: Seq<Session>, last_seen: Seq<(String, u128)>, now: u128, ttl: u128)
    ensures
        kept_sessions(sessions, last_seen, now, ttl).len() + evicted_sessions(sessions, last_seen, now, ttl).len()
            == sessions.len(),
    decreases sessions.len(),
{
    if sessions.len() > 0 {
        law_gc_partitions_sessions(sessions.drop_last(), last_seen, now, ttl);
    }
}

/// Collecting garbage twice at the same instant evicts nothing the second
/// time.
pub proof fn law_gc_is_idempotent(sessions: Seq<Session>, last_seen: Seq<(String, u128)>, now: u128, ttl: u128)
    ensures
        kept_sessions(kept_sessions(sessions, last_seen, now, ttl), last_seen, now, ttl) == kept_sessions(
            sessions,
            last_seen,
            now,
            ttl,
        ),
        evicted_sessions(kept_sessions(sessions, last_seen, now, ttl), last_seen, now, ttl).len() == 0,
    decreases sessions.len(),
{
    if sessions.len() > 0 {
        let d = sessions.drop_last();
        law_gc_is_idempotent(d, last_seen, now, ttl);
        let k = kept_sessions(d, last_seen, now, ttl);
        if !creator_expired(sessions.last().creator_node@, last_seen, now, ttl) {
            assert(k.push(sessions.last()).drop_last() =~= k);
        }
    }
}

/// The backoff never exceeds its cap, and never shrinks from one attempt to
/// the next.
pub proof fn law_backoff_bounded_and_growing(base: u128, max: u128, attempts: nat)
    ensures
        raw_backoff(base, max, attempts) <= max,
        raw_backoff(base, max, attempts) <= raw_backoff(base, max, attempts + 1),
{
    let e1: nat = if attempts == 0 { 0 } else { (attempts - 1) as nat };
    let e2: nat = attempts;
    assert(saturating_pow2(e1) <= saturating_pow2(e2)) by {
        if e2 < 32 {
            if e1 < e2 {
                vstd::arithmetic::power2::lemma_pow2_strictly_increases(e1, e2);
            }
        } else if e1 < 32 {
            vstd::arithmetic::power2::lemma_pow2_strictly_increases(e1, 32);
            vstd::arithmetic::power2::lemma2_to64();
        }
    }
    assert(base * saturating_pow2(e1) <= base * saturating_pow2(e2)) by (nonlinear_arith)
        requires
            saturating_pow2(e1) <= saturating_pow2(e2),
    ;
}

} // verus!
