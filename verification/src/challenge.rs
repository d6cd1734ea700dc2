//! Ephemeral challenge store: the short-lived holder of in-flight ceremony
//! state, keyed by a random ceremony id.
//!
//! A ceremony id is single-use: `consume` atomically removes and returns the
//! stored entry, so a replayed response can never complete twice. Entries
//! expire a fixed delay after `begin`; expiry is applied lazily on every
//! `begin` and `consume`, so an expired id is indistinguishable from one that
//! never existed.

use vstd::prelude::*;

verus! {

/// Seconds an in-flight ceremony stays alive before it expires.
pub const CEREMONY_TIMEOUT_SECS: u64 = 60;

/// One in-flight ceremony: its id, its expiry deadline (absolute seconds),
/// and the server-side state returned on consumption.
pub struct Entry<V> {
    pub id: u128,
    pub deadline: u64,
    pub state: V,
}

/// No two entries share an id, so a lookup is unambiguous.
pub open spec fn ids_unique<V>(s: Seq<Entry<V>>) -> bool {
    forall|i: int, j: int|
        0 <= i < j < s.len() ==> (#[trigger] s[i]).id != (#[trigger] s[j]).id
}

/// Some entry of `s` carries `id`.
pub open spec fn seq_has<V>(s: Seq<Entry<V>>, id: u128) -> bool {
    exists|i: int| 0 <= i < s.len() && (#[trigger] s[i]).id == id
}

/// The index of the entry carrying `id` (meaningful when `seq_has` holds).
pub open spec fn seq_idx<V>(s: Seq<Entry<V>>, id: u128) -> int {
    choose|i: int| 0 <= i < s.len() && (#[trigger] s[i]).id == id
}

/// The entry carrying `id` (meaningful when `seq_has` holds).
pub open spec fn seq_entry<V>(s: Seq<Entry<V>>, id: u128) -> Entry<V> {
    s[seq_idx(s, id)]
}

/// Under unique ids, every index whose entry carries `id` is `seq_idx`.
proof fn lemma_idx_unique<V>(s: Seq<Entry<V>>, id: u128, i: int)
    requires
        ids_unique(s),
        0 <= i < s.len(),
        s[i].id == id,
    ensures
        seq_has(s, id),
        seq_idx(s, id) == i,
        seq_entry(s, id) == s[i],
{
    assert(seq_has(s, id));
    let j = seq_idx(s, id);
    assert(0 <= j < s.len() && s[j].id == id);
    if i != j {
        assert(s[i].id != s[j].id);
    }
}

/// Removing the entry at `j` removes exactly its id and keeps every other
/// entry unchanged.
proof fn lemma_remove_entry<V>(s: Seq<Entry<V>>, j: int)
    requires
        ids_unique(s),
        0 <= j < s.len(),
    ensures
        ids_unique(s.remove(j)),
        !seq_has(s.remove(j), s[j].id),
        forall|k: u128|
            k != s[j].id ==> (#[trigger] seq_has(s.remove(j), k) <==> seq_has(s, k)),
        forall|k: u128|
            k != s[j].id && seq_has(s, k) ==> #[trigger] seq_entry(s.remove(j), k) == seq_entry(
                s,
                k,
            ),
{
    let t = s.remove(j);
    assert forall|a: int, b: int| 0 <= a < b < t.len() implies (#[trigger] t[a]).id != (
    #[trigger] t[b]).id by {
        let a0 = if a < j { a } else { a + 1 };
        let b0 = if b < j { b } else { b + 1 };
        assert(t[a] == s[a0] && t[b] == s[b0]);
    }
    assert forall|i: int| 0 <= i < t.len() implies (#[trigger] t[i]).id != s[j].id by {
        let i0 = if i < j { i } else { i + 1 };
        assert(t[i] == s[i0]);
        assert(i0 != j);
    }
    assert forall|k: u128| k != s[j].id implies (#[trigger] seq_has(t, k) <==> seq_has(s, k)) by {
        if seq_has(t, k) {
            let i = seq_idx(t, k);
            let i0 = if i < j { i } else { i + 1 };
            assert(t[i] == s[i0]);
            lemma_idx_unique(s, k, i0);
        }
        if seq_has(s, k) {
            let i0 = seq_idx(s, k);
            assert(0 <= i0 < s.len() && s[i0].id == k);
            assert(i0 != j);
            let i = if i0 < j { i0 } else { i0 - 1 };
            assert(t[i] == s[i0]);
            assert(seq_has(t, k));
        }
    }
    assert forall|k: u128| k != s[j].id && seq_has(s, k) implies #[trigger] seq_entry(t, k)
        == seq_entry(s, k) by {
        let i0 = seq_idx(s, k);
        assert(0 <= i0 < s.len() && s[i0].id == k);
        assert(i0 != j);
        let i = if i0 < j { i0 } else { i0 - 1 };
        assert(t[i] == s[i0]);
        lemma_idx_unique(t, k, i);
    }
}

/// Pushing an entry with a fresh id adds exactly that id and keeps every
/// other entry unchanged.
proof fn lemma_push_entry<V>(s: Seq<Entry<V>>, e: Entry<V>)
    requires
        ids_unique(s),
        !seq_has(s, e.id),
    ensures
        ids_unique(s.push(e)),
        seq_has(s.push(e), e.id),
        seq_entry(s.push(e), e.id) == e,
        forall|k: u128| k != e.id ==> (#[trigger] seq_has(s.push(e), k) <==> seq_has(s, k)),
        forall|k: u128|
            k != e.id && seq_has(s, k) ==> #[trigger] seq_entry(s.push(e), k) == seq_entry(s, k),
{
    let t = s.push(e);
    assert forall|a: int, b: int| 0 <= a < b < t.len() implies (#[trigger] t[a]).id != (
    #[trigger] t[b]).id by {
        if b == s.len() {
            assert(t[a] == s[a]);
            assert(t[b] == e);
            if s[a].id == e.id {
                lemma_idx_unique(s, e.id, a);
            }
        } else {
            assert(t[a] == s[a] && t[b] == s[b]);
        }
    }
    assert(t[s.len() as int] == e);
    lemma_idx_unique(t, e.id, s.len() as int);
    assert forall|k: u128| k != e.id implies (#[trigger] seq_has(t, k) <==> seq_has(s, k)) by {
        if seq_has(t, k) {
            let i = seq_idx(t, k);
            assert(0 <= i < t.len() && t[i].id == k);
            assert(i != s.len());
            assert(t[i] == s[i]);
            assert(seq_has(s, k));
        }
        if seq_has(s, k) {
            let i = seq_idx(s, k);
            assert(t[i] == s[i]);
            assert(seq_has(t, k));
        }
    }
    assert forall|k: u128| k != e.id && seq_has(s, k) implies #[trigger] seq_entry(t, k)
        == seq_entry(s, k) by {
        let i = seq_idx(s, k);
        assert(0 <= i < s.len() && s[i].id == k);
        assert(t[i] == s[i]);
        lemma_idx_unique(t, k, i);
        lemma_idx_unique(s, k, i);
    }
}

/// The ephemeral challenge store. Two independent instances exist in the
/// subsystem, one per ceremony kind, so payload shapes never collide.
pub struct ChallengeStore<V> {
    entries: Vec<Entry<V>>,
}

impl<V> ChallengeStore<V> {
    /// The stored entries, as a mathematical sequence.
    pub closed spec fn entries_seq(self) -> Seq<Entry<V>> {
        self.entries@
    }

    /// Well-formed: no two entries share a ceremony id.
    pub open spec fn wf(self) -> bool {
        ids_unique(self.entries_seq())
    }

    /// Is `id` present (expired or not)?
    pub open spec fn has(self, id: u128) -> bool {
        seq_has(self.entries_seq(), id)
    }

    /// The entry stored under `id` (meaningful when `has` holds).
    pub open spec fn entry_of(self, id: u128) -> Entry<V> {
        seq_entry(self.entries_seq(), id)
    }

    /// The expiry deadline of `id` (meaningful when `has` holds).
    pub open spec fn deadline_of(self, id: u128) -> u64 {
        self.entry_of(id).deadline
    }

    /// The ceremony state stored under `id` (meaningful when `has` holds).
    pub open spec fn state_of(self, id: u128) -> V {
        self.entry_of(id).state
    }

    /// Is `id` present and not yet expired at time `now`?
    pub open spec fn live(self, id: u128, now: u64) -> bool {
        self.has(id) && now <= self.deadline_of(id)
    }

    /// What one `begin` call at time `now` does to the store: `id` is
    /// recorded with a fresh deadline, every other live entry survives
    /// unchanged, and every other expired entry is purged.
    pub open spec fn began(pre: Self, post: Self, id: u128, now: u64, state: V) -> bool {
        &&& post.has(id)
        &&& post.state_of(id) == state
        &&& post.deadline_of(id) == now + CEREMONY_TIMEOUT_SECS
        &&& forall|k: u128| k != id ==> (#[trigger] post.has(k) <==> pre.live(k, now))
        &&& forall|k: u128|
            k != id && post.has(k) ==> #[trigger] post.entry_of(k) == pre.entry_of(k)
    }

    /// What one `consume` call at time `now` does to the store: the entry is
    /// returned exactly when it was live, `id` is absent afterwards either
    /// way, every other live entry survives unchanged, and every other
    /// expired entry is purged.
    pub open spec fn consumed(pre: Self, post: Self, id: u128, now: u64, r: Option<V>) -> bool {
        &&& (r is Some <==> pre.live(id, now))
        &&& (pre.live(id, now) ==> r == Some(pre.state_of(id)))
        &&& !post.has(id)
        &&& forall|k: u128| k != id ==> (#[trigger] post.has(k) <==> pre.live(k, now))
        &&& forall|k: u128|
            k != id && post.has(k) ==> #[trigger] post.entry_of(k) == pre.entry_of(k)
    }

    /// A fresh, empty store.
    pub fn new() -> (s: Self)
        ensures
            s.wf(),
            forall|k: u128| !(#[trigger] s.has(k)),
    {
        let s = ChallengeStore { entries: Vec::new() };
        proof {
            assert forall|k: u128| !(#[trigger] s.has(k)) by {
                assert(s.entries_seq().len() == 0);
            }
        }
        s
    }

    /// The index holding `id`, if any.
    fn find_index(&self, id: u128) -> (r: Option<usize>)
        ensures
            match r {
                Some(i) => i < self.entries_seq().len() && self.entries_seq()[i as int].id == id,
                None => !self.has(id),
            },
    {
        let mut i: usize = 0;
        while i < self.entries.len()
            invariant
                i <= self.entries_seq().len(),
                forall|j: int| 0 <= j < i ==> (#[trigger] self.entries_seq()[j]).id != id,
            decreases self.entries_seq().len() - i,
        {
            if self.entries[i].id == id {
                return Some(i);
            }
            i = i + 1;
        }
        None
    }

    /// The index of some expired entry, if any.
    fn find_expired_index(&self, now: u64) -> (r: Option<usize>)
        ensures
            match r {
                Some(i) => i < self.entries_seq().len() && self.entries_seq()[i as int].deadline
                    < now,
                None => forall|j: int|
                    0 <= j < self.entries_seq().len() ==> (#[trigger] self.entries_seq()[j]).deadline
                        >= now,
            },
    {
        let mut i: usize = 0;
        while i < self.entries.len()
            invariant
                i <= self.entries_seq().len(),
                forall|j: int| 0 <= j < i ==> (#[trigger] self.entries_seq()[j]).deadline >= now,
            decreases self.entries_seq().len() - i,
        {
            if self.entries[i].deadline < now {
                return Some(i);
            }
            i = i + 1;
        }
        None
    }

    /// Remove every entry whose deadline has passed, keeping live entries
    /// unchanged.
    fn purge_expired(&mut self, now: u64)
        requires
            old(self).wf(),
        ensures
            final(self).wf(),
            forall|k: u128| #[trigger] final(self).has(k) <==> old(self).live(k, now),
            forall|k: u128|
                final(self).has(k) ==> #[trigger] final(self).entry_of(k) == old(self).entry_of(k),
    {
        let ghost pre = *self;
        loop
            invariant
                self.wf(),
                forall|k: u128|
                    #[trigger] self.has(k) ==> pre.has(k) && self.entry_of(k) == pre.entry_of(k),
                forall|k: u128| pre.live(k, now) ==> #[trigger] self.has(k),
            ensures
                self.wf(),
                forall|k: u128| #[trigger] self.has(k) <==> pre.live(k, now),
                forall|k: u128|
                    #[trigger] self.has(k) ==> self.entry_of(k) == pre.entry_of(k),
            decreases self.entries_seq().len(),
        {
            let ghost top = *self;
            match self.find_expired_index(now) {
                Some(i) => {
                    let ghost s = top.entries_seq();
                    let ghost removed_id = s[i as int].id;
                    proof {
                        lemma_idx_unique(s, removed_id, i as int);
                        lemma_remove_entry(s, i as int);
                    }
                    self.entries.remove(i);
                    proof {
                        assert forall|k: u128| pre.live(k, now) implies #[trigger] self.has(k) by {
                            assert(top.has(k));
                            if k == removed_id {
                                assert(top.entry_of(k) == s[i as int]);
                                assert(pre.entry_of(k) == top.entry_of(k));
                                assert(pre.deadline_of(k) < now);
                                assert(false);
                            } else {
                                assert(seq_has(s.remove(i as int), k));
                            }
                        }
                        assert forall|k: u128| #[trigger] self.has(k) implies top.has(k)
                            && self.entry_of(k) == top.entry_of(k) by {
                            assert(seq_has(s.remove(i as int), k));
                            assert(k != removed_id);
                        }
                    }
                },
                None => {
                    proof {
                        assert forall|k: u128| #[trigger] self.has(k) implies pre.live(k, now) by {
                            let i = seq_idx(top.entries_seq(), k);
                            assert(top.entries_seq()[i].id == k);
                            assert(top.entries_seq()[i].deadline >= now);
                            lemma_idx_unique(top.entries_seq(), k, i);
                            assert(top.entry_of(k).deadline >= now);
                            assert(pre.has(k) && pre.entry_of(k) == top.entry_of(k));
                        }
                    }
                    break ;
                },
            }
        }
    }

    /// Remove the entry carrying `id`, if any, returning its state and
    /// leaving every other entry unchanged.
    fn remove_id(&mut self, id: u128) -> (r: Option<V>)
        requires
            old(self).wf(),
        ensures
            final(self).wf(),
            !final(self).has(id),
            r is Some <==> old(self).has(id),
            old(self).has(id) ==> r == Some(old(self).state_of(id)),
            forall|k: u128|
                k != id ==> (#[trigger] final(self).has(k) <==> old(self).has(k)),
            forall|k: u128|
                k != id && final(self).has(k) ==> #[trigger] final(self).entry_of(k) == old(
                    self,
                ).entry_of(k),
    {
        match self.find_index(id) {
            Some(i) => {
                proof {
                    lemma_idx_unique(self.entries_seq(), id, i as int);
                    lemma_remove_entry(self.entries_seq(), i as int);
                }
                let e = self.entries.remove(i);
                Some(e.state)
            },
            None => None,
        }
    }

    /// Record a freshly begun ceremony under `id`, expiring a fixed delay
    /// after `now`. If `id` is already present (a random-id collision), the
    /// old entry is replaced. Expired entries are purged on the way.
    pub fn begin(&mut self, id: u128, now: u64, state: V)
        requires
            old(self).wf(),
            now + CEREMONY_TIMEOUT_SECS <= u64::MAX,
        ensures
            final(self).wf(),
            Self::began(*old(self), *final(self), id, now, state),
    {
        let ghost pre = *self;
        self.purge_expired(now);
        let ghost purged = *self;
        self.remove_id(id);
        let ghost mid = *self;
        let e = Entry { id, deadline: now + CEREMONY_TIMEOUT_SECS, state };
        proof {
            lemma_push_entry(mid.entries_seq(), e);
        }
        self.entries.push(e);
        proof {
            let post = *self;
            assert(post.entries_seq() == mid.entries_seq().push(e));
            assert(post.entry_of(id) == e);
            assert forall|k: u128| k != id implies (#[trigger] post.has(k) <==> pre.live(
                k,
                now,
            )) by {
                assert(seq_has(mid.entries_seq().push(e), k) <==> mid.has(k));
                assert(mid.has(k) <==> purged.has(k));
                assert(purged.has(k) <==> pre.live(k, now));
            }
            assert forall|k: u128| k != id && post.has(k) implies #[trigger] post.entry_of(k)
                == pre.entry_of(k) by {
                assert(seq_has(mid.entries_seq().push(e), k) <==> mid.has(k));
                assert(seq_entry(mid.entries_seq().push(e), k) == mid.entry_of(k));
                assert(mid.entry_of(k) == purged.entry_of(k));
                assert(purged.entry_of(k) == pre.entry_of(k));
            }
        }
    }

    /// Atomically remove and return the state stored under `id`: the one
    /// retrieval an id ever answers. Returns `None` when `id` was never
    /// inserted, was already consumed, or has expired. Expired entries are
    /// purged on the way.
    pub fn consume(&mut self, id: u128, now: u64) -> (r: Option<V>)
        requires
            old(self).wf(),
        ensures
            final(self).wf(),
            Self::consumed(*old(self), *final(self), id, now, r),
    {
        let ghost pre = *self;
        self.purge_expired(now);
        let ghost purged = *self;
        let r = self.remove_id(id);
        proof {
            if pre.live(id, now) {
                assert(purged.has(id));
                assert(purged.entry_of(id) == pre.entry_of(id));
            }
        }
        r
    }

    /// A ceremony id yields its stored state at most once: whatever a first
    /// consume returned, after it the id is absent, so a second consume of
    /// the same id returns nothing.
    pub proof fn lemma_consume_at_most_once(
        s0: Self,
        s1: Self,
        s2: Self,
        id: u128,
        t1: u64,
        t2: u64,
        r1: Option<V>,
        r2: Option<V>,
    )
        requires
            Self::consumed(s0, s1, id, t1, r1),
            Self::consumed(s1, s2, id, t2, r2),
        ensures
            r1 is Some ==> r2 is None,
    {
    }

    /// Consuming an id whose deadline has passed returns nothing.
    pub proof fn lemma_consume_after_expiry(
        s0: Self,
        s1: Self,
        id: u128,
        t: u64,
        r: Option<V>,
    )
        requires
            Self::consumed(s0, s1, id, t, r),
            s0.has(id),
            t > s0.deadline_of(id),
        ensures
            r is None,
    {
    }

    /// A ceremony begun at time `t` and never consumed is gone from the
    /// store at the first operation past `t` plus the timeout: a later
    /// consume at such a time finds nothing and leaves the id absent.
    pub proof fn lemma_unconsumed_entry_expires(
        s0: Self,
        s1: Self,
        s2: Self,
        c: u128,
        t: u64,
        state: V,
        k: u128,
        now: u64,
        r: Option<V>,
    )
        requires
            Self::began(s0, s1, c, t, state),
            Self::consumed(s1, s2, k, now, r),
            now > t + CEREMONY_TIMEOUT_SECS,
        ensures
            !s2.has(c),
            k == c ==> r is None,
    {
    }

    /// The same, when the later operation is a `begin` of a different id.
    pub proof fn lemma_unconsumed_entry_expires_on_begin(
        s0: Self,
        s1: Self,
        s2: Self,
        c: u128,
        t: u64,
        state: V,
        k: u128,
        now: u64,
        state2: V,
    )
        requires
            Self::began(s0, s1, c, t, state),
            Self::began(s1, s2, k, now, state2),
            now > t + CEREMONY_TIMEOUT_SECS,
            k != c,
        ensures
            !s2.has(c),
    {
    }
}

} // verus!
