//! Request correlation: issuing ids, registering pending requests, and
//! resolving each exactly once.
//!
//! Every issued id is strictly greater than every id issued before it,
//! starting from 1.  The pending table maps each registered id to the
//! completion handle its caller waits on; completing an id removes it,
//! completing an unknown id changes nothing, and cancelling drains the
//! whole table.

use vstd::prelude::*;

verus! {

/// The association map of a pending-entry sequence; a later entry for
/// the same id wins.
pub open spec fn map_of<T>(s: Seq<(u64, T)>) -> Map<u64, T>
    decreases s.len(),
{
    if s.len() == 0 {
        Map::empty()
    } else {
        map_of(s.drop_last()).insert(s.last().0, s.last().1)
    }
}

/// No id occurs twice in `s`.
pub open spec fn distinct_ids<T>(s: Seq<(u64, T)>) -> bool {
    forall|i: int, j: int| 0 <= i < j < s.len() ==> s[i].0 != s[j].0
}

pub proof fn lemma_map_of_contains<T>(s: Seq<(u64, T)>, id: u64)
    ensures
        map_of(s).dom().contains(id) <==> exists|k: int| 0 <= k < s.len() && s[k].0 == id,
    decreases s.len(),
{
    if s.len() > 0 {
        lemma_map_of_contains(s.drop_last(), id);
        if s.last().0 == id {
            assert(s[s.len() - 1].0 == id);
        } else if map_of(s).dom().contains(id) {
            let k = choose|k: int| 0 <= k < s.drop_last().len() && s.drop_last()[k].0 == id;
            assert(s[k].0 == id);
        } else if exists|k: int| 0 <= k < s.len() && s[k].0 == id {
            let k = choose|k: int| 0 <= k < s.len() && s[k].0 == id;
            assert(s.drop_last()[k].0 == id);
        }
    }
}

pub proof fn lemma_map_of_get<T>(s: Seq<(u64, T)>, k: int)
    requires
        distinct_ids(s),
        0 <= k < s.len(),
    ensures
        map_of(s).dom().contains(s[k].0),
        map_of(s)[s[k].0] == s[k].1,
    decreases s.len(),
{
    if k == s.len() - 1 {
    } else {
        assert(distinct_ids(s.drop_last()));
        lemma_map_of_get(s.drop_last(), k);
        assert(s.drop_last()[k] == s[k]);
        assert(s[k].0 != s.last().0);
    }
}

proof fn lemma_map_of_remove<T>(s: Seq<(u64, T)>, k: int)
    requires
        distinct_ids(s),
        0 <= k < s.len(),
    ensures
        map_of(s.remove(k)) == map_of(s).remove(s[k].0),
    decreases s.len(),
{
    let id = s[k].0;
    if k == s.len() - 1 {
        assert(s.remove(k) =~= s.drop_last());
        lemma_map_of_contains(s.drop_last(), id);
        assert(forall|j: int| 0 <= j < s.drop_last().len() ==> s.drop_last()[j] == s[j]);
        assert(!map_of(s.drop_last()).dom().contains(id));
        assert(map_of(s.drop_last()).insert(id, s.last().1).remove(id) =~= map_of(s.drop_last()));
    } else {
        assert(distinct_ids(s.drop_last()));
        lemma_map_of_remove(s.drop_last(), k);
        assert(s.remove(k).drop_last() =~= s.drop_last().remove(k));
        assert(s.remove(k).last() == s.last());
        assert(id != s.last().0);
        assert(map_of(s.drop_last()).remove(id).insert(s.last().0, s.last().1) =~= map_of(
            s.drop_last(),
        ).insert(s.last().0, s.last().1).remove(id));
    }
}

/// Assigns ids to in-flight requests and holds their completion
/// handles until each is resolved exactly once.
pub struct Correlator<T> {
    next: u64,
    entries: Vec<(u64, T)>,
}

/// What one completion does: a pending id resolves to its handle and
/// leaves the table, any other id is a silent no-op.
pub open spec fn complete_step<T>(pre: Map<u64, T>, id: u64, r: Option<T>, post: Map<u64, T>) -> bool {
    if pre.dom().contains(id) {
        r == Some(pre[id]) && post == pre.remove(id)
    } else {
        r is None && post == pre
    }
}

impl<T> Correlator<T> {
    /// The id the next request will get.
    pub closed spec fn next_id_spec(&self) -> u64 {
        self.next
    }

    /// The pending entries, in registration order.
    pub closed spec fn entries_spec(&self) -> Seq<(u64, T)> {
        self.entries@
    }

    /// The pending table as a map from id to handle.
    pub open spec fn pending(&self) -> Map<u64, T> {
        map_of(self.entries_spec())
    }

    /// Every pending id was issued (it is at least 1 and below the next
    /// id) and no id is pending twice.
    pub closed spec fn wf(&self) -> bool {
        &&& self.next >= 1
        &&& distinct_ids(self.entries@)
        &&& forall|k: int|
            0 <= k < self.entries@.len() ==> 1 <= (#[trigger] self.entries@[k]).0 < self.next
    }

    /// A correlator with no pending requests whose first id is 1.
    pub fn new() -> (r: Correlator<T>)
        ensures
            r.wf(),
            r.next_id_spec() == 1,
            r.pending() == Map::<u64, T>::empty(),
            r.entries_spec() == Seq::<(u64, T)>::empty(),
    {
        Correlator { next: 1, entries: Vec::new() }
    }

    /// Issues a fresh id: strictly greater than every id issued before,
    /// and not pending.
    pub fn next_id(&mut self) -> (r: u64)
        requires
            old(self).wf(),
            old(self).next_id_spec() < u64::MAX,
        ensures
            final(self).wf(),
            r == old(self).next_id_spec(),
            r >= 1,
            final(self).next_id_spec() == r + 1,
            final(self).pending() == old(self).pending(),
            final(self).entries_spec() == old(self).entries_spec(),
            !old(self).pending().dom().contains(r),
            issue_step(*old(self), r, *final(self)),
    {
        let r = self.next;
        self.next = self.next + 1;
        proof {
            lemma_map_of_contains(self.entries@, r);
        }
        r
    }

    /// Registers a freshly issued id with the handle that will resolve
    /// it.
    pub fn register(&mut self, id: u64, handle: T)
        requires
            old(self).wf(),
            1 <= id < old(self).next_id_spec(),
            !old(self).pending().dom().contains(id),
        ensures
            final(self).wf(),
            final(self).next_id_spec() == old(self).next_id_spec(),
            final(self).pending() == old(self).pending().insert(id, handle),
            final(self).entries_spec() == old(self).entries_spec().push((id, handle)),
    {
        proof {
            lemma_map_of_contains(self.entries@, id);
        }
        self.entries.push((id, handle));
        proof {
            let s = self.entries@;
            assert(s.drop_last() =~= old(self).entries@);
            assert forall|i: int, j: int| 0 <= i < j < s.len() implies s[i].0 != s[j].0 by {
                if j == s.len() - 1 {
                    assert(s[i] == old(self).entries@[i]);
                    if s[i].0 == id {
                        assert(exists|k: int|
                            0 <= k < old(self).entries@.len() && old(self).entries@[k].0 == id);
                    }
                }
            }
        }
    }

    /// Resolves the pending request with `id`, handing back its handle;
    /// an unknown id — stale or already cancelled — is a silent no-op.
    pub fn complete(&mut self, id: u64) -> (r: Option<T>)
        requires
            old(self).wf(),
        ensures
            final(self).wf(),
            final(self).next_id_spec() == old(self).next_id_spec(),
            complete_step(old(self).pending(), id, r, final(self).pending()),
    {
        let ghost s0 = self.entries@;
        let mut k: usize = 0;
        while k < self.entries.len()
            invariant
                0 <= k <= self.entries@.len(),
                self.entries@ == s0,
                s0 == old(self).entries_spec(),
                self.next == old(self).next_id_spec(),
                old(self).wf(),
                forall|j: int| 0 <= j < k ==> (#[trigger] s0[j]).0 != id,
            decreases self.entries@.len() - k,
        {
            if self.entries[k].0 == id {
                proof {
                    lemma_map_of_get(s0, k as int);
                    lemma_map_of_remove(s0, k as int);
                }
                let entry = self.entries.remove(k);
                proof {
                    assert(distinct_ids(self.entries@)) by {
                        assert(forall|i: int|
                            0 <= i < self.entries@.len() ==> #[trigger] self.entries@[i] == (if i
                                < k as int {
                                s0[i]
                            } else {
                                s0[i + 1]
                            }));
                    }
                }
                return Some(entry.1);
            }
            k = k + 1;
        }
        proof {
            lemma_map_of_contains(s0, id);
        }
        None
    }

    /// Cancels every pending request at once, handing back all entries
    /// so each caller can be resolved with a cancellation outcome; the
    /// table is empty afterwards.
    pub fn cancel_all(&mut self) -> (r: Vec<(u64, T)>)
        requires
            old(self).wf(),
        ensures
            final(self).wf(),
            final(self).next_id_spec() == old(self).next_id_spec(),
            final(self).pending() == Map::<u64, T>::empty(),
            final(self).entries_spec() == Seq::<(u64, T)>::empty(),
            r@ == old(self).entries_spec(),
            distinct_ids(r@),
            map_of(r@) == old(self).pending(),
    {
        let mut out: Vec<(u64, T)> = Vec::new();
        core::mem::swap(&mut out, &mut self.entries);
        out
    }

    /// The id the next request will get, without issuing it.
    pub fn peek_next_id(&self) -> (r: u64)
        ensures
            r == self.next_id_spec(),
    {
        self.next
    }

    /// Whether `id` is pending.
    pub fn is_pending(&self, id: u64) -> (r: bool)
        requires
            self.wf(),
        ensures
            r == self.pending().dom().contains(id),
    {
        let mut k: usize = 0;
        while k < self.entries.len()
            invariant
                0 <= k <= self.entries@.len(),
                forall|j: int| 0 <= j < k ==> (#[trigger] self.entries@[j]).0 != id,
            decreases self.entries@.len() - k,
        {
            if self.entries[k].0 == id {
                proof {
                    lemma_map_of_contains(self.entries@, id);
                }
                return true;
            }
            k = k + 1;
        }
        proof {
            lemma_map_of_contains(self.entries@, id);
        }
        false
    }

    /// How many requests are pending.
    pub fn pending_count(&self) -> (r: usize)
        ensures
            r == self.entries_spec().len(),
    {
        self.entries.len()
    }
}

/// One issuance of an id: the id is the correlator's next, and only the
/// counter advances.
pub open spec fn issue_step<T>(pre: Correlator<T>, id: u64, post: Correlator<T>) -> bool {
    &&& id == pre.next_id_spec()
    &&& post.next_id_spec() == id + 1
    &&& post.pending() == pre.pending()
}

proof fn lemma_issue_chain<T>(states: Seq<Correlator<T>>, ids: Seq<u64>, a: int, b: int)
    requires
        states.len() == ids.len() + 1,
        forall|k: int|
            0 <= k < ids.len() ==> issue_step(#[trigger] states[k], ids[k], states[k + 1]),
        0 <= a <= b <= ids.len(),
    ensures
        states[b].next_id_spec() >= states[a].next_id_spec() + (b - a),
    decreases b - a,
{
    if a < b {
        lemma_issue_chain(states, ids, a, b - 1);
        assert(issue_step(states[b - 1], ids[b - 1], states[b]));
    }
}

/// However many requests are issued, their ids are pairwise distinct
/// and strictly increasing, and each is at least 1.
pub proof fn lemma_issued_ids_increase<T>(states: Seq<Correlator<T>>, ids: Seq<u64>)
    requires
        states.len() == ids.len() + 1,
        states[0].wf(),
        forall|k: int|
            0 <= k < ids.len() ==> issue_step(#[trigger] states[k], ids[k], states[k + 1]),
    ensures
        forall|a: int, b: int| 0 <= a < b < ids.len() ==> ids[a] < ids[b],
        forall|k: int| 0 <= k < ids.len() ==> #[trigger] ids[k] >= 1,
{
    assert forall|a: int, b: int| 0 <= a < b < ids.len() implies ids[a] < ids[b] by {
        lemma_issue_chain(states, ids, a + 1, b);
        assert(issue_step(states[a], ids[a], states[a + 1]));
        assert(issue_step(states[b], ids[b], states[b + 1]));
    }
    assert forall|k: int| 0 <= k < ids.len() implies #[trigger] ids[k] >= 1 by {
        lemma_issue_chain(states, ids, 0, k);
        assert(issue_step(states[k], ids[k], states[k + 1]));
    }
}

/// A request resolves at most once: a completion that delivers a handle
/// removes the id, so a second completion of the same id delivers
/// nothing and changes nothing.
pub proof fn lemma_resolved_exactly_once<T>(
    m0: Map<u64, T>,
    id: u64,
    r1: Option<T>,
    m1: Map<u64, T>,
    r2: Option<T>,
    m2: Map<u64, T>,
)
    requires
        complete_step(m0, id, r1, m1),
        complete_step(m1, id, r2, m2),
    ensures
        m0.dom().contains(id) ==> r1 == Some(m0[id]),
        r1 is Some ==> r2 is None && m2 == m1,
{
}

} // verus!
