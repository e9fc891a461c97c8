//! Keeps track of whether neighbours are alive (answering requests), and
//! removes those that stop answering.
//!
//! In each round every neighbour is checked, unless it is cooling off after
//! failed checks. A neighbour that answers is reset; one that does not has
//! its count of consecutive failures raised, and waits that many rounds
//! before it is checked again. At the end of a round, neighbours with as many
//! consecutive failures as the retries allowed are removed.

use vstd::prelude::*;

use crate::neighbours::{
    lemma_without_key_ids_empty, lemma_without_key_ids_insert, without_key_ids, NeighboursStore,
};

verus! {

/// The connection status of a neighbour.
#[derive(Clone, Copy, Debug, PartialEq, Eq, Structural)]
pub struct NeighbourStatus {
    /// How many checks in a row have failed.
    pub consecutive_failed: u32,
    /// How many rounds to wait before checking again.
    pub retry_cooloff: u32,
}

/// The status of a neighbour never checked, or that answered its last check.
pub open spec fn fresh_status() -> NeighbourStatus {
    NeighbourStatus { consecutive_failed: 0, retry_cooloff: 0 }
}

/// The status after a check: reset when the neighbour answered; otherwise
/// one more failure, and as many rounds to wait as failures in a row.
pub open spec fn status_after_check(s: NeighbourStatus, responded: bool) -> NeighbourStatus {
    if responded {
        fresh_status()
    } else {
        NeighbourStatus {
            consecutive_failed: (s.consecutive_failed + 1) as u32,
            retry_cooloff: (s.consecutive_failed + 1) as u32,
        }
    }
}

impl NeighbourStatus {
    /// The status of a neighbour not yet checked.
    pub fn new() -> (r: NeighbourStatus)
        ensures
            r == fresh_status(),
    {
        NeighbourStatus { consecutive_failed: 0, retry_cooloff: 0 }
    }

    /// Starts a round for the neighbour: returns whether to check it now.
    /// While it is cooling off it is not checked, and one round less is left
    /// to wait.
    pub fn start_check(&mut self) -> (check: bool)
        ensures
            check == (old(self).retry_cooloff == 0),
            check ==> *final(self) == *old(self),
            !check ==> final(self).retry_cooloff == old(self).retry_cooloff - 1
                && final(self).consecutive_failed == old(self).consecutive_failed,
    {
        if self.retry_cooloff > 0 {
            self.retry_cooloff = self.retry_cooloff - 1;
            false
        } else {
            true
        }
    }

    /// Records the outcome of a check (see `status_after_check`).
    pub fn record_check(&mut self, responded: bool)
        requires
            responded || old(self).consecutive_failed < u32::MAX,
        ensures
            *final(self) == status_after_check(*old(self), responded),
    {
        if responded {
            self.consecutive_failed = 0;
            self.retry_cooloff = 0;
        } else {
            self.consecutive_failed = self.consecutive_failed + 1;
            self.retry_cooloff = self.consecutive_failed;
        }
    }
}

/// Whether no two entries of `v` are for the same key identifier.
pub open spec fn unique_key_ids(v: Seq<(String, NeighbourStatus)>) -> bool {
    forall|i: int, j: int| 0 <= i < j < v.len() ==> v[i].0@ != v[j].0@
}

/// The statuses held in `v`, by key identifier.
pub open spec fn status_map(v: Seq<(String, NeighbourStatus)>) -> Map<Seq<char>, NeighbourStatus> {
    Map::new(
        |k: Seq<char>| exists|i: int| 0 <= i < v.len() && #[trigger] v[i].0@ == k,
        |k: Seq<char>| v[choose|i: int| 0 <= i < v.len() && #[trigger] v[i].0@ == k].1,
    )
}

/// With no two entries for one key identifier, the status held for an
/// entry's identifier is that entry's.
proof fn lemma_status_map_at(v: Seq<(String, NeighbourStatus)>, i: int)
    requires
        unique_key_ids(v),
        0 <= i < v.len(),
    ensures
        status_map(v).contains_key(v[i].0@),
        status_map(v)[v[i].0@] == v[i].1,
{
    let k = v[i].0@;
    assert(status_map(v).contains_key(k));
    let j = choose|j: int| 0 <= j < v.len() && #[trigger] v[j].0@ == k;
    if j < i {
        assert(v[j].0@ != v[i].0@);
    } else if j > i {
        assert(v[i].0@ != v[j].0@);
    }
}

/// The status of key identifier `k` in `m`, fresh when there is none.
pub open spec fn status_or_fresh(m: Map<Seq<char>, NeighbourStatus>, k: Seq<char>) -> NeighbourStatus {
    if m.contains_key(k) {
        m[k]
    } else {
        fresh_status()
    }
}

/// The key identifiers whose neighbours a round ends by removing: those with
/// at least `num_retries` consecutive failures.
pub open spec fn failed_key_ids(m: Map<Seq<char>, NeighbourStatus>, num_retries: u32) -> Set<Seq<char>> {
    Set::new(|k: Seq<char>| m.contains_key(k) && m[k].consecutive_failed >= num_retries)
}

/// The statuses kept at the end of a round: those of key identifiers still
/// among the neighbours (`key_ids`) whose failures are below `num_retries`.
pub open spec fn kept_statuses(
    m: Map<Seq<char>, NeighbourStatus>,
    key_ids: Set<Seq<char>>,
    num_retries: u32,
) -> Map<Seq<char>, NeighbourStatus> {
    m.restrict(Set::new(|k: Seq<char>| key_ids.contains(k) && m[k].consecutive_failed < num_retries))
}

/// Replacing the status of an entry replaces the status held for its key
/// identifier.
proof fn lemma_status_map_update(v: Seq<(String, NeighbourStatus)>, i: int, e: (String, NeighbourStatus))
    requires
        unique_key_ids(v),
        0 <= i < v.len(),
        e.0@ == v[i].0@,
    ensures
        unique_key_ids(v.update(i, e)),
        status_map(v.update(i, e)) == status_map(v).insert(v[i].0@, e.1),
{
    let w = v.update(i, e);
    assert forall|a: int, b: int| 0 <= a < b < w.len() implies w[a].0@ != w[b].0@ by {
        assert(w[a].0@ == v[a].0@);
        assert(w[b].0@ == v[b].0@);
    }
    assert forall|k: Seq<char>| #[trigger] status_map(w).contains_key(k) == status_map(v).insert(v[i].0@, e.1).contains_key(k) by {
        if status_map(w).contains_key(k) {
            let j = choose|j: int| 0 <= j < w.len() && #[trigger] w[j].0@ == k;
            assert(v[j].0@ == k);
        }
        if status_map(v).contains_key(k) {
            let j = choose|j: int| 0 <= j < v.len() && #[trigger] v[j].0@ == k;
            assert(w[j].0@ == k);
        }
        if k == v[i].0@ {
            assert(w[i].0@ == k);
        }
    }
    assert forall|k: Seq<char>| #[trigger] status_map(w).contains_key(k) implies status_map(w)[k] == status_map(v).insert(v[i].0@, e.1)[k] by {
        let j = choose|j: int| 0 <= j < w.len() && #[trigger] w[j].0@ == k;
        lemma_status_map_at(w, j);
        if j != i {
            assert(v[j].0@ == k);
            lemma_status_map_at(v, j);
        }
    }
    assert(status_map(w) =~= status_map(v).insert(v[i].0@, e.1));
}

/// Adding an entry for a new key identifier adds its status.
proof fn lemma_status_map_push(v: Seq<(String, NeighbourStatus)>, e: (String, NeighbourStatus))
    requires
        unique_key_ids(v),
        !status_map(v).contains_key(e.0@),
    ensures
        unique_key_ids(v.push(e)),
        status_map(v.push(e)) == status_map(v).insert(e.0@, e.1),
{
    let w = v.push(e);
    assert forall|a: int, b: int| 0 <= a < b < w.len() implies w[a].0@ != w[b].0@ by {
        if b == v.len() {
            assert(w[a] == v[a]);
            if v[a].0@ == e.0@ {
                assert(status_map(v).contains_key(e.0@));
            }
        } else {
            assert(w[a] == v[a]);
            assert(w[b] == v[b]);
        }
    }
    assert forall|k: Seq<char>| #[trigger] status_map(w).contains_key(k) == status_map(v).insert(e.0@, e.1).contains_key(k) by {
        if status_map(w).contains_key(k) && k != e.0@ {
            let j = choose|j: int| 0 <= j < w.len() && #[trigger] w[j].0@ == k;
            assert(v[j].0@ == k);
        }
        if status_map(v).contains_key(k) {
            let j = choose|j: int| 0 <= j < v.len() && #[trigger] v[j].0@ == k;
            assert(w[j].0@ == k);
        }
        if k == e.0@ {
            assert(w[v.len() as int].0@ == k);
        }
    }
    assert forall|k: Seq<char>| #[trigger] status_map(w).contains_key(k) implies status_map(w)[k] == status_map(v).insert(e.0@, e.1)[k] by {
        let j = choose|j: int| 0 <= j < w.len() && #[trigger] w[j].0@ == k;
        lemma_status_map_at(w, j);
        if j < v.len() {
            assert(v[j] == w[j]);
            lemma_status_map_at(v, j);
        }
    }
    assert(status_map(w) =~= status_map(v).insert(e.0@, e.1));
}

/// The views of a sequence of strings.
pub open spec fn string_views(s: Seq<String>) -> Seq<Seq<char>> {
    s.map_values(|x: String| x@)
}

/// Whether `key_id` is one of `key_ids`.
fn contains_key_id(key_ids: &Vec<String>, key_id: &String) -> (r: bool)
    ensures
        r == string_views(key_ids@).contains(key_id@),
{
    let mut i: usize = 0;
    while i < key_ids.len()
        invariant
            i <= key_ids@.len(),
            forall|k: int| 0 <= k < i ==> #[trigger] key_ids@[k]@ != key_id@,
        decreases key_ids@.len() - i,
    {
        if key_ids[i] == *key_id {
            assert(string_views(key_ids@)[i as int] == key_id@);
            return true;
        }
        i = i + 1;
    }
    proof {
        if string_views(key_ids@).contains(key_id@) {
            let j = choose|j: int| 0 <= j < string_views(key_ids@).len() && string_views(key_ids@)[j] == key_id@;
            assert(key_ids@[j]@ == key_id@);
        }
    }
    false
}

/// Collects the neighbours that stop answering.
pub struct NeighbourGc {
    neighbour_statuses: Vec<(String, NeighbourStatus)>,
    num_retries: u32,
}

impl NeighbourGc {
    /// The status of each neighbour, by key identifier.
    pub closed spec fn statuses(&self) -> Map<Seq<char>, NeighbourStatus> {
        status_map(self.neighbour_statuses@)
    }

    /// How many consecutive failures remove a neighbour.
    pub closed spec fn retries(&self) -> u32 {
        self.num_retries
    }

    /// The collector's invariant: one status per key identifier.
    pub closed spec fn wf(&self) -> bool {
        unique_key_ids(self.neighbour_statuses@)
    }

    /// Creates a collector with no statuses, removing neighbours after
    /// `num_retries` consecutive failures.
    pub fn new(num_retries: u32) -> (r: NeighbourGc)
        ensures
            r.wf(),
            r.statuses() == Map::<Seq<char>, NeighbourStatus>::empty(),
            r.retries() == num_retries,
    {
        let r = NeighbourGc { neighbour_statuses: Vec::new(), num_retries };
        assert(r.statuses() =~= Map::<Seq<char>, NeighbourStatus>::empty());
        r
    }

    /// The position of the status of `key_id`, if there is one.
    fn find(&self, key_id: &String) -> (r: Option<usize>)
        requires
            self.wf(),
        ensures
            match r {
                Some(i) => i < self.neighbour_statuses@.len() && self.neighbour_statuses@[i as int].0@
                    == key_id@,
                None => !self.statuses().contains_key(key_id@),
            },
    {
        let mut i: usize = 0;
        while i < self.neighbour_statuses.len()
            invariant
                i <= self.neighbour_statuses@.len(),
                forall|k: int| 0 <= k < i ==> #[trigger] self.neighbour_statuses@[k].0@ != key_id@,
            decreases self.neighbour_statuses@.len() - i,
        {
            if self.neighbour_statuses[i].0 == *key_id {
                return Some(i);
            }
            i = i + 1;
        }
        None
    }

    /// The number of consecutive failed checks of the neighbour with key
    /// identifier `key_id` (none if it has no status).
    pub fn consecutive_failed(&self, key_id: &String) -> (r: u32)
        requires
            self.wf(),
        ensures
            r == status_or_fresh(self.statuses(), key_id@).consecutive_failed,
    {
        match self.find(key_id) {
            Some(i) => {
                proof {
                    lemma_status_map_at(self.neighbour_statuses@, i as int);
                }
                self.neighbour_statuses[i].1.consecutive_failed
            },
            None => 0,
        }
    }

    /// Starts a round for the neighbour with key identifier `key_id`, which
    /// gets a fresh status if it has none. Returns whether to check it now:
    /// not while it is cooling off, when one round less is left to wait.
    pub fn start_check(&mut self, key_id: &String) -> (check: bool)
        requires
            old(self).wf(),
        ensures
            final(self).wf(),
            final(self).retries() == old(self).retries(),
            check == (status_or_fresh(old(self).statuses(), key_id@).retry_cooloff == 0),
            final(self).statuses() == old(self).statuses().insert(
                key_id@,
                if check {
                    status_or_fresh(old(self).statuses(), key_id@)
                } else {
                    NeighbourStatus {
                        consecutive_failed: status_or_fresh(
                            old(self).statuses(),
                            key_id@,
                        ).consecutive_failed,
                        retry_cooloff: (status_or_fresh(old(self).statuses(), key_id@).retry_cooloff
                            - 1) as u32,
                    }
                },
            ),
    {
        let i = match self.find(key_id) {
            Some(i) => {
                proof {
                    lemma_status_map_at(self.neighbour_statuses@, i as int);
                }
                i
            },
            None => {
                let e = (key_id.clone(), NeighbourStatus::new());
                proof {
                    lemma_status_map_push(self.neighbour_statuses@, e);
                    lemma_status_map_at(self.neighbour_statuses@.push(e), self.neighbour_statuses@.len() as int);
                }
                self.neighbour_statuses.push(e);
                self.neighbour_statuses.len() - 1
            },
        };
        let ghost mid = self.statuses();
        let mut status = self.neighbour_statuses[i].1;
        let check = status.start_check();
        let e = (self.neighbour_statuses[i].0.clone(), status);
        proof {
            lemma_status_map_update(self.neighbour_statuses@, i as int, e);
            assert(mid.insert(key_id@, status) =~= old(self).statuses().insert(key_id@, status));
        }
        self.neighbour_statuses.set(i, e);
        check
    }

    /// Records the outcome of checking the neighbour with key identifier
    /// `key_id` (see `status_after_check`).
    pub fn record_check(&mut self, key_id: &String, responded: bool)
        requires
            old(self).wf(),
            old(self).statuses().contains_key(key_id@),
            responded || old(self).statuses()[key_id@].consecutive_failed < u32::MAX,
        ensures
            final(self).wf(),
            final(self).retries() == old(self).retries(),
            final(self).statuses() == old(self).statuses().insert(
                key_id@,
                status_after_check(old(self).statuses()[key_id@], responded),
            ),
    {
        match self.find(key_id) {
            Some(i) => {
                proof {
                    lemma_status_map_at(self.neighbour_statuses@, i as int);
                }
                let mut status = self.neighbour_statuses[i].1;
                status.record_check(responded);
                let e = (self.neighbour_statuses[i].0.clone(), status);
                proof {
                    lemma_status_map_update(self.neighbour_statuses@, i as int, e);
                }
                self.neighbour_statuses.set(i, e);
            },
            None => {},
        }
    }

    /// Ends a round, given the key identifiers of the current neighbours:
    /// neighbours with at least as many consecutive failures as retries
    /// allowed are removed from `store`, and only the statuses of the other
    /// current neighbours are kept.
    pub fn finish_round(&mut self, store: &mut NeighboursStore, key_ids: &Vec<String>)
        requires
            old(self).wf(),
            old(store).wf(),
        ensures
            final(self).wf(),
            final(self).retries() == old(self).retries(),
            final(self).statuses() == kept_statuses(
                old(self).statuses(),
                string_views(key_ids@).to_set(),
                old(self).retries(),
            ),
            final(store).wf(),
            final(store).entries() == without_key_ids(
                old(store).entries(),
                failed_key_ids(old(self).statuses(), old(self).retries()),
            ),
            final(store).local_location() == old(store).local_location(),
            final(store).capacity() == old(store).capacity(),
            final(store).dims() == old(store).dims(),
    {
        let ghost v = self.neighbour_statuses@;
        let ghost m = self.statuses();
        let ghost e0 = store.entries();
        let ghost ids = string_views(key_ids@).to_set();
        let retries = self.num_retries;
        let mut out: Vec<(String, NeighbourStatus)> = Vec::new();
        let ghost mut pos: Seq<int> = Seq::empty();
        let ghost mut removed: Set<Seq<char>> = Set::empty();
        let mut i: usize = 0;
        proof {
            assert(without_key_ids(e0, removed) =~= e0) by {
                lemma_without_key_ids_empty(e0);
            }
        }
        while i < self.neighbour_statuses.len()
            invariant
                self.neighbour_statuses@ == v,
                unique_key_ids(v),
                m == status_map(v),
                retries == self.num_retries,
                i <= v.len(),
                store.wf(),
                store.entries() == without_key_ids(e0, removed),
                store.local_location() == old(store).local_location(),
                store.capacity() == old(store).capacity(),
                store.dims() == old(store).dims(),
                e0 == old(store).entries(),
                ids == string_views(key_ids@).to_set(),
                removed == Set::new(
                    |k: Seq<char>|
                        exists|j: int|
                            0 <= j < i && #[trigger] v[j].0@ == k && v[j].1.consecutive_failed >= retries,
                ),
                pos.len() == out@.len(),
                forall|a: int| 0 <= a < pos.len() ==> 0 <= #[trigger] pos[a] < i,
                forall|a: int, b: int| 0 <= a < b < pos.len() ==> pos[a] < pos[b],
                forall|a: int|
                    0 <= a < pos.len() ==> #[trigger] out@[a].0@ == v[pos[a]].0@ && out@[a].1 == v[pos[a]].1
                        && v[pos[a]].1.consecutive_failed < retries && ids.contains(v[pos[a]].0@),
                forall|j: int|
                    0 <= j < i && #[trigger] v[j].1.consecutive_failed < retries && ids.contains(v[j].0@)
                        ==> exists|a: int| 0 <= a < pos.len() && pos[a] == j,
            decreases v.len() - i,
        {
            let status = self.neighbour_statuses[i].1;
            let ghost k = v[i as int].0@;
            let ghost pos0 = pos;
            if status.consecutive_failed >= retries {
                store.remove_by_key_id(&self.neighbour_statuses[i].0);
                proof {
                    lemma_without_key_ids_insert(e0, removed, k);
                    removed = removed.insert(k);
                }
            } else if contains_key_id(key_ids, &self.neighbour_statuses[i].0) {
                proof {
                    pos = pos.push(i as int);
                }
                out.push((self.neighbour_statuses[i].0.clone(), status));
            }
            proof {
                assert forall|j: int|
                    0 <= j < i + 1 && #[trigger] v[j].1.consecutive_failed < retries && ids.contains(v[j].0@)
                        implies exists|a: int| 0 <= a < pos.len() && pos[a] == j by {
                    if j < i {
                        let a = choose|a: int| 0 <= a < pos0.len() && pos0[a] == j;
                        assert(pos[a] == j);
                    } else {
                        assert(string_views(key_ids@).contains(k));
                        assert(pos[pos.len() - 1] == j);
                    }
                }
                assert(removed =~= Set::new(
                    |k: Seq<char>|
                        exists|j: int|
                            0 <= j < i + 1 && #[trigger] v[j].0@ == k && v[j].1.consecutive_failed >= retries,
                ));
            }
            i = i + 1;
        }
        proof {
            let w = out@;
            assert forall|a: int, b: int| 0 <= a < b < w.len() implies w[a].0@ != w[b].0@ by {
                assert(v[pos[a]].0@ != v[pos[b]].0@);
            }
            let kept = kept_statuses(m, ids, retries);
            assert forall|k: Seq<char>| #[trigger] status_map(w).contains_key(k) == kept.contains_key(k) by {
                if status_map(w).contains_key(k) {
                    let a = choose|a: int| 0 <= a < w.len() && #[trigger] w[a].0@ == k;
                    lemma_status_map_at(v, pos[a]);
                }
                if kept.contains_key(k) {
                    let j = choose|j: int| 0 <= j < v.len() && #[trigger] v[j].0@ == k;
                    lemma_status_map_at(v, j);
                    assert(v[j].1.consecutive_failed < retries && ids.contains(v[j].0@));
                    let a = choose|a: int| 0 <= a < pos.len() && pos[a] == j;
                    assert(w[a].0@ == k);
                }
            }
            assert forall|k: Seq<char>| #[trigger] status_map(w).contains_key(k) implies status_map(w)[k] == kept[k] by {
                let a = choose|a: int| 0 <= a < w.len() && #[trigger] w[a].0@ == k;
                lemma_status_map_at(w, a);
                lemma_status_map_at(v, pos[a]);
            }
            assert(status_map(w) =~= kept);
            assert forall|k: Seq<char>| #[trigger] removed.contains(k) == failed_key_ids(m, retries).contains(k) by {
                if removed.contains(k) {
                    let j = choose|j: int| 0 <= j < v.len() && #[trigger] v[j].0@ == k && v[j].1.consecutive_failed >= retries;
                    lemma_status_map_at(v, j);
                }
                if failed_key_ids(m, retries).contains(k) {
                    let j = choose|j: int| 0 <= j < v.len() && #[trigger] v[j].0@ == k;
                    lemma_status_map_at(v, j);
                }
            }
            assert(removed =~= failed_key_ids(m, retries));
        }
        self.neighbour_statuses = out;
    }
}


/// A neighbour that answered its last check is not removed at the end of the
/// round, when at least one failure is allowed.
pub proof fn lemma_answering_neighbour_kept(
    m: Map<Seq<char>, NeighbourStatus>,
    key_id: Seq<char>,
    status: NeighbourStatus,
    num_retries: u32,
)
    requires
        num_retries > 0,
    ensures
        !failed_key_ids(m.insert(key_id, status_after_check(status, true)), num_retries).contains(key_id),
{
}

} // verus!
