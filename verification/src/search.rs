//! The decisions of a greedy best-first search through the graph of nodes.
//!
//! A search starts from some nodes and repeatedly asks the nearest unexplored
//! node (in key space, to the searched key) for its neighbours, with a bounded
//! number of queries outstanding at a time. The queries themselves run
//! elsewhere: this state machine says which node to query next, takes the
//! answers back, and decides when the search is over.

use vstd::prelude::*;

use crate::api::{Key, KeySpace, Node};
use crate::error::Error;
use crate::key_space::{distance_total, key_space_of, lemma_distance_bound, KeySpaceManager};
use crate::neighbours::{node_views, NodeView};
use std::time::Duration;

verus! {

/// The view of a key: its identifier and its data.
pub type KeyView = (Seq<char>, Seq<u8>);

/// Tunable parameters for the search.
pub struct SearchParams {
    /// How many of the closest nodes found must have been explored before
    /// the search gives up.
    pub breadth: usize,
    /// The largest number of neighbour queries outstanding at a time.
    pub max_num_active_threads: usize,
    /// How long to wait for a query to answer.
    pub timeout: Duration,
}

/// Actions to perform as the result of a search callback.
pub enum SearchCallbackAction<T> {
    /// No action, continues the search.
    Continue(),
    /// Successfully finish the search, returning a value.
    Return(T),
    /// Unsuccessfully finish the search.
    Exit(),
}

/// What the search does next.
pub enum SearchStep {
    /// Query this node for its neighbours.
    Explore(Node),
    /// Wait for an outstanding query to answer.
    Wait(),
    /// Nothing is left to explore and no query is outstanding: the key was
    /// not found.
    NotFound(),
}

/// The distance total of a node's location to `target`, in a key space of
/// `dims` dimensions.
pub open spec fn node_distance(node: NodeView, target: Seq<i32>, dims: nat) -> int {
    distance_total(key_space_of(node.1.1, dims), target)
}

/// Whether `c` is ordered by the distance of its nodes to `target`, closest
/// first.
pub open spec fn sorted_by_distance(c: Seq<(NodeView, bool)>, target: Seq<i32>, dims: nat) -> bool {
    forall|i: int, j: int|
        0 <= i <= j < c.len() ==> node_distance(c[i].0, target, dims) <= node_distance(
            c[j].0,
            target,
            dims,
        )
}

/// Whether `p` is where a node at distance `d` goes in `c`, after every
/// entry at a distance no greater than `d` and before every entry farther
/// away.
pub open spec fn is_insert_position(
    c: Seq<(NodeView, bool)>,
    p: int,
    d: int,
    target: Seq<i32>,
    dims: nat,
) -> bool {
    &&& 0 <= p <= c.len()
    &&& forall|k: int| 0 <= k < p ==> node_distance(#[trigger] c[k].0, target, dims) <= d
    &&& forall|k: int| p <= k < c.len() ==> node_distance(#[trigger] c[k].0, target, dims) > d
}

/// The closest nodes after `node` is found: `node`, not yet explored, goes
/// in at position `p` (see `is_insert_position`), and only the first
/// `breadth` entries are kept.
pub open spec fn closest_with(
    c: Seq<(NodeView, bool)>,
    p: int,
    node: NodeView,
    breadth: nat,
) -> Seq<(NodeView, bool)> {
    let inserted = c.insert(p, (node, false));
    if inserted.len() <= breadth {
        inserted
    } else {
        inserted.take(breadth as int)
    }
}

/// Whether `i` is the position of the first of the nodes of `s` nearest to
/// `target`.
pub open spec fn is_first_nearest(s: Seq<NodeView>, i: int, target: Seq<i32>, dims: nat) -> bool {
    &&& 0 <= i < s.len()
    &&& forall|j: int|
        0 <= j < s.len() ==> node_distance(s[i], target, dims) < node_distance(
            #[trigger] s[j],
            target,
            dims,
        ) || (node_distance(s[i], target, dims) == node_distance(s[j], target, dims) && i <= j)
}

/// The closest nodes after `node` is explored: each entry for `node` is
/// marked explored.
pub open spec fn closest_explored(c: Seq<(NodeView, bool)>, node: NodeView) -> Seq<
    (NodeView, bool),
> {
    c.map_values(
        |e: (NodeView, bool)|
            if e.0 == node {
                (e.0, true)
            } else {
                e
            },
    )
}

/// Whether every one of the closest nodes has been explored.
pub open spec fn all_explored(c: Seq<(NodeView, bool)>) -> bool {
    forall|i: int| 0 <= i < c.len() ==> #[trigger] c[i].1
}

/// The nodes of `s` met for the first time, in order: those whose key is
/// neither in `found` nor the key of an earlier node of `s`.
pub open spec fn first_encounters(found: Set<KeyView>, s: Seq<NodeView>) -> Seq<NodeView>
    decreases s.len(),
{
    if s.len() == 0 {
        s
    } else {
        let prev = first_encounters(found, s.drop_last());
        if found.contains(s.last().1) || exists|j: int|
            0 <= j < s.len() - 1 && #[trigger] s[j].1 == s.last().1 {
            prev
        } else {
            prev.push(s.last())
        }
    }
}

/// The keys of a sequence of nodes.
pub open spec fn node_keys(s: Seq<NodeView>) -> Set<KeyView> {
    Set::new(|k: KeyView| exists|i: int| 0 <= i < s.len() && #[trigger] s[i].1 == k)
}

/// Where a node at distance `d` goes among the closest nodes `c` (see
/// `is_insert_position`; there is one such place when `c` is ordered by
/// distance).
pub open spec fn insert_position(c: Seq<(NodeView, bool)>, d: int, target: Seq<i32>, dims: nat) -> int {
    choose|p: int| is_insert_position(c, p, d, target, dims)
}

/// The closest nodes `c` after `node` is found (see `closest_with`).
pub open spec fn closest_after_found(
    c: Seq<(NodeView, bool)>,
    node: NodeView,
    target: Seq<i32>,
    dims: nat,
    breadth: nat,
) -> Seq<(NodeView, bool)> {
    closest_with(c, insert_position(c, node_distance(node, target, dims), target, dims), node, breadth)
}

/// The closest nodes `c` after the nodes of `s` are found, in order.
pub open spec fn closest_after_all(
    c: Seq<(NodeView, bool)>,
    s: Seq<NodeView>,
    target: Seq<i32>,
    dims: nat,
    breadth: nat,
) -> Seq<(NodeView, bool)>
    decreases s.len(),
{
    if s.len() == 0 {
        c
    } else {
        closest_after_found(closest_after_all(c, s.drop_last(), target, dims, breadth), s.last(), target, dims, breadth)
    }
}

/// In closest nodes ordered by distance, a node has one place to go.
proof fn lemma_insert_position_unique(c: Seq<(NodeView, bool)>, p: int, d: int, target: Seq<i32>, dims: nat)
    requires
        is_insert_position(c, p, d, target, dims),
    ensures
        insert_position(c, d, target, dims) == p,
{
    let q = insert_position(c, d, target, dims);
    assert(is_insert_position(c, q, d, target, dims));
    if q < p {
        assert(node_distance(c[q].0, target, dims) <= d);
    } else if q > p {
        assert(node_distance(c[p].0, target, dims) <= d);
    }
}

/// The keys met by `first_encounters`, together with those found before,
/// are the keys of all of `s` together with those found before.
proof fn lemma_first_encounters_keys(found: Set<KeyView>, s: Seq<NodeView>, k: KeyView)
    ensures
        (found.contains(k) || node_keys(first_encounters(found, s)).contains(k)) <==> (found.contains(k)
            || node_keys(s).contains(k)),
    decreases s.len(),
{
    if s.len() > 0 {
        let t = s.drop_last();
        lemma_first_encounters_keys(found, t, k);
        let prev = first_encounters(found, t);
        let r = first_encounters(found, s);
        if node_keys(s).contains(k) && !found.contains(k) {
            let i = choose|i: int| 0 <= i < s.len() && #[trigger] s[i].1 == k;
            if i < s.len() - 1 {
                assert(t[i].1 == k);
                let m = choose|m: int| 0 <= m < prev.len() && #[trigger] prev[m].1 == k;
                assert(r[m] == prev[m]);
            } else if r.len() > prev.len() {
                assert(r[prev.len() as int].1 == k);
            } else {
                let j = choose|j: int| 0 <= j < s.len() - 1 && #[trigger] s[j].1 == s.last().1;
                assert(t[j].1 == k);
                let m = choose|m: int| 0 <= m < prev.len() && #[trigger] prev[m].1 == k;
                assert(r[m] == prev[m]);
            }
        }
        if node_keys(r).contains(k) && !found.contains(k) {
            let m = choose|m: int| 0 <= m < r.len() && #[trigger] r[m].1 == k;
            if m < prev.len() {
                assert(prev[m] == r[m]);
                let i = choose|i: int| 0 <= i < t.len() && #[trigger] t[i].1 == k;
                assert(s[i].1 == k);
            } else {
                assert(s[s.len() - 1].1 == k);
            }
        }
    }
}

/// The nodes met by `first_encounters` are nodes of `s`, with keys not
/// found before and no two with the same key.
proof fn lemma_first_encounters_fresh(found: Set<KeyView>, s: Seq<NodeView>)
    ensures
        forall|i: int|
            0 <= i < first_encounters(found, s).len() ==> !found.contains(
                #[trigger] first_encounters(found, s)[i].1,
            ),
        forall|i: int, j: int|
            0 <= i < j < first_encounters(found, s).len() ==> first_encounters(found, s)[i].1
                != first_encounters(found, s)[j].1,
        forall|i: int|
            0 <= i < first_encounters(found, s).len() ==> s.contains(
                #[trigger] first_encounters(found, s)[i],
            ),
    decreases s.len(),
{
    if s.len() > 0 {
        let t = s.drop_last();
        lemma_first_encounters_fresh(found, t);
        let prev = first_encounters(found, t);
        let r = first_encounters(found, s);
        assert forall|i: int| 0 <= i < r.len() implies s.contains(#[trigger] r[i]) by {
            if i < prev.len() {
                assert(r[i] == prev[i]);
                assert(t.contains(prev[i]));
                let j = choose|j: int| 0 <= j < t.len() && t[j] == prev[i];
                assert(s[j] == t[j]);
            } else {
                assert(s[s.len() - 1] == r[i]);
            }
        }
        if r.len() > prev.len() {
            assert forall|i: int, j: int| 0 <= i < j < r.len() implies r[i].1 != r[j].1 by {
                if j == r.len() - 1 {
                    assert(r[i] == prev[i]);
                    assert(t.contains(prev[i]));
                    let m = choose|m: int| 0 <= m < t.len() && t[m] == prev[i];
                    assert(s[m] == t[m]);
                }
            }
        }
    }
}

/// What a callback's action makes of a search: `None` to go on, or the end
/// of the search with a value (`Some(None)` when it ends without one).
pub open spec fn outcome_of<T>(action: SearchCallbackAction<T>) -> Option<Option<T>> {
    match action {
        SearchCallbackAction::Continue() => None,
        SearchCallbackAction::Return(t) => Some(Some(t)),
        SearchCallbackAction::Exit() => Some(None),
    }
}

/// What a callback's result makes of a search: its error, or the outcome of
/// its action.
pub open spec fn callback_outcome<T>(res: Result<SearchCallbackAction<T>, Error>) -> Result<
    Option<Option<T>>,
    Error,
> {
    match res {
        Ok(action) => Ok(outcome_of(action)),
        Err(e) => Err(e),
    }
}

/// Whether a callback's result lets the search go on.
pub open spec fn continues<T>(res: Result<SearchCallbackAction<T>, Error>) -> bool {
    res matches Ok(SearchCallbackAction::Continue())
}

/// The outcome of a callback's action (see `outcome_of`).
pub fn action_outcome<T>(action: SearchCallbackAction<T>) -> (r: Option<Option<T>>)
    ensures
        r == outcome_of(action),
{
    match action {
        SearchCallbackAction::Continue() => None,
        SearchCallbackAction::Return(t) => Some(Some(t)),
        SearchCallbackAction::Exit() => Some(None),
    }
}

/// Whether starting the search `before` from the nodes `start` turned it into
/// `after` with result `r`: `found_fn` is called on each start node in order
/// (`results` are its results) until one does not let the search go on, and
/// each node that let it go on is added as `add_start_node` does. The result
/// is the error or end of the one that stopped it, if any.
pub open spec fn started<T, F: Fn(&Node) -> Result<SearchCallbackAction<T>, Error>>(
    before: SearchState,
    after: SearchState,
    start: Seq<Node>,
    found_fn: F,
    results: Seq<Result<SearchCallbackAction<T>, Error>>,
    r: Result<Option<Option<T>>, Error>,
) -> bool {
    let stopped = results.len() > 0 && !continues(results.last());
    let added = node_views(
        start.take(
            if stopped {
                results.len() - 1
            } else {
                results.len() as int
            },
        ),
    );
    &&& results.len() <= start.len()
    &&& forall|j: int| 0 <= j < results.len() ==> call_ensures(found_fn, (&start[j],), #[trigger] results[j])
    &&& forall|j: int| 0 <= j < results.len() - 1 ==> continues(#[trigger] results[j])
    &&& after.to_explore() == before.to_explore() + added
    &&& after.found_keys() == before.found_keys().union(node_keys(added))
    &&& after.closest() == closest_after_all(
        before.closest(),
        added,
        before.target(),
        before.dims(),
        before.breadth(),
    )
    &&& after.num_active() == before.num_active()
    &&& if stopped {
        r == callback_outcome(results.last())
    } else {
        &&& results.len() == start.len()
        &&& r == Ok::<Option<Option<T>>, Error>(None)
    }
}

/// Whether taking the answer `neighbours` of a query of `explored` turned
/// the search `before` into `after` with result `r`.
///
/// The nodes found for the first time (`found`) are recorded as
/// `receive_neighbours` does, and `found_fn` is called on each in order
/// (`results` are its results) until one does not let the search go on: its
/// error or end is the result. When all let it go on, `explored` is marked
/// explored as `explored` does; the search gives up (ends without a value)
/// when that says so, and otherwise the result is what `explored_fn` makes
/// of it.
pub open spec fn answer_taken<T, F: Fn(&Node) -> Result<SearchCallbackAction<T>, Error>, G: Fn(
    &Node,
) -> Result<SearchCallbackAction<T>, Error>>(
    before: SearchState,
    after: SearchState,
    neighbours: Seq<NodeView>,
    explored: &Node,
    found_fn: F,
    explored_fn: G,
    found: Seq<Node>,
    results: Seq<Result<SearchCallbackAction<T>, Error>>,
    r: Result<Option<Option<T>>, Error>,
) -> bool {
    let new_nodes = node_views(found);
    let closest = closest_after_all(
        before.closest(),
        new_nodes,
        before.target(),
        before.dims(),
        before.breadth(),
    );
    &&& new_nodes == first_encounters(before.found_keys(), neighbours)
    &&& after.to_explore() == before.to_explore() + new_nodes
    &&& after.found_keys() == before.found_keys().union(node_keys(neighbours))
    &&& after.num_active() == before.num_active() - 1
    &&& results.len() <= found.len()
    &&& forall|j: int| 0 <= j < results.len() ==> call_ensures(found_fn, (&found[j],), #[trigger] results[j])
    &&& forall|j: int| 0 <= j < results.len() - 1 ==> continues(#[trigger] results[j])
    &&& if results.len() > 0 && !continues(results.last()) {
        &&& after.closest() == closest
        &&& r == callback_outcome(results.last())
    } else {
        &&& results.len() == found.len()
        &&& after.closest() == closest_explored(closest, explored@)
        &&& if all_explored(after.closest()) && after.closest().len() == after.breadth() {
            r == Ok::<Option<Option<T>>, Error>(Some(None))
        } else {
            exists|res: Result<SearchCallbackAction<T>, Error>|
                #[trigger] call_ensures(explored_fn, (explored,), res) && r == callback_outcome(res)
        }
    }
}

/// The state of a search for the node of a key.
pub struct SearchState {
    key_space_manager: KeySpaceManager,
    target: KeySpace,
    breadth: usize,
    max_num_active_threads: usize,
    to_explore: Vec<(Node, u64)>,
    found: Vec<Key>,
    num_active_threads: usize,
    n_closest: Vec<(Node, u64, bool)>,
}

impl SearchState {
    /// The number of dimensions of the key space.
    pub closed spec fn dims(&self) -> nat {
        self.key_space_manager.dims()
    }

    /// The location of the searched key.
    pub closed spec fn target(&self) -> Seq<i32> {
        self.target@
    }

    /// The number of closest nodes that must be explored before giving up.
    pub closed spec fn breadth(&self) -> nat {
        self.breadth as nat
    }

    /// The largest number of queries outstanding at a time.
    pub closed spec fn max_active(&self) -> nat {
        self.max_num_active_threads as nat
    }

    /// The nodes found and not yet explored, in the order in which they were
    /// found.
    pub closed spec fn to_explore(&self) -> Seq<NodeView> {
        self.to_explore@.map_values(|e: (Node, u64)| e.0@)
    }

    /// The keys of the nodes found so far.
    pub closed spec fn found_keys(&self) -> Set<KeyView> {
        self.found@.map_values(|k: Key| k@).to_set()
    }

    /// The number of queries outstanding.
    pub closed spec fn num_active(&self) -> nat {
        self.num_active_threads as nat
    }

    /// The closest nodes found so far, closest first, each with whether it
    /// has been explored.
    pub closed spec fn closest(&self) -> Seq<(NodeView, bool)> {
        self.n_closest@.map_values(|e: (Node, u64, bool)| (e.0@, e.2))
    }

    /// The state's invariant.
    pub closed spec fn wf(&self) -> bool {
        &&& 0 < self.dims() <= 0x1_0000_0000
        &&& 4 * self.dims() <= usize::MAX
        &&& self.target@.len() == self.dims()
        &&& forall|i: int|
            0 <= i < self.to_explore@.len() ==> #[trigger] self.to_explore@[i].1 as int
                == node_distance(self.to_explore@[i].0@, self.target@, self.dims())
        &&& forall|i: int|
            0 <= i < self.n_closest@.len() ==> #[trigger] self.n_closest@[i].1 as int
                == node_distance(self.n_closest@[i].0@, self.target@, self.dims())
        &&& sorted_by_distance(self.closest(), self.target@, self.dims())
        &&& self.n_closest@.len() <= self.breadth
        &&& self.num_active_threads <= self.max_num_active_threads
    }

    /// The distance total of `node`'s location to the searched key's.
    fn distance_to_target(&self, node: &Node) -> (r: u64)
        requires
            self.wf(),
        ensures
            r as int == node_distance(node@, self.target(), self.dims()),
    {
        let location = self.key_space_manager.create_from_key(&node.key);
        proof {
            lemma_distance_bound(location@, self.target@);
        }
        self.key_space_manager.distance_total(&location, &self.target)
    }

    /// Starts a search for `key`, with nothing found yet.
    pub fn new(key_space_manager: KeySpaceManager, key: &Key, params: &SearchParams) -> (r:
        SearchState)
        requires
            0 < key_space_manager.dims() <= 0x1_0000_0000,
            4 * key_space_manager.dims() <= usize::MAX,
        ensures
            r.wf(),
            r.dims() == key_space_manager.dims(),
            r.target() == key_space_of(key.data@, key_space_manager.dims()),
            r.breadth() == params.breadth,
            r.max_active() == params.max_num_active_threads,
            r.to_explore() == Seq::<NodeView>::empty(),
            r.found_keys() == Set::<KeyView>::empty(),
            r.num_active() == 0,
            r.closest() == Seq::<(NodeView, bool)>::empty(),
    {
        let target = key_space_manager.create_from_key(key);
        let r = SearchState {
            key_space_manager,
            target,
            breadth: params.breadth,
            max_num_active_threads: params.max_num_active_threads,
            to_explore: Vec::new(),
            found: Vec::new(),
            num_active_threads: 0,
            n_closest: Vec::new(),
        };
        assert(r.to_explore() =~= Seq::<NodeView>::empty());
        assert(r.closest() =~= Seq::<(NodeView, bool)>::empty());
        assert(r.found_keys() =~= Set::<KeyView>::empty());
        r
    }

    /// Records that `node`, at distance total `d` from the searched key, was
    /// found, among the closest nodes found.
    fn insert_closest(&mut self, node: &Node, d: u64)
        requires
            old(self).wf(),
            d as int == node_distance(node@, old(self).target(), old(self).dims()),
        ensures
            final(self).wf(),
            exists|p: int|
                is_insert_position(old(self).closest(), p, d as int, old(self).target(), old(self).dims())
                    && final(self).closest() == closest_with(
                    old(self).closest(),
                    p,
                    node@,
                    old(self).breadth(),
                ),
            final(self).dims() == old(self).dims(),
            final(self).target() == old(self).target(),
            final(self).breadth() == old(self).breadth(),
            final(self).max_active() == old(self).max_active(),
            final(self).to_explore() == old(self).to_explore(),
            final(self).found_keys() == old(self).found_keys(),
            final(self).num_active() == old(self).num_active(),
    {
        let ghost c = self.closest();
        let ghost target = self.target@;
        let ghost dims = self.dims();
        let mut p: usize = 0;
        while p < self.n_closest.len() && self.n_closest[p].1 <= d
            invariant
                self.wf(),
                c == self.closest(),
                target == self.target@,
                dims == self.dims(),
                p <= self.n_closest@.len(),
                forall|k: int| 0 <= k < p ==> node_distance(#[trigger] c[k].0, target, dims) <= d,
            decreases self.n_closest@.len() - p,
        {
            assert(c[p as int].0 == self.n_closest@[p as int].0@);
            p = p + 1;
        }
        proof {
            if p < c.len() {
                assert(c[p as int].0 == self.n_closest@[p as int].0@);
            }
            assert forall|k: int| p <= k < c.len() implies node_distance(#[trigger] c[k].0, target, dims) > d by {
                assert(node_distance(c[p as int].0, target, dims) > d);
                assert(node_distance(c[p as int].0, target, dims) <= node_distance(c[k].0, target, dims));
            }
        }
        let ghost before = self.n_closest@;
        self.n_closest.insert(p, (node.copy(), d, false));
        let ghost inserted = self.n_closest@;
        proof {
            assert(self.closest() =~= c.insert(p as int, (node@, false)));
        }
        if self.n_closest.len() > self.breadth {
            self.n_closest.truncate(self.breadth);
            proof {
                assert(self.closest() =~= c.insert(p as int, (node@, false)).take(self.breadth as int));
            }
        }
        proof {
            let ci = c.insert(p as int, (node@, false));
            assert forall|i: int, j: int| 0 <= i <= j < self.closest().len() implies node_distance(
                self.closest()[i].0, target, dims) <= node_distance(self.closest()[j].0, target, dims) by {
                assert(self.closest()[i] == ci[i]);
                assert(self.closest()[j] == ci[j]);
                if i < p && j > p {
                    assert(ci[i] == c[i]);
                    assert(ci[j] == c[j - 1]);
                } else if i < p && j == p {
                    assert(ci[i] == c[i]);
                } else if i == p && j > p {
                    assert(ci[j] == c[j - 1]);
                } else if i > p {
                    assert(ci[i] == c[i - 1]);
                    assert(ci[j] == c[j - 1]);
                } else if j < p {
                    assert(ci[i] == c[i]);
                    assert(ci[j] == c[j]);
                }
            }
            assert forall|i: int| 0 <= i < self.n_closest@.len() implies #[trigger] self.n_closest@[i].1 as int
                == node_distance(self.n_closest@[i].0@, self.target@, self.dims()) by {
                assert(self.n_closest@[i] == inserted[i]);
                if i < p {
                    assert(inserted[i] == before[i]);
                } else if i > p {
                    assert(inserted[i] == before[i - 1]);
                }
            }
            assert(is_insert_position(c, p as int, d as int, target, dims));
            assert(self.closest() == closest_with(c, p as int, node@, self.breadth()));
            assert(c == old(self).closest());
            assert(self.breadth() == old(self).breadth());
            assert(is_insert_position(old(self).closest(), p as int, d as int, old(self).target(), old(self).dims()));
        }
    }

    /// Whether a node with key `key` has been found.
    fn is_found(&self, key: &Key) -> (r: bool)
        ensures
            r == self.found_keys().contains(key@),
    {
        let mut i: usize = 0;
        while i < self.found.len()
            invariant
                i <= self.found@.len(),
                forall|k: int| 0 <= k < i ==> #[trigger] self.found@[k]@ != key@,
            decreases self.found@.len() - i,
        {
            if self.found[i].same_as(key) {
                proof {
                    let ks = self.found@.map_values(|k: Key| k@);
                    assert(ks[i as int] == key@);
                    assert(ks.contains(key@));
                }
                return true;
            }
            i = i + 1;
        }
        proof {
            let ks = self.found@.map_values(|k: Key| k@);
            if ks.contains(key@) {
                let j = choose|j: int| 0 <= j < ks.len() && ks[j] == key@;
                assert(self.found@[j]@ == key@);
            }
        }
        false
    }

    /// Records that `node` was found: its key is found, it is among the
    /// nodes to explore, and it takes its place among the closest nodes.
    fn record_found(&mut self, node: &Node)
        requires
            old(self).wf(),
        ensures
            final(self).wf(),
            final(self).to_explore() == old(self).to_explore().push(node@),
            final(self).found_keys() == old(self).found_keys().insert(node@.1),
            final(self).closest() == closest_after_found(
                old(self).closest(),
                node@,
                old(self).target(),
                old(self).dims(),
                old(self).breadth(),
            ),
            final(self).dims() == old(self).dims(),
            final(self).target() == old(self).target(),
            final(self).breadth() == old(self).breadth(),
            final(self).max_active() == old(self).max_active(),
            final(self).num_active() == old(self).num_active(),
    {
        let d = self.distance_to_target(node);
        let ghost c = self.closest();
        self.insert_closest(node, d);
        proof {
            let p = choose|p: int|
                is_insert_position(c, p, d as int, self.target(), self.dims()) && self.closest()
                    == closest_with(c, p, node@, self.breadth());
            lemma_insert_position_unique(c, p, d as int, self.target(), self.dims());
        }
        let ghost found_before = self.found@;
        let ghost explore_before = self.to_explore@;
        self.found.push(node.key.copy());
        self.to_explore.push((node.copy(), d));
        proof {
            let before_keys = found_before.map_values(|k: Key| k@);
            let after_keys = self.found@.map_values(|k: Key| k@);
            assert(after_keys =~= before_keys.push(node@.1));
            assert forall|k: KeyView| #[trigger] after_keys.to_set().contains(k) == before_keys.to_set().insert(
                node@.1,
            ).contains(k) by {
                if after_keys.contains(k) && k != node@.1 {
                    let j = choose|j: int| 0 <= j < after_keys.len() && after_keys[j] == k;
                    assert(before_keys[j] == k);
                }
                if before_keys.contains(k) {
                    let j = choose|j: int| 0 <= j < before_keys.len() && before_keys[j] == k;
                    assert(after_keys[j] == k);
                }
                if k == node@.1 {
                    assert(after_keys[before_keys.len() as int] == k);
                }
            }
            assert(self.found_keys() =~= old(self).found_keys().insert(node@.1));
            assert(self.to_explore() =~= old(self).to_explore().push(node@));
            assert forall|i: int| 0 <= i < self.to_explore@.len() implies #[trigger] self.to_explore@[i].1 as int
                == node_distance(self.to_explore@[i].0@, self.target@, self.dims()) by {
                if i < explore_before.len() {
                    assert(self.to_explore@[i] == explore_before[i]);
                }
            }
        }
    }

    /// Records that the search starts from `node`: it is found, whether or
    /// not it was before, and is to be explored.
    pub fn add_start_node(&mut self, node: &Node)
        requires
            old(self).wf(),
        ensures
            final(self).wf(),
            final(self).to_explore() == old(self).to_explore().push(node@),
            final(self).found_keys() == old(self).found_keys().insert(node@.1),
            final(self).closest() == closest_after_found(
                old(self).closest(),
                node@,
                old(self).target(),
                old(self).dims(),
                old(self).breadth(),
            ),
            final(self).dims() == old(self).dims(),
            final(self).target() == old(self).target(),
            final(self).breadth() == old(self).breadth(),
            final(self).max_active() == old(self).max_active(),
            final(self).num_active() == old(self).num_active(),
    {
        self.record_found(node);
    }

    /// Takes the answer of a query: `neighbours` are the nodes that the
    /// queried node gave (none if the query failed). Returns the nodes found
    /// for the first time, in order, each of which is now found, to be
    /// explored and placed among the closest nodes.
    pub fn receive_neighbours(&mut self, neighbours: &Vec<Node>) -> (r: Vec<Node>)
        requires
            old(self).wf(),
            old(self).num_active() > 0,
        ensures
            final(self).wf(),
            node_views(r@) == first_encounters(old(self).found_keys(), node_views(neighbours@)),
            forall|i: int| 0 <= i < r@.len() ==> !old(self).found_keys().contains(#[trigger] r@[i]@.1),
            forall|i: int, j: int| 0 <= i < j < r@.len() ==> r@[i]@.1 != r@[j]@.1,
            final(self).num_active() == old(self).num_active() - 1,
            final(self).to_explore() == old(self).to_explore() + node_views(r@),
            final(self).found_keys() == old(self).found_keys().union(node_keys(node_views(neighbours@))),
            final(self).closest() == closest_after_all(
                old(self).closest(),
                node_views(r@),
                old(self).target(),
                old(self).dims(),
                old(self).breadth(),
            ),
            final(self).dims() == old(self).dims(),
            final(self).target() == old(self).target(),
            final(self).breadth() == old(self).breadth(),
            final(self).max_active() == old(self).max_active(),
    {
        self.num_active_threads = self.num_active_threads - 1;
        let ghost f0 = self.found_keys();
        let ghost e0 = self.to_explore();
        let ghost c0 = self.closest();
        let ghost s = node_views(neighbours@);
        let mut out: Vec<Node> = Vec::new();
        let mut i: usize = 0;
        while i < neighbours.len()
            invariant
                self.wf(),
                i <= neighbours@.len(),
                s == node_views(neighbours@),
                node_views(out@) == first_encounters(f0, s.take(i as int)),
                self.found_keys() == f0.union(node_keys(node_views(out@))),
                self.to_explore() == e0 + node_views(out@),
                self.closest() == closest_after_all(c0, node_views(out@), old(self).target(), old(self).dims(), old(self).breadth()),
                self.num_active() == old(self).num_active() - 1,
                self.dims() == old(self).dims(),
                self.target() == old(self).target(),
                self.breadth() == old(self).breadth(),
                self.max_active() == old(self).max_active(),
            decreases neighbours@.len() - i,
        {
            let n = &neighbours[i];
            let ghost prev_out = node_views(out@);
            let ghost prefix = s.take(i + 1);
            proof {
                assert(prefix.drop_last() =~= s.take(i as int));
                assert(prefix.last() == n@);
                lemma_first_encounters_keys(f0, s.take(i as int), n@.1);
            }
            if !self.is_found(&n.key) {
                proof {
                    if exists|j: int| 0 <= j < prefix.len() - 1 && #[trigger] prefix[j].1 == prefix.last().1 {
                        let j = choose|j: int| 0 <= j < prefix.len() - 1 && #[trigger] prefix[j].1 == prefix.last().1;
                        assert(s.take(i as int)[j].1 == n@.1);
                        assert(node_keys(s.take(i as int)).contains(n@.1));
                    }
                }
                self.record_found(n);
                out.push(n.copy());
                proof {
                    assert(node_views(out@) =~= prev_out.push(n@));
                    assert(node_views(out@).drop_last() =~= prev_out);
                    assert(node_keys(node_views(out@)) =~= node_keys(prev_out).insert(n@.1)) by {
                        assert forall|k: KeyView| #[trigger] node_keys(node_views(out@)).contains(k) implies node_keys(prev_out).insert(n@.1).contains(k) by {
                            let m = choose|m: int| 0 <= m < node_views(out@).len() && #[trigger] node_views(out@)[m].1 == k;
                            if m < prev_out.len() {
                                assert(prev_out[m].1 == k);
                            }
                        }
                        assert forall|k: KeyView| #[trigger] node_keys(prev_out).contains(k) implies node_keys(node_views(out@)).contains(k) by {
                            let m = choose|m: int| 0 <= m < prev_out.len() && #[trigger] prev_out[m].1 == k;
                            assert(node_views(out@)[m].1 == k);
                        }
                        assert(node_views(out@)[prev_out.len() as int].1 == n@.1);
                    }
                    assert(self.found_keys() =~= f0.union(node_keys(node_views(out@))));
                    assert(self.to_explore() =~= e0 + node_views(out@));
                }
            } else {
                proof {
                    if !f0.contains(n@.1) {
                        let m = choose|m: int| 0 <= m < prev_out.len() && #[trigger] prev_out[m].1 == n@.1;
                        assert(node_keys(s.take(i as int)).contains(n@.1));
                        let j = choose|j: int| 0 <= j < s.take(i as int).len() && #[trigger] s.take(i as int)[j].1 == n@.1;
                        assert(prefix[j].1 == prefix.last().1);
                    }
                }
            }
            i = i + 1;
        }
        proof {
            assert(s.take(s.len() as int) =~= s);
            lemma_first_encounters_fresh(f0, s);
            assert forall|k: KeyView| #[trigger] f0.union(node_keys(node_views(out@))).contains(k) == f0.union(node_keys(s)).contains(k) by {
                lemma_first_encounters_keys(f0, s, k);
            }
            assert(self.found_keys() =~= f0.union(node_keys(s)));
            assert forall|i: int| 0 <= i < out@.len() implies !f0.contains(#[trigger] out@[i]@.1) by {
                assert(node_views(out@)[i] == out@[i]@);
            }
            assert forall|i: int, j: int| 0 <= i < j < out@.len() implies out@[i]@.1 != out@[j]@.1 by {
                assert(node_views(out@)[i] == out@[i]@);
                assert(node_views(out@)[j] == out@[j]@);
            }
        }
        out
    }

    /// Takes note that `node` was explored: it is marked explored among the
    /// closest nodes. Returns whether the search is to give up: when the
    /// closest nodes number the breadth and all have been explored.
    pub fn explored(&mut self, node: &Node) -> (exit: bool)
        requires
            old(self).wf(),
        ensures
            final(self).wf(),
            final(self).closest() == closest_explored(old(self).closest(), node@),
            exit == (all_explored(final(self).closest()) && final(self).closest().len()
                == final(self).breadth()),
            final(self).to_explore() == old(self).to_explore(),
            final(self).found_keys() == old(self).found_keys(),
            final(self).num_active() == old(self).num_active(),
            final(self).dims() == old(self).dims(),
            final(self).target() == old(self).target(),
            final(self).breadth() == old(self).breadth(),
            final(self).max_active() == old(self).max_active(),
    {
        let ghost c0 = self.closest();
        let ghost v0 = self.n_closest@;
        let mut i: usize = 0;
        while i < self.n_closest.len()
            invariant
                self.wf(),
                self.n_closest@.len() == v0.len(),
                c0.len() == v0.len(),
                i <= v0.len(),
                forall|k: int| 0 <= k < i ==> #[trigger] self.closest()[k] == closest_explored(c0, node@)[k],
                forall|k: int| i <= k < v0.len() ==> #[trigger] self.n_closest@[k] == v0[k],
                forall|k: int|
                    0 <= k < v0.len() ==> #[trigger] self.n_closest@[k].0@ == v0[k].0@
                        && self.n_closest@[k].1 == v0[k].1,
                c0 == v0.map_values(|e: (Node, u64, bool)| (e.0@, e.2)),
                sorted_by_distance(c0, self.target@, self.dims()),
                self.to_explore() == old(self).to_explore(),
                self.found_keys() == old(self).found_keys(),
                self.num_active() == old(self).num_active(),
                self.dims() == old(self).dims(),
                self.target() == old(self).target(),
                self.breadth() == old(self).breadth(),
                self.max_active() == old(self).max_active(),
            decreases v0.len() - i,
        {
            if self.n_closest[i].0.same_as(node) {
                let ghost before = self.n_closest@;
                let entry = (self.n_closest[i].0.copy(), self.n_closest[i].1, true);
                self.n_closest.set(i, entry);
                proof {
                    assert forall|k: int| 0 <= k < v0.len() implies #[trigger] self.n_closest@[k].0@ == v0[k].0@
                        && self.n_closest@[k].1 == v0[k].1 by {
                        if k != i {
                            assert(self.n_closest@[k] == before[k]);
                        }
                    }
                    assert forall|k: int| 0 <= k < v0.len() implies #[trigger] self.closest()[k].0 == c0[k].0 by {
                        assert(self.closest()[k] == (self.n_closest@[k].0@, self.n_closest@[k].2));
                        assert(c0[k] == (v0[k].0@, v0[k].2));
                    }
                    assert forall|k: int| 0 <= k < i implies #[trigger] self.closest()[k] == closest_explored(c0, node@)[k] by {
                        assert(self.n_closest@[k] == before[k]);
                        assert(self.closest()[k] == (self.n_closest@[k].0@, self.n_closest@[k].2));
                        assert(before.map_values(|e: (Node, u64, bool)| (e.0@, e.2))[k] == (before[k].0@, before[k].2));
                    }
                    assert forall|a: int, b: int| 0 <= a <= b < self.closest().len() implies node_distance(
                        self.closest()[a].0, self.target@, self.dims()) <= node_distance(
                        self.closest()[b].0, self.target@, self.dims()) by {
                        assert(self.closest()[a].0 == c0[a].0);
                        assert(self.closest()[b].0 == c0[b].0);
                        assert(node_distance(c0[a].0, self.target@, self.dims()) <= node_distance(c0[b].0, self.target@, self.dims()));
                    }
                    assert forall|k: int| 0 <= k < self.n_closest@.len() implies #[trigger] self.n_closest@[k].1 as int
                        == node_distance(self.n_closest@[k].0@, self.target@, self.dims()) by {
                        if k != i {
                            assert(self.n_closest@[k] == before[k]);
                        }
                    }
                }
            }
            proof {
                assert(self.closest()[i as int] == closest_explored(c0, node@)[i as int]);
            }
            i = i + 1;
        }
        proof {
            assert(self.closest() =~= closest_explored(c0, node@));
        }
        let mut all: bool = true;
        let mut j: usize = 0;
        while j < self.n_closest.len()
            invariant
                j <= self.n_closest@.len(),
                all == (forall|k: int| 0 <= k < j ==> #[trigger] self.closest()[k].1),
            decreases self.n_closest@.len() - j,
        {
            proof {
                assert(self.closest()[j as int].1 == self.n_closest@[j as int].2);
            }
            if !self.n_closest[j].2 {
                all = false;
            }
            j = j + 1;
        }
        all && self.n_closest.len() == self.breadth
    }

    /// Decides what the search does next: give up when nothing is left to
    /// explore and no query is outstanding; wait when nothing is left to
    /// explore or the most queries are outstanding; and otherwise explore
    /// the node nearest to the searched key (the first found among equally
    /// near ones), which is no longer to be explored, with one more query
    /// outstanding.
    pub fn next_step(&mut self) -> (r: SearchStep)
        requires
            old(self).wf(),
        ensures
            final(self).wf(),
            (r is NotFound) <==> (old(self).to_explore().len() == 0 && old(self).num_active() == 0),
            (r is Wait) <==> ((old(self).to_explore().len() == 0 && old(self).num_active() > 0) || (
            old(self).to_explore().len() > 0 && old(self).num_active() >= old(self).max_active())),
            !(r is Explore) ==> final(self).to_explore() == old(self).to_explore()
                && final(self).num_active() == old(self).num_active(),
            r matches SearchStep::Explore(n) ==> exists|i: int|
                {
                    &&& is_first_nearest(old(self).to_explore(), i, old(self).target(), old(self).dims())
                    &&& n@ == #[trigger] old(self).to_explore()[i]
                    &&& final(self).to_explore() == old(self).to_explore().remove(i)
                    &&& final(self).num_active() == old(self).num_active() + 1
                },
            final(self).found_keys() == old(self).found_keys(),
            final(self).closest() == old(self).closest(),
            final(self).dims() == old(self).dims(),
            final(self).target() == old(self).target(),
            final(self).breadth() == old(self).breadth(),
            final(self).max_active() == old(self).max_active(),
    {
        if self.to_explore.len() == 0 {
            if self.num_active_threads == 0 {
                return SearchStep::NotFound();
            } else {
                return SearchStep::Wait();
            }
        }
        if self.num_active_threads >= self.max_num_active_threads {
            return SearchStep::Wait();
        }
        let ghost s = self.to_explore();
        let ghost target = self.target@;
        let ghost dims = self.dims();
        let mut best: usize = 0;
        let mut i: usize = 1;
        while i < self.to_explore.len()
            invariant
                self.wf(),
                s == self.to_explore(),
                target == self.target@,
                dims == self.dims(),
                1 <= i <= s.len(),
                best < i,
                forall|j: int|
                    0 <= j < i ==> node_distance(s[best as int], target, dims) < node_distance(
                        #[trigger] s[j],
                        target,
                        dims,
                    ) || (node_distance(s[best as int], target, dims) == node_distance(s[j], target, dims)
                        && best <= j),
            decreases s.len() - i,
        {
            proof {
                assert(s[i as int] == self.to_explore@[i as int].0@);
                assert(s[best as int] == self.to_explore@[best as int].0@);
            }
            if self.to_explore[i].1 < self.to_explore[best].1 {
                best = i;
            }
            i = i + 1;
        }
        let ghost before = self.to_explore@;
        let (node, _d) = self.to_explore.remove(best);
        self.num_active_threads = self.num_active_threads + 1;
        proof {
            assert(self.to_explore() =~= s.remove(best as int));
            assert(node@ == s[best as int]);
            assert forall|k: int| 0 <= k < self.to_explore@.len() implies #[trigger] self.to_explore@[k].1 as int
                == node_distance(self.to_explore@[k].0@, self.target@, self.dims()) by {
                if k < best {
                    assert(self.to_explore@[k] == before[k]);
                } else {
                    assert(self.to_explore@[k] == before[k + 1]);
                }
            }
            assert(is_first_nearest(s, best as int, target, dims));
        }
        SearchStep::Explore(node)
    }

    /// Starts the search from `start_nodes`, calling `found_fn` on each in
    /// order and adding it as a start node while the search goes on (see
    /// `started`). Returns `None` when all were added, and otherwise how the
    /// search ends.
    #[verifier::loop_isolation(false)]
    pub fn add_start_nodes<T, F: Fn(&Node) -> Result<SearchCallbackAction<T>, Error>>(
        &mut self,
        start_nodes: &Vec<Node>,
        found_fn: &F,
    ) -> (r: Result<Option<Option<T>>, Error>)
        requires
            old(self).wf(),
            forall|i: int| 0 <= i < start_nodes@.len() ==> #[trigger] found_fn.requires((&start_nodes@[i],)),
        ensures
            final(self).wf(),
            final(self).dims() == old(self).dims(),
            final(self).target() == old(self).target(),
            final(self).breadth() == old(self).breadth(),
            final(self).max_active() == old(self).max_active(),
            exists|results: Seq<Result<SearchCallbackAction<T>, Error>>|
                #[trigger] started(*old(self), *final(self), start_nodes@, *found_fn, results, r),
    {
        let ghost before = *self;
        let ghost start = start_nodes@;
        let ghost mut results: Seq<Result<SearchCallbackAction<T>, Error>> = Seq::empty();
        let mut i: usize = 0;
        proof {
            assert(node_views(start.take(0)) =~= Seq::<NodeView>::empty());
            assert(self.to_explore() =~= before.to_explore() + node_views(start.take(0)));
            assert(self.found_keys() =~= before.found_keys().union(node_keys(node_views(start.take(0)))));
        }
        while i < start_nodes.len()
            invariant
                i <= start.len(),
                start == start_nodes@,
                results.len() == i,
                self.wf(),
                self.dims() == before.dims(),
                self.target() == before.target(),
                self.breadth() == before.breadth(),
                self.max_active() == before.max_active(),
                forall|j: int| 0 <= j < i ==> call_ensures(*found_fn, (&start[j],), #[trigger] results[j]),
                forall|j: int| 0 <= j < i ==> continues(#[trigger] results[j]),
                self.to_explore() == before.to_explore() + node_views(start.take(i as int)),
                self.found_keys() == before.found_keys().union(node_keys(node_views(start.take(i as int)))),
                self.closest() == closest_after_all(
                    before.closest(),
                    node_views(start.take(i as int)),
                    before.target(),
                    before.dims(),
                    before.breadth(),
                ),
                self.num_active() == before.num_active(),
            decreases start.len() - i,
        {
            let res = found_fn(&start_nodes[i]);
            proof {
                results = results.push(res);
                assert(results.last() == res);
                assert(results.drop_last() =~= results.take(i as int));
            }
            match res {
                Ok(SearchCallbackAction::Continue()) => {},
                Ok(action) => {
                    let r = Ok(action_outcome(action));
                    assert(started(before, *self, start, *found_fn, results, r));
                    return r;
                },
                Err(e) => {
                    let r = Err(e);
                    assert(started(before, *self, start, *found_fn, results, r));
                    return r;
                },
            }
            let ghost prev = *self;
            self.add_start_node(&start_nodes[i]);
            proof {
                let added = node_views(start.take(i + 1));
                assert(added.drop_last() =~= node_views(start.take(i as int)));
                assert(added.last() == start_nodes@[i as int]@);
                assert(self.to_explore() =~= before.to_explore() + added);
                assert(self.found_keys() =~= before.found_keys().union(node_keys(added))) by {
                    assert forall|k: KeyView| node_keys(added).contains(k) <==> node_keys(
                        node_views(start.take(i as int)),
                    ).contains(k) || k == start_nodes@[i as int]@.1 by {
                        if node_keys(added).contains(k) {
                            let m = choose|m: int| 0 <= m < added.len() && #[trigger] added[m].1 == k;
                            if m < i {
                                assert(node_views(start.take(i as int))[m] == added[m]);
                            }
                        }
                        if node_keys(node_views(start.take(i as int))).contains(k) {
                            let m = choose|m: int|
                                0 <= m < node_views(start.take(i as int)).len() && #[trigger] node_views(
                                    start.take(i as int),
                                )[m].1 == k;
                            assert(added[m] == node_views(start.take(i as int))[m]);
                        }
                        if k == start_nodes@[i as int]@.1 {
                            assert(added[i as int].1 == k);
                        }
                    }
                }
            }
            i = i + 1;
        }
        let r = Ok(None);
        proof {
            assert(start.take(i as int) =~= start);
            assert(started(before, *self, start, *found_fn, results, r));
        }
        r
    }

    /// Takes the answer `neighbours` of a query of `explored` (none if the
    /// query failed), calling `found_fn` on each node found for the first
    /// time and `explored_fn` on `explored` (see `answer_taken`). Returns
    /// `None` while the search goes on, and otherwise how it ends.
    #[verifier::loop_isolation(false)]
    pub fn take_answer<
        T,
        F: Fn(&Node) -> Result<SearchCallbackAction<T>, Error>,
        G: Fn(&Node) -> Result<SearchCallbackAction<T>, Error>,
    >(
        &mut self,
        neighbours: &Vec<Node>,
        explored: &Node,
        found_fn: &F,
        explored_fn: &G,
    ) -> (r: Result<Option<Option<T>>, Error>)
        requires
            old(self).wf(),
            old(self).num_active() > 0,
            forall|n: &Node| #[trigger] found_fn.requires((n,)),
            explored_fn.requires((explored,)),
        ensures
            final(self).wf(),
            final(self).dims() == old(self).dims(),
            final(self).target() == old(self).target(),
            final(self).breadth() == old(self).breadth(),
            final(self).max_active() == old(self).max_active(),
            exists|found: Seq<Node>, results: Seq<Result<SearchCallbackAction<T>, Error>>|
                #[trigger] answer_taken(
                    *old(self),
                    *final(self),
                    node_views(neighbours@),
                    explored,
                    *found_fn,
                    *explored_fn,
                    found,
                    results,
                    r,
                ),
    {
        let ghost before = *self;
        let found = self.receive_neighbours(neighbours);
        let ghost mut results: Seq<Result<SearchCallbackAction<T>, Error>> = Seq::empty();
        let mut i: usize = 0;
        while i < found.len()
            invariant
                i <= found@.len(),
                results.len() == i,
                forall|n: &Node| #[trigger] found_fn.requires((n,)),
                forall|j: int| 0 <= j < i ==> call_ensures(*found_fn, (&found@[j],), #[trigger] results[j]),
                forall|j: int| 0 <= j < i ==> continues(#[trigger] results[j]),
            decreases found@.len() - i,
        {
            let res = found_fn(&found[i]);
            proof {
                results = results.push(res);
                assert(results.last() == res);
            }
            match res {
                Ok(SearchCallbackAction::Continue()) => {},
                Ok(action) => {
                    let r = Ok(action_outcome(action));
                    assert(answer_taken(before, *self, node_views(neighbours@), explored, *found_fn, *explored_fn, found@, results, r));
                    return r;
                },
                Err(e) => {
                    let r = Err(e);
                    assert(answer_taken(before, *self, node_views(neighbours@), explored, *found_fn, *explored_fn, found@, results, r));
                    return r;
                },
            }
            i = i + 1;
        }
        if self.explored(explored) {
            let r = Ok(Some(None));
            assert(answer_taken(before, *self, node_views(neighbours@), explored, *found_fn, *explored_fn, found@, results, r));
            return r;
        }
        let res = explored_fn(explored);
        let r = match res {
            Ok(action) => Ok(action_outcome(action)),
            Err(e) => Err(e),
        };
        assert(call_ensures(*explored_fn, (explored,), res));
        assert(answer_taken(before, *self, node_views(neighbours@), explored, *found_fn, *explored_fn, found@, results, r));
        r
    }
}


/// The node a search explores next (see `next_step`) is one nearest to the
/// searched location by the full distance total of their locations, summed
/// over every dimension: no node left to explore is nearer.
pub proof fn lemma_explored_node_is_nearest(s: Seq<NodeView>, i: int, target: Seq<i32>, dims: nat)
    requires
        is_first_nearest(s, i, target, dims),
    ensures
        forall|j: int|
            0 <= j < s.len() ==> distance_total(key_space_of(s[i].1.1, dims), target) <= distance_total(
                key_space_of(#[trigger] s[j].1.1, dims),
                target,
            ),
{
    assert forall|j: int| 0 <= j < s.len() implies distance_total(key_space_of(s[i].1.1, dims), target)
        <= distance_total(key_space_of(#[trigger] s[j].1.1, dims), target) by {
        assert(node_distance(s[i], target, dims) <= node_distance(s[j], target, dims));
    }
}

/// The closest nodes a search keeps are ordered by the full distance total
/// of their locations to the searched location, summed over every
/// dimension.
pub proof fn lemma_closest_ordered_by_full_distance(s: &SearchState)
    requires
        s.wf(),
    ensures
        forall|i: int, j: int|
            0 <= i <= j < s.closest().len() ==> distance_total(
                key_space_of(#[trigger] s.closest()[i].0.1.1, s.dims()),
                s.target(),
            ) <= distance_total(key_space_of(#[trigger] s.closest()[j].0.1.1, s.dims()), s.target()),
{
    assert forall|i: int, j: int| 0 <= i <= j < s.closest().len() implies distance_total(
        key_space_of(#[trigger] s.closest()[i].0.1.1, s.dims()),
        s.target(),
    ) <= distance_total(key_space_of(#[trigger] s.closest()[j].0.1.1, s.dims()), s.target()) by {
        assert(node_distance(s.closest()[i].0, s.target(), s.dims()) <= node_distance(
            s.closest()[j].0,
            s.target(),
            s.dims(),
        ));
    }
}

/// A search never has more queries outstanding than its parameters allow.
pub proof fn lemma_active_queries_bounded(s: &SearchState)
    requires
        s.wf(),
    ensures
        s.num_active() <= s.max_active(),
{
}

/// The closest nodes a search keeps number at most its breadth and are
/// ordered by distance to the searched key, closest first.
pub proof fn lemma_closest_bounded_and_sorted(s: &SearchState)
    requires
        s.wf(),
    ensures
        s.closest().len() <= s.breadth(),
        sorted_by_distance(s.closest(), s.target(), s.dims()),
{
}


/// A node found by one answer of a search is not found again by a later
/// answer: after an answer, the keys found are those found before together
/// with the keys of the nodes of the answer (see `receive_neighbours`).
pub proof fn lemma_found_once_across_answers(found: Set<KeyView>, first: Seq<NodeView>, second: Seq<NodeView>)
    ensures
        forall|i: int, j: int|
            0 <= i < first_encounters(found, first).len() && 0 <= j < first_encounters(
                found.union(node_keys(first)),
                second,
            ).len() ==> #[trigger] first_encounters(found, first)[i].1 != #[trigger] first_encounters(
                found.union(node_keys(first)),
                second,
            )[j].1,
{
    let r1 = first_encounters(found, first);
    let later = found.union(node_keys(first));
    let r2 = first_encounters(later, second);
    lemma_first_encounters_fresh(found, first);
    lemma_first_encounters_fresh(later, second);
    assert forall|i: int, j: int| 0 <= i < r1.len() && 0 <= j < r2.len() implies #[trigger] r1[i].1
        != #[trigger] r2[j].1 by {
        assert(first.contains(r1[i]));
        let k = choose|k: int| 0 <= k < first.len() && first[k] == r1[i];
        assert(node_keys(first).contains(first[k].1));
        assert(later.contains(r1[i].1));
    }
}

} // verus!
