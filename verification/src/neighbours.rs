//! The neighbours of a node: the nodes it keeps links to, chosen among the
//! nodes it comes to know of.

use vstd::prelude::*;

use crate::api::{Address, Key, KeySpace, Node};
use crate::key_space::{distance_order, key_space_of, KeySpaceManager};

verus! {

/// The view of a node: its address (IP bytes and port) and its key
/// (identifier and data).
pub type NodeView = ((Seq<u8>, u16), (Seq<char>, Seq<u8>));

/// The view of a neighbour: the node and its location in key space.
pub type EntryView = (NodeView, Seq<i32>);

/// The views of a sequence of neighbours.
pub open spec fn entry_views(s: Seq<(Node, KeySpace)>) -> Seq<EntryView> {
    s.map_values(|e: (Node, KeySpace)| (e.0@, e.1@))
}

/// The locations of a sequence of neighbours.
pub open spec fn entry_locations(s: Seq<EntryView>) -> Seq<Seq<i32>> {
    s.map_values(|e: EntryView| e.1)
}

/// The views of a sequence of nodes.
pub open spec fn node_views(s: Seq<Node>) -> Seq<NodeView> {
    s.map_values(|n: Node| n@)
}

/// The neighbours of `s` whose key differs from `key`, in order.
pub open spec fn without_key(s: Seq<EntryView>, key: (Seq<char>, Seq<u8>)) -> Seq<EntryView>
    decreases s.len(),
{
    if s.len() == 0 {
        s
    } else {
        let rest = without_key(s.drop_last(), key);
        if s.last().0.1 == key {
            rest
        } else {
            rest.push(s.last())
        }
    }
}

/// The neighbours of `s` whose key identifier differs from `key_id`, in order.
pub open spec fn without_key_id(s: Seq<EntryView>, key_id: Seq<char>) -> Seq<EntryView>
    decreases s.len(),
{
    if s.len() == 0 {
        s
    } else {
        let rest = without_key_id(s.drop_last(), key_id);
        if s.last().0.1.0 == key_id {
            rest
        } else {
            rest.push(s.last())
        }
    }
}

/// The neighbours of `s`, where those with key `key` have their address
/// replaced by `address`.
pub open spec fn with_address(s: Seq<EntryView>, key: (Seq<char>, Seq<u8>), address: (
    Seq<u8>,
    u16,
)) -> Seq<EntryView> {
    s.map_values(
        |e: EntryView|
            if e.0.1 == key {
                ((address, e.0.1), e.1)
            } else {
                e
            },
    )
}

/// The neighbours of `s` whose key identifier is not in `key_ids`, in order.
pub open spec fn without_key_ids(s: Seq<EntryView>, key_ids: Set<Seq<char>>) -> Seq<EntryView>
    decreases s.len(),
{
    if s.len() == 0 {
        s
    } else {
        let rest = without_key_ids(s.drop_last(), key_ids);
        if key_ids.contains(s.last().0.1.0) {
            rest
        } else {
            rest.push(s.last())
        }
    }
}

/// Removing the neighbours with none of no key identifiers removes nothing.
pub proof fn lemma_without_key_ids_empty(s: Seq<EntryView>)
    ensures
        without_key_ids(s, Set::empty()) == s,
    decreases s.len(),
{
    if s.len() > 0 {
        lemma_without_key_ids_empty(s.drop_last());
        assert(s.drop_last().push(s.last()) =~= s);
    }
}

/// Removing the neighbours with one more key identifier, after those with
/// the identifiers of `key_ids`, removes those with any of them.
pub proof fn lemma_without_key_ids_insert(s: Seq<EntryView>, key_ids: Set<Seq<char>>, key_id: Seq<char>)
    ensures
        without_key_id(without_key_ids(s, key_ids), key_id) == without_key_ids(s, key_ids.insert(key_id)),
    decreases s.len(),
{
    if s.len() > 0 {
        lemma_without_key_ids_insert(s.drop_last(), key_ids, key_id);
        let f = without_key_ids(s, key_ids);
        let g = without_key_ids(s.drop_last(), key_ids);
        if !key_ids.contains(s.last().0.1.0) {
            assert(f.drop_last() =~= g);
        }
    }
}

/// Whether some neighbour in `s` has key `key`.
pub open spec fn has_key(s: Seq<EntryView>, key: (Seq<char>, Seq<u8>)) -> bool {
    exists|i: int| 0 <= i < s.len() && #[trigger] s[i].0.1 == key
}

/// Whether some neighbour in `s` has key identifier `key_id`.
pub open spec fn has_key_id(s: Seq<EntryView>, key_id: Seq<char>) -> bool {
    exists|i: int| 0 <= i < s.len() && #[trigger] s[i].0.1.0 == key_id
}

/// Neighbours `s` of a node at location `local` in a key space of `dims`
/// dimensions are well formed: at most `max` of them, no two with the same
/// key, none at `local`, and each with the location of its key.
pub open spec fn entries_wf(s: Seq<EntryView>, local: Seq<i32>, dims: nat, max: nat) -> bool {
    &&& s.len() <= max
    &&& forall|i: int| 0 <= i < s.len() ==> #[trigger] s[i].1 == key_space_of(s[i].0.1.1, dims)
    &&& forall|i: int| 0 <= i < s.len() ==> #[trigger] s[i].1 != local
    &&& forall|i: int, j: int| 0 <= i < j < s.len() ==> s[i].0.1 != s[j].0.1
}

/// Every neighbour kept by `without_key` is one of those of `s`, and
/// there are no more of them.
proof fn lemma_without_key_subset(s: Seq<EntryView>, key: (Seq<char>, Seq<u8>))
    ensures
        without_key(s, key).len() <= s.len(),
        forall|k: int|
            0 <= k < without_key(s, key).len() ==> exists|j: int|
                0 <= j < s.len() && #[trigger] without_key(s, key)[k] == s[j]
                    && s[j].0.1 != key,
    decreases s.len(),
{
    if s.len() > 0 {
        let t = s.drop_last();
        lemma_without_key_subset(t, key);
        assert forall|k: int| 0 <= k < without_key(s, key).len() implies exists|j: int|
            0 <= j < s.len() && #[trigger] without_key(s, key)[k] == s[j] && s[j].0.1 != key by {
            if k < without_key(t, key).len() {
                let j = choose|j: int|
                    0 <= j < t.len() && #[trigger] without_key(t, key)[k] == t[j] && t[j].0.1 != key;
                assert(s[j] == t[j]);
            } else {
                assert(without_key(s, key)[k] == s[s.len() - 1]);
            }
        }
    }
}

/// Every neighbour kept by `without_key_id` is one of those of `s`, and
/// there are no more of them.
proof fn lemma_without_key_id_subset(s: Seq<EntryView>, key_id: Seq<char>)
    ensures
        without_key_id(s, key_id).len() <= s.len(),
        forall|k: int|
            0 <= k < without_key_id(s, key_id).len() ==> exists|j: int|
                0 <= j < s.len() && #[trigger] without_key_id(s, key_id)[k] == s[j]
                    && s[j].0.1.0 != key_id,
    decreases s.len(),
{
    if s.len() > 0 {
        let t = s.drop_last();
        lemma_without_key_id_subset(t, key_id);
        assert forall|k: int| 0 <= k < without_key_id(s, key_id).len() implies exists|j: int|
            0 <= j < s.len() && #[trigger] without_key_id(s, key_id)[k] == s[j] && s[j].0.1.0
                != key_id by {
            if k < without_key_id(t, key_id).len() {
                let j = choose|j: int|
                    0 <= j < t.len() && #[trigger] without_key_id(t, key_id)[k] == t[j] && t[j].0.1.0
                        != key_id;
                assert(s[j] == t[j]);
            } else {
                assert(without_key_id(s, key_id)[k] == s[s.len() - 1]);
            }
        }
    }
}

/// Removing the neighbours with a key keeps the neighbours well formed.
proof fn lemma_without_key_wf(s: Seq<EntryView>, key: (Seq<char>, Seq<u8>), local: Seq<i32>, dims: nat, max: nat)
    requires
        entries_wf(s, local, dims, max),
    ensures
        entries_wf(without_key(s, key), local, dims, max),
    decreases s.len(),
{
    if s.len() > 0 {
        let t = s.drop_last();
        assert(entries_wf(t, local, dims, max));
        lemma_without_key_wf(t, key, local, dims, max);
        lemma_without_key_subset(t, key);
        let r = without_key(s, key);
        if s.last().0.1 != key {
            assert forall|i: int, j: int| 0 <= i < j < r.len() implies r[i].0.1 != r[j].0.1 by {
                if j == r.len() - 1 {
                    let m = choose|m: int|
                        0 <= m < t.len() && #[trigger] without_key(t, key)[i] == t[m] && t[m].0.1
                            != key;
                    assert(t[m] == s[m]);
                }
            }
        }
    }
}

/// Removing the neighbours with a key identifier keeps the neighbours well
/// formed.
proof fn lemma_without_key_id_wf(s: Seq<EntryView>, key_id: Seq<char>, local: Seq<i32>, dims: nat, max: nat)
    requires
        entries_wf(s, local, dims, max),
    ensures
        entries_wf(without_key_id(s, key_id), local, dims, max),
    decreases s.len(),
{
    if s.len() > 0 {
        let t = s.drop_last();
        assert(entries_wf(t, local, dims, max));
        lemma_without_key_id_wf(t, key_id, local, dims, max);
        lemma_without_key_id_subset(t, key_id);
        let r = without_key_id(s, key_id);
        if s.last().0.1.0 != key_id {
            assert forall|i: int, j: int| 0 <= i < j < r.len() implies r[i].0.1 != r[j].0.1 by {
                if j == r.len() - 1 {
                    let m = choose|m: int|
                        0 <= m < t.len() && #[trigger] without_key_id(t, key_id)[i] == t[m]
                            && t[m].0.1.0 != key_id;
                    assert(t[m] == s[m]);
                }
            }
        }
    }
}

/// Removing the neighbours with a key identifier that one of them has leaves
/// fewer neighbours.
proof fn lemma_without_key_id_shrinks(s: Seq<EntryView>, key_id: Seq<char>)
    requires
        has_key_id(s, key_id),
    ensures
        without_key_id(s, key_id).len() < s.len(),
    decreases s.len(),
{
    let t = s.drop_last();
    lemma_without_key_id_subset(t, key_id);
    if s.last().0.1.0 != key_id {
        let i = choose|i: int| 0 <= i < s.len() && #[trigger] s[i].0.1.0 == key_id;
        assert(t[i].0.1.0 == key_id);
        lemma_without_key_id_shrinks(t, key_id);
    }
}

/// Replacing the address of the neighbours with a key keeps the neighbours
/// well formed.
proof fn lemma_with_address_wf(
    s: Seq<EntryView>,
    key: (Seq<char>, Seq<u8>),
    address: (Seq<u8>, u16),
    local: Seq<i32>,
    dims: nat,
    max: nat,
)
    requires
        entries_wf(s, local, dims, max),
    ensures
        entries_wf(with_address(s, key, address), local, dims, max),
{
    let r = with_address(s, key, address);
    assert forall|i: int| 0 <= i < r.len() implies #[trigger] r[i].1 == s[i].1 && r[i].0.1 == s[i].0.1 by {
    }
    assert forall|i: int, j: int| 0 <= i < j < r.len() implies r[i].0.1 != r[j].0.1 by {
        assert(r[i].0.1 == s[i].0.1);
        assert(r[j].0.1 == s[j].0.1);
    }
}

/// Adding a neighbour whose key is new and whose location is its key's and
/// not the local one keeps the neighbours well formed, when there is room.
proof fn lemma_push_wf(s: Seq<EntryView>, e: EntryView, local: Seq<i32>, dims: nat, max: nat)
    requires
        entries_wf(s, local, dims, max),
        s.len() < max,
        !has_key(s, e.0.1),
        e.1 == key_space_of(e.0.1.1, dims),
        e.1 != local,
    ensures
        entries_wf(s.push(e), local, dims, max),
{
    let r = s.push(e);
    assert forall|i: int, j: int| 0 <= i < j < r.len() implies r[i].0.1 != r[j].0.1 by {
        if j == s.len() {
            assert(r[i] == s[i]);
            if s[i].0.1 == e.0.1 {
                assert(has_key(s, e.0.1));
            }
        }
    }
}

/// Keys that none of `s` has are not had by the neighbours kept by
/// `without_key_id`.
proof fn lemma_without_key_id_keeps_absent(s: Seq<EntryView>, key_id: Seq<char>, key: (Seq<char>, Seq<u8>))
    requires
        !has_key(s, key),
    ensures
        !has_key(without_key_id(s, key_id), key),
{
    lemma_without_key_id_subset(s, key_id);
    let r = without_key_id(s, key_id);
    if has_key(r, key) {
        let k = choose|k: int| 0 <= k < r.len() && #[trigger] r[k].0.1 == key;
        let j = choose|j: int| 0 <= j < s.len() && #[trigger] r[k] == s[j] && s[j].0.1.0 != key_id;
        assert(s[j].0.1 == key);
    }
}

/// Whether `nodes` are the (at most) `n` neighbours of `entries` closest to
/// `target`, the closest first, neighbours at equal distance in their order
/// in `entries`.
pub open spec fn are_n_closest(entries: Seq<EntryView>, target: Seq<i32>, n: nat, nodes: Seq<NodeView>) -> bool {
    exists|idx: Seq<int>|
        {
            &&& #[trigger] distance_order(entry_locations(entries), target, idx)
            &&& nodes.len() == if n <= entries.len() {
                n as int
            } else {
                entries.len() as int
            }
            &&& forall|k: int| 0 <= k < nodes.len() ==> #[trigger] nodes[k] == entries[idx[k]].0
        }
}

/// What considering a candidate neighbour comes to, before any verification
/// or scoring.
#[derive(Clone, Copy, Debug, PartialEq, Eq, Structural)]
pub enum CandidateAction {
    /// The candidate is at the local node's own location: it is ignored.
    Ignore(),
    /// The candidate is already a neighbour, at the same address.
    Known(),
    /// The candidate is already a neighbour, at another address: the address
    /// is updated if the candidate is trusted or verified.
    UpdateAddress(),
    /// There is room for another neighbour: the candidate is added if it is
    /// trusted or verified.
    Add(),
    /// The neighbours are full: the candidate competes with them by score.
    Compete(),
}

/// The neighbour entry of a node: the node and the location of its key.
pub open spec fn entry_of(node: NodeView, dims: nat) -> EntryView {
    (node, key_space_of(node.1.1, dims))
}

/// What considering `node` as a neighbour comes to, given neighbours
/// `entries` of a node at location `local`, in a key space of `dims`
/// dimensions, keeping at most `max` neighbours.
pub open spec fn candidate_action(
    entries: Seq<EntryView>,
    local: Seq<i32>,
    dims: nat,
    max: nat,
    node: NodeView,
) -> CandidateAction {
    if key_space_of(node.1.1, dims) == local {
        CandidateAction::Ignore()
    } else if has_key(entries, node.1) {
        let i = choose|i: int| 0 <= i < entries.len() && #[trigger] entries[i].0.1 == node.1;
        if entries[i].0.0 == node.0 {
            CandidateAction::Known()
        } else {
            CandidateAction::UpdateAddress()
        }
    } else if entries.len() < max {
        CandidateAction::Add()
    } else {
        CandidateAction::Compete()
    }
}

/// Whether considering `node` as a neighbour, `trusted` or checked with
/// `verify_neighbour_fn`, and with `lowest_score_fn` picking the neighbour to
/// leave out when they are full, turns the neighbours `before` (of a node at
/// location `local`, in a key space of `dims` dimensions, keeping at most
/// `max`) into `after`.
///
/// The local node and a known neighbour at its known address change nothing.
/// Otherwise the node's address is updated, or the node added, or it replaces
/// the neighbour whose key identifier `lowest_score_fn` gives, unless that is
/// the node's own or no neighbour's; each such change only when the node is
/// trusted or verified, and nothing changes when verification fails.
pub open spec fn considered<V: Fn(&Node) -> bool, S: Fn(&KeySpace, &Vec<(Node, KeySpace)>) -> String>(
    before: Seq<EntryView>,
    local: Seq<i32>,
    dims: nat,
    max: nat,
    node: &Node,
    trusted: bool,
    verify_neighbour_fn: V,
    lowest_score_fn: S,
    after: Seq<EntryView>,
) -> bool {
    let accepted = trusted || call_ensures(verify_neighbour_fn, (node,), true);
    let refused = !trusted && call_ensures(verify_neighbour_fn, (node,), false);
    match candidate_action(before, local, dims, max, node@) {
        CandidateAction::Ignore() => after == before,
        CandidateAction::Known() => after == before,
        CandidateAction::UpdateAddress() => {
            ||| accepted && after == with_address(before, node@.1, node@.0)
            ||| refused && after == before
        },
        CandidateAction::Add() => {
            ||| accepted && after == before.push(entry_of(node@, dims))
            ||| refused && after == before
        },
        CandidateAction::Compete() => exists|l: KeySpace, p: Vec<(Node, KeySpace)>, worst: String|
            {
                &&& l@ == local
                &&& entry_views(p@) == before.push(entry_of(node@, dims))
                &&& #[trigger] call_ensures(lowest_score_fn, (&l, &p), worst)
                &&& if worst@ != node@.1.0 && has_key_id(before, worst@) {
                    ||| accepted && after == without_key_id(before, worst@).push(entry_of(node@, dims))
                    ||| refused && after == before
                } else {
                    after == before
                }
            },
    }
}

/// Holds the neighbours of a node, managing which nodes to keep as
/// neighbours.
pub struct NeighboursStore {
    local_key_space: KeySpace,
    key_space_manager: KeySpaceManager,
    max_num_neighbours: usize,
    neighbours: Vec<(Node, KeySpace)>,
}

impl NeighboursStore {
    /// The neighbours, with their locations in key space, in the order in
    /// which they were added.
    pub closed spec fn entries(&self) -> Seq<EntryView> {
        entry_views(self.neighbours@)
    }

    /// The location in key space of the local node.
    pub closed spec fn local_location(&self) -> Seq<i32> {
        self.local_key_space@
    }

    /// The largest number of neighbours kept.
    pub closed spec fn capacity(&self) -> nat {
        self.max_num_neighbours as nat
    }

    /// The number of dimensions of the key space.
    pub closed spec fn dims(&self) -> nat {
        self.key_space_manager.dims()
    }

    /// The store's invariant: no more neighbours than its capacity, no two
    /// with the same key, none at the local node's location, and each held
    /// with its location in key space.
    pub closed spec fn wf(&self) -> bool {
        &&& 0 < self.dims() <= 0x1_0000_0000
        &&& 4 * self.dims() <= usize::MAX
        &&& self.local_key_space@.len() == self.dims()
        &&& entries_wf(self.entries(), self.local_key_space@, self.dims(), self.capacity())
    }

    /// Creates an empty store for a node with key `local_key`, keeping at most
    /// `max_num_neighbours` neighbours.
    pub fn new(local_key: &Key, max_num_neighbours: usize, key_space_manager: KeySpaceManager) -> (r:
        NeighboursStore)
        requires
            0 < key_space_manager.dims() <= 0x1_0000_0000,
            4 * key_space_manager.dims() <= usize::MAX,
        ensures
            r.wf(),
            r.entries() == Seq::<EntryView>::empty(),
            r.local_location() == key_space_of(local_key.data@, key_space_manager.dims()),
            r.capacity() == max_num_neighbours,
            r.dims() == key_space_manager.dims(),
    {
        let local_key_space = key_space_manager.create_from_key(local_key);
        let r = NeighboursStore {
            local_key_space,
            key_space_manager,
            max_num_neighbours,
            neighbours: Vec::new(),
        };
        assert(r.entries() =~= Seq::<EntryView>::empty());
        r
    }

    /// Gets all neighbours, in the order in which they were added.
    pub fn get_all(&self) -> (r: Vec<Node>)
        requires
            self.wf(),
        ensures
            node_views(r@) == self.entries().map_values(|e: EntryView| e.0),
    {
        let mut out: Vec<Node> = Vec::new();
        let mut i: usize = 0;
        while i < self.neighbours.len()
            invariant
                i <= self.neighbours@.len(),
                out@.len() == i,
                node_views(out@) == self.entries().take(i as int).map_values(|e: EntryView| e.0),
            decreases self.neighbours@.len() - i,
        {
            let ghost prev = out@;
            let node = self.neighbours[i].0.copy();
            out.push(node);
            proof {
                assert(node@ == self.entries()[i as int].0);
                assert forall|k: int| 0 <= k < i + 1 implies node_views(out@)[k]
                    == self.entries().take(i + 1).map_values(|e: EntryView| e.0)[k] by {
                    if k < i {
                        assert(out@[k] == prev[k]);
                        assert(node_views(prev)[k] == self.entries().take(i as int).map_values(
                            |e: EntryView| e.0,
                        )[k]);
                    }
                }
                assert(node_views(out@) =~= self.entries().take(i + 1).map_values(
                    |e: EntryView| e.0,
                ));
            }
            i = i + 1;
        }
        assert(self.entries().take(self.neighbours@.len() as int) =~= self.entries());
        out
    }

    /// Copies the neighbours together with their locations.
    fn copy_entries(&self) -> (r: Vec<(Node, KeySpace)>)
        ensures
            entry_views(r@) == self.entries(),
    {
        let mut out: Vec<(Node, KeySpace)> = Vec::new();
        let mut i: usize = 0;
        while i < self.neighbours.len()
            invariant
                i <= self.neighbours@.len(),
                out@.len() == i,
                entry_views(out@) == self.entries().take(i as int),
            decreases self.neighbours@.len() - i,
        {
            let e = &self.neighbours[i];
            let ghost prev = out@;
            let pair = (e.0.copy(), e.1.copy());
            out.push(pair);
            proof {
                assert((pair.0@, pair.1@) == self.entries()[i as int]);
                assert forall|k: int| 0 <= k < i + 1 implies entry_views(out@)[k]
                    == self.entries().take(i + 1)[k] by {
                    if k < i {
                        assert(out@[k] == prev[k]);
                        assert(entry_views(prev)[k] == self.entries().take(i as int)[k]);
                    }
                }
                assert(entry_views(out@) =~= self.entries().take(i + 1));
            }
            i = i + 1;
        }
        assert(self.entries().take(self.neighbours@.len() as int) =~= self.entries());
        out
    }

    /// Gets the (at most) `n` neighbours closest to `key` in key space, the
    /// closest first, neighbours at equal distance in the order in which they
    /// were added.
    pub fn get_n_closest(&self, key: &Key, n: usize) -> (r: Vec<Node>)
        requires
            self.wf(),
        ensures
            are_n_closest(self.entries(), key_space_of(key.data@, self.dims()), n as nat, node_views(r@)),
    {
        let mut neighbours = self.copy_entries();
        let target = self.key_space_manager.create_from_key(key);
        let ghost input = neighbours@;
        let location_fn = |e: &(Node, KeySpace)| -> (r: KeySpace)
            ensures
                r@ == e.1@,
            { e.1.copy() };
        proof {
            assert forall|i: int, k: KeySpace|
                0 <= i < input.len() && #[trigger] location_fn.ensures((&input[i],), k) implies k@.len()
                    == target@.len() by {
                assert(entry_views(input)[i].1 == self.entries()[i].1);
            }
        }
        self.key_space_manager.sort_key_relative(&mut neighbours, &location_fn, &target);
        let ghost keys = choose|keys: Seq<KeySpace>|
            crate::key_space::locations_from(location_fn, input, keys)
                && crate::key_space::is_stable_sort_by_distance(input, neighbours@, keys, target@);
        let ghost idx = choose|idx: Seq<int>|
            crate::key_space::sorts_by_distance(input, neighbours@, keys, target@, idx);
        proof {
            assert forall|i: int| 0 <= i < keys.len() implies #[trigger] keys[i]@ == self.entries()[i].1 by {
                assert(location_fn.ensures((&input[i],), keys[i]));
                assert(entry_views(input)[i].1 == self.entries()[i].1);
            }
            assert(keys.map_values(|k: KeySpace| k@) =~= entry_locations(self.entries()));
        }
        let mut out: Vec<Node> = Vec::new();
        let mut i: usize = 0;
        while i < n && i < neighbours.len()
            invariant
                i <= neighbours@.len(),
                i <= n,
                neighbours@.len() == input.len(),
                input.len() == self.entries().len(),
                crate::key_space::sorts_by_distance(input, neighbours@, keys, target@, idx),
                entry_views(input) == self.entries(),
                out@.len() == i,
                forall|k: int| 0 <= k < i ==> #[trigger] out@[k]@ == self.entries()[idx[k]].0,
            decreases neighbours@.len() - i,
        {
            out.push(neighbours[i].0.copy());
            proof {
                let k = i as int;
                assert(neighbours@[k] == input[idx[k]]);
                assert(entry_views(input)[idx[k]].0 == self.entries()[idx[k]].0);
            }
            i = i + 1;
        }
        proof {
            assert(target@ == key_space_of(key.data@, self.dims()));
            assert(distance_order(entry_locations(self.entries()), key_space_of(key.data@, self.dims()), idx));
            assert forall|k: int| 0 <= k < node_views(out@).len() implies #[trigger] node_views(out@)[k]
                == self.entries()[idx[k]].0 by {
                assert(out@[k]@ == self.entries()[idx[k]].0);
            }
        }
        out
    }

    /// Removes the neighbour with key `key`, if there is one.
    pub fn remove_by_key(&mut self, key: &Key)
        requires
            old(self).wf(),
        ensures
            final(self).wf(),
            final(self).entries() == without_key(old(self).entries(), key@),
            final(self).local_location() == old(self).local_location(),
            final(self).capacity() == old(self).capacity(),
            final(self).dims() == old(self).dims(),
    {
        let ghost before = self.entries();
        let mut out: Vec<(Node, KeySpace)> = Vec::new();
        let mut i: usize = 0;
        while i < self.neighbours.len()
            invariant
                i <= self.neighbours@.len(),
                before == self.entries(),
                entry_views(out@) == without_key(before.take(i as int), key@),
            decreases self.neighbours@.len() - i,
        {
            let e = &self.neighbours[i];
            proof {
                assert(before.take(i + 1).drop_last() =~= before.take(i as int));
            }
            if !e.0.key.same_as(key) {
                out.push((e.0.copy(), e.1.copy()));
                assert(entry_views(out@) =~= without_key(before.take(i + 1), key@));
            }
            i = i + 1;
        }
        assert(before.take(before.len() as int) =~= before);
        proof {
            lemma_without_key_wf(before, key@, self.local_key_space@, self.dims(), self.capacity());
        }
        self.neighbours = out;
    }

    /// What considering `node` as a neighbour comes to, before any
    /// verification or scoring.
    pub fn assess_candidate(&self, node: &Node) -> (r: CandidateAction)
        requires
            self.wf(),
        ensures
            r == candidate_action(
                self.entries(),
                self.local_location(),
                self.dims(),
                self.capacity(),
                node@,
            ),
    {
        let key_space = self.key_space_manager.create_from_key(&node.key);
        if key_space.same_as(&self.local_key_space) {
            return CandidateAction::Ignore();
        }
        let mut i: usize = 0;
        while i < self.neighbours.len()
            invariant
                self.wf(),
                key_space_of(node@.1.1, self.dims()) != self.local_location(),
                i <= self.neighbours@.len(),
                forall|k: int| 0 <= k < i ==> #[trigger] self.entries()[k].0.1 != node@.1,
            decreases self.neighbours@.len() - i,
        {
            if self.neighbours[i].0.key.same_as(&node.key) {
                proof {
                    let e = self.entries();
                    assert(e[i as int].0.1 == node@.1);
                    assert(has_key(e, node@.1));
                    let c = choose|c: int| 0 <= c < e.len() && #[trigger] e[c].0.1 == node@.1;
                    assert(c == i) by {
                        assert(entries_wf(e, self.local_key_space@, self.dims(), self.capacity()));
                        if c < i {
                            assert(e[c].0.1 != e[i as int].0.1);
                        } else if c > i {
                            assert(e[i as int].0.1 != e[c].0.1);
                        }
                    }
                    assert(e[i as int].0.0 == self.neighbours@[i as int].0.address@);
                }
                if self.neighbours[i].0.address.same_as(&node.address) {
                    return CandidateAction::Known();
                } else {
                    return CandidateAction::UpdateAddress();
                }
            }
            i = i + 1;
        }
        proof {
            if has_key(self.entries(), node@.1) {
                let c = choose|c: int| 0 <= c < self.entries().len() && #[trigger] self.entries()[c].0.1 == node@.1;
                assert(self.entries()[c].0.1 != node@.1);
            }
        }
        if self.neighbours.len() < self.max_num_neighbours {
            CandidateAction::Add()
        } else {
            CandidateAction::Compete()
        }
    }

    /// The neighbours together with the candidate `node`: the nodes among
    /// which the lowest scoring one is left out when the neighbours are full.
    pub fn potential_neighbours(&self, node: &Node) -> (r: Vec<(Node, KeySpace)>)
        requires
            self.wf(),
        ensures
            entry_views(r@) == self.entries().push(entry_of(node@, self.dims())),
    {
        let mut all = self.copy_entries();
        let key_space = self.key_space_manager.create_from_key(&node.key);
        let pair = (node.copy(), key_space);
        all.push(pair);
        assert(entry_views(all@) =~= self.entries().push(entry_of(node@, self.dims())));
        all
    }

    /// The location in key space of the local node.
    pub fn local_key_space(&self) -> (r: KeySpace)
        ensures
            r@ == self.local_location(),
    {
        self.local_key_space.copy()
    }

    /// Replaces the address of the neighbour with the key of `node` by the
    /// address of `node`.
    fn update_address(&mut self, node: &Node)
        requires
            old(self).wf(),
        ensures
            final(self).wf(),
            final(self).entries() == with_address(old(self).entries(), node@.1, node@.0),
            final(self).local_location() == old(self).local_location(),
            final(self).capacity() == old(self).capacity(),
            final(self).dims() == old(self).dims(),
    {
        let ghost before = self.entries();
        let mut out: Vec<(Node, KeySpace)> = Vec::new();
        let mut i: usize = 0;
        while i < self.neighbours.len()
            invariant
                i <= self.neighbours@.len(),
                before == self.entries(),
                out@.len() == i,
                entry_views(out@) == with_address(before.take(i as int), node@.1, node@.0),
            decreases self.neighbours@.len() - i,
        {
            let e = &self.neighbours[i];
            let ghost prev = out@;
            let pair = if e.0.key.same_as(&node.key) {
                (Node::new(node.address.copy(), e.0.key.copy()), e.1.copy())
            } else {
                (e.0.copy(), e.1.copy())
            };
            out.push(pair);
            proof {
                assert forall|k: int| 0 <= k < i + 1 implies entry_views(out@)[k] == with_address(
                    before.take(i + 1),
                    node@.1,
                    node@.0,
                )[k] by {
                    if k < i {
                        assert(out@[k] == prev[k]);
                        assert(entry_views(prev)[k] == with_address(before.take(i as int), node@.1, node@.0)[k]);
                    }
                }
                assert(entry_views(out@) =~= with_address(before.take(i + 1), node@.1, node@.0));
            }
            i = i + 1;
        }
        assert(before.take(before.len() as int) =~= before);
        proof {
            lemma_with_address_wf(before, node@.1, node@.0, self.local_key_space@, self.dims(), self.capacity());
        }
        self.neighbours = out;
    }

    /// Adds `node` as a neighbour.
    fn add_neighbour(&mut self, node: &Node)
        requires
            old(self).wf(),
            candidate_action(
                old(self).entries(),
                old(self).local_location(),
                old(self).dims(),
                old(self).capacity(),
                node@,
            ) == CandidateAction::Add(),
        ensures
            final(self).wf(),
            final(self).entries() == old(self).entries().push(entry_of(node@, old(self).dims())),
            final(self).local_location() == old(self).local_location(),
            final(self).capacity() == old(self).capacity(),
            final(self).dims() == old(self).dims(),
    {
        let key_space = self.key_space_manager.create_from_key(&node.key);
        let ghost before = self.entries();
        proof {
            lemma_push_wf(before, entry_of(node@, self.dims()), self.local_key_space@, self.dims(), self.capacity());
        }
        self.neighbours.push((node.copy(), key_space));
        assert(self.entries() =~= before.push(entry_of(node@, self.dims())));
    }

    /// Whether some neighbour has key identifier `key_id`.
    fn has_key_id(&self, key_id: &String) -> (r: bool)
        ensures
            r == has_key_id(self.entries(), key_id@),
    {
        let mut i: usize = 0;
        while i < self.neighbours.len()
            invariant
                i <= self.neighbours@.len(),
                forall|k: int| 0 <= k < i ==> #[trigger] self.entries()[k].0.1.0 != key_id@,
            decreases self.neighbours@.len() - i,
        {
            if self.neighbours[i].0.key.key_id == *key_id {
                assert(self.entries()[i as int].0.1.0 == key_id@);
                return true;
            }
            i = i + 1;
        }
        proof {
            if has_key_id(self.entries(), key_id@) {
                let c = choose|c: int| 0 <= c < self.entries().len() && #[trigger] self.entries()[c].0.1.0 == key_id@;
                assert(self.entries()[c].0.1.0 != key_id@);
            }
        }
        false
    }

    /// Considers keeping `node` as a neighbour.
    ///
    /// The local node itself and known neighbours at their known address are
    /// ignored. A known neighbour at a new address gets the new address, a
    /// new node is added while there is room, and when the neighbours are
    /// full `lowest_score_fn` picks, among the neighbours and the node, the
    /// key identifier of the one to leave out: the node replaces that
    /// neighbour, unless the node itself is picked (or no neighbour has that
    /// identifier). Each change happens only if the node is `trusted` or
    /// `verify_neighbour_fn` verifies it.
    pub fn consider_candidate<V: Fn(&Node) -> bool, S: Fn(&KeySpace, &Vec<(Node, KeySpace)>) -> String>(
        &mut self,
        node: &Node,
        trusted: bool,
        verify_neighbour_fn: &V,
        lowest_score_fn: &S,
    )
        requires
            old(self).wf(),
            !trusted ==> verify_neighbour_fn.requires((node,)),
            forall|l: &KeySpace, p: &Vec<(Node, KeySpace)>|
                l@ == old(self).local_location() && entry_views(p@) == old(self).entries().push(
                    entry_of(node@, old(self).dims()),
                ) ==> #[trigger] lowest_score_fn.requires((l, p)),
        ensures
            final(self).wf(),
            final(self).local_location() == old(self).local_location(),
            final(self).capacity() == old(self).capacity(),
            final(self).dims() == old(self).dims(),
            considered(
                old(self).entries(),
                old(self).local_location(),
                old(self).dims(),
                old(self).capacity(),
                node,
                trusted,
                *verify_neighbour_fn,
                *lowest_score_fn,
                final(self).entries(),
            ),
    {
        let action = self.assess_candidate(node);
        match action {
            CandidateAction::Ignore() => {},
            CandidateAction::Known() => {},
            CandidateAction::UpdateAddress() => {
                if trusted || verify_neighbour_fn(node) {
                    self.update_address(node);
                }
            },
            CandidateAction::Add() => {
                if trusted || verify_neighbour_fn(node) {
                    self.add_neighbour(node);
                }
            },
            CandidateAction::Compete() => {
                let potential = self.potential_neighbours(node);
                let worst = lowest_score_fn(&self.local_key_space, &potential);
                let ghost local = self.local_key_space;
                let ghost before = self.entries();
                if worst != node.key.key_id && self.has_key_id(&worst) {
                    if trusted || verify_neighbour_fn(node) {
                        proof {
                            lemma_without_key_id_shrinks(before, worst@);
                            lemma_without_key_id_keeps_absent(before, worst@, node@.1);
                        }
                        self.remove_by_key_id(&worst);
                        self.add_neighbour(node);
                    }
                }
                assert(call_ensures(*lowest_score_fn, (&local, &potential), worst));
            },
        }
    }

    /// Removes the neighbours with key identifier `key_id`.
    pub fn remove_by_key_id(&mut self, key_id: &String)
        requires
            old(self).wf(),
        ensures
            final(self).wf(),
            final(self).entries() == without_key_id(old(self).entries(), key_id@),
            final(self).local_location() == old(self).local_location(),
            final(self).capacity() == old(self).capacity(),
            final(self).dims() == old(self).dims(),
    {
        let ghost before = self.entries();
        let mut out: Vec<(Node, KeySpace)> = Vec::new();
        let mut i: usize = 0;
        while i < self.neighbours.len()
            invariant
                i <= self.neighbours@.len(),
                before == self.entries(),
                entry_views(out@) == without_key_id(before.take(i as int), key_id@),
            decreases self.neighbours@.len() - i,
        {
            let e = &self.neighbours[i];
            proof {
                assert(before.take(i + 1).drop_last() =~= before.take(i as int));
            }
            if e.0.key.key_id != *key_id {
                out.push((e.0.copy(), e.1.copy()));
                assert(entry_views(out@) =~= without_key_id(before.take(i + 1), key_id@));
            }
            i = i + 1;
        }
        assert(before.take(before.len() as int) =~= before);
        proof {
            lemma_without_key_id_wf(before, key_id@, self.local_key_space@, self.dims(), self.capacity());
        }
        self.neighbours = out;
    }
}


/// A store holds at most its capacity of neighbours, no two with the same
/// key, none at the local node's location, each with the location of its
/// key.
pub proof fn lemma_store_invariant(store: &NeighboursStore)
    requires
        store.wf(),
    ensures
        store.entries().len() <= store.capacity(),
        forall|i: int, j: int|
            0 <= i < j < store.entries().len() ==> store.entries()[i].0.1 != store.entries()[j].0.1,
        forall|i: int|
            0 <= i < store.entries().len() ==> #[trigger] store.entries()[i].1 != store.local_location(),
        forall|i: int|
            0 <= i < store.entries().len() ==> #[trigger] store.entries()[i].1 == key_space_of(
                store.entries()[i].0.1.1,
                store.dims(),
            ),
{
}

} // verus!
