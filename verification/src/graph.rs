//! How a daemon that searches the graph of nodes answers requests.
//!
//! Queries, neighbour listings and verifications are answered from the
//! neighbours store at once; searches and connections need a search through
//! the network, which is run around this module (see `search`).

use vstd::prelude::*;

use crate::api::{Key, KeySpace, Node, RequestPayload, ResponsePayload};
use crate::error::{Error, InternalError, InternalResult};
use crate::key_space::{
    distance_order, distance_order_lt, distance_total, key_space_of, lemma_distance_order_lists_all,
};
use crate::neighbours::{
    are_n_closest, considered, entry_locations, entry_of, entry_views, lemma_store_invariant, node_views,
    EntryView, NeighboursStore, NodeView,
};

verus! {

/// How many of its closest neighbours a node answers a query with.
pub const NUM_QUERY_NEIGHBOURS: usize = 3;

/// What answering a request comes to.
pub enum GraphStep {
    /// Respond with this payload.
    Respond(ResponsePayload),
    /// Search the network for the node of this key, and respond with what
    /// is found.
    Search(Key),
    /// Connect to the network through this node, and respond when done.
    Connect(Node),
}

/// The nodes of a sequence of neighbours.
pub open spec fn entry_nodes(entries: Seq<EntryView>) -> Seq<NodeView> {
    entries.map_values(|e: EntryView| e.0)
}

/// Whether `r` answers `payload` with the neighbours in `store`: a query
/// with the neighbours closest to its key (at most `NUM_QUERY_NEIGHBOURS`), a
/// neighbour listing with all neighbours, a verification with an empty
/// response; searches and connections are run through the network.
pub open spec fn answers(store: NeighboursStore, payload: RequestPayload, r: GraphStep) -> bool {
    match payload {
        RequestPayload::QueryRequest(key) => r matches GraphStep::Respond(
            ResponsePayload::QueryResponse(nodes),
        ) && are_n_closest(
            store.entries(),
            key_space_of(key.data@, store.dims()),
            NUM_QUERY_NEIGHBOURS as nat,
            node_views(nodes@),
        ),
        RequestPayload::ListNeighboursRequest() => r matches GraphStep::Respond(
            ResponsePayload::ListNeighboursResponse(nodes),
        ) && node_views(nodes@) == entry_nodes(store.entries()),
        RequestPayload::VerifyRequest() => r matches GraphStep::Respond(ResponsePayload::VerifyResponse()),
        RequestPayload::SearchRequest(key) => r matches GraphStep::Search(k) && k@ == key@,
        RequestPayload::ConnectRequest(node) => r matches GraphStep::Connect(n) && n@ == node@,
    }
}

/// A neighbour listing is answered with every neighbour of the store, in the
/// store's order: as many nodes as there are neighbours, whatever their
/// number.
pub proof fn lemma_listing_has_every_neighbour(store: NeighboursStore, r: GraphStep)
    requires
        answers(store, RequestPayload::ListNeighboursRequest(), r),
    ensures
        r matches GraphStep::Respond(ResponsePayload::ListNeighboursResponse(nodes)) && nodes@.len()
            == store.entries().len() && forall|i: int|
            0 <= i < nodes@.len() ==> #[trigger] nodes@[i]@ == store.entries()[i].0,
{
    if let GraphStep::Respond(ResponsePayload::ListNeighboursResponse(nodes)) = r {
        assert(node_views(nodes@).len() == nodes@.len());
        assert forall|i: int| 0 <= i < nodes@.len() implies #[trigger] nodes@[i]@ == store.entries()[i].0 by {
            assert(node_views(nodes@)[i] == nodes@[i]@);
            assert(entry_nodes(store.entries())[i] == store.entries()[i].0);
        }
    }
}

/// The full distance total of the location of node `n`'s key to that of the
/// key data `key`, in a key space of `dims` dimensions.
pub open spec fn key_distance(n: NodeView, key: Seq<u8>, dims: nat) -> int {
    distance_total(key_space_of(n.1.1, dims), key_space_of(key, dims))
}

/// A query is answered with the neighbours nearest to the queried key: as
/// many as `NUM_QUERY_NEIGHBOURS`, or all neighbours when there are fewer,
/// each a neighbour of the store, nearest first by the full distance total
/// of their locations to the key's; and no neighbour left out is nearer than
/// one given.
pub proof fn lemma_query_answered_with_nearest(store: NeighboursStore, key: Key, r: GraphStep)
    requires
        store.wf(),
        answers(store, RequestPayload::QueryRequest(key), r),
    ensures
        r matches GraphStep::Respond(ResponsePayload::QueryResponse(nodes)) && nodes@.len()
            == if store.entries().len() < NUM_QUERY_NEIGHBOURS {
            store.entries().len() as int
        } else {
            NUM_QUERY_NEIGHBOURS as int
        },
        r matches GraphStep::Respond(ResponsePayload::QueryResponse(nodes)) ==> forall|k: int|
            0 <= k < nodes@.len() ==> entry_nodes(store.entries()).contains(#[trigger] nodes@[k]@),
        r matches GraphStep::Respond(ResponsePayload::QueryResponse(nodes)) ==> forall|k: int, l: int|
            0 <= k < l < nodes@.len() ==> key_distance(#[trigger] nodes@[k]@, key.data@, store.dims())
                <= key_distance(#[trigger] nodes@[l]@, key.data@, store.dims()),
        r matches GraphStep::Respond(ResponsePayload::QueryResponse(nodes)) ==> forall|j: int, k: int|
            0 <= j < store.entries().len() && 0 <= k < nodes@.len() && (forall|m: int|
                0 <= m < nodes@.len() ==> nodes@[m]@ != store.entries()[j].0) ==> key_distance(
                #[trigger] nodes@[k]@,
                key.data@,
                store.dims(),
            ) <= key_distance(#[trigger] store.entries()[j].0, key.data@, store.dims()),
{
    lemma_store_invariant(&store);
    let entries = store.entries();
    let dims = store.dims();
    let target = key_space_of(key.data@, dims);
    if let GraphStep::Respond(ResponsePayload::QueryResponse(nodes)) = r {
        let nv = node_views(nodes@);
        let locs = entry_locations(entries);
        let idx = choose|idx: Seq<int>|
            {
                &&& #[trigger] distance_order(locs, target, idx)
                &&& nv.len() == if NUM_QUERY_NEIGHBOURS <= entries.len() {
                    NUM_QUERY_NEIGHBOURS as int
                } else {
                    entries.len() as int
                }
                &&& forall|k: int| 0 <= k < nv.len() ==> #[trigger] nv[k] == entries[idx[k]].0
            };
        assert forall|k: int| 0 <= k < nodes@.len() implies nodes@[k]@ == entries[idx[k]].0
            && key_distance(nodes@[k]@, key.data@, store.dims()) == distance_total(locs[idx[k]], target) by {
            assert(nv[k] == nodes@[k]@);
            assert(locs[idx[k]] == entries[idx[k]].1);
        }
        assert forall|k: int| 0 <= k < nodes@.len() implies entry_nodes(store.entries()).contains(
            #[trigger] nodes@[k]@,
        ) by {
            assert(entry_nodes(entries)[idx[k]] == nodes@[k]@);
        }
        assert forall|k: int, l: int| 0 <= k < l < nodes@.len() implies key_distance(
            #[trigger] nodes@[k]@,
            key.data@,
            store.dims(),
        ) <= key_distance(#[trigger] nodes@[l]@, key.data@, store.dims()) by {
            assert(distance_order_lt(
                distance_total(locs[idx[k]], target),
                idx[k],
                distance_total(locs[idx[l]], target),
                idx[l],
            ));
        }
        assert forall|j: int, k: int|
            0 <= j < entries.len() && 0 <= k < nodes@.len() && (forall|m: int|
                0 <= m < nodes@.len() ==> nodes@[m]@ != entries[j].0) implies key_distance(
            #[trigger] nodes@[k]@,
            key.data@,
            store.dims(),
        ) <= key_distance(#[trigger] entries[j].0, key.data@, store.dims()) by {
            lemma_distance_order_lists_all(locs, target, idx, j);
            let m = choose|m: int| 0 <= m < idx.len() && idx[m] == j;
            if m < nodes@.len() {
                assert(nodes@[m]@ == entries[j].0);
            }
            assert(k < m);
            assert(distance_order_lt(
                distance_total(locs[idx[k]], target),
                idx[k],
                distance_total(locs[idx[m]], target),
                idx[m],
            ));
            assert(locs[j] == entries[j].1);
        }
    }
}

/// Decides how to answer `payload` with the neighbours in `store` (see
/// `answers`).
pub fn answer_request(store: &NeighboursStore, payload: &RequestPayload) -> (r: GraphStep)
    requires
        store.wf(),
    ensures
        answers(*store, *payload, r),
{
    match payload {
        RequestPayload::QueryRequest(key) => GraphStep::Respond(
            ResponsePayload::QueryResponse(store.get_n_closest(key, NUM_QUERY_NEIGHBOURS)),
        ),
        RequestPayload::ListNeighboursRequest() => GraphStep::Respond(
            ResponsePayload::ListNeighboursResponse(store.get_all()),
        ),
        RequestPayload::VerifyRequest() => GraphStep::Respond(ResponsePayload::VerifyResponse()),
        RequestPayload::SearchRequest(key) => GraphStep::Search(key.copy()),
        RequestPayload::ConnectRequest(node) => GraphStep::Connect(node.copy()),
    }
}

/// Takes in `payload` from `sender` (none for the local client): another node
/// that sends a request is considered, as trusted, as a neighbour (see
/// `considered`), and the request is then answered with the neighbours as
/// they stand after that (see `answers`).
pub fn receive_request<V: Fn(&Node) -> bool, S: Fn(&KeySpace, &Vec<(Node, KeySpace)>) -> String>(
    store: &mut NeighboursStore,
    payload: &RequestPayload,
    sender: &Option<Node>,
    verify_neighbour_fn: &V,
    lowest_score_fn: &S,
) -> (r: GraphStep)
    requires
        old(store).wf(),
        *sender matches Some(n) ==> forall|l: &KeySpace, p: &Vec<(Node, KeySpace)>|
            l@ == old(store).local_location() && entry_views(p@) == old(store).entries().push(
                entry_of(n@, old(store).dims()),
            ) ==> #[trigger] lowest_score_fn.requires((l, p)),
    ensures
        final(store).wf(),
        final(store).local_location() == old(store).local_location(),
        final(store).capacity() == old(store).capacity(),
        final(store).dims() == old(store).dims(),
        match *sender {
            Some(n) => considered(
                old(store).entries(),
                old(store).local_location(),
                old(store).dims(),
                old(store).capacity(),
                &n,
                true,
                *verify_neighbour_fn,
                *lowest_score_fn,
                final(store).entries(),
            ),
            None => final(store).entries() == old(store).entries(),
        },
        answers(*final(store), *payload, r),
{
    if let Some(n) = sender {
        store.consider_candidate(n, true, verify_neighbour_fn, lowest_score_fn);
    }
    answer_request(store, payload)
}

/// The message of the error for an answer to a query that is not a query
/// response.
pub open spec fn incorrect_query_response_message() -> Seq<char> {
    "Incorrect response for query request"@
}

/// The neighbours that a queried node answered with: those of a query
/// response; any other response is an error, and a failed query fails.
pub fn query_response_nodes(response: InternalResult<ResponsePayload>) -> (r: InternalResult<Vec<Node>>)
    ensures
        match response {
            Ok(ResponsePayload::QueryResponse(nodes)) => r == Ok::<Vec<Node>, InternalError>(nodes),
            Ok(_) => r matches Err(InternalError::PrivateError(Error::ResponseError(m))) && m@
                == incorrect_query_response_message(),
            Err(e) => r == Err::<Vec<Node>, InternalError>(e),
        },
{
    match response {
        Ok(ResponsePayload::QueryResponse(nodes)) => Ok(nodes),
        Ok(_) => {
            proof {
                reveal_strlit("Incorrect response for query request");
            }
            Err(InternalError::private(Error::ResponseError(String::from_str("Incorrect response for query request"))))
        },
        Err(e) => Err(e),
    }
}

} // verus!
