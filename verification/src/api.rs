//! The values exchanged between nodes and between a node and its command line
//! client: addresses, keys, nodes, points in key space, requests and responses.
//!
//! Both daemon-to-daemon and client-to-daemon communication use the same
//! constructs. Each request is tied to a visibility scope, so that some kinds
//! of request are only answered for the local client and others only for
//! remote nodes.

use vstd::prelude::*;

use crate::codec::{append_signed_decimal, be_u16, read_u16_be, seq_u8_eq, signed_decimal};

verus! {

/// IPv4 addresses can be carried inside IPv6 addresses: the first twelve bytes
/// of such an IPv6 address are this prefix, and the last four are the IPv4
/// address.
pub open spec fn ipv4_in_ipv6_prefix() -> Seq<u8> {
    seq![0u8, 0u8, 0u8, 0u8, 0u8, 0u8, 0u8, 0u8, 0u8, 0u8, 0xFFu8, 0xFFu8]
}

/// Whether `ip` is an IPv6 address that carries an IPv4 address.
pub open spec fn is_ipv4_mapped(ip: Seq<u8>) -> bool {
    ip.len() == 16 && ip.take(12) == ipv4_in_ipv6_prefix()
}

/// The IP bytes that `Address::new` keeps: the IPv4 address carried by an
/// IPv4-mapped IPv6 address, and the bytes unchanged otherwise.
pub open spec fn normalized_ip(ip: Seq<u8>) -> Seq<u8> {
    if is_ipv4_mapped(ip) {
        ip.skip(12)
    } else {
        ip
    }
}

/// Normalizing IP bytes twice is normalizing them once.
pub proof fn lemma_normalized_ip_idempotent(ip: Seq<u8>)
    ensures
        normalized_ip(normalized_ip(ip)) == normalized_ip(ip),
{
}

/// `Address::new` changes the IP bytes only of an IPv4-mapped IPv6 address
/// (sixteen bytes starting with ten zero bytes and two `0xFF` bytes), which
/// become the four bytes of the IPv4 address it carries; all other IP bytes,
/// IPv4 ones and every other IPv6 address such as `::1`, stay as they are.
pub proof fn lemma_only_ipv4_mapped_addresses_change(ip: Seq<u8>)
    requires
        ip.len() == 4 || ip.len() == 16,
    ensures
        ip.len() == 16 && ip.take(12) == seq![0u8, 0u8, 0u8, 0u8, 0u8, 0u8, 0u8, 0u8, 0u8, 0u8, 0xFFu8, 0xFFu8]
            ==> normalized_ip(ip) == seq![ip[12], ip[13], ip[14], ip[15]],
        !(ip.len() == 16 && ip.take(12) == seq![0u8, 0u8, 0u8, 0u8, 0u8, 0u8, 0u8, 0u8, 0u8, 0u8, 0xFFu8, 0xFFu8])
            ==> normalized_ip(ip) == ip,
{
    if is_ipv4_mapped(ip) {
        assert(ip.skip(12) =~= seq![ip[12], ip[13], ip[14], ip[15]]);
    }
}

/// An address of a node.
#[derive(Clone, Debug, PartialEq, Eq)]
pub struct Address {
    /// The IP address data: 4 bytes for IPv4, 16 bytes for IPv6.
    pub ip_data: Vec<u8>,
    /// The port number of the address.
    pub port: u16,
}

impl View for Address {
    type V = (Seq<u8>, u16);

    open spec fn view(&self) -> (Seq<u8>, u16) {
        (self.ip_data@, self.port)
    }
}

impl Address {
    /// Whether the IP data has the length of an IPv4 or an IPv6 address.
    pub open spec fn is_valid(&self) -> bool {
        self.ip_data@.len() == 4 || self.ip_data@.len() == 16
    }

    /// Creates an address from IP bytes and a port. An IPv4-mapped IPv6
    /// address is normalized to the IPv4 address it carries.
    pub fn new(ip_data: Vec<u8>, port: u16) -> (r: Address)
        requires
            ip_data@.len() == 4 || ip_data@.len() == 16,
        ensures
            r.ip_data@ == normalized_ip(ip_data@),
            r.port == port,
            r.is_valid(),
    {
        let mut ip_data = ip_data;
        if ip_data.len() == 16 && has_ipv4_in_ipv6_prefix(&ip_data) {
            let mut v4: Vec<u8> = Vec::new();
            let mut i: usize = 12;
            while i < 16
                invariant
                    12 <= i <= 16,
                    ip_data@.len() == 16,
                    v4@ == ip_data@.subrange(12, i as int),
                decreases 16 - i,
            {
                v4.push(ip_data[i]);
                i = i + 1;
            }
            assert(v4@ == ip_data@.skip(12));
            ip_data = v4;
        }
        Address { ip_data, port }
    }

    /// The eight 16-bit segments of an IPv6 address, each made of two bytes
    /// in big-endian order.
    pub fn ipv6_segments(&self) -> (r: Vec<u16>)
        requires
            self.ip_data@.len() == 16,
        ensures
            r@.len() == 8,
            forall|i: int|
                0 <= i < 8 ==> #[trigger] r@[i] as int == be_u16(self.ip_data@[2 * i], self.ip_data@[2 * i + 1]),
    {
        let mut out: Vec<u16> = Vec::new();
        let mut i: usize = 0;
        while i < 8
            invariant
                i <= 8,
                self.ip_data@.len() == 16,
                out@.len() == i,
                forall|k: int|
                    0 <= k < i ==> #[trigger] out@[k] as int == be_u16(self.ip_data@[2 * k], self.ip_data@[2 * k + 1]),
            decreases 8 - i,
        {
            let pair: Vec<u8> = vec![self.ip_data[2 * i], self.ip_data[2 * i + 1]];
            out.push(read_u16_be(pair.as_slice()));
            i = i + 1;
        }
        out
    }

    /// Copies the address.
    pub fn copy(&self) -> (r: Address)
        ensures
            r@ == self@,
    {
        Address { ip_data: self.ip_data.clone(), port: self.port }
    }

    /// Whether two addresses hold the same IP bytes and port.
    pub fn same_as(&self, other: &Address) -> (r: bool)
        ensures
            r == (self@ == other@),
    {
        self.port == other.port && seq_u8_eq(&self.ip_data, &other.ip_data)
    }
}

/// Whether the first twelve bytes of `ip` are the IPv4-in-IPv6 prefix.
fn has_ipv4_in_ipv6_prefix(ip: &Vec<u8>) -> (r: bool)
    requires
        ip@.len() == 16,
    ensures
        r == (ip@.take(12) == ipv4_in_ipv6_prefix()),
{
    let mut i: usize = 0;
    while i < 12
        invariant
            i <= 12,
            ip@.len() == 16,
            forall|j: int| 0 <= j < i ==> ip@[j] == ipv4_in_ipv6_prefix()[j],
        decreases 12 - i,
    {
        let expected: u8 = if i < 10 { 0 } else { 0xFF };
        if ip[i] != expected {
            assert(ip@.take(12)[i as int] != ipv4_in_ipv6_prefix()[i as int]);
            return false;
        }
        i = i + 1;
    }
    assert(ip@.take(12) =~= ipv4_in_ipv6_prefix());
    true
}

/// Public key of a node: an identifier of eight characters and the key's data.
#[derive(Clone, Debug, PartialEq, Eq)]
pub struct Key {
    /// The key identifier, eight characters long.
    pub key_id: String,
    /// The key's data, from which the key's location in key space is derived.
    pub data: Vec<u8>,
}

impl View for Key {
    type V = (Seq<char>, Seq<u8>);

    open spec fn view(&self) -> (Seq<char>, Seq<u8>) {
        (self.key_id@, self.data@)
    }
}

impl Key {
    /// Creates a key from its identifier and its data.
    pub fn new(key_id: String, data: Vec<u8>) -> (r: Key)
        requires
            key_id@.len() == 8,
        ensures
            r.key_id@ == key_id@,
            r.data@ == data@,
    {
        Key { key_id, data }
    }

    /// Gets the data of the key.
    pub fn get_data(&self) -> (r: &Vec<u8>)
        ensures
            r@ == self.data@,
    {
        &self.data
    }

    /// Gets the identifier of the key.
    pub fn get_key_id(&self) -> (r: &String)
        ensures
            r@ == self.key_id@,
    {
        &self.key_id
    }

    /// The text of the key, as in `Key(1234ABCD)`.
    pub fn to_string(&self) -> (r: String)
        ensures
            r@ == "Key("@ + self.key_id@ + ")"@,
    {
        let mut r = String::from_str("Key(");
        r.append(self.key_id.as_str());
        r.append(")");
        r
    }

    /// Copies the key.
    pub fn copy(&self) -> (r: Key)
        ensures
            r@ == self@,
    {
        Key { key_id: self.key_id.clone(), data: self.data.clone() }
    }

    /// Whether two keys have the same identifier and the same data.
    pub fn same_as(&self, other: &Key) -> (r: bool)
        ensures
            r == (self@ == other@),
    {
        self.key_id == other.key_id && seq_u8_eq(&self.data, &other.data)
    }
}

/// A node (i.e. user) in the network.
#[derive(Clone, Debug, PartialEq, Eq)]
pub struct Node {
    /// The address of the node, used for communicating with it.
    pub address: Address,
    /// The public key of the node, from which its location in key space is
    /// derived.
    pub key: Key,
}

impl View for Node {
    type V = ((Seq<u8>, u16), (Seq<char>, Seq<u8>));

    open spec fn view(&self) -> ((Seq<u8>, u16), (Seq<char>, Seq<u8>)) {
        (self.address@, self.key@)
    }
}

impl Node {
    /// Creates a node from its address and key.
    pub fn new(address: Address, key: Key) -> (r: Node)
        ensures
            r.address@ == address@,
            r.key@ == key@,
    {
        Node { address, key }
    }

    /// Copies the node.
    pub fn copy(&self) -> (r: Node)
        ensures
            r@ == self@,
    {
        Node { address: self.address.copy(), key: self.key.copy() }
    }

    /// Whether two nodes have the same address and key.
    pub fn same_as(&self, other: &Node) -> (r: bool)
        ensures
            r == (self@ == other@),
    {
        self.address.same_as(&other.address) && self.key.same_as(&other.key)
    }
}

/// The coordinates of a location, in decimal, separated by commas.
pub open spec fn coords_text(coords: Seq<i32>) -> Seq<char>
    decreases coords.len(),
{
    if coords.len() == 0 {
        Seq::empty()
    } else if coords.len() == 1 {
        signed_decimal(coords[0] as int)
    } else {
        coords_text(coords.drop_last()) + ", "@ + signed_decimal(coords.last() as int)
    }
}

/// A location in key space, given by its coordinates.
#[derive(Clone, Debug, PartialEq, Eq)]
pub struct KeySpace {
    /// Coordinates in key space.
    pub coords: Vec<i32>,
}

impl View for KeySpace {
    type V = Seq<i32>;

    open spec fn view(&self) -> Seq<i32> {
        self.coords@
    }
}

impl KeySpace {
    /// Creates a location in key space from its coordinates.
    pub fn new(coords: Vec<i32>) -> (r: KeySpace)
        ensures
            r@ == coords@,
    {
        KeySpace { coords }
    }

    /// The number of dimensions of the location.
    pub fn get_size(&self) -> (r: usize)
        ensures
            r == self@.len(),
    {
        self.coords.len()
    }

    /// The text of the location, as in `KeySpace(1, -2)`.
    pub fn to_string(&self) -> (r: String)
        ensures
            r@ == "KeySpace("@ + coords_text(self@) + ")"@,
    {
        let mut r = String::from_str("KeySpace(");
        let ghost start = r@;
        let mut i: usize = 0;
        while i < self.coords.len()
            invariant
                i <= self@.len(),
                r@ == start + coords_text(self@.take(i as int)),
            decreases self@.len() - i,
        {
            let ghost before = r@;
            proof {
                assert(self@.take(i + 1).drop_last() =~= self@.take(i as int));
                assert(self@.take(i + 1).last() == self@[i as int]);
            }
            if i > 0 {
                r.append(", ");
            }
            append_signed_decimal(&mut r, self.coords[i] as i64);
            proof {
                if i > 0 {
                    assert(r@ =~= start + coords_text(self@.take(i as int)) + ", "@ + signed_decimal(
                        self@[i as int] as int,
                    ));
                } else {
                    assert(self@.take(1) =~= seq![self@[0]]);
                    assert(r@ =~= start + signed_decimal(self@[0] as int));
                }
            }
            i = i + 1;
        }
        assert(self@.take(self@.len() as int) =~= self@);
        r.append(")");
        r
    }

    /// Copies the location.
    pub fn copy(&self) -> (r: KeySpace)
        ensures
            r@ == self@,
    {
        KeySpace { coords: self.coords.clone() }
    }

    /// Whether two locations have the same coordinates.
    pub fn same_as(&self, other: &KeySpace) -> (r: bool)
        ensures
            r == (self@ == other@),
    {
        if self.coords.len() != other.coords.len() {
            return false;
        }
        let mut i: usize = 0;
        while i < self.coords.len()
            invariant
                i <= self@.len(),
                self@.len() == other@.len(),
                forall|j: int| 0 <= j < i ==> self@[j] == other@[j],
            decreases self@.len() - i,
        {
            if self.coords[i] != other.coords[i] {
                return false;
            }
            i = i + 1;
        }
        assert(self@ =~= other@);
        true
    }
}

/// The visibility of an API call.
#[derive(Clone, Copy, Debug, PartialEq, Eq, Structural)]
pub enum ApiVisibility {
    /// The call is available for local connections from the command line
    /// client.
    Local(),
    /// The call is available for remote connections from other nodes.
    Global(),
}

/// Message passed between nodes, with a generic payload and the metadata of
/// the message.
#[derive(Clone, Debug)]
pub struct MessageBody<T> {
    /// The payload of the message.
    pub payload: T,
    /// The identifier of the message.
    pub id: u32,
    /// The version of the sender of the message.
    pub version: String,
}

impl<T> MessageBody<T> {
    /// Creates a message body.
    pub fn new(payload: T, id: u32, version: String) -> (r: MessageBody<T>)
        ensures
            r.payload == payload,
            r.id == id,
            r.version@ == version@,
    {
        MessageBody { payload, id, version }
    }
}

/// The kinds of request and their payloads.
#[derive(Clone, Debug, PartialEq, Eq)]
pub enum RequestPayload {
    /// Search the network for the node that owns a key.
    SearchRequest(Key),
    /// Query for the closest known nodes to a key (in key space).
    QueryRequest(Key),
    /// Connect to a network through a node that is already connected.
    ConnectRequest(Node),
    /// List all neighbours.
    ListNeighboursRequest(),
    /// Verify that a node is alive, and owned by a specific key.
    VerifyRequest(),
}

/// Whether a request of this kind is answered in the given scope: searches,
/// connections and neighbour listings only for the local client, queries and
/// verifications only for remote nodes.
pub open spec fn request_visible(payload: RequestPayload, visibility: ApiVisibility) -> bool {
    match payload {
        RequestPayload::SearchRequest(_) => visibility == ApiVisibility::Local(),
        RequestPayload::QueryRequest(_) => visibility == ApiVisibility::Global(),
        RequestPayload::ConnectRequest(_) => visibility == ApiVisibility::Local(),
        RequestPayload::ListNeighboursRequest() => visibility == ApiVisibility::Local(),
        RequestPayload::VerifyRequest() => visibility == ApiVisibility::Global(),
    }
}

impl RequestPayload {
    /// Checks if the request is visible in an API visibility.
    pub fn is_visible(&self, visibility: &ApiVisibility) -> (r: bool)
        ensures
            r == request_visible(*self, *visibility),
    {
        match self {
            RequestPayload::SearchRequest(_) => *visibility == ApiVisibility::Local(),
            RequestPayload::QueryRequest(_) => *visibility == ApiVisibility::Global(),
            RequestPayload::ConnectRequest(_) => *visibility == ApiVisibility::Local(),
            RequestPayload::ListNeighboursRequest() => *visibility == ApiVisibility::Local(),
            RequestPayload::VerifyRequest() => *visibility == ApiVisibility::Global(),
        }
    }
}

/// The response for a given request.
#[derive(Clone, Debug, PartialEq, Eq)]
pub enum ResponsePayload {
    /// Response for a search request: the node found, if any.
    SearchResponse(Option<Node>),
    /// Response for a query request: the closest known nodes.
    QueryResponse(Vec<Node>),
    /// Response for a connect request.
    ConnectResponse(),
    /// Response for a list-neighbours request.
    ListNeighboursResponse(Vec<Node>),
    /// Response for a verify request.
    VerifyResponse(),
}

/// A request body.
pub type RequestBody = MessageBody<RequestPayload>;

/// A response body: the response payload, or the error that prevented it.
pub type ResponseBody = MessageBody<Result<ResponsePayload, crate::error::ApiError>>;

/// Request with authenticity and secrecy.
pub struct Request {
    /// The sender of the request.
    pub sender: Node,
    /// Signature of the decrypted body, signed by the sender's private key.
    pub body_signature: Vec<u8>,
    /// The body, encrypted with the recipient's public key.
    pub encrypted_body: Vec<u8>,
}

impl Request {
    /// Creates a request.
    pub fn new(sender: Node, body_signature: Vec<u8>, encrypted_body: Vec<u8>) -> (r: Request)
        ensures
            r.sender@ == sender@,
            r.body_signature@ == body_signature@,
            r.encrypted_body@ == encrypted_body@,
    {
        Request { sender, body_signature, encrypted_body }
    }
}

/// Response with authenticity and secrecy.
pub struct Response {
    /// Signature of the decrypted body, signed by the sender's private key.
    pub body_signature: Vec<u8>,
    /// The body, encrypted with the recipient's public key.
    pub encrypted_body: Vec<u8>,
}

impl Response {
    /// Creates a response.
    pub fn new(body_signature: Vec<u8>, encrypted_body: Vec<u8>) -> (r: Response)
        ensures
            r.body_signature@ == body_signature@,
            r.encrypted_body@ == encrypted_body@,
    {
        Response { body_signature, encrypted_body }
    }
}

} // verus!
