//! Locations in key space: how a key is projected into an n-dimensional space,
//! the distance between two locations, and orderings of values by their
//! distance to a location.

use vstd::prelude::*;

use crate::api::{Key, KeySpace};
use crate::codec::{be_i32, read_i32_be};
use vstd::multiset::Multiset;

verus! {

/// The XOR of all bytes of `data` whose position is `i` modulo `width`.
pub open spec fn column_xor(data: Seq<u8>, width: nat, i: nat) -> u8
    decreases data.len(),
{
    if data.len() == 0 {
        0
    } else {
        let prev = column_xor(data.drop_last(), width, i);
        if (data.len() - 1) % (width as int) == i {
            prev ^ data.last()
        } else {
            prev
        }
    }
}

/// Coordinate `d` of the location of `data` in a key space of `dims`
/// dimensions: the data is folded into `4 * dims` bytes by XOR-ing together
/// the bytes at equal positions modulo `4 * dims`, and coordinate `d` is the
/// big-endian signed integer made of the folded bytes `4d .. 4d + 4`.
pub open spec fn key_space_coord(data: Seq<u8>, dims: nat, d: nat) -> int {
    let w = 4 * dims;
    be_i32(
        column_xor(data, w, 4 * d),
        column_xor(data, w, 4 * d + 1),
        column_xor(data, w, 4 * d + 2),
        column_xor(data, w, 4 * d + 3),
    )
}

/// The location of `data` in a key space of `dims` dimensions.
pub open spec fn key_space_of(data: Seq<u8>, dims: nat) -> Seq<i32> {
    Seq::new(dims, |d: int| key_space_coord(data, dims, d as nat) as i32)
}

/// The bytewise XOR of two byte sequences of equal length.
pub open spec fn xor_bytes(b: Seq<u8>, c: Seq<u8>) -> Seq<u8> {
    Seq::new(b.len(), |i: int| b[i] ^ c[i])
}

/// Folding at most one block of `w` bytes leaves each byte where it is, and
/// zero past the end of the data.
proof fn lemma_column_xor_one_block(data: Seq<u8>, w: nat, i: nat)
    requires
        data.len() <= w,
        i < w,
    ensures
        column_xor(data, w, i) == if i < data.len() {
            data[i as int]
        } else {
            0u8
        },
    decreases data.len(),
{
    if data.len() > 0 {
        let n = (data.len() - 1) as nat;
        lemma_column_xor_one_block(data.drop_last(), w, i);
        vstd::arithmetic::div_mod::lemma_small_mod(n, w);
        if n == i {
            let x = data.last();
            assert(0u8 ^ x == x) by (bit_vector);
        }
    }
}

/// Folding a block of `w` bytes followed by more data XORs the folds of the
/// two together.
proof fn lemma_column_xor_after_block(a: Seq<u8>, d: Seq<u8>, w: nat, i: nat)
    requires
        a.len() == w,
        i < w,
    ensures
        column_xor(a + d, w, i) == column_xor(a, w, i) ^ column_xor(d, w, i),
    decreases d.len(),
{
    let p = column_xor(a, w, i);
    if d.len() == 0 {
        assert(a + d =~= a);
        assert(p ^ 0u8 == p) by (bit_vector);
    } else {
        let n = (d.len() - 1) as int;
        assert((a + d).drop_last() =~= a + d.drop_last());
        assert((a + d).last() == d.last());
        lemma_column_xor_after_block(a, d.drop_last(), w, i);
        vstd::arithmetic::div_mod::lemma_mod_add_multiples_vanish(n, w as int);
        assert((a + d).len() - 1 == w + n);
        let q = column_xor(d.drop_last(), w, i);
        let x = d.last();
        assert((p ^ q) ^ x == p ^ (q ^ x)) by (bit_vector);
    }
}

/// A key of one block of `4 * dims` bytes lies at the location whose
/// coordinate `d` is the big-endian signed integer of bytes `4d .. 4d + 4`.
pub proof fn lemma_key_space_of_one_block(b: Seq<u8>, dims: nat)
    requires
        b.len() == 4 * dims,
    ensures
        forall|d: int|
            0 <= d < dims ==> #[trigger] key_space_of(b, dims)[d] == be_i32(
                b[4 * d],
                b[4 * d + 1],
                b[4 * d + 2],
                b[4 * d + 3],
            ) as i32,
{
    assert forall|d: int| 0 <= d < dims implies #[trigger] key_space_of(b, dims)[d] == be_i32(
        b[4 * d],
        b[4 * d + 1],
        b[4 * d + 2],
        b[4 * d + 3],
    ) as i32 by {
        lemma_column_xor_one_block(b, 4 * dims, (4 * d) as nat);
        lemma_column_xor_one_block(b, 4 * dims, (4 * d + 1) as nat);
        lemma_column_xor_one_block(b, 4 * dims, (4 * d + 2) as nat);
        lemma_column_xor_one_block(b, 4 * dims, (4 * d + 3) as nat);
    }
}

/// A key made of two blocks of `4 * dims` bytes lies where the bytewise XOR
/// of the two blocks lies.
pub proof fn lemma_key_space_of_two_blocks(b: Seq<u8>, c: Seq<u8>, dims: nat)
    requires
        b.len() == 4 * dims,
        c.len() == 4 * dims,
    ensures
        key_space_of(b + c, dims) == key_space_of(xor_bytes(b, c), dims),
{
    let w = 4 * dims;
    assert forall|i: nat| i < w implies column_xor(b + c, w, i) == column_xor(xor_bytes(b, c), w, i) by {
        lemma_column_xor_after_block(b, c, w, i);
        lemma_column_xor_one_block(b, w, i);
        lemma_column_xor_one_block(c, w, i);
        lemma_column_xor_one_block(xor_bytes(b, c), w, i);
    }
    assert forall|d: int| 0 <= d < dims implies #[trigger] key_space_of(b + c, dims)[d] == key_space_of(
        xor_bytes(b, c),
        dims,
    )[d] by {
        assert(column_xor(b + c, w, (4 * d) as nat) == column_xor(xor_bytes(b, c), w, (4 * d) as nat));
        assert(column_xor(b + c, w, (4 * d + 1) as nat) == column_xor(xor_bytes(b, c), w, (4 * d + 1) as nat));
        assert(column_xor(b + c, w, (4 * d + 2) as nat) == column_xor(xor_bytes(b, c), w, (4 * d + 2) as nat));
        assert(column_xor(b + c, w, (4 * d + 3) as nat) == column_xor(xor_bytes(b, c), w, (4 * d + 3) as nat));
    }
    assert(key_space_of(b + c, dims) =~= key_space_of(xor_bytes(b, c), dims));
}

/// A key made of the same block of `4 * dims` bytes twice lies at the
/// origin: equal bytes cancel out.
pub proof fn lemma_key_space_of_repeated_block(b: Seq<u8>, dims: nat)
    requires
        b.len() == 4 * dims,
    ensures
        key_space_of(b + b, dims) == Seq::new(dims, |d: int| 0i32),
{
    lemma_key_space_of_two_blocks(b, b, dims);
    let x = xor_bytes(b, b);
    assert forall|i: int| 0 <= i < x.len() implies x[i] == 0u8 by {
        let y = b[i];
        assert(y ^ y == 0u8) by (bit_vector);
    }
    lemma_key_space_of_one_block(x, dims);
    assert(key_space_of(b + b, dims) =~= Seq::new(dims, |d: int| 0i32));
}

/// The range of an `i32`: the largest difference between two of them.
pub open spec fn i32_range() -> int {
    0xFFFF_FFFF
}

/// The distance between two coordinates, going round the ends of the range
/// of `i32` when that is shorter.
pub open spec fn coord_distance(a: i32, b: i32) -> int {
    let diff = if a >= b {
        a - b
    } else {
        b - a
    };
    if diff <= i32_range() - diff {
        diff
    } else {
        i32_range() - diff
    }
}

/// The sum of the coordinate distances over the first `n` dimensions.
pub open spec fn distance_prefix(a: Seq<i32>, b: Seq<i32>, n: nat) -> int
    decreases n,
{
    if n == 0 {
        0
    } else {
        distance_prefix(a, b, (n - 1) as nat) + coord_distance(a[n - 1], b[n - 1])
    }
}

/// The distance total between two locations of equal size: the sum over all
/// dimensions of the coordinate distances. The distance between the
/// locations is the `n`-th root of this total, `n` being the number of
/// dimensions, so that ordering by the total orders by the distance.
pub open spec fn distance_total(a: Seq<i32>, b: Seq<i32>) -> int {
    distance_prefix(a, b, a.len())
}

/// The dot product of `a - origin` and `b - origin`, over the dimensions that
/// all three locations have.
pub open spec fn dot_prefix(origin: Seq<i32>, a: Seq<i32>, b: Seq<i32>, n: nat) -> int
    decreases n,
{
    if n == 0 {
        0
    } else {
        dot_prefix(origin, a, b, (n - 1) as nat) + (a[n - 1] - origin[n - 1]) * (b[n - 1]
            - origin[n - 1])
    }
}

/// The number of dimensions that three locations share.
pub open spec fn shared_len(origin: Seq<i32>, a: Seq<i32>, b: Seq<i32>) -> nat {
    let m = if a.len() <= b.len() {
        a.len()
    } else {
        b.len()
    };
    if m <= origin.len() {
        m
    } else {
        origin.len()
    }
}

/// The dot product of `a - origin` and `b - origin`.
pub open spec fn relative_dot(origin: Seq<i32>, a: Seq<i32>, b: Seq<i32>) -> int {
    dot_prefix(origin, a, b, shared_len(origin, a, b))
}

/// Order of (distance, position) pairs: by distance, then by position.
pub open spec fn distance_order_lt(d1: int, i1: int, d2: int, i2: int) -> bool {
    d1 < d2 || (d1 == d2 && i1 < i2)
}

/// `idx` lists positions of `locations` ordered by the distance of each
/// location to `target`, ties ordered by position; every position is listed
/// once.
pub open spec fn distance_order(locations: Seq<Seq<i32>>, target: Seq<i32>, idx: Seq<int>) -> bool {
    &&& idx.len() == locations.len()
    &&& forall|k: int| 0 <= k < idx.len() ==> 0 <= #[trigger] idx[k] < locations.len()
    &&& forall|k: int, l: int| 0 <= k < l < idx.len() ==> idx[k] != idx[l]
    &&& forall|k: int, l: int|
        0 <= k < l < idx.len() ==> distance_order_lt(
            distance_total(locations[idx[k]], target),
            idx[k],
            distance_total(locations[idx[l]], target),
            idx[l],
        )
}

/// An order of positions by distance lists every position.
pub(crate) proof fn lemma_distance_order_lists_all(
    locations: Seq<Seq<i32>>,
    target: Seq<i32>,
    idx: Seq<int>,
    j: int,
)
    requires
        distance_order(locations, target, idx),
        0 <= j < locations.len(),
    ensures
        exists|m: int| 0 <= m < idx.len() && idx[m] == j,
{
    broadcast use vstd::seq_lib::seq_to_set_is_finite;
    assert(idx.no_duplicates()) by {
        assert forall|a: int, b: int| 0 <= a < idx.len() && 0 <= b < idx.len() && a != b implies idx[a]
            != idx[b] by {
            if a < b {
                assert(idx[a] != idx[b]);
            } else {
                assert(idx[b] != idx[a]);
            }
        }
    }
    idx.unique_seq_to_set();
    vstd::set_lib::lemma_int_range(0, locations.len() as int);
    let all = vstd::set_lib::set_int_range(0, locations.len() as int);
    assert(idx.to_set().subset_of(all)) by {
        assert forall|x: int| idx.to_set().contains(x) implies all.contains(x) by {
            let m = choose|m: int| 0 <= m < idx.len() && idx[m] == x;
        }
    }
    vstd::set_lib::lemma_subset_equality(idx.to_set(), all);
    assert(all.contains(j));
    assert(idx.to_set().contains(j));
}

/// `idx` lists the positions of `input` in the order in which `output`
/// holds them, and that order is by distance of each location (`keys[i]` for
/// `input[i]`) to `target`, ties kept in the order of `input`.
pub open spec fn sorts_by_distance<T>(
    input: Seq<T>,
    output: Seq<T>,
    keys: Seq<KeySpace>,
    target: Seq<i32>,
    idx: Seq<int>,
) -> bool {
    &&& keys.len() == input.len()
    &&& output.len() == input.len()
    &&& distance_order(keys.map_values(|k: KeySpace| k@), target, idx)
    &&& forall|k: int| 0 <= k < idx.len() ==> output[k] == input[#[trigger] idx[k]]
}

/// `output` is `input` stably sorted by the distance of the location of each
/// element (`keys[i]` for `input[i]`) to `target`.
pub open spec fn is_stable_sort_by_distance<T>(
    input: Seq<T>,
    output: Seq<T>,
    keys: Seq<KeySpace>,
    target: Seq<i32>,
) -> bool {
    exists|idx: Seq<int>| sorts_by_distance(input, output, keys, target, idx)
}

/// `keys[i]` is a location that `f` gives for `input[i]`.
pub open spec fn locations_from<T, F: Fn(&T) -> KeySpace>(
    f: F,
    input: Seq<T>,
    keys: Seq<KeySpace>,
) -> bool {
    &&& keys.len() == input.len()
    &&& forall|i: int| 0 <= i < input.len() ==> #[trigger] f.ensures((&input[i],), keys[i])
}

/// `f` may be called on the elements of `s`, gives locations of `n` dimensions for
/// the elements of `s`, and gives locations with the same coordinates for the
/// same value.
pub open spec fn is_location_fn<T, F: Fn(&T) -> KeySpace>(f: F, s: Seq<T>, n: nat) -> bool {
    &&& forall|i: int| 0 <= i < s.len() ==> #[trigger] f.requires((&s[i],))
    &&& forall|i: int, k: KeySpace|
        0 <= i < s.len() && #[trigger] f.ensures((&s[i],), k) ==> k@.len() == n
    &&& forall|t: &T, k1: KeySpace, k2: KeySpace|
        #[trigger] f.ensures((t,), k1) && #[trigger] f.ensures((t,), k2) ==> k1@ == k2@
}

/// Whether one of the positions `idx` has location `loc` (`keys[i]` is the
/// location of position `i`).
pub open spec fn location_kept(keys: Seq<KeySpace>, idx: Seq<int>, loc: Seq<i32>) -> bool {
    exists|j: int| 0 <= j < idx.len() && keys[#[trigger] idx[j]]@ == loc
}

/// `output` keeps, in order, the first element of `input` at each location
/// (`keys[i]` is the location of `input[i]`): `idx` lists the positions of
/// `input` that are kept. So no location is kept twice and none is lost.
pub open spec fn keeps_first_of_each_location<T>(
    input: Seq<T>,
    output: Seq<T>,
    keys: Seq<KeySpace>,
    idx: Seq<int>,
) -> bool {
    &&& keys.len() == input.len()
    &&& idx.len() == output.len()
    &&& forall|j: int| 0 <= j < idx.len() ==> 0 <= #[trigger] idx[j] < input.len() && output[j] == input[idx[j]]
    &&& forall|j: int, l: int| #![trigger idx[j], idx[l]] 0 <= j < l < idx.len() ==> idx[j] < idx[l]
    &&& forall|j: int, l: int|
        #![trigger idx[j], idx[l]]
        0 <= j < l < idx.len() ==> keys[idx[j]]@ != keys[idx[l]]@
    &&& forall|i: int| #![trigger keys[i]] 0 <= i < input.len() ==> location_kept(keys, idx, keys[i]@)
    &&& forall|j: int, i: int|
        #![trigger keys[i], idx[j]]
        0 <= j < idx.len() && 0 <= i < idx[j] ==> keys[i]@ != keys[idx[j]]@
}

/// `f` may be called on the elements of `s`, gives locations with the same
/// coordinates for the same value, and gives the elements' locations one
/// number of dimensions, at most `2^32`.
pub open spec fn is_uniform_location_fn<T, F: Fn(&T) -> KeySpace>(f: F, s: Seq<T>) -> bool {
    &&& forall|i: int| 0 <= i < s.len() ==> #[trigger] f.requires((&s[i],))
    &&& forall|i: int, j: int, ki: KeySpace, kj: KeySpace|
        0 <= i < s.len() && 0 <= j < s.len() && #[trigger] f.ensures((&s[i],), ki) && #[trigger] f.ensures(
            (&s[j],),
            kj,
        ) ==> ki@.len() == kj@.len() && ki@.len() <= 0x1_0000_0000
    &&& forall|t: &T, k1: KeySpace, k2: KeySpace|
        #[trigger] f.ensures((t,), k1) && #[trigger] f.ensures((t,), k2) ==> k1@ == k2@
}

/// `sorted` is `input` stably sorted by the distance of each location to
/// that of the first element (`keys[i]` is the location of `input[i]`), and
/// `output` keeps the first element of `sorted` at each location
/// (`skeys[i]` is the location of `sorted[i]`, `idx` the kept positions).
pub open spec fn sorted_then_kept<T, F: Fn(&T) -> KeySpace>(
    f: F,
    input: Seq<T>,
    output: Seq<T>,
    keys: Seq<KeySpace>,
    sorted: Seq<T>,
    skeys: Seq<KeySpace>,
    idx: Seq<int>,
) -> bool {
    &&& locations_from(f, input, keys)
    &&& is_stable_sort_by_distance(input, sorted, keys, keys[0]@)
    &&& locations_from(f, sorted, skeys)
    &&& keeps_first_of_each_location(sorted, output, skeys, idx)
}

/// `output` is `input` sorted by the distance of each location (which `f`
/// gives) to that of the first element, ties kept in order, with only the
/// first element at each location kept.
pub open spec fn sorted_keeping_first_of_each_location<T, F: Fn(&T) -> KeySpace>(
    f: F,
    input: Seq<T>,
    output: Seq<T>,
) -> bool {
    exists|keys: Seq<KeySpace>, sorted: Seq<T>, skeys: Seq<KeySpace>, idx: Seq<int>|
        #[trigger] sorted_then_kept(f, input, output, keys, sorted, skeys, idx)
}

/// Manages locations in key space: their creation and their distances.
#[derive(Clone, Copy, Debug)]
pub struct KeySpaceManager {
    num_key_space_dims: usize,
}

impl KeySpaceManager {
    /// The number of dimensions of the key space.
    pub closed spec fn dims(&self) -> nat {
        self.num_key_space_dims as nat
    }

    /// Creates a manager of a key space with the given number of dimensions.
    pub fn new(num_key_space_dims: usize) -> (r: KeySpaceManager)
        ensures
            r.dims() == num_key_space_dims,
    {
        KeySpaceManager { num_key_space_dims }
    }

    /// The number of dimensions of the key space.
    pub fn get_num_dims(&self) -> (r: usize)
        ensures
            r == self.dims(),
    {
        self.num_key_space_dims
    }

    /// Creates the location in key space of a key.
    pub fn create_from_key(&self, key: &Key) -> (r: KeySpace)
        requires
            0 < self.dims() && 4 * self.dims() <= usize::MAX,
        ensures
            r@ == key_space_of(key.data@, self.dims()),
    {
        let dims = self.num_key_space_dims;
        let width = 4 * dims;
        let data = &key.data;
        let mut folded: Vec<u8> = Vec::new();
        let mut i: usize = 0;
        while i < width
            invariant
                i <= width,
                folded@.len() == i,
                forall|k: int| 0 <= k < i ==> folded@[k] == 0,
            decreases width - i,
        {
            folded.push(0u8);
            i = i + 1;
        }
        assert forall|k: nat| k < width implies folded@[k as int] == column_xor(
            data@.take(0),
            width as nat,
            k,
        ) by {
            assert(data@.take(0).len() == 0);
        }
        let mut j: usize = 0;
        while j < data.len()
            invariant
                j <= data@.len(),
                width > 0,
                folded@.len() == width,
                forall|k: nat| k < width ==> folded@[k as int] == column_xor(
                    data@.take(j as int),
                    width as nat,
                    k,
                ),
            decreases data@.len() - j,
        {
            let pos = j % width;
            let b = folded[pos] ^ data[j];
            folded.set(pos, b);
            proof {
                let next = data@.take(j + 1);
                assert(next.drop_last() =~= data@.take(j as int));
                assert(next.last() == data@[j as int]);
                assert forall|k: nat| k < width implies folded@[k as int] == column_xor(
                    next,
                    width as nat,
                    k,
                ) by {
                    assert((next.len() - 1) % (width as int) == pos as int);
                }
            }
            j = j + 1;
        }
        assert(data@.take(data@.len() as int) =~= data@);
        let mut coords: Vec<i32> = Vec::new();
        let mut d: usize = 0;
        while d < dims
            invariant
                d <= dims,
                width == 4 * dims,
                folded@.len() == width,
                forall|k: nat| k < width ==> folded@[k as int] == column_xor(
                    data@,
                    width as nat,
                    k,
                ),
                coords@.len() == d,
                forall|e: int| 0 <= e < d ==> coords@[e] == key_space_coord(
                    data@,
                    dims as nat,
                    e as nat,
                ) as i32,
            decreases dims - d,
        {
            let chunk: Vec<u8> = vec![folded[4 * d], folded[4 * d + 1], folded[4 * d + 2], folded[4 * d + 3]];
            let c = read_i32_be(chunk.as_slice());
            proof {
                assert(c as int == key_space_coord(data@, dims as nat, d as nat));
            }
            coords.push(c);
            d = d + 1;
        }
        assert(coords@ =~= key_space_of(data@, dims as nat));
        KeySpace { coords }
    }

    /// The distance total between two locations: the sum over all dimensions
    /// of the distance between their coordinates, going round the ends of the
    /// range of `i32` when that is shorter. The euclidean-style distance of
    /// the locations is the `n`-th root of this total.
    pub fn distance_total(&self, a_ks: &KeySpace, b_ks: &KeySpace) -> (r: u64)
        requires
            a_ks@.len() == b_ks@.len(),
            distance_total(a_ks@, b_ks@) <= i64::MAX,
        ensures
            r as int == distance_total(a_ks@, b_ks@),
    {
        distance_total_exec(a_ks, b_ks)
    }

    /// The dot product of `a - relative_to` and `b - relative_to`, over the
    /// dimensions that the three locations share. The angle between `a` and
    /// `b` seen from `relative_to` is derived from it.
    pub fn relative_dot(&self, relative_to: &KeySpace, a: &KeySpace, b: &KeySpace) -> (r: i128)
        requires
            relative_to@.len() < 0x4000_0000_0000_0000,
        ensures
            r as int == relative_dot(relative_to@, a@, b@),
    {
        let n = if a.coords.len() <= b.coords.len() {
            a.coords.len()
        } else {
            b.coords.len()
        };
        let n = if n <= relative_to.coords.len() {
            n
        } else {
            relative_to.coords.len()
        };
        let mut total: i128 = 0;
        let mut i: usize = 0;
        while i < n
            invariant
                i <= n,
                n == shared_len(relative_to@, a@, b@),
                n <= relative_to@.len(),
                n <= a@.len(),
                n <= b@.len(),
                relative_to@.len() < 0x4000_0000_0000_0000,
                total as int == dot_prefix(relative_to@, a@, b@, i as nat),
                -(i as int) * 0x1_0000_0000_0000_0000 <= total as int <= (i as int)
                    * 0x1_0000_0000_0000_0000,
            decreases n - i,
        {
            let x = a.coords[i] as i128 - relative_to.coords[i] as i128;
            let y = b.coords[i] as i128 - relative_to.coords[i] as i128;
            assert(-0x1_0000_0000_0000_0000 <= x * y <= 0x1_0000_0000_0000_0000) by (nonlinear_arith)
                requires
                    -0x1_0000_0000 <= x <= 0x1_0000_0000,
                    -0x1_0000_0000 <= y <= 0x1_0000_0000,
            ;
            total = total + x * y;
            i = i + 1;
        }
        total
    }

    /// Sorts a vector by the distance of each element's location to
    /// `key_space`, keeping the order of elements at equal distance.
    /// `get_key_space_fn` gives the location of an element.
    pub fn sort_key_relative<T, F: Fn(&T) -> KeySpace>(
        &self,
        v: &mut Vec<T>,
        get_key_space_fn: &F,
        key_space: &KeySpace,
    )
        requires
            is_location_fn(*get_key_space_fn, old(v)@, key_space@.len()),
            key_space@.len() <= 0x1_0000_0000,
        ensures
            exists|keys: Seq<KeySpace>|
                locations_from(*get_key_space_fn, old(v)@, keys) && is_stable_sort_by_distance(
                    old(v)@,
                    final(v)@,
                    keys,
                    key_space@,
                ),
            final(v)@.to_multiset() == old(v)@.to_multiset(),
    {
        sort_by_distance(v, get_key_space_fn, key_space)
    }

    /// Removes the elements of a vector whose location repeats that of
    /// another: the vector is sorted by the distance of each location to that
    /// of its first element (see `sort_key_relative`), and of the elements at
    /// one location only the first in that order is kept.
    /// `get_key_space_fn` gives the location of an element.
    pub fn remove_duplicate_keys<T, F: Fn(&T) -> KeySpace>(
        &self,
        v: &mut Vec<T>,
        get_key_space_fn: &F,
    )
        requires
            old(v)@.len() > 1 ==> is_uniform_location_fn(*get_key_space_fn, old(v)@),
        ensures
            old(v)@.len() <= 1 ==> final(v)@ == old(v)@,
            old(v)@.len() > 1 ==> sorted_keeping_first_of_each_location(
                *get_key_space_fn,
                old(v)@,
                final(v)@,
            ),
            final(v)@.to_multiset().subset_of(old(v)@.to_multiset()),
    {
        if v.len() <= 1 {
            return;
        }
        let ghost input = v@;
        let sort_key = get_key_space_fn(&v[0]);
        proof {
            assert(get_key_space_fn.ensures((&input[0],), sort_key));
            assert forall|i: int, k: KeySpace|
                0 <= i < input.len() && #[trigger] get_key_space_fn.ensures((&input[i],), k) implies k@.len()
                == sort_key@.len() by {
                assert(get_key_space_fn.ensures((&input[0],), sort_key));
            }
        }
        sort_by_distance(v, get_key_space_fn, &sort_key);
        let ghost sorted = v@;
        let ghost keys = choose|keys: Seq<KeySpace>|
            locations_from(*get_key_space_fn, input, keys) && is_stable_sort_by_distance(
                input,
                sorted,
                keys,
                sort_key@,
            );
        proof {
            assert(get_key_space_fn.ensures((&input[0],), keys[0]));
            assert(keys[0]@ == sort_key@);
            let sidx = choose|sidx: Seq<int>| sorts_by_distance(input, sorted, keys, sort_key@, sidx);
            assert forall|q: int| 0 <= q < sorted.len() implies #[trigger] get_key_space_fn.requires(
                (&sorted[q],),
            ) by {
                assert(sorted[q] == input[sidx[q]]);
            }
        }
        keep_first_of_each_location(v, get_key_space_fn);
        proof {
            let (skeys, idx) = choose|skeys: Seq<KeySpace>, idx: Seq<int>|
                {
                    &&& locations_from(*get_key_space_fn, sorted, skeys)
                    &&& #[trigger] keeps_first_of_each_location(sorted, v@, skeys, idx)
                };
            assert(sorted_then_kept(*get_key_space_fn, input, v@, keys, sorted, skeys, idx));
        }
    }
}

/// The elements kept so far out of `input`: they keep the first element of
/// each location, and `seen` holds their locations in order.
#[verifier::opaque]
spec fn kept_so_far<T>(
    input: Seq<T>,
    out: Seq<T>,
    keys: Seq<KeySpace>,
    idx: Seq<int>,
    seen: Seq<Seq<i32>>,
) -> bool {
    &&& keeps_first_of_each_location(input, out, keys, idx)
    &&& seen.len() == idx.len()
    &&& forall|j: int| 0 <= j < idx.len() ==> #[trigger] seen[j] == keys[idx[j]]@
}

/// Nothing is kept out of nothing.
proof fn lemma_kept_empty<T>()
    ensures
        kept_so_far(Seq::<T>::empty(), Seq::empty(), Seq::empty(), Seq::empty(), Seq::empty()),
{
    reveal(kept_so_far);
}

/// An element at a location not seen before is kept.
proof fn lemma_kept_new<T>(
    input: Seq<T>,
    out: Seq<T>,
    keys: Seq<KeySpace>,
    idx: Seq<int>,
    seen: Seq<Seq<i32>>,
    x: T,
    k: KeySpace,
)
    requires
        kept_so_far(input, out, keys, idx, seen),
        !seen.contains(k@),
    ensures
        kept_so_far(input.push(x), out.push(x), keys.push(k), idx.push(input.len() as int), seen.push(k@)),
{
    reveal(kept_so_far);
    assert forall|q: int| 0 <= q < input.len() implies #[trigger] keys[q]@ != k@ by {
        assert(location_kept(keys, idx, keys[q]@));
        let j = choose|j: int| 0 <= j < idx.len() && keys[#[trigger] idx[j]]@ == keys[q]@;
        assert(seen[j] == keys[idx[j]]@);
    }
    lemma_kept_new_extends(input, out, keys, idx, seen, x, k, input.push(x), out.push(x), keys.push(k),
        idx.push(input.len() as int), seen.push(k@));
}

/// Extending the elements kept by a new element at a new location.
#[verifier::rlimit(40)]
proof fn lemma_kept_new_extends<T>(
    input: Seq<T>,
    out: Seq<T>,
    keys: Seq<KeySpace>,
    idx: Seq<int>,
    seen: Seq<Seq<i32>>,
    x: T,
    k: KeySpace,
    input2: Seq<T>,
    out2: Seq<T>,
    keys2: Seq<KeySpace>,
    idx2: Seq<int>,
    seen2: Seq<Seq<i32>>,
)
    requires
        keeps_first_of_each_location(input, out, keys, idx),
        seen.len() == idx.len(),
        forall|j: int| 0 <= j < idx.len() ==> #[trigger] seen[j] == keys[idx[j]]@,
        forall|q: int| 0 <= q < input.len() ==> #[trigger] keys[q]@ != k@,
        input2 == input.push(x),
        out2 == out.push(x),
        keys2 == keys.push(k),
        idx2 == idx.push(input.len() as int),
        seen2 == seen.push(k@),
    ensures
        keeps_first_of_each_location(input2, out2, keys2, idx2),
        seen2.len() == idx2.len(),
        forall|j: int| 0 <= j < idx2.len() ==> #[trigger] seen2[j] == keys2[idx2[j]]@,
{
    let n = input.len() as int;
    assert forall|j: int| 0 <= j < idx2.len() implies 0 <= #[trigger] idx2[j] < input2.len() && out2[j]
        == input2[idx2[j]] by {
        if j < idx.len() {
            assert(idx2[j] == idx[j]);
            assert(out2[j] == out[j]);
            assert(input2[idx[j]] == input[idx[j]]);
        }
    }
    assert forall|j: int, l: int| #![trigger idx2[j], idx2[l]] 0 <= j < l < idx2.len() implies idx2[j] < idx2[l] by {
        assert(idx2[j] == idx[j]);
        if l < idx.len() {
            assert(idx2[l] == idx[l]);
        }
    }
    assert forall|j: int, l: int| #![trigger idx2[j], idx2[l]] 0 <= j < l < idx2.len() implies keys2[idx2[j]]@
        != keys2[idx2[l]]@ by {
        assert(idx2[j] == idx[j]);
        assert(keys2[idx[j]] == keys[idx[j]]);
        if l < idx.len() {
            assert(idx2[l] == idx[l]);
            assert(keys2[idx[l]] == keys[idx[l]]);
        } else {
            assert(keys[idx[j]]@ != k@);
        }
    }
    assert forall|i: int| #![trigger keys2[i]] 0 <= i < input2.len() implies location_kept(keys2, idx2, keys2[i]@) by {
        if i == n {
            assert(idx2[idx.len() as int] == i);
        } else {
            assert(location_kept(keys, idx, keys[i]@));
            let j = choose|j: int| 0 <= j < idx.len() && keys[#[trigger] idx[j]]@ == keys[i]@;
            assert(idx2[j] == idx[j]);
            assert(keys2[idx[j]] == keys[idx[j]]);
            assert(keys2[i] == keys[i]);
        }
    }
    assert forall|j: int, i: int|
        #![trigger keys2[i], idx2[j]]
        0 <= j < idx2.len() && 0 <= i < idx2[j] implies keys2[i]@ != keys2[idx2[j]]@ by {
        assert(keys2[i] == keys[i]);
        if j < idx.len() {
            assert(idx2[j] == idx[j]);
            assert(keys2[idx[j]] == keys[idx[j]]);
        } else {
            assert(keys[i]@ != k@);
        }
    }
    assert forall|j: int| 0 <= j < idx2.len() implies #[trigger] seen2[j] == keys2[idx2[j]]@ by {
        if j < idx.len() {
            assert(idx2[j] == idx[j]);
            assert(keys2[idx[j]] == keys[idx[j]]);
        }
    }
}

/// An element at a location seen before is left out.
#[verifier::rlimit(40)]
proof fn lemma_kept_repeat<T>(
    input: Seq<T>,
    out: Seq<T>,
    keys: Seq<KeySpace>,
    idx: Seq<int>,
    seen: Seq<Seq<i32>>,
    x: T,
    k: KeySpace,
)
    requires
        kept_so_far(input, out, keys, idx, seen),
        seen.contains(k@),
    ensures
        kept_so_far(input.push(x), out, keys.push(k), idx, seen),
{
    reveal(kept_so_far);
    let n = input.len() as int;
    let input2 = input.push(x);
    let keys2 = keys.push(k);
    let m = choose|m: int| 0 <= m < seen.len() && seen[m] == k@;
    assert(seen[m] == keys[idx[m]]@);
    assert forall|j: int| 0 <= j < idx.len() implies keys2[#[trigger] idx[j]] == keys[idx[j]] && input2[idx[j]]
        == input[idx[j]] by {
        assert(0 <= idx[j] < n);
    }
    assert forall|j: int| 0 <= j < idx.len() implies 0 <= #[trigger] idx[j] < input2.len() && out[j]
        == input2[idx[j]] by {
        assert(input2[idx[j]] == input[idx[j]]);
    }
    assert forall|j: int, l: int| #![trigger idx[j], idx[l]] 0 <= j < l < idx.len() implies keys2[idx[j]]@ != keys2[idx[l]]@ by {
        assert(keys2[idx[j]] == keys[idx[j]]);
        assert(keys2[idx[l]] == keys[idx[l]]);
    }
    assert forall|i: int| #![trigger keys2[i]] 0 <= i < input2.len() implies location_kept(keys2, idx, keys2[i]@) by {
        if i == n {
            assert(keys2[idx[m]] == keys[idx[m]]);
        } else {
            assert(location_kept(keys, idx, keys[i]@));
            let j = choose|j: int| 0 <= j < idx.len() && keys[#[trigger] idx[j]]@ == keys[i]@;
            assert(keys2[idx[j]] == keys[idx[j]]);
            assert(keys2[i] == keys[i]);
        }
    }
    assert forall|j: int, i: int|
        #![trigger keys2[i], idx[j]]
        0 <= j < idx.len() && 0 <= i < idx[j] implies keys2[i]@ != keys2[idx[j]]@ by {
        assert(keys2[idx[j]] == keys[idx[j]]);
        assert(keys2[i] == keys[i]);
    }
    assert(keeps_first_of_each_location(input2, out, keys2, idx));
}

/// The distance total between two locations of equal size.
fn distance_total_exec(a: &KeySpace, b: &KeySpace) -> (r: u64)
    requires
        a@.len() == b@.len(),
        distance_total(a@, b@) <= i64::MAX,
    ensures
        r as int == distance_total(a@, b@),
{
    let n = a.coords.len();
    let mut total: u64 = 0;
    let mut i: usize = 0;
    proof {
        lemma_distance_prefix_monotone(a@, b@, 0, n as nat);
    }
    while i < n
        invariant
            i <= n,
            n == a@.len(),
            a@.len() == b@.len(),
            total as int == distance_prefix(a@, b@, i as nat),
            distance_total(a@, b@) <= i64::MAX,
        decreases n - i,
    {
        proof {
            lemma_distance_prefix_monotone(a@, b@, (i + 1) as nat, n as nat);
        }
        let x = a.coords[i] as i64;
        let y = b.coords[i] as i64;
        let diff: u64 = if x >= y {
            (x - y) as u64
        } else {
            (y - x) as u64
        };
        let wrapped: u64 = 0xFFFF_FFFFu64 - diff;
        let term: u64 = if diff <= wrapped {
            diff
        } else {
            wrapped
        };
        total = total + term;
        i = i + 1;
    }
    total
}

/// Distance prefixes grow with the number of dimensions summed.
proof fn lemma_distance_prefix_monotone(a: Seq<i32>, b: Seq<i32>, m: nat, n: nat)
    requires
        m <= n,
        n <= a.len(),
        n <= b.len(),
    ensures
        0 <= distance_prefix(a, b, m) <= distance_prefix(a, b, n),
    decreases n,
{
    if n > m {
        lemma_distance_prefix_monotone(a, b, m, (n - 1) as nat);
    } else if m > 0 {
        lemma_distance_prefix_monotone(a, b, (m - 1) as nat, (m - 1) as nat);
    }
}

/// Removes the elements of a vector whose location repeats that of an
/// earlier element: each location is kept once, by its first element, and
/// the kept elements stay in order. `get_key_space_fn` gives the location
/// of an element.
fn keep_first_of_each_location<T, F: Fn(&T) -> KeySpace>(v: &mut Vec<T>, get_key_space_fn: &F)
    requires
        forall|q: int| 0 <= q < old(v)@.len() ==> #[trigger] get_key_space_fn.requires((&old(v)@[q],)),
    ensures
        exists|keys: Seq<KeySpace>, idx: Seq<int>|
            {
                &&& locations_from(*get_key_space_fn, old(v)@, keys)
                &&& #[trigger] keeps_first_of_each_location(old(v)@, final(v)@, keys, idx)
            },
        final(v)@.to_multiset().subset_of(old(v)@.to_multiset()),
{
    let ghost input = v@;
    let ghost mut keys: Seq<KeySpace> = Seq::empty();
    let ghost mut idx: Seq<int> = Seq::empty();
    let ghost mut removed: Multiset<T> = Multiset::empty();
    let mut seen: Vec<KeySpace> = Vec::new();
    let mut i: usize = 0;
    let ghost mut p: int = 0;
    proof {
        broadcast use vstd::multiset::group_multiset_axioms;
        assert(v@.to_multiset().add(removed) =~= input.to_multiset());
        lemma_kept_empty::<T>();
        assert(input.take(0) =~= Seq::<T>::empty());
        assert(v@.take(0) =~= Seq::<T>::empty());
        assert(seen@.map_values(|k: KeySpace| k@) =~= Seq::<Seq<i32>>::empty());
    }
    while i < v.len()
        invariant
            forall|q: int| 0 <= q < input.len() ==> #[trigger] get_key_space_fn.requires((&input[q],)),
            0 <= i <= p <= input.len(),
            v@.len() == i + (input.len() - p),
            forall|m: int| i <= m < v@.len() ==> #[trigger] v@[m] == input[p + m - i],
            keys.len() == p,
            forall|q: int| 0 <= q < p ==> #[trigger] (*get_key_space_fn).ensures((&input[q],), keys[q]),
            kept_so_far(input.take(p), v@.take(i as int), keys, idx, seen@.map_values(|k: KeySpace| k@)),
            v@.to_multiset().add(removed) == input.to_multiset(),
        decreases v@.len() - i,
    {
        let k = get_key_space_fn(&v[i]);
        let ghost x = v@[i as int];
        let ghost seen_locs = seen@.map_values(|k: KeySpace| k@);
        proof {
            assert(x == input[p + i - i]);
            assert(input.take(p + 1) =~= input.take(p).push(x));
        }
        let mut found = false;
        let mut j: usize = 0;
        while j < seen.len()
            invariant
                j <= seen@.len(),
                seen_locs == seen@.map_values(|k: KeySpace| k@),
                !found ==> forall|m: int| 0 <= m < j ==> seen_locs[m] != k@,
                found ==> seen_locs.contains(k@),
            decreases seen@.len() - j,
        {
            if seen[j].same_as(&k) {
                found = true;
                assert(seen_locs[j as int] == k@);
            }
            j = j + 1;
        }
        if found {
            let ghost before = v@;
            v.remove(i);
            proof {
                broadcast use vstd::multiset::group_multiset_axioms;
                broadcast use vstd::seq_lib::to_multiset_remove;
                assert(before.to_multiset().count(x) > 0) by {
                    broadcast use vstd::seq_lib::group_to_multiset_ensures;
                    assert(before.contains(x));
                }
                removed = removed.insert(x);
                assert(v@.to_multiset().add(removed) =~= input.to_multiset());
                lemma_kept_repeat(input.take(p), before.take(i as int), keys, idx, seen_locs, x, k);
                assert(v@.take(i as int) =~= before.take(i as int));
                assert forall|m: int| i <= m < v@.len() implies #[trigger] v@[m] == input[(p + 1) + m - i] by {
                    assert(v@[m] == before[m + 1]);
                }
                keys = keys.push(k);
                p = p + 1;
            }
        } else {
            let ghost before = v@;
            seen.push(k);
            proof {
                lemma_kept_new(input.take(p), before.take(i as int), keys, idx, seen_locs, x, k);
                assert(before.take(i + 1) =~= before.take(i as int).push(x));
                assert(seen@.map_values(|k: KeySpace| k@) =~= seen_locs.push(k@));
                keys = keys.push(k);
                idx = idx.push(p);
                p = p + 1;
            }
            i = i + 1;
        }
    }
    proof {
        broadcast use vstd::multiset::group_multiset_axioms;
        assert(p == input.len());
        assert(input.take(p) =~= input);
        assert(v@.take(i as int) =~= v@);
        reveal(kept_so_far);
        assert(locations_from(*get_key_space_fn, input, keys));
    }
}

/// Stable insertion sort of `v` by distance of each element's location to
/// `target`.
fn sort_by_distance<T, F: Fn(&T) -> KeySpace>(v: &mut Vec<T>, f: &F, target: &KeySpace)
    requires
        is_location_fn(*f, old(v)@, target@.len()),
        target@.len() <= 0x1_0000_0000,
    ensures
        exists|keys: Seq<KeySpace>|
            locations_from(*f, old(v)@, keys) && is_stable_sort_by_distance(
                old(v)@,
                final(v)@,
                keys,
                target@,
            ),
        final(v)@.to_multiset() == old(v)@.to_multiset(),
{
    let ghost input = v@;
    let ghost n = input.len();
    assert(n == v.len());
    let mut out: Vec<T> = Vec::new();
    let mut dists: Vec<u64> = Vec::new();
    let ghost mut idx: Seq<int> = Seq::empty();
    let ghost mut locations: Seq<KeySpace> = Seq::empty();
    let mut j: usize = 0;
    proof {
        broadcast use vstd::seq_lib::group_to_multiset_ensures;
        broadcast use vstd::multiset::group_multiset_axioms;
        assert(out@.to_multiset() =~= Multiset::<T>::empty());
        assert(out@.to_multiset().add(v@.to_multiset()) =~= input.to_multiset());
    }
    while v.len() > 0
        invariant
            n == input.len(),
            n <= usize::MAX,
            j <= n,
            v@ == input.skip(j as int),
            out@.to_multiset().add(v@.to_multiset()) == input.to_multiset(),
            is_location_fn(*f, input, target@.len()),
            target@.len() <= 0x1_0000_0000,
            locations_from(*f, input.take(j as int), locations),
            forall|i: int| 0 <= i < j ==> #[trigger] locations[i]@.len() == target@.len(),
            out@.len() == j,
            dists@.len() == j,
            idx.len() == j,
            forall|k: int| 0 <= k < j ==> 0 <= #[trigger] idx[k] < j,
            forall|k: int, l: int| 0 <= k < l < j ==> idx[k] != idx[l],
            forall|k: int| 0 <= k < j ==> out@[k] == input[#[trigger] idx[k]],
            forall|k: int|
                0 <= k < j ==> dists@[k] as int == distance_total(
                    #[trigger] locations[idx[k]]@,
                    target@,
                ),
            forall|k: int, l: int|
                0 <= k < l < j ==> distance_order_lt(
                    dists@[k] as int,
                    idx[k],
                    dists@[l] as int,
                    idx[l],
                ),
        decreases v@.len(),
    {
        let ghost before_v = v@;
        let x = v.remove(0);
        assert(x == input[j as int]);
        proof {
            broadcast use vstd::seq_lib::to_multiset_remove;
            assert(v@ == before_v.remove(0));
        }
        let loc = f(&x);
        proof {
            lemma_distance_bound(loc@, target@);
        }
        let d = distance_total_exec(&loc, target);
        let mut p: usize = 0;
        while p < dists.len() && dists[p] <= d
            invariant
                p <= dists@.len(),
                forall|k: int| 0 <= k < p ==> dists@[k] <= d,
            decreases dists@.len() - p,
        {
            p = p + 1;
        }
        proof {
            if p < dists@.len() {
                assert forall|k: int| p <= k < dists@.len() implies dists@[k] > d by {
                    if k > p {
                        assert(distance_order_lt(
                            dists@[p as int] as int,
                            idx[p as int],
                            dists@[k] as int,
                            idx[k],
                        ));
                    }
                }
            }
        }
        let ghost old_out = out@;
        let ghost old_dists = dists@;
        let ghost old_idx = idx;
        let ghost old_locations = locations;
        out.insert(p, x);
        dists.insert(p, d);
        proof {
            broadcast use vstd::seq_lib::to_multiset_insert;
            broadcast use vstd::multiset::group_multiset_axioms;
            assert(out@ == old_out.insert(p as int, x));
            assert(before_v[0] == x);
            assert(before_v.to_multiset().count(x) > 0) by {
                broadcast use vstd::seq_lib::group_to_multiset_ensures;
                assert(before_v.contains(x));
            }
            assert(out@.to_multiset().add(v@.to_multiset()) =~= input.to_multiset());
            idx = idx.insert(p as int, j as int);
            locations = locations.push(loc);
            assert(input.take(j + 1).drop_last() =~= input.take(j as int));
            assert forall|i: int| 0 <= i < j + 1 implies #[trigger] (*f).ensures(
                (&input.take(j + 1)[i],),
                locations[i],
            ) by {
                if i < j {
                    assert(input.take(j + 1)[i] == input.take(j as int)[i]);
                    assert(old_locations[i] == locations[i]);
                    assert((*f).ensures((&input.take(j as int)[i],), old_locations[i]));
                } else {
                    assert(input.take(j + 1)[i] == x);
                }
            }
            assert(locations.len() == input.take(j + 1).len());
            assert(locations_from(*f, input.take(j + 1), locations));
            assert forall|k: int| 0 <= k < j + 1 implies dists@[k] as int == distance_total(
                #[trigger] locations[idx[k]]@,
                target@,
            ) by {
                if k < p {
                    assert(idx[k] == old_idx[k]);
                } else if k > p {
                    assert(idx[k] == old_idx[k - 1]);
                }
            }
            assert forall|k: int, l: int| 0 <= k < l < j + 1 implies distance_order_lt(
                dists@[k] as int,
                idx[k],
                dists@[l] as int,
                idx[l],
            ) by {
                if k < p && l < p {
                } else if k < p && l == p {
                } else if k < p && l > p {
                    assert(distance_order_lt(
                        old_dists[k] as int,
                        old_idx[k],
                        old_dists[l - 1] as int,
                        old_idx[l - 1],
                    ));
                } else if k == p {
                    assert(old_dists[l - 1] > d);
                } else {
                    assert(distance_order_lt(
                        old_dists[k - 1] as int,
                        old_idx[k - 1],
                        old_dists[l - 1] as int,
                        old_idx[l - 1],
                    ));
                }
            }
            assert forall|k: int, l: int| 0 <= k < l < j + 1 implies idx[k] != idx[l] by {
                if k < p && l > p {
                    assert(old_idx[k] != old_idx[l - 1]);
                } else if k > p {
                    assert(old_idx[k - 1] != old_idx[l - 1]);
                }
            }
            assert(v@ =~= input.skip(j + 1));
        }
        j = j + 1;
    }
    proof {
        assert(input.take(n as int) =~= input);
        assert(sorts_by_distance(input, out@, locations, target@, idx));
        broadcast use vstd::multiset::group_multiset_axioms;
        assert(v@ =~= Seq::<T>::empty());
        assert(v@.to_multiset() =~= Multiset::<T>::empty()) by {
            broadcast use vstd::seq_lib::group_to_multiset_ensures;
        }
        assert(out@.to_multiset() =~= input.to_multiset());
    }
    *v = out;
}

/// The distance total of two locations of at most `2^32` dimensions fits in
/// an `i64`.
pub(crate) proof fn lemma_distance_bound(a: Seq<i32>, b: Seq<i32>)
    requires
        a.len() == b.len(),
        a.len() <= 0x1_0000_0000,
    ensures
        distance_total(a, b) <= i64::MAX,
{
    lemma_distance_prefix_bound(a, b, a.len());
    assert(a.len() * 0x7FFF_FFFF <= 0x1_0000_0000 * 0x7FFF_FFFF) by (nonlinear_arith)
        requires
            a.len() <= 0x1_0000_0000,
    ;
}

/// Each coordinate distance is at most `2^31`.
proof fn lemma_distance_prefix_bound(a: Seq<i32>, b: Seq<i32>, n: nat)
    requires
        n <= a.len(),
        n <= b.len(),
    ensures
        distance_prefix(a, b, n) <= n * 0x7FFF_FFFF,
    decreases n,
{
    if n > 0 {
        lemma_distance_prefix_bound(a, b, (n - 1) as nat);
    }
}


/// Each coordinate distance goes the short way round the range of `i32`:
/// it is the plain difference of the coordinates when that is at most half
/// the range, and never more than half the range.
pub proof fn lemma_coord_distance_short_way(a: i32, b: i32)
    ensures
        0 <= coord_distance(a, b) <= 0x7FFF_FFFF,
        (a - b <= 0x7FFF_FFFF && b - a <= 0x7FFF_FFFF) ==> coord_distance(a, b) == if a >= b {
            a - b
        } else {
            b - a
        },
        a - b > 0x7FFF_FFFF ==> coord_distance(a, b) == 0xFFFF_FFFF - (a - b),
        b - a > 0x7FFF_FFFF ==> coord_distance(a, b) == 0xFFFF_FFFF - (b - a),
{
}

/// Every dimension counts towards the distance total: the total is at
/// least the distance of the coordinates in any one dimension, and it is
/// zero only when every coordinate distance is.
pub proof fn lemma_distance_counts_every_dimension(a: Seq<i32>, b: Seq<i32>)
    requires
        a.len() == b.len(),
    ensures
        forall|d: int| 0 <= d < a.len() ==> coord_distance(#[trigger] a[d], b[d]) <= distance_total(a, b),
        distance_total(a, b) == 0 ==> forall|d: int| 0 <= d < a.len() ==> coord_distance(#[trigger] a[d], b[d]) == 0,
{
    assert forall|d: int| 0 <= d < a.len() implies coord_distance(#[trigger] a[d], b[d]) <= distance_total(a, b) by {
        lemma_distance_prefix_monotone(a, b, d as nat, (d + 1) as nat);
        lemma_distance_prefix_monotone(a, b, (d + 1) as nat, a.len());
        assert(distance_prefix(a, b, (d + 1) as nat) == distance_prefix(a, b, d as nat) + coord_distance(a[d], b[d]));
    }
}

/// The distance between two locations does not depend on their order.
pub proof fn lemma_distance_symmetric(a: Seq<i32>, b: Seq<i32>)
    requires
        a.len() == b.len(),
    ensures
        distance_total(a, b) == distance_total(b, a),
{
    lemma_distance_prefix_symmetric(a, b, a.len());
}

/// Each prefix of the distance sums does not depend on the order of the
/// locations.
proof fn lemma_distance_prefix_symmetric(a: Seq<i32>, b: Seq<i32>, n: nat)
    ensures
        distance_prefix(a, b, n) == distance_prefix(b, a, n),
    decreases n,
{
    if n > 0 {
        lemma_distance_prefix_symmetric(a, b, (n - 1) as nat);
    }
}

/// A location is at distance zero from itself.
pub proof fn lemma_distance_to_self(a: Seq<i32>)
    ensures
        distance_total(a, a) == 0,
{
    lemma_distance_prefix_self(a, a.len());
}

/// Each prefix of the distance sums of a location to itself is zero.
proof fn lemma_distance_prefix_self(a: Seq<i32>, n: nat)
    ensures
        distance_prefix(a, a, n) == 0,
    decreases n,
{
    if n > 0 {
        lemma_distance_prefix_self(a, (n - 1) as nat);
    }
}

} // verus!
