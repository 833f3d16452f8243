//! Node discovery: a Kademlia-style routing table that files peers into 256
//! buckets by the XOR distance between SHA-256 hashes of node identifiers.
use vstd::prelude::*;
use sha2::{Digest, Sha256};
use crate::shortest_paths::seq_elems;

verus! {

/// The most nodes a bucket holds.
pub const K: usize = 20;

/// The number of buckets: one per possible count of leading zero bits.
pub const BUCKETS: usize = 256;

/// The SHA-256 digest of the UTF-8 encoding of a string.
pub uninterp spec fn sha256_of(s: Seq<char>) -> Seq<u8>;

/// `Sha256::digest` of a string's UTF-8 bytes.
#[verifier::external_body]
fn sha256_hash(id: &str) -> (hash: [u8; 32])
    ensures
        hash@ == sha256_of(id@),
{
    Sha256::digest(id.as_bytes()).into()
}

/// Byte-wise XOR of two 32-byte strings.
pub open spec fn xor_bytes(a: Seq<u8>, b: Seq<u8>) -> Seq<u8> {
    Seq::new(32, |i: int| a[i] ^ b[i])
}

/// The number of leading zero bits of a big-endian byte string.
pub open spec fn leading_zero_bits(d: Seq<u8>) -> nat
    decreases d.len(),
{
    if d.len() == 0 {
        0
    } else if d[0] == 0 {
        8 + leading_zero_bits(d.drop_first())
    } else {
        d[0].leading_zeros() as nat
    }
}

/// The bucket of a node whose hash is `hash`, seen from a node whose hash is
/// `local`: the number of leading zero bits of their XOR distance, with
/// identical hashes filed in the last bucket.
pub open spec fn bucket_of(local: Seq<u8>, hash: Seq<u8>) -> int {
    let lz = leading_zero_bits(xor_bytes(local, hash));
    if lz >= 256 {
        255
    } else {
        lz as int
    }
}

/// The XOR distance between two 32-byte strings.
pub fn xor_distance(a: &[u8; 32], b: &[u8; 32]) -> (dist: [u8; 32])
    ensures
        dist@ == xor_bytes(a@, b@),
{
    let mut dist = [0u8; 32];
    let mut i: usize = 0;
    while i < 32
        invariant
            i <= 32,
            forall|j: int| 0 <= j < i ==> dist@[j] == a@[j] ^ b@[j],
        decreases 32 - i,
    {
        dist[i] = a[i] ^ b[i];
        i = i + 1;
    }
    assert(dist@ =~= xor_bytes(a@, b@));
    dist
}

proof fn lemma_leading_zero_bits_bound(d: Seq<u8>)
    ensures
        leading_zero_bits(d) <= 8 * d.len(),
    decreases d.len(),
{
    broadcast use vstd::std_specs::bits::axiom_u8_leading_zeros;
    if d.len() > 0 && d[0] == 0 {
        lemma_leading_zero_bits_bound(d.drop_first());
    }
}

/// A byte string has as many leading zero bits as it has bits exactly when
/// every byte is zero.
proof fn lemma_all_bits_leading_zero(d: Seq<u8>)
    ensures
        leading_zero_bits(d) == 8 * d.len() <==> forall|i: int| 0 <= i < d.len() ==> d[i] == 0,
    decreases d.len(),
{
    broadcast use vstd::std_specs::bits::axiom_u8_leading_zeros;
    if d.len() > 0 {
        let r = d.drop_first();
        lemma_all_bits_leading_zero(r);
        if d[0] == 0 {
            assert forall|i: int| 0 <= i < d.len() && (forall|j: int| 0 <= j < r.len() ==> r[j] == 0) implies d[i] == 0 by {
                if i > 0 {
                    assert(d[i] == r[i - 1]);
                }
            }
            assert((forall|i: int| 0 <= i < d.len() ==> d[i] == 0) ==> forall|j: int| 0 <= j < r.len() ==> r[j] == 0) by {
                if forall|i: int| 0 <= i < d.len() ==> d[i] == 0 {
                    assert forall|j: int| 0 <= j < r.len() implies r[j] == 0 by {
                        assert(r[j] == d[j + 1]);
                    }
                }
            }
        } else {
            let x = d[0];
            assert(x.leading_zeros() < 8);
        }
    }
}

/// Where the leading zero bits of a byte string with a nonzero byte end:
/// every byte before bit `n` is zero, and bit `n` (counted from the most
/// significant bit of the first byte) is the first one set.
proof fn lemma_leading_zero_bits_shape(d: Seq<u8>)
    requires
        exists|i: int| 0 <= i < d.len() && d[i] != 0,
    ensures
        leading_zero_bits(d) < 8 * d.len(),
        forall|i: int| 0 <= i < leading_zero_bits(d) / 8 ==> d[i] == 0,
        d[(leading_zero_bits(d) / 8) as int] >> ((7 - leading_zero_bits(d) % 8) as u8) == 1u8,
    decreases d.len(),
{
    broadcast use vstd::std_specs::bits::axiom_u8_leading_zeros;
    let n = leading_zero_bits(d);
    if d[0] == 0 {
        let r = d.drop_first();
        let i0 = choose|i: int| 0 <= i < d.len() && d[i] != 0;
        assert(r[i0 - 1] == d[i0]);
        lemma_leading_zero_bits_shape(r);
        let m = leading_zero_bits(r);
        assert(n == m + 8);
        assert(n / 8 == m / 8 + 1 && n % 8 == m % 8);
        assert(d[(n / 8) as int] == r[(m / 8) as int]);
        assert forall|i: int| 0 <= i < n / 8 implies d[i] == 0 by {
            if i > 0 {
                assert(d[i] == r[i - 1]);
            }
        }
    } else {
        let x = d[0];
        let z = x.leading_zeros();
        assert(z < 8);
        let k: u8 = (7 - z) as u8;
        assert((x >> k) & 1u8 != 0u8 && x >> ((8 - z) as u8) == 0u8);
        assert(x >> ((k + 1) as u8) == 0u8);
        assert((x >> ((k + 1) as u8) == 0u8 && (x >> k) & 1u8 != 0u8 && k < 8) ==> x >> k == 1u8) by (bit_vector);
    }
}

/// A node whose hash differs from the local one falls in the bucket given
/// by the number of leading zero bits of the XOR distance: the first
/// `bucket` bits of the distance are zero and the next one is set.
pub proof fn law_bucket_is_leading_zero_bits(local: Seq<u8>, hash: Seq<u8>)
    requires
        local.len() == 32,
        hash.len() == 32,
        local != hash,
    ensures
        bucket_of(local, hash) == leading_zero_bits(xor_bytes(local, hash)),
        0 <= bucket_of(local, hash) < 256,
        forall|i: int| 0 <= i < bucket_of(local, hash) / 8 ==> xor_bytes(local, hash)[i] == 0,
        xor_bytes(local, hash)[bucket_of(local, hash) / 8] >> ((7 - bucket_of(local, hash) % 8) as u8) == 1u8,
{
    let d = xor_bytes(local, hash);
    assert(exists|i: int| 0 <= i < d.len() && d[i] != 0) by {
        if forall|i: int| 0 <= i < 32 ==> d[i] == 0 {
            assert forall|i: int| 0 <= i < 32 implies local[i] == hash[i] by {
                let a = local[i];
                let b = hash[i];
                assert(d[i] == a ^ b);
                assert(a ^ b == 0u8 ==> a == b) by (bit_vector);
            }
            assert(local =~= hash);
        }
    }
    lemma_leading_zero_bits_shape(d);
}

/// A 32-byte string has 256 leading zero bits exactly when all of its bytes
/// are zero.
pub proof fn law_all_zero_iff_256_leading_zeros(d: Seq<u8>)
    requires
        d.len() == 32,
    ensures
        leading_zero_bits(d) == 256 <==> forall|i: int| 0 <= i < 32 ==> d[i] == 0,
{
    lemma_all_bits_leading_zero(d);
}

/// Counts the leading zero bits of a 32-byte string, reading it as a
/// 256-bit big-endian number: 256 exactly for the all-zero string.
pub fn leading_zeros(bytes: &[u8; 32]) -> (count: u32)
    ensures
        count == leading_zero_bits(bytes@),
        count <= 256,
        count == 256 <==> forall|i: int| 0 <= i < 32 ==> bytes@[i] == 0,
{
    proof {
        law_all_zero_iff_256_leading_zeros(bytes@);
    }
    let mut count: u32 = 0;
    let mut i: usize = 0;
    assert(bytes@.skip(0) =~= bytes@);
    while i < 32
        invariant
            i <= 32,
            count == 8 * i,
            leading_zero_bits(bytes@) == count + leading_zero_bits(bytes@.skip(i as int)),
        decreases 32 - i,
    {
        let b = bytes[i];
        assert(bytes@.skip(i as int)[0] == b);
        assert(bytes@.skip(i as int).drop_first() =~= bytes@.skip(i + 1));
        if b == 0 {
            count = count + 8;
        } else {
            proof {
                lemma_leading_zero_bits_bound(bytes@.skip(i as int));
            }
            return count + b.leading_zeros();
        }
        i = i + 1;
    }
    assert(bytes@.skip(32) =~= Seq::<u8>::empty());
    count
}

/// The bucket that `hash` falls in, seen from `local`.
fn bucket_index(local: &[u8; 32], hash: &[u8; 32]) -> (b: usize)
    ensures
        b == bucket_of(local@, hash@),
        b < BUCKETS,
{
    let dist = xor_distance(local, hash);
    let lz = leading_zeros(&dist) as usize;
    if lz >= 256 {
        255
    } else {
        lz
    }
}

/// A node discovered in the network: its identifier and its network address
/// in text form (`ip:port`).
#[derive(Clone, Debug, PartialEq, Eq)]
pub struct NodeInfo {
    pub node_id: String,
    pub addr: String,
}

impl View for NodeInfo {
    type V = (Seq<char>, Seq<char>);

    open spec fn view(&self) -> (Seq<char>, Seq<char>) {
        (self.node_id@, self.addr@)
    }
}

impl NodeInfo {
    /// A copy of this node information.
    pub fn copy(&self) -> (c: NodeInfo)
        ensures
            c@ == self@,
    {
        NodeInfo { node_id: self.node_id.clone(), addr: self.addr.clone() }
    }
}

/// A bucket of discovered nodes, least recently seen first.
pub struct KBucket {
    pub nodes: Vec<NodeInfo>,
}

impl KBucket {
    /// Creates a new, empty `KBucket`.
    pub fn new() -> (b: Self)
        ensures
            b.nodes@.len() == 0,
    {
        KBucket { nodes: Vec::new() }
    }
}

/// The node information held in a bucket.
pub open spec fn bucket_view(b: KBucket) -> Seq<(Seq<char>, Seq<char>)> {
    b.nodes@.map_values(|n: NodeInfo| n@)
}

/// The position of the node `id` in a bucket, if it is there.
pub open spec fn position_in(nodes: Seq<(Seq<char>, Seq<char>)>, id: Seq<char>) -> int {
    choose|i: int| 0 <= i < nodes.len() && nodes[i].0 == id
}

/// Whether a bucket holds the node `id`.
pub open spec fn holds(nodes: Seq<(Seq<char>, Seq<char>)>, id: Seq<char>) -> bool {
    exists|i: int| 0 <= i < nodes.len() && nodes[i].0 == id
}

/// A bucket after the node `id` reports from `addr`: a known node moves to
/// the end (most recently seen) and keeps its address; an unknown one is
/// appended while the bucket has room, and dropped otherwise.
pub open spec fn bucket_after_update(
    nodes: Seq<(Seq<char>, Seq<char>)>,
    id: Seq<char>,
    addr: Seq<char>,
) -> Seq<(Seq<char>, Seq<char>)> {
    if holds(nodes, id) {
        let i = position_in(nodes, id);
        nodes.remove(i).push(nodes[i])
    } else if nodes.len() < K {
        nodes.push((id, addr))
    } else {
        nodes
    }
}

/// A Kademlia-like routing table: peers filed into 256 buckets by the XOR
/// distance of their identifier hashes from the local node's.
pub struct RoutingTable {
    local_node_id: String,
    local_hash: [u8; 32],
    buckets: Vec<KBucket>,
}

impl View for RoutingTable {
    type V = Seq<Seq<(Seq<char>, Seq<char>)>>;

    closed spec fn view(&self) -> Seq<Seq<(Seq<char>, Seq<char>)>> {
        self.buckets@.map_values(|b: KBucket| bucket_view(b))
    }
}

/// All nodes of all buckets, bucket by bucket.
pub open spec fn all_nodes(buckets: Seq<Seq<(Seq<char>, Seq<char>)>>) -> Seq<(Seq<char>, Seq<char>)>
    decreases buckets.len(),
{
    if buckets.len() == 0 {
        Seq::empty()
    } else {
        all_nodes(buckets.drop_last()) + buckets.last()
    }
}

/// Strict lexicographic order of byte strings, comparing from position `i`.
pub open spec fn lex_less_from(a: Seq<u8>, b: Seq<u8>, i: int) -> bool
    decreases 32 - i,
{
    if i >= 32 {
        false
    } else if a[i] < b[i] {
        true
    } else if a[i] > b[i] {
        false
    } else {
        lex_less_from(a, b, i + 1)
    }
}

/// The byte strings of a list of distances.
pub open spec fn distances(dists: Seq<[u8; 32]>) -> Seq<Seq<u8>> {
    dists.map_values(|d: [u8; 32]| d@)
}

/// Candidate `i` comes before candidate `j`: by distance, ties broken by
/// position.
pub open spec fn closer(dists: Seq<Seq<u8>>, i: int, j: int) -> bool {
    lex_less_from(dists[i], dists[j], 0) || (dists[i] =~= dists[j] && i < j)
}

proof fn lemma_lex_less_trans(a: Seq<u8>, b: Seq<u8>, c: Seq<u8>, i: int)
    requires
        lex_less_from(a, b, i),
        lex_less_from(b, c, i),
    ensures
        lex_less_from(a, c, i),
    decreases 32 - i,
{
    if i < 32 && a[i] == b[i] && b[i] == c[i] {
        lemma_lex_less_trans(a, b, c, i + 1);
    }
}

proof fn lemma_lex_less_total(a: Seq<u8>, b: Seq<u8>, i: int)
    requires
        a.len() == 32,
        b.len() == 32,
        0 <= i <= 32,
        forall|j: int| 0 <= j < i ==> a[j] == b[j],
    ensures
        lex_less_from(a, b, i) || lex_less_from(b, a, i) || a =~= b,
        !(lex_less_from(a, b, i) && lex_less_from(b, a, i)),
    decreases 32 - i,
{
    if i < 32 && a[i] == b[i] {
        lemma_lex_less_total(a, b, i + 1);
    }
}

proof fn lemma_lex_less_irrefl(a: Seq<u8>, i: int)
    ensures
        !lex_less_from(a, a, i),
    decreases 32 - i,
{
    if i < 32 {
        lemma_lex_less_irrefl(a, i + 1);
    }
}

/// Whether distance `a` is strictly below distance `b`, lexicographically.
fn distance_less(a: &[u8; 32], b: &[u8; 32]) -> (less: bool)
    ensures
        less == lex_less_from(a@, b@, 0),
{
    let mut i: usize = 0;
    while i < 32
        invariant
            i <= 32,
            lex_less_from(a@, b@, 0) == lex_less_from(a@, b@, i as int),
        decreases 32 - i,
    {
        if a[i] < b[i] {
            return true;
        }
        if a[i] > b[i] {
            return false;
        }
        i = i + 1;
    }
    false
}

/// The positions of the `count` candidates closest by distance, closest
/// first; equally distant candidates keep their order.
fn select_closest(dists: &Vec<[u8; 32]>, count: usize) -> (chosen: Vec<usize>)
    ensures
        chosen@.len() == if count < dists@.len() {
            count as int
        } else {
            dists@.len() as int
        },
        forall|a: int| 0 <= a < chosen@.len() ==> #[trigger] chosen@[a] < dists@.len(),
        forall|a: int, b: int|
            0 <= a < b < chosen@.len() ==> closer(
                distances(dists@),
                #[trigger] chosen@[a] as int,
                #[trigger] chosen@[b] as int,
            ),
        forall|j: int, a: int|
            0 <= j < dists@.len() && 0 <= a < chosen@.len() && !seq_elems(chosen@).contains(j as usize) ==> #[trigger] closer(
                distances(dists@),
                chosen@[a] as int,
                j,
            ),
{
    let ghost ds = distances(dists@);
    let n = dists.len();
    let mut taken: Vec<bool> = Vec::new();
    let mut i: usize = 0;
    while i < n
        invariant
            i <= n,
            taken@.len() == i,
            forall|j: int| 0 <= j < i ==> taken@[j] == false,
        decreases n - i,
    {
        taken.push(false);
        i = i + 1;
    }
    let mut chosen: Vec<usize> = Vec::new();
    let limit = if count < n {
        count
    } else {
        n
    };
    while chosen.len() < limit
        invariant
            n == dists@.len(),
            ds == distances(dists@),
            limit <= n,
            chosen@.len() <= limit,
            taken@.len() == n,
            forall|a: int| 0 <= a < chosen@.len() ==> #[trigger] chosen@[a] < n,
            forall|j: int| 0 <= j < n ==> (taken@[j] <==> seq_elems(chosen@).contains(j as usize)),
            chosen@.no_duplicates(),
            forall|a: int, b: int| 0 <= a < b < chosen@.len() ==> closer(ds, #[trigger] chosen@[a] as int, #[trigger] chosen@[b] as int),
            forall|j: int, a: int|
                0 <= j < n && 0 <= a < chosen@.len() && !taken@[j] ==> #[trigger] closer(ds, chosen@[a] as int, j),
        decreases limit - chosen@.len(),
    {
        proof {
            // as many positions are taken as chosen, so one is still free
            let free = Set::new(|j: int| 0 <= j < n && !taken@[j]);
            if forall|j: int| 0 <= j < n ==> taken@[j] {
                let all = vstd::set_lib::set_int_range(0, n as int);
                vstd::set_lib::lemma_int_range(0, n as int);
                let cs = chosen@.map_values(|x: usize| x as int).to_set();
                assert forall|j: int| all.contains(j) implies cs.contains(j) by {
                    assert(taken@[j]);
                    assert(seq_elems(chosen@).contains(j as usize));
                    let a = choose|a: int| 0 <= a < chosen@.len() && chosen@[a] == j as usize;
                    assert(chosen@.map_values(|x: usize| x as int)[a] == j);
                }
                chosen@.map_values(|x: usize| x as int).lemma_cardinality_of_set();
                vstd::set_lib::lemma_len_subset(all, cs);
                assert(false);
            }
        }
        let mut best: Option<usize> = None;
        let mut j: usize = 0;
        while j < n
            invariant
                n == dists@.len(),
                ds == distances(dists@),
                taken@.len() == n,
                j <= n,
                match best {
                    Some(b) => b < j && !taken@[b as int] && forall|k: int|
                        0 <= k < j && !taken@[k] && k != b ==> closer(ds, b as int, k),
                    None => forall|k: int| 0 <= k < j ==> taken@[k],
                },
            decreases n - j,
        {
            if !taken[j] {
                match best {
                    Some(b) => {
                        proof {
                            lemma_lex_less_total(ds[b as int], ds[j as int], 0);
                        }
                        if distance_less(&dists[j], &dists[b]) {
                            proof {
                                assert forall|k: int| 0 <= k < j + 1 && !taken@[k] && k != j implies closer(ds, j as int, k) by {
                                    if k != b {
                                        assert(closer(ds, b as int, k));
                                        if lex_less_from(ds[b as int], ds[k], 0) {
                                            lemma_lex_less_trans(ds[j as int], ds[b as int], ds[k], 0);
                                        } else {
                                            assert(ds[b as int] =~= ds[k]);
                                            assert(lex_less_from(ds[j as int], ds[k], 0));
                                        }
                                    }
                                }
                            }
                            best = Some(j);
                        } else {
                            proof {
                                if !(ds[b as int] =~= ds[j as int]) {
                                    assert(lex_less_from(ds[b as int], ds[j as int], 0));
                                }
                            }
                        }
                    },
                    None => {
                        best = Some(j);
                    },
                }
            }
            j = j + 1;
        }
        let b = best.unwrap();
        let ghost before = chosen@;
        chosen.push(b);
        taken.set(b, true);
        proof {
            lemma_push_elems(before, b);
            assert forall|a: int, c: int| 0 <= a < c < chosen@.len() implies closer(ds, #[trigger] chosen@[a] as int, #[trigger] chosen@[c] as int) by {
                if c == before.len() {
                    assert(chosen@[a] == before[a]);
                }
            }
            assert forall|k: int, a: int|
                0 <= k < n && 0 <= a < chosen@.len() && !taken@[k] implies #[trigger] closer(ds, chosen@[a] as int, k) by {
                if a == before.len() {
                    assert(k != b);
                } else {
                    assert(chosen@[a] == before[a]);
                }
            }
            assert forall|x: int, y: int| 0 <= x < chosen@.len() && 0 <= y < chosen@.len() && x != y implies chosen@[x] != chosen@[y] by {
                if x == before.len() {
                    assert(!seq_elems(before).contains(b));
                    assert(before[y] == chosen@[y]);
                } else if y == before.len() {
                    assert(!seq_elems(before).contains(b));
                    assert(before[x] == chosen@[x]);
                }
            }
        }
    }
    proof {
        assert forall|j: int, a: int|
            0 <= j < dists@.len() && 0 <= a < chosen@.len() && !seq_elems(chosen@).contains(j as usize) implies #[trigger] closer(
                distances(dists@),
                chosen@[a] as int,
                j,
            ) by {
            assert(!taken@[j]);
        }
    }
    chosen
}

/// A bucket without the node `id`.
pub open spec fn bucket_without(nodes: Seq<(Seq<char>, Seq<char>)>, id: Seq<char>) -> Seq<(Seq<char>, Seq<char>)>
    decreases nodes.len(),
{
    if nodes.len() == 0 {
        nodes
    } else {
        let rest = bucket_without(nodes.drop_last(), id);
        if nodes.last().0 == id {
            rest
        } else {
            rest.push(nodes.last())
        }
    }
}

/// The XOR distances from `target` of the identifier hashes of `nodes`.
pub open spec fn distances_from(target: Seq<char>, nodes: Seq<(Seq<char>, Seq<char>)>) -> Seq<Seq<u8>> {
    Seq::new(nodes.len(), |i: int| xor_bytes(sha256_of(target), sha256_of(nodes[i].0)))
}

/// The XOR distance between the hashes of `target` and of `id`.
pub open spec fn distance_to(target: Seq<char>, id: Seq<char>) -> Seq<u8> {
    xor_bytes(sha256_of(target), sha256_of(id))
}

/// Candidate `x` coming before `y` puts it no farther away.
proof fn lemma_closer_not_farther(ds: Seq<Seq<u8>>, x: int, y: int)
    requires
        closer(ds, x, y),
        ds[x].len() == 32,
        ds[y].len() == 32,
    ensures
        !lex_less_from(ds[y], ds[x], 0),
{
    if lex_less_from(ds[x], ds[y], 0) {
        lemma_lex_less_total(ds[x], ds[y], 0);
    } else {
        assert(ds[x] == ds[y]);
        lemma_lex_less_irrefl(ds[x], 0);
    }
}

/// A closest selection comes in order of distance, and no node left out is
/// closer than a node taken.
proof fn lemma_selection_ordered(
    nodes: Seq<(Seq<char>, Seq<char>)>,
    target: Seq<char>,
    count: nat,
    res: Seq<(Seq<char>, Seq<char>)>,
)
    requires
        is_closest_selection(nodes, target, count, res),
    ensures
        forall|a: int, c: int|
            0 <= a < c < res.len() ==> !lex_less_from(
                distance_to(target, (#[trigger] res[c]).0),
                distance_to(target, (#[trigger] res[a]).0),
                0,
            ),
        forall|j: int, k: int|
            0 <= j < nodes.len() && 0 <= k < res.len() && !res.contains(#[trigger] nodes[j]) ==> !lex_less_from(
                distance_to(target, nodes[j].0),
                distance_to(target, (#[trigger] res[k]).0),
                0,
            ),
{
    let ds = distances_from(target, nodes);
    let idx = choose|idx: Seq<int>|
        {
            &&& idx.len() == res.len()
            &&& res.len() == if count < nodes.len() {
                count as int
            } else {
                nodes.len() as int
            }
            &&& forall|k: int| 0 <= k < idx.len() ==> 0 <= #[trigger] idx[k] < nodes.len() && res[k] == nodes[idx[k]]
            &&& forall|a: int, b: int| 0 <= a < b < idx.len() ==> closer(ds, #[trigger] idx[a], #[trigger] idx[b])
            &&& forall|j: int, a: int|
                0 <= j < nodes.len() && 0 <= a < idx.len() && !seq_elems(idx).contains(j) ==> #[trigger] closer(
                    ds,
                    idx[a],
                    j,
                )
        };
    assert forall|a: int, c: int| 0 <= a < c < res.len() implies !lex_less_from(
        distance_to(target, (#[trigger] res[c]).0),
        distance_to(target, (#[trigger] res[a]).0),
        0,
    ) by {
        assert(closer(ds, idx[a], idx[c]));
        lemma_closer_not_farther(ds, idx[a], idx[c]);
    }
    assert forall|j: int, k: int|
        0 <= j < nodes.len() && 0 <= k < res.len() && !res.contains(#[trigger] nodes[j]) implies !lex_less_from(
        distance_to(target, nodes[j].0),
        distance_to(target, (#[trigger] res[k]).0),
        0,
    ) by {
        if seq_elems(idx).contains(j) {
            let a = choose|a: int| 0 <= a < idx.len() && idx[a] == j;
            assert(res[a] == nodes[j]);
            assert(res.contains(nodes[j]));
        }
        assert(closer(ds, idx[k], j));
        lemma_closer_not_farther(ds, idx[k], j);
    }
}

/// `result` holds the `count` nodes of `nodes` that are closest to `target`
/// by XOR distance, closest first, equally distant ones in their order in
/// `nodes` (all nodes when there are fewer than `count`).
pub open spec fn is_closest_selection(
    nodes: Seq<(Seq<char>, Seq<char>)>,
    target: Seq<char>,
    count: nat,
    result: Seq<(Seq<char>, Seq<char>)>,
) -> bool {
    let ds = distances_from(target, nodes);
    exists|idx: Seq<int>|
        {
            &&& idx.len() == result.len()
            &&& result.len() == if count < nodes.len() {
                count as int
            } else {
                nodes.len() as int
            }
            &&& forall|k: int| 0 <= k < idx.len() ==> 0 <= #[trigger] idx[k] < nodes.len() && result[k] == nodes[idx[k]]
            &&& forall|a: int, b: int| 0 <= a < b < idx.len() ==> closer(ds, #[trigger] idx[a], #[trigger] idx[b])
            &&& forall|j: int, a: int|
                0 <= j < nodes.len() && 0 <= a < idx.len() && !seq_elems(idx).contains(j) ==> #[trigger] closer(
                    ds,
                    idx[a],
                    j,
                )
        }
}

impl RoutingTable {
    /// The identifier of the local node.
    pub closed spec fn local_id(&self) -> Seq<char> {
        self.local_node_id@
    }

    /// The table's invariant: 256 buckets of at most `K` nodes each, every
    /// node in the bucket its hash falls in, none twice, and never the local
    /// node.
    pub closed spec fn wf(&self) -> bool {
        &&& self.buckets@.len() == BUCKETS
        &&& self.local_hash@ == sha256_of(self.local_node_id@)
        &&& forall|b: int| 0 <= b < BUCKETS ==> #[trigger] self@[b].len() <= K
        &&& forall|b: int, i: int|
            0 <= b < BUCKETS && 0 <= i < self@[b].len() ==> bucket_of(
                sha256_of(self.local_node_id@),
                sha256_of(#[trigger] self@[b][i].0),
            ) == b && self@[b][i].0 != self.local_node_id@
        &&& forall|b: int, i: int, j: int|
            0 <= b < BUCKETS && 0 <= i < self@[b].len() && 0 <= j < self@[b].len() && i != j ==> (#[trigger] self@[b][i]).0
                != (#[trigger] self@[b][j]).0
    }

    /// Creates a routing table for the local node `local_node_id`, with 256
    /// empty buckets.
    pub fn new(local_node_id: String) -> (t: Self)
        ensures
            t.wf(),
            t.local_id() == local_node_id@,
            t@ == Seq::new(BUCKETS as nat, |b: int| Seq::<(Seq<char>, Seq<char>)>::empty()),
    {
        let local_hash = sha256_hash(local_node_id.as_str());
        let mut buckets: Vec<KBucket> = Vec::new();
        let mut i: usize = 0;
        while i < BUCKETS
            invariant
                i <= BUCKETS,
                buckets@.len() == i,
                forall|b: int| 0 <= b < i ==> (#[trigger] buckets@[b]).nodes@.len() == 0,
            decreases BUCKETS - i,
        {
            buckets.push(KBucket::new());
            i = i + 1;
        }
        let t = RoutingTable { local_node_id, local_hash, buckets };
        assert forall|b: int| 0 <= b < BUCKETS implies #[trigger] t@[b] =~= Seq::<(Seq<char>, Seq<char>)>::empty() by {
            assert(t.buckets@[b].nodes@.len() == 0);
        }
        assert(t@ =~= Seq::new(BUCKETS as nat, |b: int| Seq::<(Seq<char>, Seq<char>)>::empty()));
        t
    }

    /// Records that the node `node_id` was seen at `addr`. A known node moves
    /// to the end of its bucket (most recently seen) and keeps its address;
    /// an unknown node is appended if its bucket has room and dropped
    /// otherwise. The local node itself is never recorded.
    pub fn update(&mut self, node_id: String, addr: String)
        requires
            old(self).wf(),
        ensures
            final(self).wf(),
            final(self).local_id() == old(self).local_id(),
            node_id@ == old(self).local_id() ==> final(self)@ == old(self)@,
            node_id@ != old(self).local_id() ==> {
                let b = bucket_of(sha256_of(old(self).local_id()), sha256_of(node_id@));
                final(self)@ == old(self)@.update(b, bucket_after_update(old(self)@[b], node_id@, addr@))
            },
    {
        if node_id == self.local_node_id {
            return;
        }
        let hash = sha256_hash(node_id.as_str());
        let b = bucket_index(&self.local_hash, &hash);
        let ghost v0 = self@;
        let mut bucket = self.buckets.remove(b);
        let ghost nodes0 = bucket_view(bucket);
        assert(nodes0 == v0[b as int]);
        let mut pos: Option<usize> = None;
        let mut i: usize = 0;
        while i < bucket.nodes.len()
            invariant
                i <= bucket.nodes@.len(),
                match pos {
                    Some(p) => p < i && bucket.nodes@[p as int].node_id@ == node_id@,
                    None => forall|j: int| 0 <= j < i ==> (#[trigger] bucket.nodes@[j]).node_id@ != node_id@,
                },
            decreases bucket.nodes@.len() - i,
        {
            if pos.is_none() && bucket.nodes[i].node_id == node_id {
                pos = Some(i);
            }
            i = i + 1;
        }
        match pos {
            Some(p) => {
                proof {
                    assert(nodes0[p as int].0 == node_id@);
                    assert(holds(nodes0, node_id@));
                    let c = position_in(nodes0, node_id@);
                    assert(c == p);
                }
                let node = bucket.nodes.remove(p);
                bucket.nodes.push(node);
                proof {
                    assert(bucket_view(bucket) =~= nodes0.remove(p as int).push(nodes0[p as int]));
                }
            },
            None => {
                proof {
                    assert(!holds(nodes0, node_id@)) by {
                        if holds(nodes0, node_id@) {
                            let c = choose|c: int| 0 <= c < nodes0.len() && nodes0[c].0 == node_id@;
                            assert(bucket.nodes@[c].node_id@ == node_id@);
                        }
                    }
                }
                if bucket.nodes.len() < K {
                    bucket.nodes.push(NodeInfo { node_id, addr });
                    assert(bucket_view(bucket) =~= nodes0.push((node_id@, addr@)));
                }
            },
        }
        self.buckets.insert(b, bucket);
        proof {
            let nb = bucket_after_update(nodes0, node_id@, addr@);
            assert(self@ =~= v0.update(b as int, nb));
            let lid = self.local_node_id@;
            assert forall|x: int, y: int| 0 <= x < nb.len() && 0 <= y < nb.len() && x != y implies nb[x].0 != nb[y].0 by {
                if holds(nodes0, node_id@) {
                    let p = position_in(nodes0, node_id@);
                    let r = nodes0.remove(p);
                    assert forall|z: int| 0 <= z < r.len() implies #[trigger] r[z] == nodes0[if z < p { z } else { z + 1 }] by {
                    }
                    if x < r.len() && y < r.len() {
                        assert(nb[x] == r[x] && nb[y] == r[y]);
                    } else if x < r.len() {
                        assert(nb[x] == r[x]);
                    } else {
                        assert(nb[y] == r[y]);
                    }
                } else if nodes0.len() < K {
                    if x < nodes0.len() && y < nodes0.len() {
                    } else if x < nodes0.len() {
                        assert(nodes0[x].0 != node_id@);
                    } else {
                        assert(nodes0[y].0 != node_id@);
                    }
                }
            }
            assert forall|x: int| 0 <= x < nb.len() implies bucket_of(sha256_of(lid), sha256_of(#[trigger] nb[x].0)) == b
                && nb[x].0 != lid by {
                if holds(nodes0, node_id@) {
                    let p = position_in(nodes0, node_id@);
                    let r = nodes0.remove(p);
                    if x < r.len() {
                        assert(r[x] == nodes0[if x < p { x } else { x + 1 }]);
                    }
                }
            }
        }
    }

    /// Removes the node `node_id` from the table.
    pub fn remove(&mut self, node_id: &str)
        requires
            old(self).wf(),
        ensures
            final(self).wf(),
            final(self).local_id() == old(self).local_id(),
            ({
                let b = bucket_of(sha256_of(old(self).local_id()), sha256_of(node_id@));
                final(self)@ == old(self)@.update(b, bucket_without(old(self)@[b], node_id@))
            }),
    {
        let hash = sha256_hash(node_id);
        let b = bucket_index(&self.local_hash, &hash);
        let ghost v0 = self@;
        let bucket = self.buckets.remove(b);
        let ghost nodes0 = bucket_view(bucket);
        let key = node_id.to_owned();
        let mut kept: Vec<NodeInfo> = Vec::new();
        let mut i: usize = 0;
        let mut rest = bucket.nodes;
        let ghost all = rest@;
        let total = rest.len();
        assert(nodes0.take(0) =~= Seq::<(Seq<char>, Seq<char>)>::empty());
        while i < total
            invariant
                total == all.len(),
                key@ == node_id@,
                nodes0 == all.map_values(|n: NodeInfo| n@),
                i <= total,
                rest@ == all.skip(i as int),
                kept@.map_values(|n: NodeInfo| n@) == bucket_without(nodes0.take(i as int), node_id@),
            decreases total - i,
        {
            let n = rest.remove(0);
            assert(n == all[i as int]);
            assert(nodes0.take(i + 1).drop_last() =~= nodes0.take(i as int));
            assert(nodes0.take(i + 1).last() == n@);
            let ghost before = kept@;
            let ghost prev = bucket_without(nodes0.take(i as int), node_id@);
            assert(before.map_values(|n: NodeInfo| n@) == prev);
            if !(n.node_id == key) {
                kept.push(n);
                assert(kept@.map_values(|n: NodeInfo| n@) =~= before.map_values(|n: NodeInfo| n@).push(all[i as int]@));
                assert(bucket_without(nodes0.take(i + 1), node_id@) == prev.push(n@));
            } else {
                assert(bucket_without(nodes0.take(i + 1), node_id@) == prev);
            }
            assert(rest@ =~= all.skip(i + 1));
            i = i + 1;
        }
        assert(nodes0.take(total as int) =~= nodes0);
        self.buckets.insert(b, KBucket { nodes: kept });
        proof {
            let nb = bucket_without(nodes0, node_id@);
            assert(self@ =~= v0.update(b as int, nb));
            lemma_bucket_without_sub(nodes0, node_id@);
            let lid = self.local_node_id@;
            assert(nodes0 == v0[b as int]);
            assert forall|x: int, y: int| 0 <= x < nb.len() && 0 <= y < nb.len() && x != y implies nb[x].0 != nb[y].0 by {
                if x < y {
                    let (ix, iy) = choose|ix: int, iy: int| 0 <= ix < iy < nodes0.len() && nodes0[ix] == #[trigger] nb[x] && nodes0[iy] == #[trigger] nb[y];
                    assert(nodes0[ix].0 != nodes0[iy].0);
                } else {
                    let (iy, ix) = choose|iy: int, ix: int| 0 <= iy < ix < nodes0.len() && nodes0[iy] == #[trigger] nb[y] && nodes0[ix] == #[trigger] nb[x];
                    assert(nodes0[ix].0 != nodes0[iy].0);
                }
            }
            assert forall|x: int| 0 <= x < nb.len() implies bucket_of(sha256_of(lid), sha256_of(#[trigger] nb[x].0)) == b
                && nb[x].0 != lid by {
                let ix = choose|ix: int| 0 <= ix < nodes0.len() && nodes0[ix] == #[trigger] nb[x];
                assert(v0[b as int][ix] == nb[x]);
            }
        }
    }
}

impl RoutingTable {
    /// The `count` known nodes closest to `target_id` by XOR distance of
    /// identifier hashes, closest first; equally distant nodes keep the
    /// order of the buckets.
    #[verifier::spinoff_prover]
    pub fn find_closest_nodes(&self, target_id: &str, count: usize) -> (closest: Vec<NodeInfo>)
        requires
            self.wf(),
        ensures
            is_closest_selection(
                all_nodes(self@),
                target_id@,
                count as nat,
                closest@.map_values(|n: NodeInfo| n@),
            ),
            forall|a: int, c: int|
                0 <= a < c < closest@.len() ==> (#[trigger] closest@[a]).node_id@ != (#[trigger] closest@[c]).node_id@,
            forall|a: int, c: int|
                0 <= a < c < closest@.len() ==> !lex_less_from(
                    distance_to(target_id@, (#[trigger] closest@[c]).node_id@),
                    distance_to(target_id@, (#[trigger] closest@[a]).node_id@),
                    0,
                ),
            forall|n: (Seq<char>, Seq<char>), k: int|
                #[trigger] all_nodes(self@).contains(n) && !closest@.map_values(|m: NodeInfo| m@).contains(n) && 0 <= k
                    < closest@.len() ==> !lex_less_from(
                    distance_to(target_id@, n.0),
                    distance_to(target_id@, (#[trigger] closest@[k]).node_id@),
                    0,
                ),
    {
        let target_hash = sha256_hash(target_id);
        let mut candidates: Vec<NodeInfo> = Vec::new();
        let mut dists: Vec<[u8; 32]> = Vec::new();
        let ghost v = self@;
        let mut b: usize = 0;
        assert(v.take(0) =~= Seq::<Seq<(Seq<char>, Seq<char>)>>::empty());
        while b < self.buckets.len()
            invariant
                v == self@,
                target_hash@ == sha256_of(target_id@),
                b <= self.buckets@.len(),
                self.buckets@.len() == v.len(),
                candidates@.map_values(|n: NodeInfo| n@) == all_nodes(v.take(b as int)),
                distances(dists@) == distances_from(target_id@, all_nodes(v.take(b as int))),
            decreases self.buckets@.len() - b,
        {
            let ghost c0 = candidates@.map_values(|n: NodeInfo| n@);
            let ghost d0 = distances(dists@);
            let bucket = &self.buckets[b];
            assert(bucket_view(*bucket) == v[b as int]);
            let mut j: usize = 0;
            while j < bucket.nodes.len()
                invariant
                    j <= bucket.nodes@.len(),
                    b < v.len(),
                    bucket_view(*bucket) == v[b as int],
                    target_hash@ == sha256_of(target_id@),
                    candidates@.map_values(|n: NodeInfo| n@) == c0 + v[b as int].take(j as int),
                    distances(dists@) == distances_from(target_id@, c0 + v[b as int].take(j as int)),
                decreases bucket.nodes@.len() - j,
            {
                let node = &bucket.nodes[j];
                let h = sha256_hash(node.node_id.as_str());
                let d = xor_distance(&target_hash, &h);
                let ghost cs = candidates@;
                let ghost dsv = dists@;
                candidates.push(node.copy());
                dists.push(d);
                proof {
                    let prefix = c0 + v[b as int].take(j as int);
                    assert(c0 + v[b as int].take(j + 1) =~= prefix.push(node@));
                    assert(candidates@.map_values(|n: NodeInfo| n@) =~= cs.map_values(|n: NodeInfo| n@).push(node@));
                    assert(distances(dists@) =~= distances(dsv).push(d@));
                    assert(distances_from(target_id@, prefix.push(node@)) =~= distances_from(target_id@, prefix).push(
                        xor_bytes(sha256_of(target_id@), sha256_of(node@.0)),
                    ));
                    assert(distances(dists@) =~= distances_from(target_id@, prefix.push(node@)));
                }
                j = j + 1;
            }
            proof {
                assert(v[b as int].take(bucket.nodes@.len() as int) =~= v[b as int]);
                assert(v.take(b + 1).drop_last() =~= v.take(b as int));
            }
            b = b + 1;
        }
        assert(v.take(self.buckets@.len() as int) =~= v);
        let chosen = select_closest(&dists, count);
        let mut closest: Vec<NodeInfo> = Vec::new();
        let mut k: usize = 0;
        while k < chosen.len()
            invariant
                k <= chosen@.len(),
                forall|a: int| 0 <= a < chosen@.len() ==> #[trigger] chosen@[a] < candidates@.len(),
                closest@.len() == k,
                forall|a: int| 0 <= a < k ==> (#[trigger] closest@[a])@ == candidates@[chosen@[a] as int]@,
            decreases chosen@.len() - k,
        {
            closest.push(candidates[chosen[k]].copy());
            k = k + 1;
        }
        let n_cand = candidates.len();
        proof {
            let nodes = all_nodes(v);
            let res = closest@.map_values(|n: NodeInfo| n@);
            let idx = chosen@.map_values(|x: usize| x as int);
            let ds = distances_from(target_id@, nodes);
            assert(ds == distances(dists@));
            assert(nodes.len() == candidates@.len());
            assert(nodes.len() == n_cand);
            assert forall|x: usize| #[trigger] seq_elems(chosen@).contains(x) <==> seq_elems(idx).contains(x as int) by {
                if seq_elems(chosen@).contains(x) {
                    let a = choose|a: int| 0 <= a < chosen@.len() && chosen@[a] == x;
                    assert(idx[a] == x as int);
                }
                if seq_elems(idx).contains(x as int) {
                    let a = choose|a: int| 0 <= a < idx.len() && idx[a] == x as int;
                    assert(chosen@[a] == x);
                }
            }
            assert forall|j: int, a: int|
                0 <= j < nodes.len() && 0 <= a < idx.len() && !seq_elems(idx).contains(j) implies #[trigger] closer(ds, idx[a], j) by {
                let x = j as usize;
                assert(x as int == j);
                assert(!seq_elems(chosen@).contains(x));
                assert(closer(distances(dists@), chosen@[a] as int, j));
            }
            assert forall|a: int, c: int| 0 <= a < c < idx.len() implies closer(ds, #[trigger] idx[a], #[trigger] idx[c]) by {
                assert(closer(distances(dists@), chosen@[a] as int, chosen@[c] as int));
            }
            assert forall|q: int| 0 <= q < idx.len() implies 0 <= #[trigger] idx[q] < nodes.len() && res[q] == nodes[idx[q]] by {
            }
            assert(is_closest_selection(nodes, target_id@, count as nat, res));
        }
        proof {
            let res = closest@.map_values(|n: NodeInfo| n@);
            self.lemma_ids_distinct();
            lemma_all_nodes_distinct(self@);
            lemma_selection_distinct(all_nodes(self@), target_id@, count as nat, res);
            lemma_selection_ordered(all_nodes(self@), target_id@, count as nat, res);
            assert forall|a: int, c: int| 0 <= a < c < closest@.len() implies !lex_less_from(
                distance_to(target_id@, (#[trigger] closest@[c]).node_id@),
                distance_to(target_id@, (#[trigger] closest@[a]).node_id@),
                0,
            ) by {
                assert(res[a] == closest@[a]@ && res[c] == closest@[c]@);
            }
            assert forall|n: (Seq<char>, Seq<char>), k: int|
                #[trigger] all_nodes(self@).contains(n) && !res.contains(n) && 0 <= k < closest@.len() implies !lex_less_from(
                distance_to(target_id@, n.0),
                distance_to(target_id@, (#[trigger] closest@[k]).node_id@),
                0,
            ) by {
                let j = choose|j: int| 0 <= j < all_nodes(self@).len() && all_nodes(self@)[j] == n;
                assert(res[k] == closest@[k]@);
                assert(!res.contains(all_nodes(self@)[j]));
            }
            assert forall|a: int, c: int| 0 <= a < c < closest@.len() implies (#[trigger] closest@[a]).node_id@
                != (#[trigger] closest@[c]).node_id@ by {
                assert(res[a] == closest@[a]@ && res[c] == closest@[c]@);
            }
        }
        closest
    }
}

/// The XOR distance is symmetric.
pub proof fn law_xor_distance_symmetric(a: Seq<u8>, b: Seq<u8>)
    ensures
        xor_bytes(a, b) == xor_bytes(b, a),
{
    assert forall|i: int| 0 <= i < 32 implies #[trigger] xor_bytes(a, b)[i] == xor_bytes(b, a)[i] by {
        let x = a[i];
        let y = b[i];
        assert(x ^ y == y ^ x) by (bit_vector);
    }
    assert(xor_bytes(a, b) =~= xor_bytes(b, a));
}

proof fn lemma_zero_bytes_leading_zeros(d: Seq<u8>)
    requires
        forall|i: int| 0 <= i < d.len() ==> d[i] == 0,
    ensures
        leading_zero_bits(d) == 8 * d.len(),
    decreases d.len(),
{
    if d.len() > 0 {
        lemma_zero_bytes_leading_zeros(d.drop_first());
    }
}

/// A hash is at distance zero from itself: all 256 bits of the distance
/// are leading zeros, and it falls in the last bucket.
pub proof fn law_distance_to_self_is_zero(a: Seq<u8>)
    ensures
        leading_zero_bits(xor_bytes(a, a)) == 256,
        bucket_of(a, a) == 255,
{
    assert forall|i: int| 0 <= i < 32 implies #[trigger] xor_bytes(a, a)[i] == 0 by {
        let x = a[i];
        assert(x ^ x == 0) by (bit_vector);
    }
    lemma_zero_bytes_leading_zeros(xor_bytes(a, a));
}

/// A node that reports itself ends up last (most recently seen) in its
/// bucket, unless it is unknown and the bucket is full.
pub proof fn law_updated_node_is_most_recent(nodes: Seq<(Seq<char>, Seq<char>)>, id: Seq<char>, addr: Seq<char>)
    requires
        holds(nodes, id) || nodes.len() < K,
    ensures
        bucket_after_update(nodes, id, addr).last().0 == id,
        holds(bucket_after_update(nodes, id, addr), id),
{
    let r = bucket_after_update(nodes, id, addr);
    assert(r[r.len() - 1].0 == id);
}

/// A known node that reports again is taken out of its place, with the
/// other nodes keeping their order, and put back last with the address it
/// had; the bucket keeps its size.
pub proof fn law_known_node_moves_to_end(nodes: Seq<(Seq<char>, Seq<char>)>, id: Seq<char>, addr: Seq<char>, i: int)
    requires
        forall|a: int, b: int| 0 <= a < b < nodes.len() ==> (#[trigger] nodes[a]).0 != (#[trigger] nodes[b]).0,
        0 <= i < nodes.len(),
        nodes[i].0 == id,
    ensures
        bucket_after_update(nodes, id, addr) == nodes.remove(i).push(nodes[i]),
        bucket_after_update(nodes, id, addr).len() == nodes.len(),
        bucket_after_update(nodes, id, addr).last() == (id, nodes[i].1),
{
    assert(holds(nodes, id));
    let p = position_in(nodes, id);
    if p != i {
        if p < i {
            assert(nodes[p].0 != nodes[i].0);
        } else {
            assert(nodes[i].0 != nodes[p].0);
        }
    }
}

/// An unknown node that reports is appended last while its bucket has
/// room, and dropped when the bucket is full.
pub proof fn law_unknown_node_appended_while_room(nodes: Seq<(Seq<char>, Seq<char>)>, id: Seq<char>, addr: Seq<char>)
    requires
        !holds(nodes, id),
    ensures
        nodes.len() < K ==> bucket_after_update(nodes, id, addr) == nodes.push((id, addr)),
        nodes.len() >= K ==> bucket_after_update(nodes, id, addr) == nodes,
{
}

/// Removing a node keeps every other node of the bucket, in order; removing
/// a node that is not there changes nothing.
pub proof fn law_remove_keeps_others_in_order(nodes: Seq<(Seq<char>, Seq<char>)>, id: Seq<char>)
    ensures
        bucket_without(nodes, id) == nodes.filter(|n: (Seq<char>, Seq<char>)| n.0 != id),
        !holds(nodes, id) ==> bucket_without(nodes, id) == nodes,
    decreases nodes.len(),
{
    reveal_with_fuel(Seq::filter, 1);
    if nodes.len() > 0 {
        law_remove_keeps_others_in_order(nodes.drop_last(), id);
    }
    if !holds(nodes, id) {
        lemma_without_absent(nodes, id);
    }
}

/// A removed node is no longer in its bucket.
pub proof fn law_removed_node_is_gone(nodes: Seq<(Seq<char>, Seq<char>)>, id: Seq<char>)
    ensures
        !holds(bucket_without(nodes, id), id),
    decreases nodes.len(),
{
    if nodes.len() > 0 {
        law_removed_node_is_gone(nodes.drop_last(), id);
        let r = bucket_without(nodes.drop_last(), id);
        if nodes.last().0 != id {
            assert forall|i: int| 0 <= i < r.len() + 1 implies r.push(nodes.last())[i].0 != id by {
                if i < r.len() {
                    assert(r.push(nodes.last())[i] == r[i]);
                }
            }
        }
    }
}

/// Whether no node identifier occurs twice anywhere in the buckets.
pub open spec fn ids_distinct(buckets: Seq<Seq<(Seq<char>, Seq<char>)>>) -> bool {
    forall|b1: int, i: int, b2: int, j: int|
        0 <= b1 < buckets.len() && 0 <= i < buckets[b1].len() && 0 <= b2 < buckets.len() && 0 <= j
            < buckets[b2].len() && (b1 != b2 || i != j) ==> (#[trigger] buckets[b1][i]).0 != (#[trigger] buckets[b2][j]).0
}

/// A well-formed table has 256 buckets, never holds the local node, holds
/// no more than `K` nodes in a bucket, and holds each node identifier once
/// across all its buckets.
pub proof fn law_table_bounds(t: &RoutingTable, b: int, i: int)
    requires
        t.wf(),
        0 <= b < BUCKETS,
    ensures
        t@.len() == BUCKETS,
        t@[b].len() <= K,
        0 <= i < t@[b].len() ==> t@[b][i].0 != t.local_id(),
        ids_distinct(t@),
{
    t.lemma_ids_distinct();
}

impl RoutingTable {
    proof fn lemma_ids_distinct(&self)
        requires
            self.wf(),
        ensures
            self@.len() == BUCKETS,
            ids_distinct(self@),
    {
        let v = self@;
        let lh = sha256_of(self.local_node_id@);
        assert forall|b1: int, i: int, b2: int, j: int|
            0 <= b1 < v.len() && 0 <= i < v[b1].len() && 0 <= b2 < v.len() && 0 <= j < v[b2].len() && (b1 != b2
                || i != j) implies (#[trigger] v[b1][i]).0 != (#[trigger] v[b2][j]).0 by {
            if b1 != b2 {
                assert(bucket_of(lh, sha256_of(v[b1][i].0)) == b1);
                assert(bucket_of(lh, sha256_of(v[b2][j].0)) == b2);
            }
        }
    }
}

/// Whether `x` is held in one of the buckets.
spec fn in_some_bucket(bs: Seq<Seq<(Seq<char>, Seq<char>)>>, x: (Seq<char>, Seq<char>)) -> bool {
    exists|b: int, i: int| 0 <= b < bs.len() && 0 <= i < bs[b].len() && #[trigger] bs[b][i] == x
}

/// The nodes of buckets with distinct identifiers have distinct
/// identifiers, and each comes from one of the buckets.
proof fn lemma_all_nodes_distinct(bs: Seq<Seq<(Seq<char>, Seq<char>)>>)
    requires
        ids_distinct(bs),
    ensures
        forall|k: int| 0 <= k < all_nodes(bs).len() ==> in_some_bucket(bs, #[trigger] all_nodes(bs)[k]),
        forall|x: int, y: int|
            0 <= x < y < all_nodes(bs).len() ==> (#[trigger] all_nodes(bs)[x]).0 != (#[trigger] all_nodes(bs)[y]).0,
    decreases bs.len(),
{
    if bs.len() > 0 {
        let d = bs.drop_last();
        assert(ids_distinct(d)) by {
            assert forall|b1: int, i: int, b2: int, j: int|
                0 <= b1 < d.len() && 0 <= i < d[b1].len() && 0 <= b2 < d.len() && 0 <= j < d[b2].len() && (b1
                    != b2 || i != j) implies (#[trigger] d[b1][i]).0 != (#[trigger] d[b2][j]).0 by {
                assert(d[b1] == bs[b1] && d[b2] == bs[b2]);
                assert(bs[b1][i].0 != bs[b2][j].0);
            }
        }
        lemma_all_nodes_distinct(d);
        let p = all_nodes(d);
        let l = bs.last();
        let lb = bs.len() - 1;
        let a = all_nodes(bs);
        assert(a == p + l);
        assert forall|k: int| 0 <= k < a.len() implies in_some_bucket(bs, #[trigger] a[k]) by {
            if k < p.len() {
                assert(in_some_bucket(d, p[k]));
                let (b, i) = choose|b: int, i: int| 0 <= b < d.len() && 0 <= i < d[b].len() && #[trigger] d[b][i] == p[k];
                assert(a[k] == bs[b][i]);
            } else {
                assert(a[k] == bs[lb][k - p.len()]);
            }
        }
        assert forall|x: int, y: int| 0 <= x < y < a.len() implies (#[trigger] a[x]).0 != (#[trigger] a[y]).0 by {
            if y < p.len() {
                assert(a[x] == p[x] && a[y] == p[y]);
            } else if x >= p.len() {
                assert(a[x] == bs[lb][x - p.len()] && a[y] == bs[lb][y - p.len()]);
            } else {
                assert(in_some_bucket(d, p[x]));
                let (b, i) = choose|b: int, i: int| 0 <= b < d.len() && 0 <= i < d[b].len() && #[trigger] d[b][i] == p[x];
                assert(a[x] == bs[b][i]);
                assert(a[y] == bs[lb][y - p.len()]);
                assert(bs[b][i].0 != bs[lb][y - p.len()].0);
            }
        }
    }
}

/// A node that was not in its bucket and is then recorded and removed
/// again leaves the bucket, and so the table, as it was.
pub proof fn law_remove_undoes_update(v: Seq<Seq<(Seq<char>, Seq<char>)>>, b: int, id: Seq<char>, addr: Seq<char>)
    requires
        0 <= b < v.len(),
        !holds(v[b], id),
    ensures
        bucket_without(bucket_after_update(v[b], id, addr), id) == v[b],
        v.update(b, bucket_after_update(v[b], id, addr)).update(
            b,
            bucket_without(bucket_after_update(v[b], id, addr), id),
        ) == v,
{
    lemma_without_absent(v[b], id);
    if v[b].len() < K {
        assert(v[b].push((id, addr)).drop_last() =~= v[b]);
    }
    assert(v.update(b, bucket_after_update(v[b], id, addr)).update(b, v[b]) =~= v);
}

/// A selection of nodes with distinct identifiers has distinct identifiers.
proof fn lemma_selection_distinct(
    nodes: Seq<(Seq<char>, Seq<char>)>,
    target: Seq<char>,
    count: nat,
    res: Seq<(Seq<char>, Seq<char>)>,
)
    requires
        is_closest_selection(nodes, target, count, res),
        forall|x: int, y: int| 0 <= x < y < nodes.len() ==> (#[trigger] nodes[x]).0 != (#[trigger] nodes[y]).0,
    ensures
        forall|a: int, c: int| 0 <= a < c < res.len() ==> (#[trigger] res[a]).0 != (#[trigger] res[c]).0,
{
    let ds = distances_from(target, nodes);
    let idx = choose|idx: Seq<int>|
        {
            &&& idx.len() == res.len()
            &&& res.len() == if count < nodes.len() {
                count as int
            } else {
                nodes.len() as int
            }
            &&& forall|k: int| 0 <= k < idx.len() ==> 0 <= #[trigger] idx[k] < nodes.len() && res[k] == nodes[idx[k]]
            &&& forall|a: int, b: int| 0 <= a < b < idx.len() ==> closer(ds, #[trigger] idx[a], #[trigger] idx[b])
            &&& forall|j: int, a: int|
                0 <= j < nodes.len() && 0 <= a < idx.len() && !seq_elems(idx).contains(j) ==> #[trigger] closer(
                    ds,
                    idx[a],
                    j,
                )
        };
    assert forall|a: int, c: int| 0 <= a < c < res.len() implies (#[trigger] res[a]).0 != (#[trigger] res[c]).0 by {
        assert(closer(ds, idx[a], idx[c]));
        if idx[a] == idx[c] {
            lemma_lex_less_irrefl(ds[idx[a]], 0);
        }
        if idx[a] < idx[c] {
            assert(nodes[idx[a]].0 != nodes[idx[c]].0);
        } else {
            assert(nodes[idx[c]].0 != nodes[idx[a]].0);
        }
    }
}

/// Removing an absent node changes nothing.
proof fn lemma_without_absent(nodes: Seq<(Seq<char>, Seq<char>)>, id: Seq<char>)
    requires
        !holds(nodes, id),
    ensures
        bucket_without(nodes, id) == nodes,
    decreases nodes.len(),
{
    if nodes.len() > 0 {
        let d = nodes.drop_last();
        assert(!holds(d, id)) by {
            if holds(d, id) {
                let i = choose|i: int| 0 <= i < d.len() && d[i].0 == id;
                assert(nodes[i].0 == id);
            }
        }
        lemma_without_absent(d, id);
        assert(nodes[nodes.len() - 1].0 != id);
        assert(d.push(nodes.last()) =~= nodes);
    }
}

proof fn lemma_bucket_without_sub(nodes: Seq<(Seq<char>, Seq<char>)>, id: Seq<char>)
    ensures
        bucket_without(nodes, id).len() <= nodes.len(),
        forall|x: int, y: int|
            0 <= x < y < bucket_without(nodes, id).len() ==> exists|ix: int, iy: int|
                0 <= ix < iy < nodes.len() && nodes[ix] == #[trigger] bucket_without(nodes, id)[x] && nodes[iy]
                    == #[trigger] bucket_without(nodes, id)[y],
        forall|x: int|
            0 <= x < bucket_without(nodes, id).len() ==> exists|ix: int| 0 <= ix < nodes.len() && nodes[ix] == #[trigger] bucket_without(nodes, id)[x],
    decreases nodes.len(),
{
    if nodes.len() > 0 {
        let r = bucket_without(nodes.drop_last(), id);
        lemma_bucket_without_sub(nodes.drop_last(), id);
        let w = bucket_without(nodes, id);
        let d = nodes.drop_last();
        assert forall|x: int| 0 <= x < w.len() implies exists|ix: int| 0 <= ix < nodes.len() && nodes[ix] == #[trigger] w[x] by {
            if x < r.len() {
                let ix = choose|ix: int| 0 <= ix < d.len() && d[ix] == r[x];
                assert(nodes[ix] == w[x]);
            } else {
                assert(nodes[nodes.len() - 1] == w[x]);
            }
        }
        assert forall|x: int, y: int| 0 <= x < y < w.len() implies exists|ix: int, iy: int|
            0 <= ix < iy < nodes.len() && nodes[ix] == #[trigger] w[x] && nodes[iy] == #[trigger] w[y] by {
            if y < r.len() {
                let (ix, iy) = choose|ix: int, iy: int| 0 <= ix < iy < d.len() && d[ix] == r[x] && d[iy] == r[y];
                assert(nodes[ix] == w[x] && nodes[iy] == w[y]);
            } else {
                let ix = choose|ix: int| 0 <= ix < d.len() && d[ix] == r[x];
                assert(nodes[ix] == w[x]);
                assert(nodes[nodes.len() - 1] == w[y]);
            }
        }
    }
}

proof fn lemma_push_elems(s: Seq<usize>, x: usize)
    ensures
        forall|y: usize| #[trigger] seq_elems(s.push(x)).contains(y) <==> (seq_elems(s).contains(y) || y == x),
{
    crate::shortest_paths::lemma_seq_elems_push(s, x);
}

} // verus!
