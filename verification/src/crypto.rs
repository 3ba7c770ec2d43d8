//! The binding of the primitives, and the Merkle commitment over a list of
//! public keys.

use vstd::prelude::*;
use vstd::arithmetic::power2::{lemma2_to64, lemma_pow2_pos, lemma_pow2_unfold, pow2};
use crate::primitives::Primitives;
use crate::types::{Byte32, GuestError, PubKey, SchnorrSig};

verus! {

/// The single place the primitives are bound. It starts empty, is filled
/// once by [`set_crypto`], and is only read afterwards.
pub struct Crypto<P: Primitives> {
    provider: Option<P>,
}

impl<P: Primitives> Crypto<P> {
    /// The bound primitives, if any.
    pub closed spec fn provider(&self) -> Option<P> {
        self.provider
    }

    /// A binding that holds nothing yet.
    pub fn new() -> (slot: Self)
        ensures
            slot.provider() is None,
    {
        Crypto { provider: None }
    }

    /// The bound primitives, if any.
    pub fn get(&self) -> (r: Option<&P>)
        ensures
            match r {
                Some(p) => self.provider() == Some(*p),
                None => self.provider() is None,
            },
    {
        self.provider.as_ref()
    }

    /// Whether the primitives have been bound.
    pub fn is_bound(&self) -> (r: bool)
        ensures
            r == self.provider() is Some,
    {
        self.provider.is_some()
    }
}

/// Binds the primitives. This is done once, before anything reads them.
pub fn set_crypto<P: Primitives>(slot: &mut Crypto<P>, provider: P)
    requires
        old(slot).provider() is None,
    ensures
        final(slot).provider() == Some(provider),
{
    slot.provider = Some(provider);
}

/// What [`hash`] returns for a binding in a given state.
pub open spec fn spec_hash<P: Primitives>(bound: Option<P>, a: Seq<u8>, b: Seq<u8>) -> Result<
    Seq<u8>,
    GuestError,
> {
    match bound {
        Some(p) => Ok(p.compress_spec(a, b)),
        None => Err(GuestError::ProviderNotBound),
    }
}

/// What [`schnorr_verify`] returns for a binding in a given state.
pub open spec fn spec_schnorr_verify<P: Primitives>(
    bound: Option<P>,
    msg: Seq<u8>,
    ax: Seq<u8>,
    ay: Seq<u8>,
    sig: SchnorrSig,
) -> Result<bool, GuestError> {
    match bound {
        Some(p) => Ok(p.verify_spec(msg, ax, ay, sig)),
        None => Err(GuestError::ProviderNotBound),
    }
}

/// The bytes of a computed digest, or the error that took its place.
pub open spec fn digest_view(r: Result<Byte32, GuestError>) -> Result<Seq<u8>, GuestError> {
    match r {
        Ok(d) => Ok(d@),
        Err(e) => Err(e),
    }
}

/// Compresses two values with the bound hash.
pub fn hash<P: Primitives>(slot: &Crypto<P>, a: &Byte32, b: &Byte32) -> (r: Result<
    Byte32,
    GuestError,
>)
    ensures
        digest_view(r) == spec_hash(slot.provider(), a@, b@),
{
    match &slot.provider {
        Some(p) => Ok(p.compress(a, b)),
        None => Err(GuestError::ProviderNotBound),
    }
}

/// Checks a signature with the bound predicate.
pub fn schnorr_verify<P: Primitives>(
    slot: &Crypto<P>,
    msg: &Byte32,
    ax: &Byte32,
    ay: &Byte32,
    sig: &SchnorrSig,
) -> (r: Result<bool, GuestError>)
    ensures
        r == spec_schnorr_verify(slot.provider(), msg@, ax@, ay@, *sig),
{
    match &slot.provider {
        Some(p) => Ok(p.verify(msg, ax, ay, sig)),
        None => Err(GuestError::ProviderNotBound),
    }
}

/// `n` is one of 1, 2, 4, 8, ...
pub open spec fn is_power_of_two(n: nat) -> bool
    decreases n,
{
    n == 1 || (n > 1 && n % 2 == 0 && is_power_of_two(n / 2))
}

/// Whether `n` is a power of two; zero is not.
pub fn power_of_two(n: usize) -> (r: bool)
    ensures
        r == is_power_of_two(n as nat),
{
    if n == 0 {
        return false;
    }
    let mut m: usize = n;
    while m % 2 == 0
        invariant
            m >= 1,
            is_power_of_two(m as nat) == is_power_of_two(n as nat),
        decreases m,
    {
        m = m / 2;
    }
    m == 1
}

/// The leaf level of the tree: one compressed value per key, in order.
pub open spec fn spec_leaves<P: Primitives>(p: P, keys: Seq<PubKey>) -> Seq<Seq<u8>> {
    Seq::new(keys.len(), |i: int| p.compress_spec(keys[i].ax@, keys[i].ay@))
}

/// The root of the binary tree over `nodes`: the single node itself, or the
/// compression of the roots of the left and the right half.
pub open spec fn spec_tree<P: Primitives>(p: P, nodes: Seq<Seq<u8>>) -> Seq<u8>
    decreases nodes.len(),
{
    if nodes.len() <= 1 {
        nodes[0]
    } else {
        let half = (nodes.len() / 2) as int;
        p.compress_spec(spec_tree(p, nodes.take(half)), spec_tree(p, nodes.skip(half)))
    }
}

/// The Merkle root that commits to `keys` in the order given.
pub open spec fn spec_merkle_root<P: Primitives>(p: P, keys: Seq<PubKey>) -> Seq<u8> {
    spec_tree(p, spec_leaves(p, keys))
}

/// One step up the tree: adjacent nodes compressed pairwise, left to right.
pub open spec fn spec_pair_up<P: Primitives>(p: P, nodes: Seq<Seq<u8>>) -> Seq<Seq<u8>> {
    Seq::new(nodes.len() / 2, |i: int| p.compress_spec(nodes[2 * i], nodes[2 * i + 1]))
}

/// The byte strings held by a level of digests.
pub open spec fn level_view(level: Seq<Byte32>) -> Seq<Seq<u8>> {
    Seq::new(level.len(), |i: int| level[i]@)
}

/// Pairing up a level of a complete tree leaves its root unchanged.
pub proof fn lemma_pair_up_keeps_root<P: Primitives>(p: P, nodes: Seq<Seq<u8>>)
    requires
        is_power_of_two(nodes.len()),
        nodes.len() >= 2,
    ensures
        is_power_of_two(nodes.len() / 2),
        spec_pair_up(p, nodes).len() == nodes.len() / 2,
        spec_tree(p, spec_pair_up(p, nodes)) == spec_tree(p, nodes),
    decreases nodes.len(),
{
    let up = spec_pair_up(p, nodes);
    let half = (nodes.len() / 2) as int;
    let left = nodes.take(half);
    let right = nodes.skip(half);
    assert(spec_tree(p, nodes) == p.compress_spec(spec_tree(p, left), spec_tree(p, right)));
    if nodes.len() == 2 {
        assert(spec_tree(p, left) == nodes[0]);
        assert(spec_tree(p, right) == nodes[1]);
        assert(spec_tree(p, up) == up[0]);
    } else {
        assert(is_power_of_two(half as nat));
        lemma_pair_up_keeps_root(p, left);
        lemma_pair_up_keeps_root(p, right);
        let quarter = half / 2;
        assert(up.take(quarter) =~= spec_pair_up(p, left));
        assert(up.skip(quarter) =~= spec_pair_up(p, right));
        assert(spec_tree(p, up) == p.compress_spec(
            spec_tree(p, up.take(quarter)),
            spec_tree(p, up.skip(quarter)),
        ));
    }
}

/// What [`merkle_root`] returns: the root for a non-empty power-of-two list
/// of keys, and `InvalidCommitteeSize` for every other list.
pub open spec fn spec_root_of<P: Primitives>(p: P, keys: Seq<PubKey>) -> Result<
    Seq<u8>,
    GuestError,
> {
    if is_power_of_two(keys.len()) {
        Ok(spec_merkle_root(p, keys))
    } else {
        Err(GuestError::InvalidCommitteeSize)
    }
}

/// Computes the Merkle root over `pubkeys` with the primitives `p`: the
/// leaves are `compress(ax, ay)`, and each level above compresses the one
/// below pairwise until one value is left.
pub fn merkle_root<P: Primitives>(p: &P, pubkeys: &[PubKey]) -> (r: Result<Byte32, GuestError>)
    ensures
        digest_view(r) == spec_root_of(*p, pubkeys@),
{
    let n = pubkeys.len();
    if !power_of_two(n) {
        return Err(GuestError::InvalidCommitteeSize);
    }
    let ghost leaves = spec_leaves(*p, pubkeys@);
    let mut level: Vec<Byte32> = Vec::with_capacity(n);
    let mut i: usize = 0;
    while i < n
        invariant
            i <= n,
            n == pubkeys@.len(),
            leaves == spec_leaves(*p, pubkeys@),
            level@.len() == i,
            forall|j: int| 0 <= j < i ==> (#[trigger] level@[j])@ == leaves[j],
        decreases n - i,
    {
        let pk = &pubkeys[i];
        let leaf = p.compress(&pk.ax, &pk.ay);
        level.push(leaf);
        i += 1;
    }
    assert(level_view(level@) =~= leaves);
    while level.len() > 1
        invariant
            level@.len() >= 1,
            is_power_of_two(level@.len()),
            spec_tree(*p, level_view(level@)) == spec_tree(*p, leaves),
        decreases level@.len(),
    {
        let ghost below = level_view(level@);
        let len = level.len();
        let mut next: Vec<Byte32> = Vec::with_capacity(len / 2);
        let mut k: usize = 0;
        while k < len / 2
            invariant
                len == level@.len(),
                below == level_view(level@),
                k <= len / 2,
                next@.len() == k,
                forall|j: int|
                    0 <= j < k ==> (#[trigger] next@[j])@ == spec_pair_up(*p, below)[j],
            decreases len / 2 - k,
        {
            let node = p.compress(&level[2 * k], &level[2 * k + 1]);
            next.push(node);
            k += 1;
        }
        proof {
            lemma_pair_up_keeps_root(*p, below);
            assert(level_view(next@) =~= spec_pair_up(*p, below));
        }
        level = next;
    }
    Ok(level[0])
}

/// What [`merkle_root_from_pubkeys`] returns: a list of the wrong size is
/// refused first, an empty binding next, and else the root is computed.
pub open spec fn spec_bound_root_of<P: Primitives>(bound: Option<P>, keys: Seq<PubKey>) -> Result<
    Seq<u8>,
    GuestError,
> {
    if !is_power_of_two(keys.len()) {
        Err(GuestError::InvalidCommitteeSize)
    } else {
        match bound {
            Some(p) => Ok(spec_merkle_root(p, keys)),
            None => Err(GuestError::ProviderNotBound),
        }
    }
}

/// Computes the Merkle root over `pubkeys` with the bound hash.
pub fn merkle_root_from_pubkeys<P: Primitives>(slot: &Crypto<P>, pubkeys: &[PubKey]) -> (r: Result<
    Byte32,
    GuestError,
>)
    ensures
        digest_view(r) == spec_bound_root_of(slot.provider(), pubkeys@),
{
    if !power_of_two(pubkeys.len()) {
        return Err(GuestError::InvalidCommitteeSize);
    }
    match &slot.provider {
        Some(p) => merkle_root(p, pubkeys),
        None => Err(GuestError::ProviderNotBound),
    }
}

/// Two computations of the root over the same keys, under the same
/// primitives, yield the same bytes or the same refusal.
pub proof fn lemma_root_is_deterministic<P: Primitives>(
    p: P,
    keys: Seq<PubKey>,
    first: Result<Byte32, GuestError>,
    second: Result<Byte32, GuestError>,
)
    requires
        digest_view(first) == spec_root_of(p, keys),
        digest_view(second) == spec_root_of(p, keys),
    ensures
        first == second,
{
    if first is Ok {
        assert(first->Ok_0 =~= second->Ok_0);
    }
}

/// The sizes that [`is_power_of_two`] accepts are the powers of two.
pub proof fn lemma_power_of_two_has_exponent(n: nat) -> (k: nat)
    requires
        is_power_of_two(n),
    ensures
        n == pow2(k),
    decreases n,
{
    if n == 1 {
        lemma2_to64();
        0
    } else {
        let k = lemma_power_of_two_has_exponent(n / 2);
        lemma_pow2_unfold(k + 1);
        k + 1
    }
}

/// Every power of two is a size that [`is_power_of_two`] accepts.
pub proof fn lemma_pow2_is_power_of_two(k: nat)
    ensures
        is_power_of_two(pow2(k)),
    decreases k,
{
    if k == 0 {
        lemma2_to64();
    } else {
        lemma_pow2_is_power_of_two((k - 1) as nat);
        lemma_pow2_unfold(k);
        lemma_pow2_pos((k - 1) as nat);
    }
}

/// Bindings that compute the same compression compute the same root.
pub proof fn lemma_bindings_agree_on_tree<P: Primitives, Q: Primitives>(
    p: P,
    q: Q,
    nodes: Seq<Seq<u8>>,
)
    requires
        forall|a: Seq<u8>, b: Seq<u8>| #[trigger] p.compress_spec(a, b) == q.compress_spec(a, b),
    ensures
        spec_tree(p, nodes) == spec_tree(q, nodes),
    decreases nodes.len(),
{
    if nodes.len() > 1 {
        let half = (nodes.len() / 2) as int;
        lemma_bindings_agree_on_tree(p, q, nodes.take(half));
        lemma_bindings_agree_on_tree(p, q, nodes.skip(half));
    }
}

/// Bindings that compute the same compression commit to every list of keys
/// with the same root.
pub proof fn lemma_bindings_agree_on_root<P: Primitives, Q: Primitives>(
    p: P,
    q: Q,
    keys: Seq<PubKey>,
)
    requires
        forall|a: Seq<u8>, b: Seq<u8>| #[trigger] p.compress_spec(a, b) == q.compress_spec(a, b),
    ensures
        spec_merkle_root(p, keys) == spec_merkle_root(q, keys),
        spec_root_of(p, keys) == spec_root_of(q, keys),
{
    assert(spec_leaves(p, keys) =~= spec_leaves(q, keys));
    lemma_bindings_agree_on_tree(p, q, spec_leaves(p, keys));
}

/// Two different pairs of operands that compress to the same value.
pub open spec fn is_collision<P: Primitives>(
    p: P,
    a: Seq<u8>,
    b: Seq<u8>,
    c: Seq<u8>,
    d: Seq<u8>,
) -> bool {
    (a != c || b != d) && p.compress_spec(a, b) == p.compress_spec(c, d)
}

/// Whether `a` and `b` are compressed with each other at some node of the
/// tree over `nodes`: they are the roots of the two halves of the tree, or
/// are compressed within one of the halves.
pub open spec fn compressed_in_tree<P: Primitives>(
    p: P,
    nodes: Seq<Seq<u8>>,
    a: Seq<u8>,
    b: Seq<u8>,
) -> bool
    decreases nodes.len(),
{
    if nodes.len() <= 1 {
        false
    } else {
        let half = (nodes.len() / 2) as int;
        ||| a == spec_tree(p, nodes.take(half)) && b == spec_tree(p, nodes.skip(half))
        ||| compressed_in_tree(p, nodes.take(half), a, b)
        ||| compressed_in_tree(p, nodes.skip(half), a, b)
    }
}

/// Whether `a` and `b` are the two coordinates of the key in slot `i`.
pub open spec fn is_key_at(keys: Seq<PubKey>, i: int, a: Seq<u8>, b: Seq<u8>) -> bool {
    0 <= i < keys.len() && a == keys[i].ax@ && b == keys[i].ay@
}

/// Whether `a` and `b` are compressed with each other on the way to the root
/// over `keys`: as the two coordinates of one key, or at a node of the tree
/// above the leaves.
pub open spec fn compressed_for_root<P: Primitives>(
    p: P,
    keys: Seq<PubKey>,
    a: Seq<u8>,
    b: Seq<u8>,
) -> bool {
    ||| exists|i: int| is_key_at(keys, i, a, b)
    ||| compressed_in_tree(p, spec_leaves(p, keys), a, b)
}

/// Two different levels of the same length with the same root hold a
/// collision of the compression, which this lemma hands out: a pair that is
/// compressed in the first tree, and a different pair that is compressed in
/// the second, with the same result.
pub proof fn lemma_equal_trees_collide<P: Primitives>(
    p: P,
    xs: Seq<Seq<u8>>,
    ys: Seq<Seq<u8>>,
) -> (w: (Seq<u8>, Seq<u8>, Seq<u8>, Seq<u8>))
    requires
        xs.len() == ys.len(),
        xs.len() >= 1,
        xs != ys,
        spec_tree(p, xs) == spec_tree(p, ys),
    ensures
        is_collision(p, w.0, w.1, w.2, w.3),
        compressed_in_tree(p, xs, w.0, w.1),
        compressed_in_tree(p, ys, w.2, w.3),
    decreases xs.len(),
{
    if xs.len() == 1 {
        assert(xs =~= ys);
        (xs[0], xs[0], xs[0], xs[0])
    } else {
        let half = (xs.len() / 2) as int;
        let xl = spec_tree(p, xs.take(half));
        let xr = spec_tree(p, xs.skip(half));
        let yl = spec_tree(p, ys.take(half));
        let yr = spec_tree(p, ys.skip(half));
        if xl != yl || xr != yr {
            (xl, xr, yl, yr)
        } else if xs.take(half) != ys.take(half) {
            lemma_equal_trees_collide(p, xs.take(half), ys.take(half))
        } else {
            assert(xs.skip(half) != ys.skip(half)) by {
                if xs.skip(half) == ys.skip(half) {
                    assert(xs =~= xs.take(half) + xs.skip(half));
                    assert(ys =~= ys.take(half) + ys.skip(half));
                }
            }
            lemma_equal_trees_collide(p, xs.skip(half), ys.skip(half))
        }
    }
}

/// The commitment is as binding as the compression is collision-free: two
/// different key lists of the same length with the same root hold a
/// collision, which this lemma hands out: a pair that is compressed on the
/// way to the first root, and a different pair that is compressed on the way
/// to the second, with the same result.
pub proof fn lemma_equal_roots_collide<P: Primitives>(
    p: P,
    first: Seq<PubKey>,
    second: Seq<PubKey>,
) -> (w: (Seq<u8>, Seq<u8>, Seq<u8>, Seq<u8>))
    requires
        first.len() == second.len(),
        first.len() >= 1,
        first != second,
        spec_merkle_root(p, first) == spec_merkle_root(p, second),
    ensures
        is_collision(p, w.0, w.1, w.2, w.3),
        compressed_for_root(p, first, w.0, w.1),
        compressed_for_root(p, second, w.2, w.3),
{
    let xs = spec_leaves(p, first);
    let ys = spec_leaves(p, second);
    if xs != ys {
        lemma_equal_trees_collide(p, xs, ys)
    } else {
        assert(exists|i: int| 0 <= i < first.len() && first[i] != second[i]) by {
            if forall|i: int| 0 <= i < first.len() ==> first[i] == second[i] {
                assert(first =~= second);
            }
        }
        let i = choose|i: int| 0 <= i < first.len() && first[i] != second[i];
        let a = first[i];
        let b = second[i];
        assert(xs[i] == ys[i]);
        assert(a.ax@ != b.ax@ || a.ay@ != b.ay@) by {
            if a.ax@ == b.ax@ && a.ay@ == b.ay@ {
                assert(a.ax =~= b.ax);
                assert(a.ay =~= b.ay);
            }
        }
        assert(is_key_at(first, i, a.ax@, a.ay@));
        assert(is_key_at(second, i, b.ax@, b.ay@));
        (a.ax@, a.ay@, b.ax@, b.ay@)
    }
}

/// Whether no pair that is compressed on the way to the root over `first`
/// and no different pair that is compressed on the way to the root over
/// `second` give the same result.
pub open spec fn collision_free_between<P: Primitives>(
    p: P,
    first: Seq<PubKey>,
    second: Seq<PubKey>,
) -> bool {
    forall|a: Seq<u8>, b: Seq<u8>, c: Seq<u8>, d: Seq<u8>|
        #![trigger compressed_for_root(p, first, a, b), compressed_for_root(p, second, c, d)]
        compressed_for_root(p, first, a, b) && compressed_for_root(p, second, c, d)
            && p.compress_spec(a, b) == p.compress_spec(c, d) ==> a == c && b == d
}

/// Any change to the keys changes the root, unless the compression collides
/// on what the two computations compress: two different key lists of the
/// same length have different roots where there is no such collision.
pub proof fn lemma_root_is_sensitive<P: Primitives>(p: P, first: Seq<PubKey>, second: Seq<PubKey>)
    requires
        first.len() == second.len(),
        first.len() >= 1,
        first != second,
        collision_free_between(p, first, second),
    ensures
        spec_merkle_root(p, first) != spec_merkle_root(p, second),
{
    if spec_merkle_root(p, first) == spec_merkle_root(p, second) {
        let w = lemma_equal_roots_collide(p, first, second);
        assert(compressed_for_root(p, first, w.0, w.1) && compressed_for_root(
            p,
            second,
            w.2,
            w.3,
        ));
    }
}

} // verus!
