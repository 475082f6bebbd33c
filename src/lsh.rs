//! Sign bits, bin-identifier assembly and the random-projection hasher.
use vstd::arithmetic::power2::{lemma2_to64, lemma_pow2_strictly_increases, lemma_pow2_unfold, pow2};
use crate::error::LshError;
use vstd::prelude::*;

verus! {

/// The sign of an inner product: `Positive` when it is strictly above zero,
/// `Negative` otherwise (zero included). `Negative` is the neutral zero bit.
#[derive(Clone, Copy, Debug, PartialEq, Eq, Structural)]
pub enum Sign {
    Positive,
    Negative,
}

/// The numeric value of a sign bit: `Positive` is 1, `Negative` is 0.
pub open spec fn bit(s: Sign) -> nat {
    match s {
        Sign::Positive => 1,
        Sign::Negative => 0,
    }
}

/// The integer whose bit `i` is the value of `s[i]` (the least significant
/// bit comes from position 0).
pub open spec fn pack(s: Seq<Sign>) -> nat
    decreases s.len(),
{
    if s.len() == 0 {
        0
    } else {
        bit(s[0]) + 2 * pack(s.drop_first())
    }
}

/// A packed sequence of `k` bits is below `2^k`.
pub proof fn lemma_pack_bound(s: Seq<Sign>)
    ensures
        pack(s) < pow2(s.len()),
    decreases s.len(),
{
    if s.len() == 0 {
        lemma2_to64();
    } else {
        lemma_pack_bound(s.drop_first());
        lemma_pow2_unfold(s.len());
    }
}

impl Default for Sign {
    fn default() -> (r: Sign)
        ensures
            r == Sign::Negative,
    {
        Sign::Negative
    }
}

impl Sign {
    /// The bit of this sign: 1 for `Positive`, 0 for `Negative`.
    pub fn to_bit(self) -> (r: usize)
        ensures
            r == bit(self),
    {
        match self {
            Sign::Positive => 1,
            Sign::Negative => 0,
        }
    }

    /// Packs a sequence of at most `usize::BITS` signs into one word, bit `i`
    /// holding sign `i`.
    pub fn to_usize(sign_arr: &[Sign]) -> (r: usize)
        requires
            sign_arr@.len() <= usize::BITS,
        ensures
            r == pack(sign_arr@),
    {
        let n = sign_arr.len();
        let mut acc: usize = 0;
        let mut i: usize = n;
        while i > 0
            invariant
                i <= n == sign_arr@.len() <= usize::BITS,
                acc == pack(sign_arr@.subrange(i as int, n as int)),
            decreases i,
        {
            i = i - 1;
            let ghost rest = sign_arr@.subrange(i + 1, n as int);
            let ghost here = sign_arr@.subrange(i as int, n as int);
            assert(here.drop_first() =~= rest);
            proof {
                lemma_pack_bound(rest);
                lemma2_to64();
                if rest.len() + 1 < usize::BITS {
                    lemma_pow2_strictly_increases(rest.len() + 1, usize::BITS as nat);
                }
                lemma_pow2_unfold(rest.len() + 1);
            }
            let b: usize = sign_arr[i].to_bit();
            acc = b + 2 * acc;
        }
        assert(sign_arr@.subrange(0, n as int) =~= sign_arr@);
        acc
    }
}

/// How the sign bits of a query become a bin identifier.
#[derive(Clone, Copy, Debug, PartialEq, Eq, Structural)]
pub enum ConstructionMethod {
    /// The hyperplanes are the nodes of a perfect binary tree in breadth-first
    /// order; each sign picks the child to descend to and is one bit.
    Tree,
    /// Every hyperplane gives one bit; the bits are concatenated.
    Concatenate,
}

/// the ceiling of `log2 n`, with `0` for `n <= 1`.
pub open spec fn ceil_log2(n: nat) -> nat
    decreases n,
{
    if n <= 1 {
        0
    } else {
        1 + ceil_log2(((n + 1) / 2) as nat)
    }
}

/// `ceil_log2(n)` is the least `k` with `2^k >= n`.
pub proof fn lemma_ceil_log2(n: nat)
    ensures
        pow2(ceil_log2(n)) >= n,
        n > 1 ==> pow2((ceil_log2(n) - 1) as nat) < n,
    decreases n,
{
    lemma2_to64();
    if n > 1 {
        let m = ((n + 1) / 2) as nat;
        lemma_ceil_log2(m);
        lemma_pow2_unfold(ceil_log2(n));
        if m > 1 {
            lemma_pow2_unfold(ceil_log2(m));
        }
    }
}

/// The number of bits in a bin identifier made from `nb` hyperplanes.
pub open spec fn bin_bits(cm: ConstructionMethod, nb: nat) -> nat {
    match cm {
        ConstructionMethod::Concatenate => nb,
        ConstructionMethod::Tree => ceil_log2(nb),
    }
}

/// A configuration whose bin identifier fits in a machine word.
pub open spec fn fits_word(cm: ConstructionMethod, nb: nat) -> bool {
    bin_bits(cm, nb) <= usize::BITS
}

/// Computes the ceiling of `log2 n`.
fn ceil_log2_of(n: usize) -> (k: usize)
    ensures
        k == ceil_log2(n as nat),
{
    let mut m: usize = n;
    let mut k: usize = 0;
    while m > 1
        invariant
            k + m <= n,
            k + ceil_log2(m as nat) == ceil_log2(n as nat),
        decreases m,
    {
        m = m / 2 + m % 2;
        k = k + 1;
    }
    k
}

/// Whether `n` hyperplanes under `cm` give bin identifiers that fit in a word:
/// `n <= usize::BITS` for `Concatenate`, `ceil_log2(n) <= usize::BITS` for `Tree`.
pub fn fits_in_usize(cm: ConstructionMethod, n: usize) -> (r: bool)
    ensures
        r == fits_word(cm, n as nat),
{
    match cm {
        ConstructionMethod::Tree => ceil_log2_of(n) <= usize::BITS as usize,
        ConstructionMethod::Concatenate => n <= usize::BITS as usize,
    }
}

/// The sign read at tree node `node`: the node's own sign while the node is
/// one of the hyperplanes, and the neutral `Negative` past the last one.
pub open spec fn node_sign(signs: Seq<Sign>, node: nat) -> Sign {
    if node < signs.len() {
        signs[node as int]
    } else {
        Sign::Negative
    }
}

/// The child of `node` that sign `s` leads to: `2 * node + 1` for `Negative`,
/// `2 * node + 2` for `Positive`.
pub open spec fn child(node: nat, s: Sign) -> nat {
    2 * node + 1 + bit(s)
}

/// The `depth` signs met while descending from `node`, each sign choosing the
/// next node.
pub open spec fn descent(signs: Seq<Sign>, node: nat, depth: nat) -> Seq<Sign>
    decreases depth,
{
    if depth == 0 {
        Seq::empty()
    } else {
        let s = node_sign(signs, node);
        seq![s] + descent(signs, child(node, s), (depth - 1) as nat)
    }
}

/// A descent of `depth` levels meets `depth` signs.
proof fn lemma_descent_len(signs: Seq<Sign>, node: nat, depth: nat)
    ensures
        descent(signs, node, depth).len() == depth,
    decreases depth,
{
    if depth > 0 {
        lemma_descent_len(signs, child(node, node_sign(signs, node)), (depth - 1) as nat);
    }
}

/// Descends `depth` levels from the root of the tree and returns the signs met
/// on the way.
fn tree_path(signs: &[Sign], depth: usize) -> (path: Vec<Sign>)
    ensures
        path@ == descent(signs@, 0, depth as nat),
{
    let n = signs.len();
    let mut path: Vec<Sign> = Vec::new();
    let mut node: usize = 0;
    let mut inside: bool = n > 0;
    let ghost mut g: nat = 0;
    let mut d: usize = 0;
    while d < depth
        invariant
            d <= depth,
            n == signs@.len(),
            path@ + descent(signs@, g, (depth - d) as nat) == descent(signs@, 0, depth as nat),
            inside ==> g == node && node < n,
            !inside ==> g >= n,
        decreases depth - d,
    {
        let ghost before = path@;
        let ghost g0 = g;
        let s = if inside {
            signs[node]
        } else {
            Sign::Negative
        };
        assert(s == node_sign(signs@, g0));
        path.push(s);
        proof {
            g = child(g0, s);
        }
        if inside {
            let next: u128 = 2 * (node as u128) + 1 + (s.to_bit() as u128);
            if next < n as u128 {
                node = next as usize;
            } else {
                inside = false;
            }
        }
        d = d + 1;
        assert(path@ + descent(signs@, g, (depth - d) as nat) =~= before + descent(
            signs@,
            g0,
            (depth - d + 1) as nat,
        ));
    }
    assert(path@ + descent(signs@, g, 0) =~= path@);
    path
}

/// Anything that maps the sign bits of a query to a bin identifier.
pub trait LSH {
    /// Whether the hasher is well formed.
    spec fn valid(&self) -> bool;

    /// How many sign bits a query brings: one per hyperplane.
    spec fn arity(&self) -> nat;

    /// The bin that a query with sign bits `signs` falls in.
    spec fn bin_of(&self, signs: Seq<Sign>) -> nat;

    /// Computes the bin of a query from its sign bits; the result depends on
    /// the hasher and the signs alone.
    fn bin(&self, signs: &[Sign]) -> (r: usize)
        requires
            self.valid(),
            signs@.len() == self.arity(),
        ensures
            r == self.bin_of(signs@),
    ;
}

/// A random-projection hasher: an ordered set of hyperplane normals and the
/// method that turns the signs of a query against them into a bin.
///
/// The scalars of the normals are carried, not read: the signs of a query are
/// computed against `hyperplanes()` by the caller and handed to `bin`.
pub struct RandomProjection<T> {
    hp: Vec<Vec<T>>,
    cm: ConstructionMethod,
}

impl<T> RandomProjection<T> {
    /// The hyperplane normals, in order.
    pub closed spec fn planes(&self) -> Seq<Vec<T>> {
        self.hp@
    }

    /// The construction method.
    pub closed spec fn method_spec(&self) -> ConstructionMethod {
        self.cm
    }

    /// The number of bits of this hasher's bin identifiers.
    pub open spec fn bits(&self) -> nat {
        bin_bits(self.method_spec(), self.planes().len())
    }

    /// The number of distinct bins, `2^bits`.
    pub open spec fn num_bins(&self) -> nat {
        pow2(self.bits())
    }

    /// The configuration fits a machine word, and all normals share one
    /// dimension of at least 1.
    pub open spec fn wf(&self) -> bool {
        &&& fits_word(self.method_spec(), self.planes().len())
        &&& planes_shaped(self.planes())
    }

    /// Builds a hasher over the normals `hp`. Fails with `ConfigurationTooWide`
    /// when the bin identifier would not fit a word, else with `ShapeMismatch`
    /// when the normals are empty vectors or differ in length.
    pub fn new(hp: Vec<Vec<T>>, cm: ConstructionMethod) -> (r: Result<Self, LshError>)
        ensures
            !fits_word(cm, hp@.len()) ==> r == Err::<Self, LshError>(LshError::ConfigurationTooWide),
            fits_word(cm, hp@.len()) && !planes_shaped(hp@) ==> r == Err::<Self, LshError>(
                LshError::ShapeMismatch,
            ),
            fits_word(cm, hp@.len()) && planes_shaped(hp@) ==> (r matches Ok(p) && p.wf()
                && p.planes() == hp@ && p.method_spec() == cm),
    {
        if !fits_in_usize(cm, hp.len()) {
            return Err(LshError::ConfigurationTooWide);
        }
        if !same_dimension(&hp) {
            return Err(LshError::ShapeMismatch);
        }
        Ok(RandomProjection { hp, cm })
    }

    /// The hyperplane normals, in order.
    pub fn hyperplanes(&self) -> (r: &Vec<Vec<T>>)
        ensures
            r@ == self.planes(),
    {
        &self.hp
    }

    /// The construction method.
    pub fn method(&self) -> (r: ConstructionMethod)
        ensures
            r == self.method_spec(),
    {
        self.cm
    }

    /// The number of bits of a bin identifier.
    pub fn bin_bits(&self) -> (r: usize)
        requires
            self.wf(),
        ensures
            r == self.bits(),
    {
        match self.cm {
            ConstructionMethod::Tree => ceil_log2_of(self.hp.len()),
            ConstructionMethod::Concatenate => self.hp.len(),
        }
    }

    /// The bin of a query by tree descent: the signs met on the first `depth`
    /// levels, packed.
    fn tree(signs: &[Sign], depth: usize) -> (r: usize)
        requires
            depth <= usize::BITS,
        ensures
            r == pack(descent(signs@, 0, depth as nat)),
    {
        let path = tree_path(signs, depth);
        proof {
            lemma_descent_len(signs@, 0, depth as nat);
        }
        Sign::to_usize(path.as_slice())
    }

    /// The bin of a query by concatenation: all its signs, packed.
    fn concatenate(signs: &[Sign]) -> (r: usize)
        requires
            signs@.len() <= usize::BITS,
        ensures
            r == pack(signs@),
    {
        Sign::to_usize(signs)
    }
}

/// Every normal has the dimension of the first, and that dimension is at
/// least 1.
pub open spec fn planes_shaped<T>(hp: Seq<Vec<T>>) -> bool {
    forall|j: int| 0 <= j < hp.len() ==> #[trigger] hp[j]@.len() == hp[0]@.len() && hp[j]@.len() >= 1
}

/// Checks that all vectors share the dimension of the first, of at least 1.
fn same_dimension<T>(hp: &Vec<Vec<T>>) -> (r: bool)
    ensures
        r == planes_shaped(hp@),
{
    if hp.len() == 0 {
        return true;
    }
    let d = hp[0].len();
    if d == 0 {
        return false;
    }
    let mut j: usize = 0;
    while j < hp.len()
        invariant
            j <= hp@.len(),
            d == hp@[0]@.len() >= 1,
            forall|i: int| 0 <= i < j ==> #[trigger] hp@[i]@.len() == d,
        decreases hp@.len() - j,
    {
        if hp[j].len() != d {
            return false;
        }
        j = j + 1;
    }
    true
}

impl<T> LSH for RandomProjection<T> {
    open spec fn valid(&self) -> bool {
        self.wf()
    }

    open spec fn arity(&self) -> nat {
        self.planes().len()
    }

    open spec fn bin_of(&self, signs: Seq<Sign>) -> nat {
        match self.method_spec() {
            ConstructionMethod::Tree => pack(descent(signs, 0, self.bits())),
            ConstructionMethod::Concatenate => pack(signs),
        }
    }

    fn bin(&self, signs: &[Sign]) -> (r: usize) {
        match self.cm {
            ConstructionMethod::Tree => Self::tree(signs, ceil_log2_of(self.hp.len())),
            ConstructionMethod::Concatenate => Self::concatenate(signs),
        }
    }
}

/// A bin of a well-formed hasher is below its number of bins.
pub proof fn lemma_bin_bound<T>(h: RandomProjection<T>, signs: Seq<Sign>)
    requires
        signs.len() == h.arity(),
    ensures
        h.bin_of(signs) < h.num_bins(),
{
    match h.method_spec() {
        ConstructionMethod::Tree => {
            lemma_descent_len(signs, 0, h.bits());
            lemma_pack_bound(descent(signs, 0, h.bits()));
        },
        ConstructionMethod::Concatenate => {
            lemma_pack_bound(signs);
        },
    }
}

/// One hyperplane under concatenation gives exactly two bins: `0` for a
/// `Negative` sign and `1` for a `Positive` one.
pub proof fn lemma_one_plane<T>(h: RandomProjection<T>)
    requires
        h.planes().len() == 1,
        h.method_spec() == ConstructionMethod::Concatenate,
    ensures
        h.num_bins() == 2,
        h.bin_of(seq![Sign::Negative]) == 0,
        h.bin_of(seq![Sign::Positive]) == 1,
        forall|s: Seq<Sign>| s.len() == 1 ==> #[trigger] h.bin_of(s) < 2,
{
    lemma2_to64();
    reveal_with_fuel(pack, 2);
    assert forall|s: Seq<Sign>| s.len() == 1 implies #[trigger] h.bin_of(s) < 2 by {
        lemma_bin_bound(h, s);
    }
}

/// The bin at Hamming distance one from `bin` that differs from it in bit
/// `k`.
pub fn similar_bin(bin: usize, k: u32) -> (r: usize)
    requires
        k < usize::BITS,
    ensures
        r == bin ^ (1usize << k),
        r != bin,
        r ^ bin == 1usize << k,
{
    let r = bin ^ (1usize << k);
    assert(r != bin && r ^ bin == 1usize << k) by (bit_vector)
        requires
            r == bin ^ (1usize << k),
            k < usize::BITS,
    ;
    r
}

} // verus!
