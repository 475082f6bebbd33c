//! The bucketed index: one contiguous buffer of identifiers grouped by bin,
//! and a table of the range that each bin occupies in it.
use crate::error::LshError;
use crate::lsh::{lemma_bin_bound, RandomProjection, Sign, LSH};
use vstd::arithmetic::power2::{lemma2_to64, lemma_pow2_strictly_increases, lemma_pow2_unfold, pow2};
use vstd::prelude::*;
use vstd::seq_lib::lemma_multiset_commutative;

verus! {

/// How many of the first `n` entries fall in bin `b`.
pub open spec fn count(bins: Seq<usize>, n: nat, b: nat) -> nat
    decreases n,
{
    if n == 0 {
        0
    } else {
        count(bins, (n - 1) as nat, b) + if bins[n - 1] == b {
            1nat
        } else {
            0nat
        }
    }
}

/// The identifiers of the first `n` entries that fall in bin `b`, in entry
/// order.
pub open spec fn members<I>(ids: Seq<I>, bins: Seq<usize>, n: nat, b: nat) -> Seq<I>
    decreases n,
{
    if n == 0 {
        Seq::empty()
    } else {
        let prev = members(ids, bins, (n - 1) as nat, b);
        if bins[n - 1] == b {
            prev.push(ids[n - 1])
        } else {
            prev
        }
    }
}

/// The identifiers of all entries that fall in bin `b`, in entry order.
pub open spec fn bucket<I>(ids: Seq<I>, bins: Seq<usize>, b: nat) -> Seq<I> {
    members(ids, bins, bins.len(), b)
}

/// Where bin `b` starts in the grouped buffer: the number of entries in the
/// bins below `b`.
pub open spec fn offset(bins: Seq<usize>, b: nat) -> nat
    decreases b,
{
    if b == 0 {
        0
    } else {
        offset(bins, (b - 1) as nat) + count(bins, bins.len(), (b - 1) as nat)
    }
}

/// The buckets of bins `0 .. nb`, laid end to end in ascending bin order.
pub open spec fn layout<I>(ids: Seq<I>, bins: Seq<usize>, nb: nat) -> Seq<I>
    decreases nb,
{
    if nb == 0 {
        Seq::empty()
    } else {
        layout(ids, bins, (nb - 1) as nat) + bucket(ids, bins, (nb - 1) as nat)
    }
}

/// The table entry of bin `b`: its range in the grouped buffer, or `None`
/// when no entry falls in it.
pub open spec fn range_entry(bins: Seq<usize>, b: nat) -> Option<(usize, usize)> {
    if count(bins, bins.len(), b) == 0 {
        None
    } else {
        Some((offset(bins, b) as usize, offset(bins, b + 1) as usize))
    }
}

/// Every entry's bin is below `nb`.
pub open spec fn bins_below(bins: Seq<usize>, nb: nat) -> bool {
    forall|i: int| 0 <= i < bins.len() ==> #[trigger] bins[i] < nb
}

/// How many of the first `n` entries fall in a bin below `b`.
spec fn below(bins: Seq<usize>, n: nat, b: nat) -> nat
    decreases n,
{
    if n == 0 {
        0
    } else {
        below(bins, (n - 1) as nat, b) + if bins[n - 1] < b {
            1nat
        } else {
            0nat
        }
    }
}

/// The entries of the bins below `b`, counted over the first `n` entries.
spec fn partial_offset(bins: Seq<usize>, n: nat, b: nat) -> nat
    decreases b,
{
    if b == 0 {
        0
    } else {
        partial_offset(bins, n, (b - 1) as nat) + count(bins, n, (b - 1) as nat)
    }
}

proof fn lemma_members_len<I>(ids: Seq<I>, bins: Seq<usize>, n: nat, b: nat)
    requires
        n <= bins.len(),
    ensures
        members(ids, bins, n, b).len() == count(bins, n, b),
    decreases n,
{
    if n > 0 {
        lemma_members_len(ids, bins, (n - 1) as nat, b);
    }
}

proof fn lemma_count_mono(bins: Seq<usize>, n1: nat, n2: nat, b: nat)
    requires
        n1 <= n2,
    ensures
        count(bins, n1, b) <= count(bins, n2, b),
    decreases n2,
{
    if n1 < n2 {
        lemma_count_mono(bins, n1, (n2 - 1) as nat, b);
    }
}

proof fn lemma_offset_mono(bins: Seq<usize>, b1: nat, b2: nat)
    requires
        b1 <= b2,
    ensures
        offset(bins, b1) <= offset(bins, b2),
    decreases b2,
{
    if b1 < b2 {
        lemma_offset_mono(bins, b1, (b2 - 1) as nat);
    }
}

proof fn lemma_partial_offset_step(bins: Seq<usize>, n: nat, b: nat)
    requires
        n < bins.len(),
    ensures
        partial_offset(bins, n + 1, b) == partial_offset(bins, n, b) + if bins[n as int] < b {
            1nat
        } else {
            0nat
        },
    decreases b,
{
    if b > 0 {
        lemma_partial_offset_step(bins, n, (b - 1) as nat);
    }
}

proof fn lemma_partial_offset_below(bins: Seq<usize>, n: nat, b: nat)
    requires
        n <= bins.len(),
    ensures
        partial_offset(bins, n, b) == below(bins, n, b),
    decreases n,
{
    if n == 0 {
        lemma_partial_offset_zero(bins, b);
    } else {
        lemma_partial_offset_below(bins, (n - 1) as nat, b);
        lemma_partial_offset_step(bins, (n - 1) as nat, b);
    }
}

proof fn lemma_partial_offset_zero(bins: Seq<usize>, b: nat)
    ensures
        partial_offset(bins, 0, b) == 0,
    decreases b,
{
    if b > 0 {
        lemma_partial_offset_zero(bins, (b - 1) as nat);
    }
}

proof fn lemma_offset_is_partial(bins: Seq<usize>, b: nat)
    ensures
        offset(bins, b) == partial_offset(bins, bins.len(), b),
    decreases b,
{
    if b > 0 {
        lemma_offset_is_partial(bins, (b - 1) as nat);
    }
}

proof fn lemma_below_all(bins: Seq<usize>, n: nat, nb: nat)
    requires
        n <= bins.len(),
        bins_below(bins, nb),
    ensures
        below(bins, n, nb) == n,
    decreases n,
{
    if n > 0 {
        lemma_below_all(bins, (n - 1) as nat, nb);
    }
}

/// When every bin is below `nb`, the bins below `nb` hold all entries.
proof fn lemma_offset_total(bins: Seq<usize>, nb: nat)
    requires
        bins_below(bins, nb),
    ensures
        offset(bins, nb) == bins.len(),
{
    lemma_offset_is_partial(bins, nb);
    lemma_partial_offset_below(bins, bins.len(), nb);
    lemma_below_all(bins, bins.len(), nb);
}

proof fn lemma_count_le(bins: Seq<usize>, n: nat, b: nat)
    ensures
        count(bins, n, b) <= n,
    decreases n,
{
    if n > 0 {
        lemma_count_le(bins, (n - 1) as nat, b);
    }
}

/// A buffer that holds bucket `b` at `offset(b)`, for every `b < nb`, starts
/// with the layout of those buckets.
proof fn lemma_layout_prefix<I>(buf: Seq<I>, ids: Seq<I>, bins: Seq<usize>, nb: nat)
    requires
        ids.len() == bins.len(),
        offset(bins, nb) <= buf.len(),
        forall|b: nat, k: int|
            b < nb && 0 <= k < count(bins, bins.len(), b) ==> buf[offset(bins, b) + k]
                == #[trigger] bucket(ids, bins, b)[k],
    ensures
        buf.subrange(0, offset(bins, nb) as int) =~= layout(ids, bins, nb),
    decreases nb,
{
    if nb > 0 {
        let p = (nb - 1) as nat;
        lemma_offset_mono(bins, p, nb);
        lemma_layout_prefix(buf, ids, bins, p);
        lemma_members_len(ids, bins, bins.len(), p);
        let head = buf.subrange(0, offset(bins, p) as int);
        let tail = buf.subrange(offset(bins, p) as int, offset(bins, nb) as int);
        assert(tail =~= bucket(ids, bins, p)) by {
            assert forall|k: int| 0 <= k < tail.len() implies tail[k] == bucket(ids, bins, p)[k] by {
                assert(buf[offset(bins, p) + k] == bucket(ids, bins, p)[k]);
            }
        }
        assert(buf.subrange(0, offset(bins, nb) as int) =~= head + tail);
    }
}

/// Groups the identifiers by bin: a stable counting sort. Returns the grouped
/// buffer and, for each of the `nbins` bins, its range in that buffer.
fn group<I: Copy>(ids: &Vec<I>, bins: &Vec<usize>, nbins: usize) -> (r: (
    Vec<I>,
    Vec<Option<(usize, usize)>>,
))
    requires
        ids@.len() == bins@.len(),
        bins_below(bins@, nbins as nat),
    ensures
        r.0@ == layout(ids@, bins@, nbins as nat),
        r.1@.len() == nbins,
        forall|b: int| 0 <= b < nbins ==> #[trigger] r.1@[b] == range_entry(bins@, b as nat),
{
    let n = bins.len();
    let ghost bs = bins@;
    let ghost is = ids@;

    // How many entries each bin receives.
    let mut counts: Vec<usize> = Vec::new();
    let mut b: usize = 0;
    while b < nbins
        invariant
            b <= nbins,
            counts@.len() == b,
            forall|c: int| 0 <= c < b ==> #[trigger] counts@[c] == 0,
        decreases nbins - b,
    {
        counts.push(0);
        b = b + 1;
    }
    let mut i: usize = 0;
    while i < n
        invariant
            i <= n == bs.len(),
            bs == bins@,
            bins_below(bs, nbins as nat),
            counts@.len() == nbins,
            forall|c: int| 0 <= c < nbins ==> #[trigger] counts@[c] == count(bs, i as nat, c as nat),
        decreases n - i,
    {
        let c = bins[i];
        proof {
            lemma_count_le(bs, i as nat, c as nat);
        }
        counts[c] = counts[c] + 1;
        i = i + 1;
    }

    // Where each bin starts, and the range table.
    let mut next: Vec<usize> = Vec::new();
    let mut table: Vec<Option<(usize, usize)>> = Vec::new();
    let mut acc: usize = 0;
    proof {
        lemma_offset_total(bs, nbins as nat);
    }
    b = 0;
    while b < nbins
        invariant
            b <= nbins,
            n == bs.len(),
            offset(bs, nbins as nat) == n,
            counts@.len() == nbins,
            forall|c: int| 0 <= c < nbins ==> #[trigger] counts@[c] == count(bs, n as nat, c as nat),
            acc == offset(bs, b as nat),
            next@.len() == b,
            table@.len() == b,
            forall|c: int| 0 <= c < b ==> #[trigger] next@[c] == offset(bs, c as nat),
            forall|c: int| 0 <= c < b ==> #[trigger] table@[c] == range_entry(bs, c as nat),
        decreases nbins - b,
    {
        proof {
            lemma_offset_mono(bs, (b + 1) as nat, nbins as nat);
        }
        let end = acc + counts[b];
        next.push(acc);
        if counts[b] == 0 {
            table.push(None);
        } else {
            table.push(Some((acc, end)));
        }
        acc = end;
        b = b + 1;
    }

    // Place each identifier at the next free slot of its bin.
    let mut buf: Vec<I> = Vec::new();
    i = 0;
    while i < n
        invariant
            i <= n == is.len(),
            is == ids@,
            buf@ == is.subrange(0, i as int),
        decreases n - i,
    {
        buf.push(ids[i]);
        i = i + 1;
    }
    assert(buf@ =~= is.subrange(0, n as int));
    i = 0;
    while i < n
        invariant
            i <= n == bs.len() == is.len(),
            bs == bins@,
            is == ids@,
            bins_below(bs, nbins as nat),
            offset(bs, nbins as nat) == n,
            buf@.len() == n,
            next@.len() == nbins,
            forall|c: int|
                0 <= c < nbins ==> #[trigger] next@[c] == offset(bs, c as nat) + count(
                    bs,
                    i as nat,
                    c as nat,
                ),
            forall|c: nat, k: int|
                c < nbins && 0 <= k < count(bs, i as nat, c) ==> buf@[offset(bs, c) + k]
                    == #[trigger] members(is, bs, i as nat, c)[k],
        decreases n - i,
    {
        let c = bins[i];
        let p = next[c];
        let ghost before = buf@;
        proof {
            lemma_count_mono(bs, (i + 1) as nat, n as nat, c as nat);
            lemma_offset_mono(bs, (c + 1) as nat, nbins as nat);
            lemma_members_len(is, bs, i as nat, c as nat);
        }
        buf[p] = ids[i];
        next[c] = p + 1;
        proof {
            assert forall|d: nat, k: int|
                d < nbins && 0 <= k < count(bs, (i + 1) as nat, d) implies buf@[offset(bs, d) + k]
                == #[trigger] members(is, bs, (i + 1) as nat, d)[k] by {
                lemma_offset_mono(bs, d + 1, nbins as nat);
                lemma_members_len(is, bs, i as nat, d);
                lemma_members_len(is, bs, (i + 1) as nat, d);
                if d != c {
                    lemma_count_mono(bs, i as nat, n as nat, d);
                    if d < c {
                        lemma_offset_mono(bs, d + 1, c as nat);
                    } else {
                        lemma_offset_mono(bs, (c + 1) as nat, d);
                    }
                    assert(members(is, bs, (i + 1) as nat, d) == members(is, bs, i as nat, d));
                    assert(before[offset(bs, d) + k] == members(is, bs, i as nat, d)[k]);
                } else if k < count(bs, i as nat, d) {
                    assert(before[offset(bs, d) + k] == members(is, bs, i as nat, d)[k]);
                } else {
                    assert(offset(bs, d) + k == p);
                }
            }
        }
        i = i + 1;
    }
    proof {
        assert forall|c: nat, k: int|
            c < nbins && 0 <= k < count(bs, bs.len(), c) implies buf@[offset(bs, c) + k]
            == #[trigger] bucket(is, bs, c)[k] by {
            assert(buf@[offset(bs, c) + k] == members(is, bs, n as nat, c)[k]);
        }
        lemma_layout_prefix(buf@, is, bs, nbins as nat);
        assert(buf@.subrange(0, n as int) =~= buf@);
    }
    (buf, table)
}

proof fn lemma_layout_len<I>(ids: Seq<I>, bins: Seq<usize>, nb: nat)
    ensures
        layout(ids, bins, nb).len() == offset(bins, nb),
    decreases nb,
{
    if nb > 0 {
        lemma_layout_len(ids, bins, (nb - 1) as nat);
        lemma_members_len(ids, bins, bins.len(), (nb - 1) as nat);
    }
}

/// Within the layout of bins `0 .. nb`, bin `b` occupies
/// `offset(b) .. offset(b + 1)`.
proof fn lemma_layout_slice<I>(ids: Seq<I>, bins: Seq<usize>, nb: nat, b: nat)
    requires
        b < nb,
    ensures
        offset(bins, b + 1) <= offset(bins, nb),
        layout(ids, bins, nb).subrange(offset(bins, b) as int, offset(bins, b + 1) as int)
            =~= bucket(ids, bins, b),
    decreases nb,
{
    let p = (nb - 1) as nat;
    lemma_layout_len(ids, bins, p);
    lemma_members_len(ids, bins, bins.len(), p);
    lemma_members_len(ids, bins, bins.len(), b);
    lemma_offset_mono(bins, b + 1, nb);
    if b < p {
        lemma_layout_slice(ids, bins, p, b);
        lemma_offset_mono(bins, b + 1, p);
        assert(layout(ids, bins, nb).subrange(offset(bins, b) as int, offset(bins, b + 1) as int)
            =~= layout(ids, bins, p).subrange(offset(bins, b) as int, offset(bins, b + 1) as int));
    }
}

/// The bin of each corpus entry under hasher `h`, in corpus order.
pub open spec fn corpus_bins<T>(h: RandomProjection<T>, signs: Seq<Seq<Sign>>) -> Seq<usize> {
    Seq::new(signs.len(), |i: int| h.bin_of(signs[i]) as usize)
}

/// A corpus whose labels and sign vectors pair up, each sign vector holding
/// one sign per hyperplane of `h`.
pub open spec fn corpus_shaped<T>(h: RandomProjection<T>, n_ids: nat, signs: Seq<Seq<Sign>>) -> bool {
    &&& n_ids == signs.len()
    &&& forall|i: int| 0 <= i < signs.len() ==> (#[trigger] signs[i]).len() == h.arity()
}

/// The view of a vector of sign vectors.
pub open spec fn signs_view(signs: Seq<Vec<Sign>>) -> Seq<Seq<Sign>> {
    signs.map_values(|v: Vec<Sign>| v@)
}

/// A locality-sensitive-hashing index over a labelled corpus.
///
/// It owns the hasher, the corpus identifiers grouped by bin into one
/// contiguous buffer (bins in ascending order, corpus order within a bin), and
/// a table that gives for every bin its range in the buffer, or `None` when no
/// entry falls in it. Built once; queries only read it.
pub struct LSHDB<I, T> {
    hasher: RandomProjection<T>,
    buf: Vec<I>,
    bin_idx: Vec<Option<(usize, usize)>>,
    corpus_ids: Ghost<Seq<I>>,
    corpus_signs: Ghost<Seq<Seq<Sign>>>,
}

impl<I, T> LSHDB<I, T> {
    /// The hasher.
    pub closed spec fn hasher_spec(&self) -> RandomProjection<T> {
        self.hasher
    }

    /// The grouped identifier buffer.
    pub closed spec fn buf_spec(&self) -> Seq<I> {
        self.buf@
    }

    /// The per-bin range table.
    pub closed spec fn bin_idx_spec(&self) -> Seq<Option<(usize, usize)>> {
        self.bin_idx@
    }

    /// The identifiers of the corpus the index was built from, in corpus order.
    pub closed spec fn ids(&self) -> Seq<I> {
        self.corpus_ids@
    }

    /// The sign vectors of the corpus the index was built from.
    pub closed spec fn signs(&self) -> Seq<Seq<Sign>> {
        self.corpus_signs@
    }

    /// The bin of each corpus entry.
    pub open spec fn bins(&self) -> Seq<usize> {
        corpus_bins(self.hasher_spec(), self.signs())
    }

    /// The number of bins of the table.
    pub open spec fn num_bins(&self) -> nat {
        self.hasher_spec().num_bins()
    }

    /// The identifiers stored for bin `b`.
    pub open spec fn members_of(&self, b: nat) -> Seq<I> {
        bucket(self.ids(), self.bins(), b)
    }

    /// The buffer is the corpus grouped by bin, and the table gives each
    /// bin's range in it.
    pub open spec fn wf(&self) -> bool {
        &&& self.hasher_spec().wf()
        &&& self.hasher_spec().bits() < usize::BITS
        &&& corpus_shaped(self.hasher_spec(), self.ids().len(), self.signs())
        &&& self.ids().len() <= usize::MAX
        &&& bins_below(self.bins(), self.num_bins())
        &&& self.buf_spec() == layout(self.ids(), self.bins(), self.num_bins())
        &&& self.bin_idx_spec().len() == self.num_bins()
        &&& forall|b: int|
            0 <= b < self.num_bins() ==> #[trigger] self.bin_idx_spec()[b] == range_entry(
                self.bins(),
                b as nat,
            )
    }

    /// The index is well formed and was built by `h` from the identifiers
    /// `ids` and the sign vectors `signs`.
    pub open spec fn built_from(&self, h: RandomProjection<T>, ids: Seq<I>, signs: Seq<Seq<Sign>>) -> bool {
        &&& self.wf()
        &&& self.hasher_spec() == h
        &&& self.ids() == ids
        &&& self.signs() == signs
    }

}

impl<I: Copy, T> LSHDB<I, T> {
    /// Builds the index of a corpus: entry `i` has identifier `ids[i]` and
    /// sign vector `signs[i]` (its signs against each hyperplane of `hasher`).
    /// Hashes every entry, then groups the identifiers by bin, stably.
    /// Fails with `ShapeMismatch` when the labels and sign vectors differ in
    /// number or a sign vector has the wrong length.
    pub fn build(hasher: RandomProjection<T>, ids: &Vec<I>, signs: &Vec<Vec<Sign>>) -> (r: Result<
        Self,
        LshError,
    >)
        requires
            hasher.wf(),
            hasher.bits() < usize::BITS,
        ensures
            !corpus_shaped(hasher, ids@.len(), signs_view(signs@)) ==> r == Err::<Self, LshError>(
                LshError::ShapeMismatch,
            ),
            corpus_shaped(hasher, ids@.len(), signs_view(signs@)) ==> (r matches Ok(db)
                && db.built_from(hasher, ids@, signs_view(signs@))),
    {
        let ghost sv = signs_view(signs@);
        let nb = hasher.hyperplanes().len();
        let n = ids.len();
        if n != signs.len() {
            return Err(LshError::ShapeMismatch);
        }
        let mut i: usize = 0;
        while i < signs.len()
            invariant
                i <= signs@.len(),
                sv == signs_view(signs@),
                nb == hasher.arity(),
                forall|j: int| 0 <= j < i ==> (#[trigger] sv[j]).len() == nb,
            decreases signs@.len() - i,
        {
            if signs[i].len() != nb {
                assert(sv[i as int] == signs@[i as int]@);
                return Err(LshError::ShapeMismatch);
            }
            i = i + 1;
        }

        let bits = hasher.bin_bits();
        let mut nbins: usize = 1;
        let mut j: usize = 0;
        proof {
            lemma2_to64();
        }
        while j < bits
            invariant
                j <= bits == hasher.bits() < usize::BITS,
                nbins == pow2(j as nat),
            decreases bits - j,
        {
            proof {
                lemma2_to64();
                lemma_pow2_unfold((j + 1) as nat);
                if j + 1 < usize::BITS {
                    lemma_pow2_strictly_increases(
                        (j + 1) as nat,
                        usize::BITS as nat,
                    );
                }
            }
            nbins = nbins * 2;
            j = j + 1;
        }

        let mut bins: Vec<usize> = Vec::new();
        i = 0;
        while i < signs.len()
            invariant
                i <= signs@.len(),
                sv == signs_view(signs@),
                hasher.wf(),
                nbins == hasher.num_bins(),
                corpus_shaped(hasher, ids@.len(), sv),
                bins@ == corpus_bins(hasher, sv.subrange(0, i as int)),
                bins_below(bins@, nbins as nat),
            decreases signs@.len() - i,
        {
            assert(sv[i as int] == signs@[i as int]@);
            let b = hasher.bin(signs[i].as_slice());
            proof {
                lemma_bin_bound(hasher, sv[i as int]);
            }
            bins.push(b);
            i = i + 1;
            assert(bins@ =~= corpus_bins(hasher, sv.subrange(0, i as int)));
        }
        assert(sv.subrange(0, signs@.len() as int) =~= sv);

        let (buf, bin_idx) = group(ids, &bins, nbins);
        Ok(LSHDB { hasher, buf, bin_idx, corpus_ids: Ghost(ids@), corpus_signs: Ghost(sv) })
    }

    /// The identifiers stored for bin `bin`, in stored order: empty when no
    /// corpus entry falls in that bin or the bin is past the table.
    pub fn get(&self, bin: usize) -> (r: &[I])
        requires
            self.wf(),
        ensures
            bin < self.num_bins() ==> r@ == self.members_of(bin as nat),
            bin >= self.num_bins() ==> r@ == Seq::<I>::empty(),
    {
        let whole = self.buf.as_slice();
        let total = self.buf.len();
        if bin < self.bin_idx.len() {
            proof {
                lemma_layout_slice(self.ids(), self.bins(), self.num_bins(), bin as nat);
                lemma_offset_total(self.bins(), self.num_bins());
                lemma_layout_len(self.ids(), self.bins(), self.num_bins());
                lemma_members_len(self.ids(), self.bins(), self.bins().len(), bin as nat);
                lemma_offset_mono(self.bins(), bin as nat, (bin + 1) as nat);
                assert(self.bin_idx_spec()[bin as int] == range_entry(self.bins(), bin as nat));
                assert(offset(self.bins(), (bin + 1) as nat) <= total);
            }
            match self.bin_idx[bin] {
                Some((start, end)) => {
                    vstd::slice::slice_subrange(whole, start, end)
                },
                None => {
                    assert(self.members_of(bin as nat) =~= Seq::<I>::empty());
                    vstd::slice::slice_subrange(whole, 0, 0)
                },
            }
        } else {
            vstd::slice::slice_subrange(whole, 0, 0)
        }
    }

    /// The candidates of a query with sign vector `signs`: the identifiers of
    /// the corpus entries that fall in the query's bin, in corpus order.
    /// Fails with `ShapeMismatch` when `signs` does not hold one sign per
    /// hyperplane.
    pub fn candidates(&self, signs: &[Sign]) -> (r: Result<&[I], LshError>)
        requires
            self.wf(),
        ensures
            signs@.len() != self.hasher_spec().arity() ==> r == Err::<&[I], LshError>(
                LshError::ShapeMismatch,
            ),
            signs@.len() == self.hasher_spec().arity() ==> (r matches Ok(c) && c@ == self.members_of(
                self.hasher_spec().bin_of(signs@),
            )),
    {
        if signs.len() != self.hasher.hyperplanes().len() {
            return Err(LshError::ShapeMismatch);
        }
        let b = self.hasher.bin(signs);
        proof {
            lemma_bin_bound(self.hasher, signs@);
        }
        Ok(self.get(b))
    }

    /// One of the candidates of a query, chosen by `draw`: the candidate at
    /// position `draw % k` among the `k` candidates, or `None` when the
    /// query's bin is empty. A uniform `draw` gives a uniform choice up to the
    /// bias of the remainder. Fails as `candidates` does.
    pub fn pick_random(&self, signs: &[Sign], draw: usize) -> (r: Result<Option<&I>, LshError>)
        requires
            self.wf(),
        ensures
            signs@.len() != self.hasher_spec().arity() ==> r == Err::<Option<&I>, LshError>(
                LshError::ShapeMismatch,
            ),
            signs@.len() == self.hasher_spec().arity() ==> ({
                let c = self.members_of(self.hasher_spec().bin_of(signs@));
                &&& c.len() == 0 ==> r == Ok::<Option<&I>, LshError>(None)
                &&& c.len() > 0 ==> (r matches Ok(Some(x)) && *x == c[(draw as int) % (c.len() as int)])
            }),
    {
        let c = self.candidates(signs)?;
        if c.len() == 0 {
            Ok(None)
        } else {
            Ok(Some(&c[draw % c.len()]))
        }
    }

    /// The hasher.
    pub fn hasher(&self) -> (r: &RandomProjection<T>)
        ensures
            *r == self.hasher_spec(),
    {
        &self.hasher
    }

    /// The grouped identifier buffer.
    pub fn buf(&self) -> (r: &[I])
        ensures
            r@ == self.buf_spec(),
    {
        self.buf.as_slice()
    }

    /// The per-bin range table.
    pub fn bin_idx(&self) -> (r: &[Option<(usize, usize)>])
        ensures
            r@ == self.bin_idx_spec(),
    {
        self.bin_idx.as_slice()
    }
}

/// The number of buffer slots that a table entry covers.
pub open spec fn range_len(e: Option<(usize, usize)>) -> nat {
    match e {
        Some((start, end)) => (end - start) as nat,
        None => 0,
    }
}

/// Whether table entry `e` is a range that holds position `p`.
pub open spec fn in_range(e: Option<(usize, usize)>, p: int) -> bool {
    match e {
        Some((start, end)) => start <= p < end,
        None => false,
    }
}

/// Whether some entry of `table` is a range that holds position `p`.
pub open spec fn slot_covered(table: Seq<Option<(usize, usize)>>, p: int) -> bool {
    exists|b: int| 0 <= b < table.len() && in_range(#[trigger] table[b], p)
}

/// The number of buffer slots covered by the first `k` table entries.
pub open spec fn covered(table: Seq<Option<(usize, usize)>>, k: nat) -> nat
    decreases k,
{
    if k == 0 {
        0
    } else {
        covered(table, (k - 1) as nat) + range_len(table[k - 1])
    }
}

proof fn lemma_covered_offset<I, T>(db: LSHDB<I, T>, k: nat)
    requires
        db.wf(),
        k <= db.num_bins(),
    ensures
        covered(db.bin_idx_spec(), k) == offset(db.bins(), k),
    decreases k,
{
    if k > 0 {
        let b = (k - 1) as nat;
        lemma_covered_offset(db, b);
        lemma_offset_bounded(db, k);
        assert(db.bin_idx_spec()[b as int] == range_entry(db.bins(), b));
    }
}

/// In a well-formed index every offset up to the number of bins lies within
/// the buffer.
proof fn lemma_offset_bounded<I, T>(db: LSHDB<I, T>, k: nat)
    requires
        db.wf(),
        k <= db.num_bins(),
    ensures
        offset(db.bins(), k) <= db.ids().len(),
        db.buf_spec().len() == db.ids().len(),
{
    lemma_offset_mono(db.bins(), k, db.num_bins());
    lemma_offset_total(db.bins(), db.num_bins());
    lemma_layout_len(db.ids(), db.bins(), db.num_bins());
}

/// Finds the bin below `nb` whose slots `offset(b) .. offset(b + 1)` hold
/// position `p`.
proof fn lemma_find_bin(bins: Seq<usize>, nb: nat, p: nat) -> (b: nat)
    requires
        p < offset(bins, nb),
    ensures
        b < nb,
        offset(bins, b) <= p < offset(bins, b + 1),
    decreases nb,
{
    let q = (nb - 1) as nat;
    if p < offset(bins, q) {
        lemma_find_bin(bins, q, p)
    } else {
        q
    }
}

/// Partition: the non-empty ranges of the table cover exactly as many slots
/// as the buffer holds, every slot lies in the range of some bin, and the
/// ranges of two distinct bins do not overlap. A non-empty range is never
/// empty of slots.
pub proof fn lemma_partition<I, T>(db: LSHDB<I, T>)
    requires
        db.wf(),
    ensures
        covered(db.bin_idx_spec(), db.num_bins()) == db.buf_spec().len(),
        forall|b: int|
            0 <= b < db.num_bins() && (#[trigger] db.bin_idx_spec()[b]) is Some ==> {
                let (s, e) = db.bin_idx_spec()[b]->0;
                s < e <= db.buf_spec().len()
            },
        forall|p: int| 0 <= p < db.buf_spec().len() ==> #[trigger] slot_covered(db.bin_idx_spec(), p),
        forall|b1: int, b2: int|
            0 <= b1 < db.num_bins() && 0 <= b2 < db.num_bins() && b1 != b2 && (
            #[trigger] db.bin_idx_spec()[b1]) is Some && (#[trigger] db.bin_idx_spec()[b2]) is Some
                ==> {
                let (s1, e1) = db.bin_idx_spec()[b1]->0;
                let (s2, e2) = db.bin_idx_spec()[b2]->0;
                e1 <= s2 || e2 <= s1
            },
{
    let bins = db.bins();
    let nb = db.num_bins();
    lemma_covered_offset(db, nb);
    lemma_offset_bounded(db, nb);
    lemma_offset_total(bins, nb);
    assert forall|b: int|
        0 <= b < nb && (#[trigger] db.bin_idx_spec()[b]) is Some implies {
        let (s, e) = db.bin_idx_spec()[b]->0;
        s < e <= db.buf_spec().len()
    } by {
        lemma_offset_bounded(db, (b + 1) as nat);
        lemma_offset_mono(bins, b as nat, (b + 1) as nat);
    }
    assert forall|p: int| 0 <= p < db.buf_spec().len() implies #[trigger] slot_covered(
        db.bin_idx_spec(),
        p,
    ) by {
        let b = lemma_find_bin(bins, nb, p as nat);
        lemma_offset_bounded(db, b + 1);
        lemma_offset_mono(bins, b, b + 1);
        assert(db.bin_idx_spec()[b as int] == range_entry(bins, b));
        assert(in_range(db.bin_idx_spec()[b as int], p));
    }
    assert forall|b1: int, b2: int|
        0 <= b1 < nb && 0 <= b2 < nb && b1 != b2 && (#[trigger] db.bin_idx_spec()[b1]) is Some && (
        #[trigger] db.bin_idx_spec()[b2]) is Some implies {
        let (s1, e1) = db.bin_idx_spec()[b1]->0;
        let (s2, e2) = db.bin_idx_spec()[b2]->0;
        e1 <= s2 || e2 <= s1
    } by {
        lemma_offset_bounded(db, (b1 + 1) as nat);
        lemma_offset_bounded(db, (b2 + 1) as nat);
        if b1 < b2 {
            lemma_offset_mono(bins, (b1 + 1) as nat, b2 as nat);
        } else {
            lemma_offset_mono(bins, (b2 + 1) as nat, b1 as nat);
        }
    }
}

/// Ordering: of two non-empty bins, the lower one's range ends before the
/// higher one's starts.
pub proof fn lemma_ordering<I, T>(db: LSHDB<I, T>, b1: nat, b2: nat)
    requires
        db.wf(),
        b1 < b2 < db.num_bins(),
        db.bin_idx_spec()[b1 as int] is Some,
        db.bin_idx_spec()[b2 as int] is Some,
    ensures
        ({
            let (s1, e1) = db.bin_idx_spec()[b1 as int]->0;
            let (s2, e2) = db.bin_idx_spec()[b2 as int]->0;
            e1 <= s2
        }),
{
    lemma_offset_bounded(db, b2 + 1);
    lemma_offset_bounded(db, b1 + 1);
    lemma_offset_mono(db.bins(), b1 + 1, b2);
    lemma_offset_mono(db.bins(), b2, b2 + 1);
}

/// The buckets of bins `0 .. nb` over the first `n` entries, end to end.
spec fn layout_at<I>(ids: Seq<I>, bins: Seq<usize>, n: nat, nb: nat) -> Seq<I>
    decreases nb,
{
    if nb == 0 {
        Seq::empty()
    } else {
        layout_at(ids, bins, n, (nb - 1) as nat) + members(ids, bins, n, (nb - 1) as nat)
    }
}

proof fn lemma_layout_at_full<I>(ids: Seq<I>, bins: Seq<usize>, nb: nat)
    ensures
        layout(ids, bins, nb) == layout_at(ids, bins, bins.len(), nb),
    decreases nb,
{
    if nb > 0 {
        lemma_layout_at_full(ids, bins, (nb - 1) as nat);
    }
}

proof fn lemma_layout_at_step<I>(ids: Seq<I>, bins: Seq<usize>, n: nat, nb: nat)
    requires
        n < bins.len(),
    ensures
        layout_at(ids, bins, n + 1, nb).to_multiset() =~= if bins[n as int] < nb {
            layout_at(ids, bins, n, nb).to_multiset().insert(ids[n as int])
        } else {
            layout_at(ids, bins, n, nb).to_multiset()
        },
    decreases nb,
{
    broadcast use vstd::seq_lib::group_to_multiset_ensures, vstd::multiset::group_multiset_axioms;

    if nb > 0 {
        let k = (nb - 1) as nat;
        lemma_layout_at_step(ids, bins, n, k);
        lemma_multiset_commutative(layout_at(ids, bins, n + 1, k), members(ids, bins, n + 1, k));
        lemma_multiset_commutative(layout_at(ids, bins, n, k), members(ids, bins, n, k));
    }
}

proof fn lemma_layout_at_multiset<I>(ids: Seq<I>, bins: Seq<usize>, n: nat, nb: nat)
    requires
        n <= bins.len() == ids.len(),
        bins_below(bins, nb),
    ensures
        layout_at(ids, bins, n, nb).to_multiset() =~= ids.subrange(0, n as int).to_multiset(),
    decreases n,
{
    broadcast use vstd::seq_lib::group_to_multiset_ensures, vstd::multiset::group_multiset_axioms;

    if n == 0 {
        lemma_layout_at_empty(ids, bins, nb);
    } else {
        let m = (n - 1) as nat;
        lemma_layout_at_multiset(ids, bins, m, nb);
        lemma_layout_at_step(ids, bins, m, nb);
        assert(ids.subrange(0, n as int) =~= ids.subrange(0, m as int).push(ids[m as int]));
    }
}

proof fn lemma_layout_at_empty<I>(ids: Seq<I>, bins: Seq<usize>, nb: nat)
    ensures
        layout_at(ids, bins, 0, nb) =~= Seq::<I>::empty(),
    decreases nb,
{
    if nb > 0 {
        lemma_layout_at_empty(ids, bins, (nb - 1) as nat);
    }
}

/// Permutation: the buffer holds exactly the corpus identifiers, each as
/// many times as in the corpus.
pub proof fn lemma_permutation<I, T>(db: LSHDB<I, T>)
    requires
        db.wf(),
    ensures
        db.buf_spec().to_multiset() == db.ids().to_multiset(),
{
    lemma_layout_at_full(db.ids(), db.bins(), db.num_bins());
    lemma_layout_at_multiset(db.ids(), db.bins(), db.bins().len(), db.num_bins());
    assert(db.ids().subrange(0, db.ids().len() as int) =~= db.ids());
}

/// Entry `i` of the first `n` is in the members of its bin, at a position
/// below that bin's count.
proof fn lemma_members_has<I>(ids: Seq<I>, bins: Seq<usize>, n: nat, i: int) -> (k: int)
    requires
        0 <= i < n <= bins.len(),
    ensures
        0 <= k < count(bins, n, bins[i] as nat),
        members(ids, bins, n, bins[i] as nat)[k] == ids[i],
    decreases n,
{
    let b = bins[i] as nat;
    let m = (n - 1) as nat;
    lemma_members_len(ids, bins, m, b);
    if i == m {
        count(bins, m, b) as int
    } else {
        lemma_members_has(ids, bins, m, i)
    }
}

/// Hash consistency: the identifier of every corpus entry lies in the range
/// of the entry's bin.
pub proof fn lemma_hash_consistency<I, T>(db: LSHDB<I, T>, i: int)
    requires
        db.wf(),
        0 <= i < db.ids().len(),
    ensures
        db.bin_idx_spec()[db.bins()[i] as int] is Some,
        exists|p: int|
            in_range(db.bin_idx_spec()[db.bins()[i] as int], p) && db.buf_spec()[p] == db.ids()[i],
{
    let bins = db.bins();
    let b = bins[i] as nat;
    let k = lemma_members_has(db.ids(), bins, bins.len(), i);
    lemma_layout_slice(db.ids(), bins, db.num_bins(), b);
    lemma_offset_bounded(db, b + 1);
    lemma_members_len(db.ids(), bins, bins.len(), b);
    assert(db.bin_idx_spec()[b as int] == range_entry(bins, b));
    let p = offset(bins, b) + k;
    assert(db.buf_spec()[p] == bucket(db.ids(), bins, b)[k]);
    assert(in_range(db.bin_idx_spec()[b as int], p));
}

/// Self-retrieval: the candidates of any corpus entry's sign vector include
/// that entry's identifier.
pub proof fn lemma_self_retrieval<I, T>(db: LSHDB<I, T>, i: int)
    requires
        db.wf(),
        0 <= i < db.ids().len(),
    ensures
        db.members_of(db.hasher_spec().bin_of(db.signs()[i])).contains(db.ids()[i]),
{
    let h = db.hasher_spec();
    let bins = db.bins();
    lemma_bin_bound(h, db.signs()[i]);
    lemma2_to64();
    lemma_pow2_strictly_increases(h.bits(), usize::BITS as nat);
    assert(bins[i] as nat == h.bin_of(db.signs()[i]));
    let k = lemma_members_has(db.ids(), bins, bins.len(), i);
    lemma_members_len(db.ids(), bins, bins.len(), bins[i] as nat);
}

/// Determinism: two indexes built by the same hasher from the same corpus
/// have identical buffers and identical tables.
pub proof fn lemma_build_deterministic<I, T>(
    a: LSHDB<I, T>,
    b: LSHDB<I, T>,
    h: RandomProjection<T>,
    ids: Seq<I>,
    signs: Seq<Seq<Sign>>,
)
    requires
        a.built_from(h, ids, signs),
        b.built_from(h, ids, signs),
    ensures
        a.buf_spec() == b.buf_spec(),
        a.bin_idx_spec() == b.bin_idx_spec(),
{
    assert(a.bin_idx_spec() =~= b.bin_idx_spec());
}

/// A corpus of one entry: its bin's range is `[0, 1)` and every other bin is
/// empty.
pub proof fn lemma_single_entry<I, T>(db: LSHDB<I, T>)
    requires
        db.wf(),
        db.ids().len() == 1,
    ensures
        db.bin_idx_spec()[db.bins()[0] as int] == Some((0usize, 1usize)),
        forall|b: int|
            0 <= b < db.num_bins() && b != db.bins()[0] ==> #[trigger] db.bin_idx_spec()[b]
                is None,
{
    let bins = db.bins();
    let b0 = bins[0] as nat;
    lemma_offset_below_single(bins, b0);
    reveal_with_fuel(count, 2);
    assert(db.bin_idx_spec()[b0 as int] == range_entry(bins, b0));
    assert forall|b: int| 0 <= b < db.num_bins() && b != bins[0] implies #[trigger] db.bin_idx_spec()[b]
        is None by {
        reveal_with_fuel(count, 2);
        assert(db.bin_idx_spec()[b] == range_entry(bins, b as nat));
    }
}

proof fn lemma_offset_below_single(bins: Seq<usize>, b: nat)
    requires
        bins.len() == 1,
        b <= bins[0],
    ensures
        offset(bins, b) == 0,
    decreases b,
{
    if b > 0 {
        lemma_offset_below_single(bins, (b - 1) as nat);
        reveal_with_fuel(count, 2);
    }
}

} // verus!
