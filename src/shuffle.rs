//! A reproducible shuffle of a dataset's records before it is split: a
//! Fisher-Yates shuffle driven by a xorshift generator from a fixed seed.
use vstd::prelude::*;
use crate::dataset::{is_split_at, train_size, Dataset, SplitError};
use crate::table::row_valid;

verus! {

/// The seed that the pipeline shuffles with.
pub const DEFAULT_SEED: u64 = 0x2545_f491_4f6c_dd1d;

/// One step of the xorshift generator (shifts 13, 7, 17).
pub open spec fn xorshift(s: u64) -> u64 {
    let a = s ^ (s << 13u64);
    let b = a ^ (a >> 7u64);
    b ^ (b << 17u64)
}

/// The rest of the shuffle from position `i` down: draw the next state, swap
/// position `i` with the position it picks among `0 ..= i`, and go on with
/// `i - 1`; stop at position 0.
pub open spec fn shuffle_from(order: Seq<int>, state: u64, i: nat) -> Seq<int>
    decreases i,
{
    if i == 0 {
        order
    } else {
        let next = xorshift(state);
        let j = (next % ((i + 1) as u64)) as int;
        shuffle_from(order.update(i as int, order[j]).update(j, order[i as int]), next, (i - 1) as nat)
    }
}

/// The order of the records after shuffling `n` of them from `seed`: entry
/// `p` is the index of the record that lands at position `p`.
pub open spec fn shuffle_order(n: nat, seed: u64) -> Seq<int> {
    if n == 0 {
        seq![]
    } else {
        shuffle_from(Seq::new(n, |k: int| k), seed, (n - 1) as nat)
    }
}

/// Index `v` stands at some position in `[from, to)` of `order`.
pub open spec fn occurs_in(order: Seq<int>, v: int, from: int, to: int) -> bool {
    exists|p: int| from <= p < to && #[trigger] order[p] == v
}

/// `order` lists each index below `n` exactly once.
pub open spec fn is_permutation(order: Seq<int>, n: nat) -> bool {
    &&& order.len() == n
    &&& forall|p: int| 0 <= p < n ==> 0 <= #[trigger] order[p] < n
    &&& forall|p: int, q: int| 0 <= p < q < n ==> #[trigger] order[p] != #[trigger] order[q]
    &&& forall|v: int| 0 <= v < n ==> #[trigger] occurs_in(order, v, 0, n as int)
}

/// Swapping two entries keeps a permutation a permutation.
proof fn lemma_swap_permutation(order: Seq<int>, n: nat, i: int, j: int)
    requires
        is_permutation(order, n),
        0 <= i < n,
        0 <= j < n,
    ensures
        is_permutation(order.update(i, order[j]).update(j, order[i]), n),
{
    let s = order.update(i, order[j]).update(j, order[i]);
    assert forall|p: int| 0 <= p < n implies #[trigger] s[p] == (if p == j {
        order[i]
    } else if p == i {
        order[j]
    } else {
        order[p]
    }) by {}
    assert forall|p: int, q: int| 0 <= p < q < n implies #[trigger] s[p] != #[trigger] s[q] by {
        let pp = if p == j { i } else if p == i { j } else { p };
        let qq = if q == j { i } else if q == i { j } else { q };
        assert(s[p] == order[pp] && s[q] == order[qq]);
        if pp < qq {
            assert(order[pp] != order[qq]);
        } else {
            assert(order[qq] != order[pp]);
        }
    }
    assert forall|v: int| 0 <= v < n implies #[trigger] occurs_in(s, v, 0, n as int) by {
        assert(occurs_in(order, v, 0, n as int));
        let p = choose|p: int| 0 <= p < n && #[trigger] order[p] == v;
        let pp = if p == j { i } else if p == i { j } else { p };
        assert(s[pp] == v);
    }
}

/// The rest of a shuffle keeps a permutation a permutation.
proof fn lemma_shuffle_from_permutation(order: Seq<int>, state: u64, i: nat, n: nat)
    requires
        is_permutation(order, n),
        i < n,
        n <= usize::MAX,
    ensures
        is_permutation(shuffle_from(order, state, i), n),
    decreases i,
{
    if i > 0 {
        let next = xorshift(state);
        let j = (next % ((i + 1) as u64)) as int;
        assert(j <= i);
        lemma_swap_permutation(order, n, i as int, j);
        lemma_shuffle_from_permutation(
            order.update(i as int, order[j]).update(j, order[i as int]),
            next,
            (i - 1) as nat,
            n,
        );
    }
}

/// A shuffle lists every record exactly once.
pub proof fn lemma_shuffle_is_permutation(n: nat, seed: u64)
    requires
        n <= usize::MAX,
    ensures
        is_permutation(shuffle_order(n, seed), n),
{
    if n > 0 {
        let id = Seq::new(n, |k: int| k);
        assert forall|v: int| 0 <= v < n implies #[trigger] occurs_in(id, v, 0, n as int) by {
            assert(id[v] == v);
        }
        lemma_shuffle_from_permutation(id, seed, (n - 1) as nat, n);
    }
}

/// The order as indices.
pub open spec fn order_view(order: Seq<usize>) -> Seq<int> {
    order.map_values(|x: usize| x as int)
}

/// The shuffle order of `n` records from `seed`.
fn shuffle_indices(n: usize, seed: u64) -> (r: Vec<usize>)
    ensures
        order_view(r@) == shuffle_order(n as nat, seed),
{
    let mut order: Vec<usize> = Vec::new();
    let mut k: usize = 0;
    while k < n
        invariant
            k <= n,
            order@.len() == k,
            forall|p: int| 0 <= p < k ==> #[trigger] order@[p] == p,
        decreases n - k,
    {
        order.push(k);
        k = k + 1;
    }
    if n == 0 {
        assert(order_view(order@) =~= shuffle_order(n as nat, seed));
        return order;
    }
    assert(order_view(order@) =~= Seq::new(n as nat, |k: int| k));
    let mut state = seed;
    let mut i: usize = n - 1;
    while i > 0
        invariant
            i < n,
            order@.len() == n,
            forall|p: int| 0 <= p < n ==> #[trigger] order@[p] < n,
            shuffle_from(order_view(order@), state, i as nat) == shuffle_order(n as nat, seed),
        decreases i,
    {
        let mut x = state;
        x = x ^ (x << 13u64);
        x = x ^ (x >> 7u64);
        x = x ^ (x << 17u64);
        assert(x == xorshift(state));
        let j = (x % ((i as u64) + 1)) as usize;
        let ghost before = order_view(order@);
        let a = order[i];
        let b = order[j];
        order.set(i, b);
        order.set(j, a);
        assert(order_view(order@) =~= before.update(i as int, before[j as int]).update(
            j as int,
            before[i as int],
        ));
        state = x;
        i = i - 1;
    }
    order
}

impl Dataset {
    /// The records reordered by the shuffle from `seed`: record `p` of the
    /// result is record `shuffle_order(n, seed)[p]` of this dataset.
    pub fn shuffled(&self, seed: u64) -> (r: Dataset)
        requires
            self.is_well_formed(),
        ensures
            r.is_well_formed(),
            r.feature_names@ == self.feature_names@,
            r.features@.len() == self.features@.len(),
            forall|p: int|
                0 <= p < r.features@.len() ==> {
                    let k = #[trigger] shuffle_order(self.features@.len(), seed)[p];
                    &&& r.features@[p]@ == self.features@[k]@
                    &&& r.labels@[p] == self.labels@[k]
                },
    {
        let n = self.features.len();
        let order = shuffle_indices(n, seed);
        proof {
            lemma_shuffle_is_permutation(n as nat, seed);
        }
        let ghost ord = shuffle_order(n as nat, seed);
        let mut features: Vec<Vec<String>> = Vec::new();
        let mut labels: Vec<usize> = Vec::new();
        let mut p: usize = 0;
        while p < n
            invariant
                n == self.features@.len(),
                self.is_well_formed(),
                order_view(order@) == ord,
                ord == shuffle_order(n as nat, seed),
                is_permutation(ord, n as nat),
                p <= n,
                features@.len() == p,
                labels@.len() == p,
                forall|x: int|
                    0 <= x < p ==> (#[trigger] features@[x])@ == self.features@[ord[x]]@
                        && labels@[x] == self.labels@[ord[x]],
            decreases n - p,
        {
            let k = order[p];
            assert(ord[p as int] == k as int);
            let row = &self.features[k];
            let mut copy: Vec<String> = Vec::new();
            let mut c: usize = 0;
            while c < row.len()
                invariant
                    c <= row@.len(),
                    copy@ == row@.take(c as int),
                decreases row@.len() - c,
            {
                copy.push(row[c].clone());
                assert(copy@ =~= row@.take(c + 1));
                c = c + 1;
            }
            assert(copy@ =~= row@);
            features.push(copy);
            labels.push(self.labels[k]);
            p = p + 1;
        }
        let mut feature_names: Vec<String> = Vec::new();
        let mut c: usize = 0;
        while c < self.feature_names.len()
            invariant
                c <= self.feature_names@.len(),
                feature_names@ == self.feature_names@.take(c as int),
            decreases self.feature_names@.len() - c,
        {
            feature_names.push(self.feature_names[c].clone());
            assert(feature_names@ =~= self.feature_names@.take(c + 1));
            c = c + 1;
        }
        assert(feature_names@ =~= self.feature_names@);
        let r = Dataset { features, labels, feature_names };
        assert forall|x: int| 0 <= x < r.features@.len() implies row_valid(
            #[trigger] r.features@[x]@,
            r.feature_names@.len(),
        ) by {
            assert(row_valid(self.features@[ord[x]]@, self.feature_names@.len()));
        }
        r
    }

    /// Shuffles the records from `seed`, then splits them at the ratio
    /// `numerator / denominator` as `split` does.
    pub fn split_shuffled(&self, numerator: usize, denominator: usize, seed: u64) -> (r: Result<
        (Dataset, Dataset),
        SplitError,
    >)
        requires
            self.is_well_formed(),
        ensures
            (numerator == 0 || numerator >= denominator) ==> r == Err::<(Dataset, Dataset), SplitError>(
                SplitError::RatioOutOfRange { numerator, denominator },
            ),
            0 < numerator < denominator ==> {
                let n = self.features@.len();
                let k = train_size(n, numerator as nat, denominator as nat);
                &&& (k == 0 || k == n) ==> r == Err::<(Dataset, Dataset), SplitError>(
                    SplitError::EmptyPart { rows: n as usize, train: k as usize },
                )
                &&& (0 < k < n) ==> (r matches Ok((train, test)) && train.is_well_formed()
                    && test.is_well_formed() && exists|mixed: Dataset|
                    is_shuffle_of(mixed, *self, seed) && mixed.is_well_formed() && is_split_at(
                        mixed,
                        k,
                        train,
                        test,
                    ))
            },
    {
        let mixed = self.shuffled(seed);
        let r = mixed.split(numerator, denominator);
        assert(is_shuffle_of(mixed, *self, seed));
        r
    }
}

/// `mixed` is `d` with its records in the shuffle order from `seed`.
pub open spec fn is_shuffle_of(mixed: Dataset, d: Dataset, seed: u64) -> bool {
    &&& mixed.feature_names@ == d.feature_names@
    &&& mixed.features@.len() == d.features@.len()
    &&& forall|p: int|
        0 <= p < mixed.features@.len() ==> {
            let k = #[trigger] shuffle_order(d.features@.len(), seed)[p];
            &&& mixed.features@[p]@ == d.features@[k]@
            &&& mixed.labels@[p] == d.labels@[k]
        }
}

/// A shuffled split is exhaustive and disjoint over the original records:
/// every record index below `n` lands in exactly one of the two parts, the
/// train part taking the first `k` positions of the shuffle order.
pub proof fn lemma_shuffled_split_partitions(n: nat, seed: u64, k: nat, v: int)
    requires
        k <= n <= usize::MAX,
        0 <= v < n,
    ensures
        occurs_in(shuffle_order(n, seed), v, 0, k as int) != occurs_in(
            shuffle_order(n, seed),
            v,
            k as int,
            n as int,
        ),
{
    lemma_shuffle_is_permutation(n, seed);
    let order = shuffle_order(n, seed);
    assert(occurs_in(order, v, 0, n as int));
    let p = choose|p: int| 0 <= p < n && #[trigger] order[p] == v;
    if occurs_in(order, v, 0, k as int) {
        let q = choose|q: int| 0 <= q < k && #[trigger] order[q] == v;
        assert forall|r: int| k <= r < n implies #[trigger] order[r] != v by {
            assert(order[q] != order[r]);
        }
    } else {
        if p < k {
            assert(occurs_in(order, v, 0, k as int));
        }
        assert(occurs_in(order, v, k as int, n as int));
    }
}

} // verus!
