//! Partitioned admission control: one independent quota bucket per partition,
//! selected through an immutable symbol-to-partition mapping.

use crate::symbols::{
    alphabet, generate, ind, seeded_partitions, indices_of, is_partition_of, lemma_partition_indices_total,
    partition_indices, parts_view,
};
use vstd::prelude::*;

verus! {

/// One partition's quota bucket: governor's `DefaultDirectRateLimiter`, a rate
/// limiter over a single cell of in-memory state on the default monotonic
/// clock. Checking it is an atomic compare-and-swap loop on that cell, so
/// buckets never block one another. The limiter is held opaque: governor's
/// `RateLimiter` cannot be declared on its own, as its definition is bounded by
/// governor's `StateStore` and `Clock` traits.
#[verifier::external_body]
pub struct Bucket {
    limiter: governor::DefaultDirectRateLimiter,
}

/// The quota, in admissions per second, that a bucket was made with.
pub uninterp spec fn quota_of(b: Bucket) -> nat;

/// Relies on governor's `RateLimiter::direct` with `Quota::per_second`: a fresh
/// bucket that admits `limit` requests per second (and bursts of `limit`).
#[verifier::external_body]
fn new_bucket(limit: u8) -> (r: Bucket)
    requires
        limit > 0,
    ensures
        quota_of(r) == limit,
{
    let per_second = core::num::NonZeroU32::new(limit as u32).unwrap();
    Bucket { limiter: governor::RateLimiter::direct(governor::Quota::per_second(per_second)) }
}

/// Relies on governor's `RateLimiter::check`: whether the bucket admits one
/// request now, recording the admission when it does. The outcome depends on
/// the clock, so nothing is promised of it.
#[verifier::external_body]
fn bucket_admits(b: &Bucket) -> bool {
    b.limiter.check().is_ok()
}

/// Why a set of groups cannot be turned into a mapping.
#[derive(Debug, Clone, Copy, PartialEq, Eq, Structural)]
pub enum InitError {
    /// A group names a symbol index outside the alphabet.
    SymbolOutOfRange,
    /// Some symbol of the alphabet is in no group.
    Incomplete,
}

/// A request that its partition's quota does not admit now.
#[derive(Debug, Clone, Copy, PartialEq, Eq, Structural)]
pub struct NotAdmitted;

/// Every symbol index named by the groups lies in `0..n`.
pub open spec fn in_range(parts: Seq<Seq<usize>>, n: usize) -> bool {
    forall|p: int, j: int|
        0 <= p < parts.len() && 0 <= j < parts[p].len() ==> #[trigger] parts[p][j] < n
}

/// Some group names symbol index `s`.
pub open spec fn covered(parts: Seq<Seq<usize>>, s: usize) -> bool {
    exists|p: int| 0 <= p < parts.len() && #[trigger] parts[p].contains(s)
}

/// Every symbol index of `0..n` is named by some group.
pub open spec fn covers(parts: Seq<Seq<usize>>, n: usize) -> bool {
    forall|s: usize| s < n ==> #[trigger] covered(parts, s)
}

/// The groups are pairwise disjoint.
pub open spec fn disjoint(parts: Seq<Seq<usize>>) -> bool {
    forall|p: int, q: int, s: usize|
        0 <= p < parts.len() && 0 <= q < parts.len() && p != q && #[trigger] parts[p].contains(s)
            ==> !(#[trigger] parts[q].contains(s))
}

/// `mapping` sends each symbol index to a group that holds it.
pub open spec fn maps_into(mapping: Seq<usize>, parts: Seq<Seq<usize>>) -> bool {
    forall|s: int| 0 <= s < mapping.len() ==> #[trigger] mapping[s] < parts.len() && parts[mapping[s] as int].contains(s as usize)
}

/// The view of a list of groups as sequences of indices.
pub open spec fn groups_view(parts: Seq<Vec<usize>>) -> Seq<Seq<usize>> {
    parts.map_values(|p: Vec<usize>| p@)
}

/// The partitioned admission control: a total mapping from symbol index to
/// partition id, and one bucket for each partition id up to the largest mapped.
pub struct ArrayStore<const N: usize> {
    states: Vec<Bucket>,
    mapping: Vec<usize>,
}

impl<const N: usize> ArrayStore<N> {
    /// The partition id of each symbol index.
    pub closed spec fn partition_map(&self) -> Seq<usize> {
        self.mapping@
    }

    /// The number of buckets.
    pub closed spec fn bucket_count(&self) -> nat {
        self.states@.len()
    }

    /// The quota that bucket `i` was made with.
    pub closed spec fn quota(&self, i: int) -> nat {
        quota_of(self.states@[i])
    }

    /// The mapping is total over the alphabet and every id has its bucket.
    pub open spec fn wf(&self) -> bool {
        &&& self.partition_map().len() == N
        &&& forall|s: int| 0 <= s < N ==> #[trigger] self.partition_map()[s] < self.bucket_count()
    }

    /// One bucket for every id from `0` to the largest id in `mapping`.
    fn new(mapping: Vec<usize>, limit: u8) -> (r: ArrayStore<N>)
        requires
            mapping@.len() == N,
            forall|s: int| 0 <= s < N ==> #[trigger] mapping@[s] < usize::MAX,
            limit > 0,
        ensures
            r.wf(),
            r.partition_map() == mapping@,
            N > 0 ==> exists|s: int| 0 <= s < N && r.bucket_count() == mapping@[s] + 1,
            forall|i: int| 0 <= i < r.bucket_count() ==> #[trigger] r.quota(i) == limit,
    {
        let mut max_ix: usize = 0;
        let mut i: usize = 0;
        while i < mapping.len()
            invariant
                i <= mapping@.len() == N,
                forall|s: int| 0 <= s < N ==> #[trigger] mapping@[s] < usize::MAX,
                max_ix < usize::MAX,
                forall|s: int| 0 <= s < i ==> #[trigger] mapping@[s] <= max_ix,
                i == 0 ==> max_ix == 0,
                i > 0 ==> exists|s: int| 0 <= s < i && mapping@[s] == max_ix,
            decreases mapping@.len() - i,
        {
            assert(mapping@[i as int] < usize::MAX);
            if mapping[i] > max_ix || i == 0 {
                max_ix = mapping[i];
            }
            i = i + 1;
        }
        let mut states: Vec<Bucket> = Vec::new();
        let mut b: usize = 0;
        while b <= max_ix
            invariant
                b <= max_ix + 1,
                states@.len() == b,
                max_ix < usize::MAX,
                limit > 0,
                forall|i: int| 0 <= i < b ==> #[trigger] quota_of(states@[i]) == limit,
            decreases max_ix + 1 - b,
        {
            states.push(new_bucket(limit));
            b = b + 1;
        }
        ArrayStore { states, mapping }
    }

    /// The partition id, that is the bucket, that decides for symbol index `key`.
    pub fn partition_of(&self, key: usize) -> (r: usize)
        requires
            self.wf(),
            key < N,
        ensures
            r == self.partition_map()[key as int],
            r < self.bucket_count(),
    {
        self.mapping[key]
    }

    /// Asks the bucket of `key`'s partition, and only that bucket, whether one
    /// request is admitted now; an admission consumes that partition's quota.
    pub fn check_key(&self, key: &usize) -> (r: Result<(), NotAdmitted>)
        requires
            self.wf(),
            *key < N,
    {
        let ix = self.partition_of(*key);
        if bucket_admits(&self.states[ix]) {
            Ok(())
        } else {
            Err(NotAdmitted)
        }
    }
}


/// Two symbols of one group, in a mapping built from disjoint groups, are
/// decided by the same bucket: they draw from one shared quota.
pub proof fn lemma_same_group_shares_bucket<const N: usize>(
    st: ArrayStore<N>,
    parts: Seq<Seq<usize>>,
    p: int,
    x: usize,
    y: usize,
)
    requires
        st.wf(),
        maps_into(st.partition_map(), parts),
        disjoint(parts),
        0 <= p < parts.len(),
        x < N,
        y < N,
        parts[p].contains(x),
        parts[p].contains(y),
    ensures
        st.partition_map()[x as int] == p,
        st.partition_map()[x as int] == st.partition_map()[y as int],
{
    assert(parts[st.partition_map()[x as int] as int].contains(x));
    assert(parts[st.partition_map()[y as int] as int].contains(y));
}

/// Symbols of two different groups, in a mapping built from disjoint groups,
/// are decided by different buckets: driving one to denial leaves the other's
/// quota untouched.
pub proof fn lemma_groups_independent<const N: usize>(
    st: ArrayStore<N>,
    parts: Seq<Seq<usize>>,
    p: int,
    q: int,
    x: usize,
    y: usize,
)
    requires
        st.wf(),
        maps_into(st.partition_map(), parts),
        disjoint(parts),
        0 <= p < parts.len(),
        0 <= q < parts.len(),
        p != q,
        x < N,
        y < N,
        parts[p].contains(x),
        parts[q].contains(y),
    ensures
        st.partition_map()[x as int] == p,
        st.partition_map()[y as int] == q,
        st.partition_map()[x as int] != st.partition_map()[y as int],
{
    assert(parts[st.partition_map()[x as int] as int].contains(x));
    assert(parts[st.partition_map()[y as int] as int].contains(y));
}

/// Builds the admission control for the given groups of symbol indices, with
/// quota `limit` per second in every partition: each symbol index is mapped to
/// the position of a group that holds it. Fails when a group names an index
/// outside the alphabet, or when a symbol is in no group.
pub fn init<const N: usize>(partitions: Vec<Vec<usize>>, limit: u8) -> (r: Result<ArrayStore<N>, InitError>)
    requires
        limit > 0,
    ensures
        r == Err::<ArrayStore<N>, InitError>(InitError::SymbolOutOfRange) <==> !in_range(
            groups_view(partitions@),
            N,
        ),
        r == Err::<ArrayStore<N>, InitError>(InitError::Incomplete) <==> in_range(
            groups_view(partitions@),
            N,
        ) && !covers(groups_view(partitions@), N),
        r is Ok <==> in_range(groups_view(partitions@), N) && covers(groups_view(partitions@), N),
        r matches Ok(st) ==> st.wf() && st.partition_map().len() == N && maps_into(st.partition_map(), groups_view(partitions@))
            && (N > 0 ==> st.bucket_count() <= partitions@.len())
            && (N > 0 ==> exists|s: int| 0 <= s < N && st.bucket_count() == st.partition_map()[s] + 1)
            && forall|i: int| 0 <= i < st.bucket_count() ==> #[trigger] st.quota(i) == limit,
{
    let ghost gv = groups_view(partitions@);
    let mut p: usize = 0;
    while p < partitions.len()
        invariant
            p <= partitions@.len(),
            gv == groups_view(partitions@),
            forall|q: int, j: int| 0 <= q < p && 0 <= j < gv[q].len() ==> #[trigger] gv[q][j] < N,
        decreases partitions@.len() - p,
    {
        let group = &partitions[p];
        assert(gv[p as int] == group@);
        let mut j: usize = 0;
        while j < group.len()
            invariant
                p < partitions@.len(),
                j <= group@.len(),
                gv == groups_view(partitions@),
                gv[p as int] == group@,
                forall|q: int, l: int| 0 <= q < p && 0 <= l < gv[q].len() ==> #[trigger] gv[q][l] < N,
                forall|l: int| 0 <= l < j ==> #[trigger] group@[l] < N,
            decreases group@.len() - j,
        {
            if group[j] >= N {
                assert(gv[p as int][j as int] >= N);
                return Err(InitError::SymbolOutOfRange);
            }
            j = j + 1;
        }
        p = p + 1;
    }
    assert(in_range(gv, N));
    let mut ixs: Vec<usize> = Vec::new();
    let mut seen: Vec<bool> = Vec::new();
    let mut i: usize = 0;
    while i < N
        invariant
            i <= N,
            ixs@.len() == i,
            seen@.len() == i,
            forall|s: int| 0 <= s < i ==> !(#[trigger] seen@[s]),
        decreases N - i,
    {
        ixs.push(0);
        seen.push(false);
        i = i + 1;
    }
    let mut p: usize = 0;
    while p < partitions.len()
        invariant
            p <= partitions@.len(),
            gv == groups_view(partitions@),
            in_range(gv, N),
            ixs@.len() == N,
            seen@.len() == N,
            forall|s: int| 0 <= s < N && #[trigger] seen@[s] ==> ixs@[s] < p && gv[ixs@[s] as int].contains(s as usize),
            forall|q: int, j: int| 0 <= q < p && 0 <= j < gv[q].len() ==> #[trigger] seen@[gv[q][j] as int],
        decreases partitions@.len() - p,
    {
        let group = &partitions[p];
        assert(gv[p as int] == group@);
        let mut j: usize = 0;
        while j < group.len()
            invariant
                p < partitions@.len(),
                j <= group@.len(),
                gv == groups_view(partitions@),
                gv[p as int] == group@,
                in_range(gv, N),
                ixs@.len() == N,
                seen@.len() == N,
                forall|s: int| 0 <= s < N && #[trigger] seen@[s] ==> ixs@[s] <= p && gv[ixs@[s] as int].contains(s as usize),
                forall|q: int, l: int| 0 <= q < p && 0 <= l < gv[q].len() ==> #[trigger] seen@[gv[q][l] as int],
                forall|l: int| 0 <= l < j ==> #[trigger] seen@[group@[l] as int],
            decreases group@.len() - j,
        {
            let s = group[j];
            assert(gv[p as int][j as int] < N);
            assert(gv[p as int].contains(s));
            ixs.set(s, p);
            seen.set(s, true);
            j = j + 1;
        }
        p = p + 1;
    }
    let mut s: usize = 0;
    while s < N
        invariant
            s <= N,
            gv == groups_view(partitions@),
            gv.len() == partitions@.len(),
            in_range(gv, N),
            ixs@.len() == N,
            seen@.len() == N,
            forall|t: int| 0 <= t < N && #[trigger] seen@[t] ==> ixs@[t] < gv.len() && gv[ixs@[t] as int].contains(t as usize),
            forall|q: int, j: int| 0 <= q < gv.len() && 0 <= j < gv[q].len() ==> #[trigger] seen@[gv[q][j] as int],
            forall|t: int| 0 <= t < s ==> #[trigger] seen@[t],
        decreases N - s,
    {
        if !seen[s] {
            proof {
                if covered(gv, s) {
                    let q = choose|q: int| 0 <= q < gv.len() && #[trigger] gv[q].contains(s);
                    let j = choose|j: int| 0 <= j < gv[q].len() && gv[q][j] == s;
                    assert(seen@[gv[q][j] as int]);
                }
            }
            assert(!covers(gv, N));
            return Err(InitError::Incomplete);
        }
        s = s + 1;
    }
    assert forall|t: usize| t < N implies #[trigger] covered(gv, t) by {
        assert(seen@[t as int]);
        assert(gv[ixs@[t as int] as int].contains(t));
    }
    assert forall|t: int| 0 <= t < N implies #[trigger] ixs@[t] < usize::MAX by {
        assert(seen@[t]);
    }
    assert(maps_into(ixs@, gv)) by {
        assert forall|t: int| 0 <= t < N implies #[trigger] ixs@[t] < gv.len() && gv[ixs@[t] as int].contains(t as usize) by {
            assert(seen@[t]);
        }
    }
    let st = ArrayStore::<N>::new(ixs, limit);
    Ok(st)
}


/// Divides the alphabet into `k` random groups (drawn from `seed` when it is
/// given) and builds the admission control for them with quota `limit` per
/// second in every partition. Returns the groups and the store, in which every
/// symbol of group `i` is decided by bucket `i`; `None` only when no seed is
/// given and the operating system has no entropy to give.
pub fn init_partitioned(k: u8, limit: u8, seed: Option<u64>) -> (r: Option<
    (Vec<Vec<char>>, ArrayStore<26>),
>)
    requires
        1 <= k <= crate::symbols::N,
        limit > 0,
    ensures
        r is None ==> seed is None && 1 < k < crate::symbols::N,
        r is Some ==> {
            let (parts, st) = r->0;
            &&& is_partition_of(parts_view(parts@), alphabet(), k as int)
            &&& seed is Some && 1 < k < crate::symbols::N ==> parts_view(parts@)
                == seeded_partitions(alphabet(), k as nat, seed->0)
            &&& st.wf()
            &&& st.bucket_count() == k
            &&& forall|i: int| 0 <= i < st.bucket_count() ==> #[trigger] st.quota(i) == limit
            &&& forall|i: int, c: char|
                0 <= i < k && #[trigger] parts@[i]@.contains(c) ==> st.partition_map()[ind(c) as int]
                    == i
        },
{
    let parts = match generate(k, seed) {
        Some(p) => p,
        None => {
            return None;
        },
    };
    let ghost pv = parts_view(parts@);
    proof {
        lemma_partition_indices_total(pv, k as int);
    }
    let groups = match partition_indices(&parts) {
        Some(g) => g,
        None => {
            return vstd::pervasive::unreached();
        },
    };
    assert(groups_view(groups@) == indices_of(pv));
    let store = match init::<26>(groups, limit) {
        Ok(st) => st,
        Err(_) => {
            return vstd::pervasive::unreached();
        },
    };
    let ghost gv = indices_of(pv);
    assert forall|i: int, c: char|
        0 <= i < k && #[trigger] parts@[i]@.contains(c) implies store.partition_map()[ind(c) as int]
            == i by {
        assert(pv[i] == parts@[i]@);
        let j = choose|j: int| 0 <= j < pv[i].len() && pv[i][j] == c;
        assert(crate::symbols::index_of(pv[i][j]) is Some);
        let s = gv[i][j];
        assert(s == ind(c));
        assert(gv[i].contains(s));
        let m = store.partition_map()[s as int];
        assert(gv[m as int].contains(s));
    }
    assert(store.bucket_count() >= k) by {
        let last = (k - 1) as int;
        assert(pv[last].len() > 0);
        assert(pv[last] == parts@[last]@);
        let c = pv[last][0];
        assert(crate::symbols::index_of(c) is Some);
        assert(parts@[last]@.contains(c));
        assert(store.partition_map()[ind(c) as int] == last);
    }
    Some((parts, store))
}

} // verus!
