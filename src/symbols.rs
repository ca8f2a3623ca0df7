//! The alphabet of request symbols and its random division into partitions.

use crate::rate_limiter::{covered, covers, disjoint, in_range};
use vstd::prelude::*;

verus! {

/// Number of symbols in the alphabet.
pub const N: usize = 26;

/// The alphabet `'A'..='Z'`, in order.
pub open spec fn alphabet() -> Seq<char> {
    seq![
        'A', 'B', 'C', 'D', 'E', 'F', 'G', 'H', 'I', 'J', 'K', 'L', 'M',
        'N', 'O', 'P', 'Q', 'R', 'S', 'T', 'U', 'V', 'W', 'X', 'Y', 'Z',
    ]
}

/// The dense index of `c` in the alphabet, if `c` is one of its symbols.
pub open spec fn index_of(c: char) -> Option<usize> {
    if 65 <= (c as u32) && (c as u32) < 65 + N {
        Some(((c as u32) - 65) as usize)
    } else {
        None
    }
}

/// Start of piece `i` when a sequence of length `n` is cut at `cuts`.
pub open spec fn bound(cuts: Seq<usize>, n: int, i: int) -> int {
    if i <= 0 {
        0
    } else if i <= cuts.len() {
        cuts[i - 1] as int
    } else {
        n
    }
}

/// The contiguous pieces of `s` between consecutive cut positions.
pub open spec fn pieces(s: Seq<char>, cuts: Seq<usize>) -> Seq<Seq<char>> {
    Seq::new(
        (cuts.len() + 1) as nat,
        |i: int| s.subrange(bound(cuts, s.len() as int, i), bound(cuts, s.len() as int, i + 1)),
    )
}

/// Cut positions usable on a sequence of length `n`: strictly increasing, each
/// strictly inside the sequence.
pub open spec fn valid_cuts(cuts: Seq<usize>, n: int) -> bool {
    &&& forall|i: int| 0 <= i < cuts.len() ==> 0 < #[trigger] cuts[i] < n
    &&& forall|i: int, j: int| 0 <= i < j < cuts.len() ==> cuts[i] < cuts[j]
}

/// `parts` are `k` non-empty, pairwise disjoint groups whose union is the set of
/// symbols of `all`.
pub open spec fn is_partition_of(parts: Seq<Seq<char>>, all: Seq<char>, k: int) -> bool {
    &&& parts.len() == k
    &&& forall|i: int| 0 <= i < parts.len() ==> parts[i].len() > 0
    &&& forall|i: int, j: int, c: char|
        0 <= i < parts.len() && 0 <= j < parts.len() && i != j && parts[i].contains(c)
            ==> !parts[j].contains(c)
    &&& forall|c: char|
        all.contains(c) <==> exists|i: int| 0 <= i < parts.len() && parts[i].contains(c)
}

/// The view of a list of groups as sequences of symbols.
pub open spec fn parts_view(parts: Seq<Vec<char>>) -> Seq<Seq<char>> {
    parts.map_values(|p: Vec<char>| p@)
}

proof fn lemma_bound_monotone(cuts: Seq<usize>, n: int, i: int, j: int)
    requires
        valid_cuts(cuts, n),
        n > 0,
        0 <= i < j <= cuts.len() + 1,
    ensures
        bound(cuts, n, i) < bound(cuts, n, j),
{
    if 0 < i && j <= cuts.len() {
        assert(cuts[i - 1] < cuts[j - 1]);
    }
}

proof fn lemma_find_piece(cuts: Seq<usize>, n: int, p: int, j: int)
    requires
        valid_cuts(cuts, n),
        1 <= j <= cuts.len() + 1,
        0 <= p < bound(cuts, n, j),
    ensures
        exists|i: int| 0 <= i < j && #[trigger] bound(cuts, n, i) <= p < bound(cuts, n, i + 1),
    decreases j,
{
    if bound(cuts, n, j - 1) <= p {
        assert(bound(cuts, n, j - 1) <= p < bound(cuts, n, (j - 1) + 1));
    } else {
        lemma_find_piece(cuts, n, p, j - 1);
    }
}

/// A rearrangement of a sequence without repeats has none either.
proof fn lemma_permutation_no_duplicates<A>(a: Seq<A>, b: Seq<A>)
    requires
        a.to_multiset() == b.to_multiset(),
        a.no_duplicates(),
    ensures
        b.no_duplicates(),
{
    a.lemma_multiset_has_no_duplicates();
    b.lemma_multiset_has_no_duplicates_conv();
}

/// No symbol occurs twice in the alphabet.
pub proof fn lemma_alphabet_no_duplicates()
    ensures
        alphabet().no_duplicates(),
{
}

/// Cutting a rearrangement of a repetition-free sequence at valid cut positions
/// divides its symbols into `cuts.len() + 1` non-empty, pairwise disjoint groups
/// whose union is the set of symbols of `all`.
pub proof fn lemma_pieces_partition(all: Seq<char>, s: Seq<char>, cuts: Seq<usize>)
    requires
        all.len() > 0,
        all.no_duplicates(),
        s.to_multiset() == all.to_multiset(),
        valid_cuts(cuts, s.len() as int),
    ensures
        is_partition_of(pieces(s, cuts), all, cuts.len() as int + 1),
{
    broadcast use vstd::seq_lib::to_multiset_contains;

    let n = s.len() as int;
    let ps = pieces(s, cuts);
    lemma_permutation_no_duplicates(all, s);
    vstd::seq_lib::to_multiset_len(all);
    vstd::seq_lib::to_multiset_len(s);
    assert forall|i: int| 0 <= i < ps.len() implies ps[i].len() > 0 by {
        lemma_bound_monotone(cuts, n, i, i + 1);
    }
    assert forall|i: int, j: int, c: char|
        0 <= i < ps.len() && 0 <= j < ps.len() && i != j && ps[i].contains(c)
            implies !ps[j].contains(c) by {
        if ps[j].contains(c) {
            let a = choose|a: int| 0 <= a < ps[i].len() && ps[i][a] == c;
            let b = choose|b: int| 0 <= b < ps[j].len() && ps[j][b] == c;
            let p = bound(cuts, n, i) + a;
            let q = bound(cuts, n, j) + b;
            if i < j {
                if i + 1 < j {
                    lemma_bound_monotone(cuts, n, i + 1, j);
                }
            } else {
                if j + 1 < i {
                    lemma_bound_monotone(cuts, n, j + 1, i);
                }
            }
            assert(s[p] == c && s[q] == c && p != q);
        }
    }
    assert forall|c: char|
        all.contains(c) <==> exists|i: int| 0 <= i < ps.len() && ps[i].contains(c) by {
        if all.contains(c) {
            assert(s.to_multiset().count(c) > 0);
            let p = choose|p: int| 0 <= p < s.len() && s[p] == c;
            lemma_find_piece(cuts, n, p, cuts.len() as int + 1);
            let i = choose|i: int| 0 <= i < cuts.len() + 1 && #[trigger] bound(cuts, n, i) <= p < bound(cuts, n, i + 1);
            assert(ps[i][p - bound(cuts, n, i)] == c);
        }
        if exists|i: int| 0 <= i < ps.len() && ps[i].contains(c) {
            let i = choose|i: int| 0 <= i < ps.len() && ps[i].contains(c);
            let a = choose|a: int| 0 <= a < ps[i].len() && ps[i][a] == c;
            assert(s[bound(cuts, n, i) + a] == c);
            assert(s.contains(c));
            assert(all.to_multiset().count(c) > 0);
        }
    }
}

/// `parts` are `k` non-empty groups of at most `all.len() - k + 1` symbols each,
/// which together hold the symbols of `all` with their multiplicities; when
/// `all` has no repeats they are disjoint, each free of repeats, and cover it.
pub open spec fn well_divided(parts: Seq<Seq<char>>, all: Seq<char>, k: int) -> bool {
    &&& parts.len() == k
    &&& forall|i: int| 0 <= i < parts.len() ==> 0 < (#[trigger] parts[i]).len() <= all.len() - k + 1
    &&& parts.flatten().to_multiset() == all.to_multiset()
    &&& all.no_duplicates() ==> is_partition_of(parts, all, k)
    &&& all.no_duplicates() ==> forall|i: int| 0 <= i < parts.len() ==> (#[trigger] parts[i]).no_duplicates()
}

/// `s` shifted up by one, element by element.
pub open spec fn shifted(s: Seq<usize>) -> Seq<usize> {
    s.map_values(|x: usize| (x + 1) as usize)
}

/// The cut positions drawn from `seed` for `k` groups of `n` symbols.
pub open spec fn seeded_cuts(seed: u64, n: nat, k: nat) -> Seq<usize> {
    sorted_of(shifted(seeded_sample(seed, n, (n - 1) as nat, (k - 1) as nat)))
}

/// The groups drawn from `seed` when `s` is divided into `k` random groups.
pub open spec fn seeded_partitions(s: Seq<char>, k: nat, seed: u64) -> Seq<Seq<char>> {
    pieces(seeded_shuffle(seed, s), seeded_cuts(seed, s.len(), k))
}

proof fn lemma_bound_gap(cuts: Seq<usize>, n: int, i: int, j: int)
    requires
        valid_cuts(cuts, n),
        n > 0,
        0 <= i <= j <= cuts.len() + 1,
    ensures
        bound(cuts, n, j) - bound(cuts, n, i) >= j - i,
    decreases j - i,
{
    if i < j {
        lemma_bound_monotone(cuts, n, j - 1, j);
        lemma_bound_gap(cuts, n, i, j - 1);
    }
}

proof fn lemma_pieces_prefix(s: Seq<char>, cuts: Seq<usize>, j: int)
    requires
        valid_cuts(cuts, s.len() as int),
        s.len() > 0,
        0 <= j <= cuts.len() + 1,
    ensures
        pieces(s, cuts).take(j).flatten() == s.subrange(0, bound(cuts, s.len() as int, j)),
    decreases j,
{
    let n = s.len() as int;
    let ps = pieces(s, cuts);
    if j == 0 {
        assert(ps.take(0) =~= Seq::<Seq<char>>::empty());
        assert(s.subrange(0, 0) =~= Seq::<char>::empty());
    } else {
        lemma_pieces_prefix(s, cuts, j - 1);
        lemma_bound_monotone(cuts, n, j - 1, j);
        assert(ps.take(j) =~= ps.take(j - 1).push(ps[j - 1]));
        ps.take(j - 1).lemma_flatten_push(ps[j - 1]);
        assert(s.subrange(0, bound(cuts, n, j - 1)) + s.subrange(
            bound(cuts, n, j - 1),
            bound(cuts, n, j),
        ) =~= s.subrange(0, bound(cuts, n, j)));
    }
}

/// Cutting a rearrangement of `all` at valid positions divides it well: the
/// pieces are non-empty, bounded in size, hold exactly the symbols of `all`,
/// and partition it when it has no repeats.
pub proof fn lemma_pieces_divided(all: Seq<char>, s: Seq<char>, cuts: Seq<usize>)
    requires
        all.len() > 0,
        s.to_multiset() == all.to_multiset(),
        valid_cuts(cuts, s.len() as int),
    ensures
        well_divided(pieces(s, cuts), all, cuts.len() as int + 1),
{
    vstd::seq_lib::to_multiset_len(all);
    vstd::seq_lib::to_multiset_len(s);
    let n = s.len() as int;
    let ps = pieces(s, cuts);
    let k = cuts.len() as int + 1;
    assert forall|i: int| 0 <= i < ps.len() implies 0 < (#[trigger] ps[i]).len() <= all.len() - k + 1 by {
        lemma_bound_monotone(cuts, n, i, i + 1);
        lemma_bound_gap(cuts, n, 0, i);
        lemma_bound_gap(cuts, n, i + 1, k);
    }
    lemma_pieces_prefix(s, cuts, k);
    assert(ps.take(k) =~= ps);
    assert(s.subrange(0, n) =~= s);
    if all.no_duplicates() {
        lemma_pieces_partition(all, s, cuts);
        lemma_permutation_no_duplicates(all, s);
        assert forall|i: int| 0 <= i < ps.len() implies (#[trigger] ps[i]).no_duplicates() by {
            lemma_bound_monotone(cuts, n, i, i + 1);
            let lo = bound(cuts, n, i);
            assert forall|a: int, b: int| 0 <= a < ps[i].len() && 0 <= b < ps[i].len() && a != b
                implies ps[i][a] != ps[i][b] by {
                assert(ps[i][a] == s[lo + a]);
                assert(ps[i][b] == s[lo + b]);
            }
        }
    }
}

/// The dense index `0..N` of a symbol, or `None` for a character outside the
/// alphabet.
pub fn to_index(c: char) -> (r: Option<usize>)
    ensures
        r == index_of(c),
        r matches Some(i) ==> i < N && alphabet()[i as int] == c,
{
    let ci = c as u32;
    if ci < 65 || ci >= 65 + (N as u32) {
        None
    } else {
        let r = (ci - 65) as usize;
        assert(alphabet()[r as int] as u32 == ci);
        Some(r)
    }
}

/// The alphabet, in order.
pub fn symbols() -> (r: Vec<char>)
    ensures
        r@ == alphabet(),
{
    let r = vec![
        'A', 'B', 'C', 'D', 'E', 'F', 'G', 'H', 'I', 'J', 'K', 'L', 'M',
        'N', 'O', 'P', 'Q', 'R', 'S', 'T', 'U', 'V', 'W', 'X', 'Y', 'Z',
    ];
    assert(r@ =~= alphabet());
    r
}


/// What rand's `SliceRandom::shuffle` makes of `s` with a `StdRng` seeded by
/// `seed` through `SeedableRng::seed_from_u64`.
pub uninterp spec fn seeded_shuffle(seed: u64, s: Seq<char>) -> Seq<char>;

/// What rand's `seq::index::sample(rng, length, amount)` returns when `rng` is a
/// `StdRng` seeded by `seed` that has just shuffled `n` items.
pub uninterp spec fn seeded_sample(seed: u64, n: nat, length: nat, amount: nat) -> Seq<usize>;

/// Relies on rand: a `StdRng` made by `SeedableRng::seed_from_u64(seed)`
/// permutes `v` in place with `SliceRandom::shuffle` (swaps only), then draws
/// `amount` distinct indices below `length` with `seq::index::sample`, which
/// panics only when `amount > length`. A seeded `StdRng` yields a fixed stream,
/// so both draws depend on the seed and the arguments alone.
#[verifier::external_body]
fn seeded_draw(v: &mut Vec<char>, seed: u64, length: usize, amount: usize) -> (r: Vec<usize>)
    requires
        amount <= length,
    ensures
        final(v)@ == seeded_shuffle(seed, old(v)@),
        final(v)@.to_multiset() == old(v)@.to_multiset(),
        final(v)@.len() == old(v)@.len(),
        r@ == seeded_sample(seed, old(v)@.len(), length as nat, amount as nat),
        r@.len() == amount,
        r@.no_duplicates(),
        forall|i: int| 0 <= i < r@.len() ==> #[trigger] r@[i] < length,
{
    let mut rng: rand::rngs::StdRng = rand::SeedableRng::seed_from_u64(seed);
    rand::seq::SliceRandom::shuffle(v.as_mut_slice(), &mut rng);
    rand::seq::index::sample(&mut rng, length, amount).into_vec()
}

/// Relies on rand: a `StdRng` seeded from `OsRng` through
/// `SeedableRng::from_rng`, which returns an error (and does not panic) when the
/// operating system gives no entropy; `v` is then left as it is. Otherwise as
/// `seeded_draw`: `v` is permuted in place and `amount` distinct indices below
/// `length` are drawn.
#[verifier::external_body]
fn entropy_draw(v: &mut Vec<char>, length: usize, amount: usize) -> (r: Option<Vec<usize>>)
    requires
        amount <= length,
    ensures
        final(v)@.to_multiset() == old(v)@.to_multiset(),
        final(v)@.len() == old(v)@.len(),
        r matches Some(c) ==> c@.len() == amount && c@.no_duplicates() && forall|i: int|
            0 <= i < c@.len() ==> #[trigger] c@[i] < length,
{
    let mut rng: rand::rngs::StdRng = match rand::SeedableRng::from_rng(rand::rngs::OsRng) {
        Ok(g) => g,
        Err(_) => return None,
    };
    rand::seq::SliceRandom::shuffle(v.as_mut_slice(), &mut rng);
    Some(rand::seq::index::sample(&mut rng, length, amount).into_vec())
}

/// What std's `slice::sort_unstable` makes of `s`.
pub uninterp spec fn sorted_of(s: Seq<usize>) -> Seq<usize>;

/// Relies on std's `slice::sort_unstable`: the slice is rearranged into
/// ascending order.
#[verifier::external_body]
fn sort_positions(v: &mut Vec<usize>)
    ensures
        final(v)@ == sorted_of(old(v)@),
        final(v)@.to_multiset() == old(v)@.to_multiset(),
        final(v)@.len() == old(v)@.len(),
        forall|i: int, j: int| 0 <= i < j < final(v)@.len() ==> final(v)@[i] <= final(v)@[j],
{
    v.sort_unstable()
}

/// The symbols of `s` at positions `from..to`, as a new vector.
fn copy_range(s: &Vec<char>, from: usize, to: usize) -> (r: Vec<char>)
    requires
        from <= to <= s@.len(),
    ensures
        r@ == s@.subrange(from as int, to as int),
{
    let mut r: Vec<char> = Vec::new();
    let mut i: usize = from;
    while i < to
        invariant
            from <= i <= to <= s@.len(),
            r@ == s@.subrange(from as int, i as int),
        decreases to - i,
    {
        r.push(s[i]);
        i = i + 1;
        assert(r@ =~= s@.subrange(from as int, i as int));
    }
    r
}

/// Cuts `symbols` into contiguous slices at the given ascending positions.
pub fn slice_at(symbols: &Vec<char>, cuts: &Vec<usize>) -> (r: Vec<Vec<char>>)
    requires
        valid_cuts(cuts@, symbols@.len() as int),
    ensures
        parts_view(r@) == pieces(symbols@, cuts@),
{
    let n = symbols.len();
    let mut r: Vec<Vec<char>> = Vec::new();
    let mut last: usize = 0;
    let mut idx: usize = 0;
    while idx < cuts.len()
        invariant
            valid_cuts(cuts@, n as int),
            n == symbols@.len(),
            idx <= cuts@.len(),
            r@.len() == idx,
            last as int == bound(cuts@, n as int, idx as int),
            forall|t: int| 0 <= t < idx ==> (#[trigger] r@[t])@ == pieces(symbols@, cuts@)[t],
        decreases cuts@.len() - idx,
    {
        let split = cuts[idx];
        if idx > 0 {
            assert(cuts@[idx - 1] < cuts@[idx as int]);
        }
        r.push(copy_range(symbols, last, split));
        last = split;
        idx = idx + 1;
    }
    r.push(copy_range(symbols, last, n));
    assert(parts_view(r@) =~= pieces(symbols@, cuts@));
    r
}

/// Shifts each drawn index up by one, so that it cuts strictly inside.
fn shift_up(sampled: &Vec<usize>, bound_n: usize) -> (r: Vec<usize>)
    requires
        forall|t: int| 0 <= t < sampled@.len() ==> #[trigger] sampled@[t] < bound_n,
    ensures
        r@ == shifted(sampled@),
{
    let mut cuts: Vec<usize> = Vec::new();
    let mut i: usize = 0;
    while i < sampled.len()
        invariant
            i <= sampled@.len(),
            forall|t: int| 0 <= t < sampled@.len() ==> #[trigger] sampled@[t] < bound_n,
            cuts@ == shifted(sampled@.subrange(0, i as int)),
        decreases sampled@.len() - i,
    {
        cuts.push(sampled[i] + 1);
        i = i + 1;
        assert(cuts@ =~= shifted(sampled@.subrange(0, i as int)));
    }
    assert(sampled@.subrange(0, i as int) =~= sampled@);
    cuts
}

/// Divides `symbols` into `k` groups: one group for `k == 1`, one group per
/// symbol for `k == symbols.len()`, and otherwise random contiguous slices of a
/// random rearrangement, drawn from `seed` when it is given and from the
/// operating system's entropy otherwise. `None` only when no seed is given and
/// the operating system has no entropy to give.
pub fn partitions(symbols: Vec<char>, k: u8, seed: Option<u64>) -> (r: Option<Vec<Vec<char>>>)
    requires
        1 <= k <= symbols@.len(),
    ensures
        r is None ==> seed is None && 1 < k < symbols@.len(),
        r matches Some(v) ==> well_divided(parts_view(v@), symbols@, k as int),
        r is Some && k == 1 ==> parts_view(r->0@) == seq![symbols@],
        r is Some && k == symbols@.len() ==> forall|i: int|
            0 <= i < k ==> (#[trigger] r->0@[i])@ == seq![symbols@[i]],
        r is Some && seed is Some && 1 < k < symbols@.len() ==> parts_view(r->0@)
            == seeded_partitions(symbols@, k as nat, seed->0),
{
    let k = k as usize;
    let sn = symbols.len();
    if k == 1 {
        let cuts: Vec<usize> = Vec::new();
        let r = slice_at(&symbols, &cuts);
        assert(pieces(symbols@, cuts@)[0] =~= symbols@);
        assert(parts_view(r@) =~= seq![symbols@]);
        proof {
            lemma_pieces_divided(symbols@, symbols@, cuts@);
        }
        return Some(r);
    } else if k == sn {
        let mut cuts: Vec<usize> = Vec::new();
        let mut i: usize = 1;
        while i < sn
            invariant
                1 <= i <= sn,
                sn == symbols@.len(),
                cuts@.len() == i - 1,
                forall|t: int| 0 <= t < cuts@.len() ==> #[trigger] cuts@[t] == t + 1,
            decreases sn - i,
        {
            cuts.push(i);
            i = i + 1;
        }
        let r = slice_at(&symbols, &cuts);
        assert(parts_view(r@).len() == r@.len());
        assert(r@.len() == k);
        assert forall|i: int| 0 <= i < k implies (#[trigger] r@[i])@ == seq![symbols@[i]] by {
            assert(bound(cuts@, sn as int, i) == i);
            assert(bound(cuts@, sn as int, i + 1) == i + 1);
            assert(pieces(symbols@, cuts@)[i] =~= seq![symbols@[i]]);
            assert(parts_view(r@)[i] == r@[i]@);
        }
        proof {
            lemma_pieces_divided(symbols@, symbols@, cuts@);
        }
        return Some(r);
    }
    let mut symbols = symbols;
    let ghost given = symbols@;
    let sampled = match seed {
        Some(x) => seeded_draw(&mut symbols, x, sn - 1, k - 1),
        None => match entropy_draw(&mut symbols, sn - 1, k - 1) {
            Some(c) => c,
            None => {
                return None;
            },
        },
    };
    let mut cuts = shift_up(&sampled, sn - 1);
    let ghost unsorted = cuts@;
    assert(unsorted.no_duplicates()) by {
        assert forall|a: int, b: int| 0 <= a < unsorted.len() && 0 <= b < unsorted.len() && a != b
            implies unsorted[a] != unsorted[b] by {
            assert(sampled@[a] != sampled@[b]);
        }
    }
    sort_positions(&mut cuts);
    proof {
        lemma_permutation_no_duplicates(unsorted, cuts@);
        assert forall|t: int| 0 <= t < cuts@.len() implies 0 < #[trigger] cuts@[t] < sn by {
            vstd::seq_lib::to_multiset_contains(cuts@, cuts@[t]);
            vstd::seq_lib::to_multiset_contains(unsorted, cuts@[t]);
            assert(cuts@.contains(cuts@[t]));
            assert(unsorted.contains(cuts@[t]));
        }
        assert forall|a: int, b: int| 0 <= a < b < cuts@.len() implies cuts@[a] < cuts@[b] by {
            assert(cuts@[a] != cuts@[b]);
        }
        lemma_pieces_divided(given, symbols@, cuts@);
    }
    Some(slice_at(&symbols, &cuts))
}

/// The index of a symbol of the alphabet.
pub open spec fn ind(c: char) -> usize {
    ((c as u32) - 65) as usize
}

/// Groups of symbols as groups of their indices.
pub open spec fn indices_of(parts: Seq<Seq<char>>) -> Seq<Seq<usize>> {
    parts.map_values(|p: Seq<char>| p.map_values(|c: char| ind(c)))
}

/// Every symbol of every group is in the alphabet.
pub open spec fn all_symbols(parts: Seq<Seq<char>>) -> bool {
    forall|i: int, j: int|
        0 <= i < parts.len() && 0 <= j < parts[i].len() ==> (#[trigger] index_of(parts[i][j])) is Some
}

/// The index of each symbol of `part`, or `None` if one is outside the alphabet.
fn part_indices(part: &Vec<char>) -> (r: Option<Vec<usize>>)
    ensures
        r is Some <==> forall|j: int| 0 <= j < part@.len() ==> (#[trigger] index_of(part@[j])) is Some,
        r matches Some(v) ==> v@ == part@.map_values(|c: char| ind(c)),
{
    let mut v: Vec<usize> = Vec::new();
    let mut j: usize = 0;
    while j < part.len()
        invariant
            j <= part@.len(),
            v@ == part@.subrange(0, j as int).map_values(|c: char| ind(c)),
            forall|l: int| 0 <= l < j ==> (#[trigger] index_of(part@[l])) is Some,
        decreases part@.len() - j,
    {
        match to_index(part[j]) {
            Some(ix) => {
                v.push(ix);
                j = j + 1;
                assert(v@ =~= part@.subrange(0, j as int).map_values(|c: char| ind(c)));
            },
            None => {
                return None;
            },
        }
    }
    assert(part@.subrange(0, j as int) =~= part@);
    Some(v)
}

/// The groups with each symbol replaced by its index, or `None` if a symbol is
/// outside the alphabet.
pub fn partition_indices(parts: &Vec<Vec<char>>) -> (r: Option<Vec<Vec<usize>>>)
    ensures
        r is Some <==> all_symbols(parts_view(parts@)),
        r matches Some(v) ==> v@.map_values(|p: Vec<usize>| p@) == indices_of(parts_view(parts@)),
{
    let ghost pv = parts_view(parts@);
    let mut out: Vec<Vec<usize>> = Vec::new();
    let mut i: usize = 0;
    while i < parts.len()
        invariant
            i <= parts@.len(),
            pv == parts_view(parts@),
            out@.len() == i,
            forall|t: int| 0 <= t < i ==> (#[trigger] out@[t])@ == pv[t].map_values(|c: char| ind(c)),
            forall|t: int, j: int| 0 <= t < i && 0 <= j < pv[t].len() ==> (#[trigger] index_of(pv[t][j])) is Some,
        decreases parts@.len() - i,
    {
        assert(pv[i as int] == parts@[i as int]@);
        match part_indices(&parts[i]) {
            Some(v) => {
                out.push(v);
                i = i + 1;
            },
            None => {
                return None;
            },
        }
    }
    assert(out@.map_values(|p: Vec<usize>| p@) =~= indices_of(pv));
    Some(out)
}

/// A division of the alphabet into groups, read as symbol indices, is total,
/// in range and disjoint: exactly what a total partition mapping needs.
pub proof fn lemma_partition_indices_total(parts: Seq<Seq<char>>, k: int)
    requires
        is_partition_of(parts, alphabet(), k),
    ensures
        all_symbols(parts),
        in_range(indices_of(parts), N),
        covers(indices_of(parts), N),
        disjoint(indices_of(parts)),
{
    let ix = indices_of(parts);
    assert forall|a: int| 0 <= a < N implies index_of(#[trigger] alphabet()[a]) == Some(a as usize) by {
    }
    assert forall|i: int, j: int| 0 <= i < parts.len() && 0 <= j < parts[i].len()
        implies (#[trigger] index_of(parts[i][j])) is Some && ix[i][j] < N
            && alphabet()[ix[i][j] as int] == parts[i][j] by {
        assert(parts[i].contains(parts[i][j]));
        assert(alphabet().contains(parts[i][j]));
        let a = choose|a: int| 0 <= a < alphabet().len() && alphabet()[a] == parts[i][j];
        assert(index_of(alphabet()[a]) == Some(a as usize));
    }
    assert forall|p: int, j: int| 0 <= p < ix.len() && 0 <= j < ix[p].len() implies #[trigger] ix[p][j] < N by {
        assert(index_of(parts[p][j]) is Some);
    }
    assert forall|s: usize| s < N implies #[trigger] covered(ix, s) by {
        let c = alphabet()[s as int];
        assert(alphabet().contains(c));
        let i = choose|i: int| 0 <= i < parts.len() && parts[i].contains(c);
        let j = choose|j: int| 0 <= j < parts[i].len() && parts[i][j] == c;
        assert(index_of(c) == Some(s));
        assert(ix[i][j] == s);
        assert(ix[i].contains(s));
    }
    assert forall|p: int, q: int, s: usize|
        0 <= p < parts.len() && 0 <= q < parts.len() && p != q && #[trigger] ix[p].contains(s)
            implies !(#[trigger] ix[q].contains(s)) by {
        if ix[q].contains(s) {
            let a = choose|a: int| 0 <= a < ix[p].len() && ix[p][a] == s;
            let b = choose|b: int| 0 <= b < ix[q].len() && ix[q][b] == s;
            assert(ix[p].len() == parts[p].len());
            assert(ix[q].len() == parts[q].len());
            assert(index_of(parts[p][a]) is Some);
            assert(index_of(parts[q][b]) is Some);
            assert(alphabet()[s as int] == parts[p][a]);
            assert(alphabet()[s as int] == parts[q][b]);
            assert(parts[p].contains(parts[p][a]));
            assert(parts[q].contains(parts[p][a]));
        }
    }
}

/// Divides the alphabet into `k` random groups; the same `seed` gives the same
/// groups. `None` only when no seed is given and the operating system has no
/// entropy to give.
pub fn generate(k: u8, seed: Option<u64>) -> (r: Option<Vec<Vec<char>>>)
    requires
        1 <= k <= N,
    ensures
        r is None ==> seed is None && 1 < k < N,
        r matches Some(v) ==> well_divided(parts_view(v@), alphabet(), k as int),
        r matches Some(v) ==> is_partition_of(parts_view(v@), alphabet(), k as int),
        r is Some && k == 1 ==> parts_view(r->0@) == seq![alphabet()],
        r is Some && k == N ==> forall|i: int|
            0 <= i < k ==> (#[trigger] r->0@[i])@ == seq![alphabet()[i]],
        r is Some && seed is Some && 1 < k < N ==> parts_view(r->0@)
            == seeded_partitions(alphabet(), k as nat, seed->0),
{
    let all = symbols();
    proof {
        lemma_alphabet_no_duplicates();
    }
    partitions(all, k, seed)
}

} // verus!
