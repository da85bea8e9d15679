//! The eviction of Circuit ORAM, as a function of the stash and the branch.
//!
//! The branch is gone through from the leaf upwards. Where a bucket has a
//! vacant slot, the block that may go deepest is taken from the buckets above
//! it, or from the stash, and moved there if it may stand there.
use crate::model;
use crate::model::Slot;
use crate::packing;
use vstd::prelude::*;

verus! {

/// Where a block can be taken from: a slot of a bucket of the branch, or a
/// slot of the stash.
pub enum Source {
    Bucket(int, int),
    Stash(int),
}

/// The slot at a source.
pub open spec fn slot_at(stash: Seq<Slot>, b: Seq<Seq<Slot>>, src: Source) -> Slot {
    match src {
        Source::Bucket(m, c) => b[m][c],
        Source::Stash(c) => stash[c],
    }
}

/// Whether there is a block at `src` that could be moved to bucket `n`: one in
/// a bucket above it, or in the stash.
pub open spec fn candidate(stash: Seq<Slot>, b: Seq<Seq<Slot>>, n: int, src: Source) -> bool {
    &&& match src {
        Source::Bucket(m, c) => n < m < b.len() && 0 <= c < b[m].len(),
        Source::Stash(c) => 0 <= c < stash.len(),
    }
    &&& !slot_at(stash, b, src).vacant()
}

/// How deep the block at `src` may go: the first bucket in which it may stand.
pub open spec fn depth(stash: Seq<Slot>, b: Seq<Seq<Slot>>, leaf: u64, src: Source) -> int {
    packing::legal_index(slot_at(stash, b, src).leaf_num, leaf, b.len())
}

/// The order in which the sources are looked at: the buckets upwards, the
/// slots of each in order, and the stash last.
pub open spec fn before(a: Source, b: Source) -> bool {
    match (a, b) {
        (Source::Bucket(m, c), Source::Bucket(n, d)) => m < n || (m == n && c < d),
        (Source::Bucket(m, c), Source::Stash(d)) => true,
        (Source::Stash(c), Source::Bucket(n, d)) => false,
        (Source::Stash(c), Source::Stash(d)) => c < d,
    }
}

/// Whether `a` is taken rather than `o`: its block may go deeper, or as deep
/// and it comes first.
pub open spec fn preferred(
    stash: Seq<Slot>,
    b: Seq<Seq<Slot>>,
    leaf: u64,
    a: Source,
    o: Source,
) -> bool {
    ||| depth(stash, b, leaf, a) < depth(stash, b, leaf, o)
    ||| depth(stash, b, leaf, a) == depth(stash, b, leaf, o) && before(a, o)
}

/// Whether `src` is what is preferred to every other candidate.
pub open spec fn is_deepest(
    stash: Seq<Slot>,
    b: Seq<Seq<Slot>>,
    leaf: u64,
    n: int,
    src: Source,
) -> bool {
    &&& candidate(stash, b, n, src)
    &&& forall|o: Source| #[trigger]
        candidate(stash, b, n, o) && o != src ==> preferred(stash, b, leaf, src, o)
}

/// The candidate that is preferred to every other one, if there is any.
pub open spec fn deepest(
    stash: Seq<Slot>,
    b: Seq<Seq<Slot>>,
    leaf: u64,
    n: int,
) -> Option<Source> {
    if exists|src: Source| is_deepest(stash, b, leaf, n, src) {
        Some(choose|src: Source| is_deepest(stash, b, leaf, n, src))
    } else {
        None
    }
}

/// Whether a block is moved to bucket `n`: the bucket has room, and the
/// deepest candidate may stand in it.
pub open spec fn fills(stash: Seq<Slot>, b: Seq<Seq<Slot>>, leaf: u64, n: int) -> bool {
    &&& model::has_room(b[n])
    &&& deepest(stash, b, leaf, n) matches Some(src) && depth(stash, b, leaf, src) <= n
}

/// The stash once the visit to bucket `n` is over.
pub open spec fn stash_after(
    stash: Seq<Slot>,
    b: Seq<Seq<Slot>>,
    leaf: u64,
    n: int,
) -> Seq<Slot> {
    if fills(stash, b, leaf, n) {
        match deepest(stash, b, leaf, n).unwrap() {
            Source::Bucket(m, c) => stash,
            Source::Stash(c) => stash.update(c, stash[c].vacated()),
        }
    } else {
        stash
    }
}

/// The branch once the visit to bucket `n` is over.
pub open spec fn branch_after(
    stash: Seq<Slot>,
    b: Seq<Seq<Slot>>,
    leaf: u64,
    n: int,
) -> Seq<Seq<Slot>> {
    if fills(stash, b, leaf, n) {
        match deepest(stash, b, leaf, n).unwrap() {
            Source::Bucket(m, c) => packing::relocated(b, m, c, n),
            Source::Stash(c) => b.update(n, model::inserted(b[n], stash[c])),
        }
    } else {
        b
    }
}

/// The bucket that is visited after bucket `n`: the next one if nothing was
/// moved, none if a block came out of the stash, and otherwise the one whose
/// index is the number of buckets that the block has travelled.
pub open spec fn bucket_after(
    stash: Seq<Slot>,
    b: Seq<Seq<Slot>>,
    leaf: u64,
    n: int,
) -> int {
    if fills(stash, b, leaf, n) {
        match deepest(stash, b, leaf, n).unwrap() {
            Source::Bucket(m, c) => m - n,
            Source::Stash(c) => b.len() as int,
        }
    } else {
        n + 1
    }
}

/// The stash and the branch once the eviction, having come to bucket `n`, is
/// over.
pub open spec fn evicted(
    stash: Seq<Slot>,
    b: Seq<Seq<Slot>>,
    leaf: u64,
    n: int,
) -> (Seq<Slot>, Seq<Seq<Slot>>)
    decreases weight(stash, b), b.len() - n,
{
    if n < 0 || n >= b.len() {
        (stash, b)
    } else {
        proof {
            lemma_visit_weight(stash, b, leaf, n);
        }
        evicted(
            stash_after(stash, b, leaf, n),
            branch_after(stash, b, leaf, n),
            leaf,
            bucket_after(stash, b, leaf, n),
        )
    }
}

/// How far the blocks of a branch are from its leaf, added up.
pub open spec fn branch_weight(b: Seq<Seq<Slot>>) -> nat
    decreases b.len(),
{
    if b.len() == 0 {
        0
    } else {
        branch_weight(b.drop_last()) + (b.len() - 1) as nat * model::live(b.last()).len()
    }
}

/// How far the blocks of the stash and of a branch are from its leaf, added
/// up; the stash counts as what lies above the root.
pub open spec fn weight(stash: Seq<Slot>, b: Seq<Seq<Slot>>) -> nat {
    b.len() * model::live(stash).len() + branch_weight(b)
}

proof fn lemma_branch_weight_update(b: Seq<Seq<Slot>>, j: int, s: Seq<Slot>)
    requires
        0 <= j < b.len(),
    ensures
        branch_weight(b.update(j, s)) + j * model::live(b[j]).len() == branch_weight(b) + j
            * model::live(s).len(),
    decreases b.len(),
{
    let t = b.update(j, s);
    if j == b.len() - 1 {
        assert(t.drop_last() =~= b.drop_last());
    } else {
        assert(t.drop_last() =~= b.drop_last().update(j, s));
        lemma_branch_weight_update(b.drop_last(), j, s);
    }
}

/// A visit to a bucket that moves a block brings it closer to the leaf.
pub proof fn lemma_visit_weight(stash: Seq<Slot>, b: Seq<Seq<Slot>>, leaf: u64, n: int)
    requires
        0 <= n < b.len(),
    ensures
        branch_after(stash, b, leaf, n).len() == b.len(),
        fills(stash, b, leaf, n) ==> weight(
            stash_after(stash, b, leaf, n),
            branch_after(stash, b, leaf, n),
        ) < weight(stash, b),
        bucket_after(stash, b, leaf, n) > 0,
{
    if fills(stash, b, leaf, n) {
        let src = deepest(stash, b, leaf, n).unwrap();
        assert(is_deepest(stash, b, leaf, n, src));
        let x = slot_at(stash, b, src);
        let s1 = model::inserted(b[n], x);
        model::lemma_live_inserted(b[n], x);
        assert(model::live(s1).len() == model::live(b[n]).len() + 1);
        lemma_branch_weight_update(b, n, s1);
        let b1 = b.update(n, s1);
        let k = model::live(b[n]).len() as int;
        assert(n * (k + 1) == n * k + n) by (nonlinear_arith);
        match src {
            Source::Bucket(m, c) => {
                let s2 = b[m].update(c, x.vacated());
                model::lemma_live_update(b[m], c, x.vacated());
                lemma_live_len(b[m], c, x);
                lemma_branch_weight_update(b1, m, s2);
                let l = model::live(b[m]).len() as int;
                assert(m * (l - 1) == m * l - m) by (nonlinear_arith);
            },
            Source::Stash(c) => {
                lemma_live_len(stash, c, x);
                let l = model::live(stash).len() as int;
                let len = b.len() as int;
                assert(len * (l - 1) == len * l - len) by (nonlinear_arith);
            },
        }
    }
}

/// Taking a block out leaves one block fewer.
pub proof fn lemma_live_len(s: Seq<Slot>, i: int, x: Slot)
    requires
        0 <= i < s.len(),
        x == s[i],
        !x.vacant(),
    ensures
        model::live(s.update(i, x.vacated())).len() == model::live(s).len() - 1,
{
    model::lemma_live_update(s, i, x.vacated());
    let t = model::live(s.update(i, x.vacated()));
    assert(t.add(model::block_of(x)).len() == t.len() + 1);
    assert(model::live(s).add(model::block_of(x.vacated())).len() == model::live(s).len());
}

/// There is only one deepest candidate.
pub proof fn lemma_deepest_is(
    stash: Seq<Slot>,
    b: Seq<Seq<Slot>>,
    leaf: u64,
    n: int,
    src: Source,
)
    requires
        is_deepest(stash, b, leaf, n, src),
    ensures
        deepest(stash, b, leaf, n) == Some(src),
{
    let other = deepest(stash, b, leaf, n).unwrap();
    assert(is_deepest(stash, b, leaf, n, other));
    if other != src {
        assert(preferred(stash, b, leaf, src, other));
        assert(preferred(stash, b, leaf, other, src));
    }
}

/// A visit to a bucket loses no block and puts none where it may not stand.
proof fn lemma_visit(stash: Seq<Slot>, b: Seq<Seq<Slot>>, leaf: u64, n: int)
    requires
        0 <= n < b.len(),
    ensures
        stash_after(stash, b, leaf, n).len() == stash.len(),
        packing::same_shape(branch_after(stash, b, leaf, n), b),
        model::live(stash_after(stash, b, leaf, n)).add(
            model::live_in(branch_after(stash, b, leaf, n)),
        ) == model::live(stash).add(model::live_in(b)),
        packing::legal(b, leaf) ==> packing::legal(branch_after(stash, b, leaf, n), leaf),
{
    if fills(stash, b, leaf, n) {
        let src = deepest(stash, b, leaf, n).unwrap();
        assert(is_deepest(stash, b, leaf, n, src));
        match src {
            Source::Bucket(m, c) => {
                packing::lemma_relocated(b, leaf, m, c, n);
            },
            Source::Stash(c) => {
                let x = stash[c];
                let s1 = stash_after(stash, b, leaf, n);
                let b1 = branch_after(stash, b, leaf, n);
                let t = model::inserted(b[n], x);
                packing::lemma_inserted(b[n], x);
                model::lemma_live_inserted(b[n], x);
                model::lemma_live_in_update(b, n, t);
                model::lemma_live_update(stash, c, x.vacated());
                assert forall|v: Slot|
                    model::live(s1).count(v) + model::live_in(b1).count(v) == model::live(
                        stash,
                    ).count(v) + model::live_in(b).count(v) by {
                    assert(model::live(s1).add(model::block_of(x)).count(v) == model::live(
                        stash,
                    ).add(model::block_of(x.vacated())).count(v));
                    assert(model::live_in(b1).add(model::live(b[n])).count(v) == model::live_in(
                        b,
                    ).add(model::live(t)).count(v));
                    assert(model::live(t).count(v) == model::live(b[n]).count(v)
                        + model::block_of(x).count(v));
                }
                assert(model::live(s1).add(model::live_in(b1)) =~= model::live(stash).add(
                    model::live_in(b),
                ));
                if packing::legal(b, leaf) {
                    assert forall|k: int, l: int|
                        0 <= k < b1.len() && 0 <= l < b1[k].len() && !(
                        #[trigger] b1[k][l]).vacant() implies k >= packing::legal_index(
                        b1[k][l].leaf_num,
                        leaf,
                        b1.len(),
                    ) by {
                        if k == n {
                            assert(b1[k][l] == b[k][l] || b1[k][l] == x);
                        } else {
                            assert(b1[k][l] == b[k][l]);
                        }
                    }
                }
            },
        }
    }
}

/// The eviction loses no block and puts none where it may not stand.
pub proof fn lemma_evicted(stash: Seq<Slot>, b: Seq<Seq<Slot>>, leaf: u64, n: int)
    ensures
        ({
            let (s, c) = evicted(stash, b, leaf, n);
            &&& s.len() == stash.len()
            &&& packing::same_shape(c, b)
            &&& model::live(s).add(model::live_in(c)) == model::live(stash).add(model::live_in(b))
            &&& packing::legal(b, leaf) ==> packing::legal(c, leaf)
        }),
    decreases weight(stash, b), b.len() - n,
{
    if 0 <= n < b.len() {
        lemma_visit(stash, b, leaf, n);
        lemma_visit_weight(stash, b, leaf, n);
        lemma_evicted(
            stash_after(stash, b, leaf, n),
            branch_after(stash, b, leaf, n),
            leaf,
            bucket_after(stash, b, leaf, n),
        );
    }
}

/// Whether `best` is what is preferred among the candidates before `limit`.
pub open spec fn scanned(
    stash: Seq<Slot>,
    b: Seq<Seq<Slot>>,
    leaf: u64,
    n: int,
    limit: Source,
    best: Option<Source>,
) -> bool {
    match best {
        None => forall|o: Source| #[trigger] candidate(stash, b, n, o) ==> !before(o, limit),
        Some(src) => {
            &&& candidate(stash, b, n, src)
            &&& before(src, limit)
            &&& forall|o: Source| #[trigger]
                candidate(stash, b, n, o) && before(o, limit) && o != src ==> preferred(
                    stash,
                    b,
                    leaf,
                    src,
                    o,
                )
        },
    }
}

/// What is preferred once the slot at `at` is looked at.
pub open spec fn better(
    stash: Seq<Slot>,
    b: Seq<Seq<Slot>>,
    leaf: u64,
    at: Source,
    best: Option<Source>,
) -> Option<Source> {
    if !slot_at(stash, b, at).vacant() && (best matches Some(src) ==> depth(stash, b, leaf, at)
        < depth(stash, b, leaf, src)) {
        Some(at)
    } else {
        best
    }
}

/// The source that is looked at after `at`, in the same bucket or in the
/// stash.
pub open spec fn next(at: Source) -> Source {
    match at {
        Source::Bucket(m, c) => Source::Bucket(m, c + 1),
        Source::Stash(c) => Source::Stash(c + 1),
    }
}

pub proof fn lemma_scan_slot(
    stash: Seq<Slot>,
    b: Seq<Seq<Slot>>,
    leaf: u64,
    n: int,
    at: Source,
    best: Option<Source>,
)
    requires
        scanned(stash, b, leaf, n, at, best),
        match at {
            Source::Bucket(m, c) => n < m < b.len() && 0 <= c < b[m].len(),
            Source::Stash(c) => 0 <= c < stash.len(),
        },
    ensures
        scanned(stash, b, leaf, n, next(at), better(stash, b, leaf, at, best)),
{
    let best2 = better(stash, b, leaf, at, best);
    assert forall|o: Source| #[trigger]
        candidate(stash, b, n, o) && before(o, next(at)) && Some(o) != best2 implies best2 is Some
        && preferred(stash, b, leaf, best2.unwrap(), o) by {
        assert(before(o, at) || o == at);
        if best2 == Some(at) {
            if best is Some && Some(o) != best {
                assert(preferred(stash, b, leaf, best.unwrap(), o));
            }
        }
    }
    if best2 is None {
        assert forall|o: Source| #[trigger] candidate(stash, b, n, o) implies !before(
            o,
            next(at),
        ) by {}
    }
}

/// Nothing lies between the last slot of a bucket and what follows the bucket.
pub proof fn lemma_scan_bucket(
    stash: Seq<Slot>,
    b: Seq<Seq<Slot>>,
    leaf: u64,
    n: int,
    m: int,
    best: Option<Source>,
)
    requires
        0 <= m < b.len(),
        scanned(stash, b, leaf, n, Source::Bucket(m, b[m].len() as int), best),
    ensures
        scanned(stash, b, leaf, n, Source::Bucket(m + 1, 0), best),
{
    assert forall|o: Source| #[trigger]
        candidate(stash, b, n, o) && before(o, Source::Bucket(m + 1, 0)) implies before(
        o,
        Source::Bucket(m, b[m].len() as int),
    ) by {}
}

pub proof fn lemma_scan_branch(
    stash: Seq<Slot>,
    b: Seq<Seq<Slot>>,
    leaf: u64,
    n: int,
    best: Option<Source>,
)
    requires
        scanned(stash, b, leaf, n, Source::Bucket(b.len() as int, 0), best),
    ensures
        scanned(stash, b, leaf, n, Source::Stash(0), best),
{
    assert forall|o: Source| #[trigger]
        candidate(stash, b, n, o) && before(o, Source::Stash(0)) implies before(
        o,
        Source::Bucket(b.len() as int, 0),
    ) by {}
}

pub proof fn lemma_scan_done(
    stash: Seq<Slot>,
    b: Seq<Seq<Slot>>,
    leaf: u64,
    n: int,
    best: Option<Source>,
)
    requires
        scanned(stash, b, leaf, n, Source::Stash(stash.len() as int), best),
    ensures
        deepest(stash, b, leaf, n) == best,
{
    assert forall|o: Source| #[trigger] candidate(stash, b, n, o) implies before(
        o,
        Source::Stash(stash.len() as int),
    ) by {}
    match best {
        Some(src) => {
            assert(is_deepest(stash, b, leaf, n, src));
            lemma_deepest_is(stash, b, leaf, n, src);
        },
        None => {
            if deepest(stash, b, leaf, n) is Some {
                let src = deepest(stash, b, leaf, n).unwrap();
                assert(is_deepest(stash, b, leaf, n, src));
                assert(candidate(stash, b, n, src));
            }
        },
    }
}

/// Looking at the first `c` slots of bucket `m`, and at all those of the
/// buckets between it and bucket `n`, finds what is preferred among them.
proof fn lemma_scan_to_bucket(
    stash: Seq<Slot>,
    b: Seq<Seq<Slot>>,
    leaf: u64,
    n: int,
    m: int,
    c: int,
) -> (best: Option<Source>)
    requires
        0 <= n < m <= b.len(),
        0 <= c,
        m < b.len() ==> c <= b[m].len(),
        m == b.len() ==> c == 0,
    ensures
        scanned(stash, b, leaf, n, Source::Bucket(m, c), best),
    decreases m, c,
{
    if c > 0 {
        let best = lemma_scan_to_bucket(stash, b, leaf, n, m, c - 1);
        lemma_scan_slot(stash, b, leaf, n, Source::Bucket(m, c - 1), best);
        better(stash, b, leaf, Source::Bucket(m, c - 1), best)
    } else if m > n + 1 {
        let best = lemma_scan_to_bucket(stash, b, leaf, n, m - 1, b[m - 1].len() as int);
        lemma_scan_bucket(stash, b, leaf, n, m - 1, best);
        best
    } else {
        None
    }
}

/// Looking at the first `c` slots of the stash as well finds what is preferred
/// among all of them.
proof fn lemma_scan_to_stash(
    stash: Seq<Slot>,
    b: Seq<Seq<Slot>>,
    leaf: u64,
    n: int,
    c: int,
) -> (best: Option<Source>)
    requires
        0 <= n < b.len(),
        0 <= c <= stash.len(),
    ensures
        scanned(stash, b, leaf, n, Source::Stash(c), best),
    decreases c,
{
    if c > 0 {
        let best = lemma_scan_to_stash(stash, b, leaf, n, c - 1);
        lemma_scan_slot(stash, b, leaf, n, Source::Stash(c - 1), best);
        better(stash, b, leaf, Source::Stash(c - 1), best)
    } else {
        let best = lemma_scan_to_bucket(stash, b, leaf, n, b.len() as int, 0);
        lemma_scan_branch(stash, b, leaf, n, best);
        best
    }
}

/// If there is a candidate, there is a deepest one.
pub proof fn lemma_deepest_exists(
    stash: Seq<Slot>,
    b: Seq<Seq<Slot>>,
    leaf: u64,
    n: int,
    src: Source,
)
    requires
        0 <= n < b.len(),
        candidate(stash, b, n, src),
    ensures
        deepest(stash, b, leaf, n) matches Some(best) && is_deepest(stash, b, leaf, n, best)
            && depth(stash, b, leaf, best) <= depth(stash, b, leaf, src),
{
    let best = lemma_scan_to_stash(stash, b, leaf, n, stash.len() as int);
    lemma_scan_done(stash, b, leaf, n, best);
    assert(before(src, Source::Stash(stash.len() as int)));
}

} // verus!
