//! The mathematical model of what the tree and the stash hold.
use crate::oblivious::Meta;
use vstd::multiset::*;
use vstd::prelude::*;

verus! {

/// One place for a block: its metadata and its data.
#[verifier::ext_equal]
pub struct Slot {
    pub leaf_num: u64,
    pub block_num: u64,
    pub data: Seq<u8>,
}

impl Slot {
    /// Whether the slot holds no block.
    pub open spec fn vacant(self) -> bool {
        self.leaf_num == 0
    }

    /// The slot once its block is taken out of it.
    pub open spec fn vacated(self) -> Slot {
        Slot { leaf_num: 0, ..self }
    }

    /// Whether the slot holds block `query`.
    pub open spec fn holds(self, query: u64) -> bool {
        !self.vacant() && self.block_num == query
    }

    /// The slot that nothing was ever written to.
    pub open spec fn zero(value_size: nat) -> Slot {
        Slot { leaf_num: 0, block_num: 0, data: zeros(value_size) }
    }
}

/// A value whose bytes are all zero.
pub open spec fn zeros(value_size: nat) -> Seq<u8> {
    Seq::new(value_size, |i: int| 0u8)
}

/// The slot that is made of a metadata and a value.
pub open spec fn slot<const VALUE_SIZE: usize>(data: [u8; VALUE_SIZE], meta: Meta) -> Slot {
    Slot { leaf_num: meta.leaf_num, block_num: meta.block_num, data: data@ }
}

/// The slots that are made of a sequence of metadata and one of values.
pub open spec fn slots<const VALUE_SIZE: usize>(
    data: Seq<[u8; VALUE_SIZE]>,
    meta: Seq<Meta>,
) -> Seq<Slot> {
    Seq::new(meta.len(), |i: int| slot(data[i], meta[i]))
}

/// The slots of each bucket of a sequence of buckets.
pub open spec fn buckets<const VALUE_SIZE: usize, const Z: usize>(
    data: Seq<[[u8; VALUE_SIZE]; Z]>,
    meta: Seq<[Meta; Z]>,
) -> Seq<Seq<Slot>> {
    Seq::new(meta.len(), |i: int| slots(data[i]@, meta[i]@))
}

/// The first vacant slot at or after `from`, or the number of slots.
pub open spec fn first_vacant(s: Seq<Slot>, from: int) -> int
    decreases s.len() - from,
{
    if from >= s.len() {
        s.len() as int
    } else if s[from].vacant() {
        from
    } else {
        first_vacant(s, from + 1)
    }
}

/// The first slot at or after `from` that holds block `query`, or the number
/// of slots.
pub open spec fn first_match(s: Seq<Slot>, query: u64, from: int) -> int
    decreases s.len() - from,
{
    if from >= s.len() {
        s.len() as int
    } else if s[from].holds(query) {
        from
    } else {
        first_match(s, query, from + 1)
    }
}

/// Whether some slot is vacant.
pub open spec fn has_room(s: Seq<Slot>) -> bool {
    first_vacant(s, 0) < s.len()
}

/// The slots once block `query` is taken out of the first one that holds it.
pub open spec fn removed(s: Seq<Slot>, query: u64) -> Seq<Slot> {
    let i = first_match(s, query, 0);
    if i < s.len() {
        s.update(i, s[i].vacated())
    } else {
        s
    }
}

/// The first slot that holds block `query`, or `otherwise`.
pub open spec fn found(s: Seq<Slot>, query: u64, otherwise: Slot) -> Slot {
    let i = first_match(s, query, 0);
    if i < s.len() {
        s[i]
    } else {
        otherwise
    }
}

/// The slots once `item` is put into the first vacant one, if there is one.
pub open spec fn inserted(s: Seq<Slot>, item: Slot) -> Seq<Slot> {
    if has_room(s) {
        s.update(first_vacant(s, 0), item)
    } else {
        s
    }
}

/// The block that a slot holds, if any.
pub open spec fn block_of(s: Slot) -> Multiset<Slot> {
    if s.vacant() {
        Multiset::empty()
    } else {
        Multiset::singleton(s)
    }
}

/// The blocks that a sequence of slots holds.
pub open spec fn live(s: Seq<Slot>) -> Multiset<Slot>
    decreases s.len(),
{
    if s.len() == 0 {
        Multiset::empty()
    } else {
        live(s.drop_last()).add(block_of(s.last()))
    }
}

/// The blocks that a sequence of buckets holds.
pub open spec fn live_in(b: Seq<Seq<Slot>>) -> Multiset<Slot>
    decreases b.len(),
{
    if b.len() == 0 {
        Multiset::empty()
    } else {
        live_in(b.drop_last()).add(live(b.last()))
    }
}

pub proof fn lemma_first_vacant(s: Seq<Slot>, from: int)
    requires
        0 <= from <= s.len(),
    ensures
        from <= first_vacant(s, from) <= s.len(),
        first_vacant(s, from) < s.len() ==> s[first_vacant(s, from)].vacant(),
        forall|i: int| from <= i < first_vacant(s, from) ==> !(#[trigger] s[i]).vacant(),
    decreases s.len() - from,
{
    if from < s.len() && !s[from].vacant() {
        lemma_first_vacant(s, from + 1);
    }
}

/// A slot is the first vacant one if it is vacant and none before it is.
pub proof fn lemma_first_vacant_is(s: Seq<Slot>, from: int, at: int)
    requires
        0 <= from <= at <= s.len(),
        at < s.len() ==> s[at].vacant(),
        forall|i: int| from <= i < at ==> !(#[trigger] s[i]).vacant(),
    ensures
        first_vacant(s, from) == at,
    decreases at - from,
{
    if from < at {
        lemma_first_vacant_is(s, from + 1, at);
    }
}

pub proof fn lemma_first_match(s: Seq<Slot>, query: u64, from: int)
    requires
        0 <= from <= s.len(),
    ensures
        from <= first_match(s, query, from) <= s.len(),
        first_match(s, query, from) < s.len() ==> s[first_match(s, query, from)].holds(query),
        forall|i: int|
            from <= i < first_match(s, query, from) ==> !(#[trigger] s[i]).holds(query),
    decreases s.len() - from,
{
    if from < s.len() && !s[from].holds(query) {
        lemma_first_match(s, query, from + 1);
    }
}

pub proof fn lemma_first_match_is(s: Seq<Slot>, query: u64, from: int, at: int)
    requires
        0 <= from <= at <= s.len(),
        at < s.len() ==> s[at].holds(query),
        forall|i: int| from <= i < at ==> !(#[trigger] s[i]).holds(query),
    ensures
        first_match(s, query, from) == at,
    decreases at - from,
{
    if from < at {
        lemma_first_match_is(s, query, from + 1, at);
    }
}

/// Overwriting a slot exchanges its block for the new one.
pub proof fn lemma_live_update(s: Seq<Slot>, i: int, x: Slot)
    requires
        0 <= i < s.len(),
    ensures
        live(s.update(i, x)).add(block_of(s[i])) == live(s).add(block_of(x)),
    decreases s.len(),
{
    let t = s.update(i, x);
    if i == s.len() - 1 {
        assert(t.drop_last() =~= s.drop_last());
    } else {
        let init = s.drop_last();
        assert(t.drop_last() =~= init.update(i, x));
        lemma_live_update(init, i, x);
        assert forall|v: Slot|
            live(init.update(i, x)).count(v) + block_of(s[i]).count(v) == live(init).count(v)
                + block_of(x).count(v) by {
            assert(live(init.update(i, x)).add(block_of(s[i])).count(v) == live(init).add(
                block_of(x),
            ).count(v));
        }
    }
    assert(live(t).add(block_of(s[i])) =~= live(s).add(block_of(x)));
}

/// The blocks of a sequence of slots are those of its slots that are not
/// vacant.
pub proof fn lemma_live_contains(s: Seq<Slot>, x: Slot)
    ensures
        live(s).count(x) > 0 <==> (!x.vacant() && s.contains(x)),
    decreases s.len(),
{
    if s.len() > 0 {
        lemma_live_contains(s.drop_last(), x);
        if s.contains(x) {
            let i = choose|i: int| 0 <= i < s.len() && s[i] == x;
            if i < s.len() - 1 {
                assert(s.drop_last()[i] == x);
            }
        }
        if s.drop_last().contains(x) {
            let i = choose|i: int| 0 <= i < s.drop_last().len() && s.drop_last()[i] == x;
            assert(s[i] == x);
        }
        assert(s[s.len() - 1] == s.last());
    }
}

/// Replacing a bucket exchanges its blocks for the new ones.
pub proof fn lemma_live_in_update(b: Seq<Seq<Slot>>, i: int, s: Seq<Slot>)
    requires
        0 <= i < b.len(),
    ensures
        live_in(b.update(i, s)).add(live(b[i])) == live_in(b).add(live(s)),
    decreases b.len(),
{
    let t = b.update(i, s);
    if i == b.len() - 1 {
        assert(t.drop_last() =~= b.drop_last());
    } else {
        let init = b.drop_last();
        assert(t.drop_last() =~= init.update(i, s));
        lemma_live_in_update(init, i, s);
        assert forall|v: Slot|
            live_in(init.update(i, s)).count(v) + live(b[i]).count(v) == live_in(init).count(v)
                + live(s).count(v) by {
            assert(live_in(init.update(i, s)).add(live(b[i])).count(v) == live_in(init).add(
                live(s),
            ).count(v));
        }
    }
    assert(live_in(t).add(live(b[i])) =~= live_in(b).add(live(s)));
}

pub proof fn lemma_live_in_contains(b: Seq<Seq<Slot>>, x: Slot)
    ensures
        live_in(b).count(x) > 0 <==> exists|i: int|
            0 <= i < b.len() && live(#[trigger] b[i]).count(x) > 0,
    decreases b.len(),
{
    if b.len() > 0 {
        lemma_live_in_contains(b.drop_last(), x);
        if live_in(b).count(x) > 0 {
            if live_in(b.drop_last()).count(x) > 0 {
                let i = choose|i: int|
                    0 <= i < b.drop_last().len() && live(#[trigger] b.drop_last()[i]).count(x) > 0;
                assert(live(b[i]).count(x) > 0);
            } else {
                assert(live(b[b.len() - 1]).count(x) > 0);
            }
        }
        if exists|i: int| 0 <= i < b.len() && live(#[trigger] b[i]).count(x) > 0 {
            let i = choose|i: int| 0 <= i < b.len() && live(#[trigger] b[i]).count(x) > 0;
            if i < b.len() - 1 {
                assert(live(b.drop_last()[i]).count(x) > 0);
            }
        }
    }
}

/// Putting a block into a vacant slot adds it to what is held.
pub proof fn lemma_live_inserted(s: Seq<Slot>, item: Slot)
    requires
        has_room(s),
    ensures
        live(inserted(s, item)) == live(s).add(block_of(item)),
{
    lemma_first_vacant(s, 0);
    lemma_live_update(s, first_vacant(s, 0), item);
    assert(live(inserted(s, item)) =~= live(s).add(block_of(item)));
}

/// Taking a block out of a slot takes it from what is held.
pub proof fn lemma_live_removed(s: Seq<Slot>, query: u64)
    ensures
        first_match(s, query, 0) < s.len() ==> live(removed(s, query)).add(
            Multiset::singleton(s[first_match(s, query, 0)]),
        ) == live(s),
        removed(s, query).len() == s.len(),
{
    lemma_first_match(s, query, 0);
    let i = first_match(s, query, 0);
    if i < s.len() {
        lemma_live_update(s, i, s[i].vacated());
        assert(live(removed(s, query)).add(block_of(s[i])) =~= live(s));
    }
}

} // verus!
