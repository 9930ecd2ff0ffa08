//! The order in which the entries of one directory are visited: by a key of
//! two character sequences, and among equal keys by position in the listing.

use vstd::multiset::Multiset;
use vstd::prelude::*;
use vstd::relations::*;
use vstd::seq_lib::*;

verus! {

/// Whether `x` has the smaller code point.
pub open spec fn char_lt(x: char, y: char) -> bool {
    (x as u32) < (y as u32)
}

/// Of two different characters exactly one has the smaller code point.
pub proof fn lemma_char_lt(x: char, y: char)
    ensures
        x != y ==> (char_lt(x, y) <==> !char_lt(y, x)),
        x == y ==> !char_lt(x, y),
{
}

/// The order of the dictionary on character sequences, characters compared
/// by code point: a proper prefix comes before what continues it.
pub open spec fn lex_le(a: Seq<char>, b: Seq<char>) -> bool
    decreases a.len(),
{
    if a.len() == 0 {
        true
    } else if b.len() == 0 {
        false
    } else if a[0] != b[0] {
        char_lt(a[0], b[0])
    } else {
        lex_le(a.drop_first(), b.drop_first())
    }
}

/// Every sequence is at most itself.
pub proof fn lemma_lex_le_reflexive(a: Seq<char>)
    ensures
        lex_le(a, a),
    decreases a.len(),
{
    if a.len() > 0 {
        lemma_lex_le_reflexive(a.drop_first());
    }
}

/// Two sequences that are each at most the other are equal.
pub proof fn lemma_lex_le_antisymmetric(a: Seq<char>, b: Seq<char>)
    requires
        lex_le(a, b),
        lex_le(b, a),
    ensures
        a == b,
    decreases a.len(),
{
    if a.len() == 0 {
        assert(a =~= b);
    } else {
        lemma_char_lt(a[0], b[0]);
        lemma_lex_le_antisymmetric(a.drop_first(), b.drop_first());
        assert(a =~= seq![a[0]] + a.drop_first());
        assert(b =~= seq![b[0]] + b.drop_first());
    }
}

/// The order passes along a chain.
pub proof fn lemma_lex_le_transitive(a: Seq<char>, b: Seq<char>, c: Seq<char>)
    requires
        lex_le(a, b),
        lex_le(b, c),
    ensures
        lex_le(a, c),
    decreases a.len(),
{
    if a.len() > 0 {
        lemma_char_lt(a[0], b[0]);
        lemma_char_lt(b[0], c[0]);
        lemma_char_lt(a[0], c[0]);
        if a[0] == b[0] && b[0] == c[0] {
            lemma_lex_le_transitive(a.drop_first(), b.drop_first(), c.drop_first());
        }
    }
}

/// Of two sequences one is at most the other.
pub proof fn lemma_lex_le_total(a: Seq<char>, b: Seq<char>)
    ensures
        lex_le(a, b) || lex_le(b, a),
    decreases a.len(),
{
    if a.len() > 0 && b.len() > 0 {
        if a[0] == b[0] {
            lemma_lex_le_total(a.drop_first(), b.drop_first());
        } else {
            lemma_char_lt(a[0], b[0]);
        }
    }
}

/// What one entry is ordered by: first by `major`, then by `minor`.
pub struct SortKey {
    pub major: Vec<char>,
    pub minor: Vec<char>,
}

impl View for SortKey {
    type V = (Seq<char>, Seq<char>);

    open spec fn view(&self) -> (Seq<char>, Seq<char>) {
        (self.major@, self.minor@)
    }
}

/// The keys of a listing as pairs of character sequences.
pub open spec fn key_views(keys: Seq<SortKey>) -> Seq<(Seq<char>, Seq<char>)> {
    keys.map_values(|k: SortKey| k@)
}

/// The order of keys: by the first part, and by the second where the first
/// parts are equal.
pub open spec fn key_le(a: (Seq<char>, Seq<char>), b: (Seq<char>, Seq<char>)) -> bool {
    if a.0 == b.0 {
        lex_le(a.1, b.1)
    } else {
        lex_le(a.0, b.0)
    }
}

/// Whether position `i` of a listing with these keys is visited no later
/// than position `j`: by key, and by position where the keys are equal.
pub open spec fn rank_le(keys: Seq<(Seq<char>, Seq<char>)>, i: usize, j: usize) -> bool {
    if keys[i as int] == keys[j as int] {
        i <= j
    } else {
        key_le(keys[i as int], keys[j as int])
    }
}

/// `rank_le` for one listing, as a relation on positions.
pub open spec fn rank_order(keys: Seq<(Seq<char>, Seq<char>)>) -> spec_fn(usize, usize) -> bool {
    |i: usize, j: usize| rank_le(keys, i, j)
}

/// The positions `0..n` in rising order.
pub open spec fn positions(n: nat) -> Seq<usize> {
    Seq::new(n, |i: int| i as usize)
}

/// The positions of a listing in the order in which they are visited.
pub open spec fn visiting_order(keys: Seq<(Seq<char>, Seq<char>)>) -> Seq<usize> {
    positions(keys.len()).sort_by(rank_order(keys))
}

/// Two keys that are each at most the other are equal.
pub proof fn lemma_key_le_antisymmetric(a: (Seq<char>, Seq<char>), b: (Seq<char>, Seq<char>))
    requires
        key_le(a, b),
        key_le(b, a),
    ensures
        a == b,
{
    if a.0 == b.0 {
        lemma_lex_le_antisymmetric(a.1, b.1);
    } else {
        lemma_lex_le_antisymmetric(a.0, b.0);
    }
}

/// The order of keys passes along a chain.
pub proof fn lemma_key_le_transitive(
    a: (Seq<char>, Seq<char>),
    b: (Seq<char>, Seq<char>),
    c: (Seq<char>, Seq<char>),
)
    requires
        key_le(a, b),
        key_le(b, c),
    ensures
        key_le(a, c),
{
    lemma_lex_le_reflexive(a.0);
    lemma_lex_le_reflexive(b.0);
    lemma_lex_le_transitive(a.0, b.0, c.0);
    if a.0 == c.0 {
        if a.0 == b.0 {
            lemma_lex_le_transitive(a.1, b.1, c.1);
        } else {
            lemma_lex_le_antisymmetric(a.0, b.0);
        }
    }
}

/// The visiting order of a listing is a total order on positions.
pub proof fn lemma_rank_order_is_total(keys: Seq<(Seq<char>, Seq<char>)>)
    ensures
        total_ordering(rank_order(keys)),
{
    let r = rank_order(keys);
    assert forall|x: usize, y: usize| #[trigger] r(x, y) && #[trigger] r(y, x) implies x == y by {
        if keys[x as int] != keys[y as int] {
            lemma_key_le_antisymmetric(keys[x as int], keys[y as int]);
        }
    }
    assert forall|x: usize, y: usize, z: usize| #[trigger] r(x, y) && #[trigger] r(y, z) implies r(
        x,
        z,
    ) by {
        let (a, b, c) = (keys[x as int], keys[y as int], keys[z as int]);
        lemma_lex_le_reflexive(a.0);
        lemma_lex_le_reflexive(a.1);
        lemma_lex_le_reflexive(b.0);
        lemma_lex_le_reflexive(b.1);
        assert(key_le(a, b));
        assert(key_le(b, c));
        lemma_key_le_transitive(a, b, c);
        if a == c && a != b {
            lemma_key_le_antisymmetric(a, b);
        }
    }
    assert forall|x: usize, y: usize| #[trigger] r(x, y) || #[trigger] r(y, x) by {
        let (a, b) = (keys[x as int], keys[y as int]);
        lemma_lex_le_total(a.0, b.0);
        lemma_lex_le_total(a.1, b.1);
    }
}

/// The visiting order of a listing holds each of its positions once, in
/// rising rank.
pub proof fn lemma_visiting_order(keys: Seq<(Seq<char>, Seq<char>)>)
    ensures
        visiting_order(keys).len() == keys.len(),
        visiting_order(keys).to_multiset() == positions(keys.len()).to_multiset(),
        sorted_by(visiting_order(keys), rank_order(keys)),
        forall|i: int|
            0 <= i < keys.len() ==> (#[trigger] visiting_order(keys)[i]) < keys.len(),
{
    let all = positions(keys.len());
    let order = visiting_order(keys);
    lemma_rank_order_is_total(keys);
    all.lemma_sort_by_ensures(rank_order(keys));
    to_multiset_len(all);
    to_multiset_len(order);
    assert forall|i: int| 0 <= i < keys.len() implies (#[trigger] order[i]) < keys.len() by {
        assert(order.contains(order[i]));
        assert(all.contains(order[i]));
        let j = choose|j: int| 0 <= j < all.len() && all[j] == order[i];
        assert(all[j] == j as usize);
    }
}

/// The items at the positions `order`, in that order.
pub open spec fn picked<A>(order: Seq<usize>, items: Seq<A>) -> Seq<A> {
    order.map_values(|i: usize| items[i as int])
}

/// The step that adds what position `i` gives to what was gathered before.
pub open spec fn adding<A>(part: spec_fn(usize) -> Multiset<A>) -> spec_fn(
    Multiset<A>,
    usize,
) -> Multiset<A> {
    |all: Multiset<A>, i: usize| all.add(part(i))
}

/// What is gathered from the positions `order`, each position `i` giving
/// the items `part(i)`: all of them together, without regard to order.
pub open spec fn gathered<A>(order: Seq<usize>, part: spec_fn(usize) -> Multiset<A>) -> Multiset<
    A,
> {
    order.fold_left(Multiset::empty(), adding(part))
}

/// What is gathered does not depend on the order of the positions.
pub proof fn lemma_gathered_in_any_order<A>(
    one: Seq<usize>,
    other: Seq<usize>,
    part: spec_fn(usize) -> Multiset<A>,
)
    requires
        one.to_multiset() == other.to_multiset(),
    ensures
        gathered(one, part) == gathered(other, part),
{
    let step = adding(part);
    assert forall|x: usize, y: usize, v: Multiset<A>| #[trigger]
        step(step(v, x), y) == step(step(v, y), x) by {
        assert(v.add(part(x)).add(part(y)) =~= v.add(part(y)).add(part(x)));
    }
    lemma_fold_left_permutation(one, other, step, Multiset::empty());
}

/// The items picked at some positions are what those positions give one by
/// one.
pub proof fn lemma_picked_is_gathered<A>(order: Seq<usize>, items: Seq<A>)
    ensures
        picked(order, items).to_multiset() == gathered(
            order,
            |i: usize| Multiset::singleton(items[i as int]),
        ),
    decreases order.len(),
{
    let part = |i: usize| Multiset::singleton(items[i as int]);
    if order.len() == 0 {
        to_multiset_len(picked(order, items));
        assert(picked(order, items).to_multiset() =~= Multiset::<A>::empty());
    } else {
        let front = order.drop_last();
        lemma_picked_is_gathered(front, items);
        assert(picked(order, items) =~= picked(front, items).push(items[order.last() as int]));
        to_multiset_build(picked(front, items), items[order.last() as int]);
        assert(gathered(order, part) == gathered(front, part).add(part(order.last())));
        assert(picked(front, items).to_multiset().insert(items[order.last() as int])
            =~= gathered(front, part).add(part(order.last())));
    }
}

/// Picking the items of a sequence in a visiting order rearranges them:
/// none is lost and none comes twice.
pub proof fn lemma_picked_rearranges<A>(order: Seq<usize>, items: Seq<A>)
    requires
        items.len() <= usize::MAX,
        order.to_multiset() == positions(items.len()).to_multiset(),
    ensures
        picked(order, items).to_multiset() == items.to_multiset(),
{
    let part = |i: usize| Multiset::singleton(items[i as int]);
    let all = positions(items.len());
    lemma_picked_is_gathered(order, items);
    lemma_picked_is_gathered(all, items);
    lemma_gathered_in_any_order(order, all, part);
    assert(picked(all, items) =~= items);
}

/// Whether `x` has the smaller code point.
fn char_before(x: char, y: char) -> (r: bool)
    ensures
        r == char_lt(x, y),
{
    x < y
}

/// Whether `a` comes no later than `b` in the order of the dictionary.
fn chars_le(a: &Vec<char>, b: &Vec<char>) -> (r: bool)
    ensures
        r == lex_le(a@, b@),
{
    let mut i: usize = 0;
    assert(a@.skip(0) =~= a@ && b@.skip(0) =~= b@);
    while i < a.len() && i < b.len()
        invariant
            i <= a.len(),
            i <= b.len(),
            lex_le(a@, b@) == lex_le(a@.skip(i as int), b@.skip(i as int)),
        decreases a.len() - i,
    {
        proof {
            assert(a@.skip(i as int).drop_first() =~= a@.skip(i + 1));
            assert(b@.skip(i as int).drop_first() =~= b@.skip(i + 1));
            assert(a@.skip(i as int)[0] == a@[i as int]);
            assert(b@.skip(i as int)[0] == b@[i as int]);
        }
        if a[i] != b[i] {
            return char_before(a[i], b[i]);
        }
        i += 1;
    }
    i == a.len()
}

/// Whether the key `a` comes no later than the key `b`.
fn key_before(a: &SortKey, b: &SortKey) -> (r: bool)
    ensures
        r == key_le(a@, b@),
{
    let forth = chars_le(&a.major, &b.major);
    let back = chars_le(&b.major, &a.major);
    if forth && back {
        proof {
            lemma_lex_le_antisymmetric(a.major@, b.major@);
        }
        chars_le(&a.minor, &b.minor)
    } else {
        proof {
            if a.major@ == b.major@ {
                lemma_lex_le_reflexive(a.major@);
            }
        }
        forth
    }
}

/// Whether position `i` is visited no later than position `j`.
fn rank_before(keys: &Vec<SortKey>, i: usize, j: usize) -> (r: bool)
    requires
        i < keys.len(),
        j < keys.len(),
    ensures
        r == rank_le(key_views(keys@), i, j),
{
    let forth = key_before(&keys[i], &keys[j]);
    let back = key_before(&keys[j], &keys[i]);
    if forth && back {
        proof {
            lemma_key_le_antisymmetric(keys[i as int]@, keys[j as int]@);
        }
        i <= j
    } else {
        proof {
            if keys[i as int]@ == keys[j as int]@ {
                lemma_lex_le_reflexive(keys[i as int]@.1);
            }
        }
        forth
    }
}

/// The positions of `keys` in the order in which they are visited.
pub fn sort_positions(keys: &Vec<SortKey>) -> (order: Vec<usize>)
    ensures
        order@ == visiting_order(key_views(keys@)),
        order@.len() == keys@.len(),
        forall|i: int| 0 <= i < order@.len() ==> (#[trigger] order@[i]) < keys@.len(),
{
    let ghost views = key_views(keys@);
    let ghost rel = rank_order(views);
    proof {
        lemma_rank_order_is_total(views);
    }
    let mut order: Vec<usize> = Vec::new();
    let mut k: usize = 0;
    assert(order@ =~= positions(0));
    while k < keys.len()
        invariant
            k <= keys.len(),
            views == key_views(keys@),
            rel == rank_order(views),
            total_ordering(rel),
            order@.len() == k,
            sorted_by(order@, rel),
            order@.to_multiset() == positions(k as nat).to_multiset(),
            forall|i: int| 0 <= i < order@.len() ==> #[trigger] order@[i] < k,
        decreases keys.len() - k,
    {
        let mut p: usize = order.len();
        while p > 0 && !rank_before(keys, order[p - 1], k)
            invariant
                p <= order@.len(),
                order@.len() == k,
                k < keys.len(),
                views == key_views(keys@),
                rel == rank_order(views),
                total_ordering(rel),
                forall|i: int| 0 <= i < order@.len() ==> #[trigger] order@[i] < k,
                forall|j: int| p <= j < order@.len() ==> rel(k, #[trigger] order@[j]),
            decreases p,
        {
            p -= 1;
            assert(rel(order@[p as int], k) || rel(k, order@[p as int]));
        }
        let ghost before = order@;
        assert forall|i: int| 0 <= i < p implies rel(#[trigger] before[i], k) by {
            assert(rel(before[p - 1], k));
            if i < p - 1 {
                assert(rel(before[i], before[p - 1]));
            }
        }
        order.insert(p, k);
        proof {
            let after = order@;
            assert forall|i: int, j: int| 0 <= i < j < after.len() implies #[trigger] rel(
                after[i],
                after[j],
            ) by {
                let oi = if i < p { i } else { i - 1 };
                let oj = if j < p { j } else { j - 1 };
                if i != p && j != p {
                    assert(rel(before[oi], before[oj]));
                } else if i == p {
                    assert(rel(k, before[oj]));
                } else {
                    assert(rel(before[oi], k));
                }
            }
            to_multiset_insert(before, p as int, k);
            assert(positions((k + 1) as nat) =~= positions(k as nat).push(k));
            to_multiset_build(positions(k as nat), k);
        }
        k += 1;
    }
    proof {
        let all = positions(keys@.len());
        assert(views.len() == keys@.len());
        all.lemma_sort_by_ensures(rel);
        lemma_sorted_unique(order@, all.sort_by(rel), rel);
    }
    order
}

} // verus!
