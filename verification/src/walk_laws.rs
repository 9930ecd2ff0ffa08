//! What holds of every walk: it finds each video file of the tree once for
//! each time the file is listed, and the order in which the entries of a
//! directory were listed has no part in what it returns.

use crate::listing::{
    dir_keys, file_keys, names_of, video_names, videos_of, walk, walk_below, DirListing, SubDir,
};
use crate::paths::{extension_or_empty, is_video_path, join};
use crate::sorting::{
    adding, key_le, lemma_gathered_in_any_order, lemma_key_le_antisymmetric,
    lemma_key_le_transitive, lemma_lex_le_antisymmetric, lemma_lex_le_reflexive,
    lemma_lex_le_total, lemma_lex_le_transitive, lemma_picked_rearranges, lemma_visiting_order,
    lex_le, picked, positions, rank_order, visiting_order,
};
use vstd::multiset::Multiset;
use vstd::prelude::*;
use vstd::relations::*;
use vstd::seq_lib::*;

verus! {

/// The paths of the entries `names` of the directory `dir`.
pub open spec fn paths_in(dir: Seq<char>, names: Seq<Seq<char>>) -> Seq<Seq<char>> {
    names.map_values(|n: Seq<char>| join(dir, n))
}

/// The video files of the tree that `listing` describes, `path` being the
/// path of its top directory: each path as often as the file is listed,
/// without regard to order.
pub open spec fn videos_under(path: Seq<char>, listing: DirListing) -> Multiset<Seq<char>>
    decreases listing, 1nat, 0nat,
{
    paths_in(path, video_names(names_of(listing.files@))).to_multiset().add(
        videos_under_dirs(path, listing, 0),
    )
}

/// The video files below the subdirectories `from..` of `listing`, taken as
/// they were listed.
pub open spec fn videos_under_dirs(path: Seq<char>, listing: DirListing, from: nat) -> Multiset<
    Seq<char>,
>
    decreases listing, 0nat, listing.dirs@.len() - from,
{
    if from >= listing.dirs@.len() {
        Multiset::empty()
    } else {
        let sub = listing.dirs@[from as int];
        videos_under(join(path, sub.name@), sub.listing).add(
            videos_under_dirs(path, listing, from + 1),
        )
    }
}

/// The video files below the subdirectory at position `i` of `listing`.
pub open spec fn videos_at(path: Seq<char>, listing: DirListing) -> spec_fn(usize) -> Multiset<
    Seq<char>,
> {
    |i: usize|
        videos_under(
            join(path, listing.dirs@[i as int].name@),
            listing.dirs@[i as int].listing,
        )
}

/// The videos that a directory holds itself are its video files, however
/// they were listed.
pub proof fn lemma_videos_of_rearranges(dir: Seq<char>, names: Seq<Seq<char>>)
    requires
        names.len() <= usize::MAX,
    ensures
        videos_of(dir, names).to_multiset() == paths_in(dir, video_names(names)).to_multiset(),
{
    let videos = video_names(names);
    let order = visiting_order(file_keys(videos));
    let items = paths_in(dir, videos);
    names.lemma_filter_len(|n: Seq<char>| is_video_path(n));
    lemma_visiting_order(file_keys(videos));
    assert(picked(order, items) =~= videos_of(dir, names));
    lemma_picked_rearranges(order, items);
}

/// A walk finds each video file of the tree as often as the file is listed,
/// and nothing else.
pub proof fn lemma_walk_finds_every_video(path: Seq<char>, listing: DirListing)
    requires
        walk(path, listing) is Ok,
    ensures
        walk(path, listing)->Ok_0.to_multiset() == videos_under(path, listing),
    decreases listing, 1nat, 0nat,
{
    let names = names_of(listing.files@);
    let order = visiting_order(dir_keys(listing.dirs@));
    let part = videos_at(path, listing);
    let here = videos_of(path, names);
    let below = walk_below(path, listing, order, 0)->Ok_0;
    let nothing = Multiset::<Seq<char>>::empty();
    assert(listing.files.len() == listing.files@.len());
    assert(listing.dirs.len() == listing.dirs@.len());
    lemma_videos_of_rearranges(path, names);
    lemma_visiting_order(dir_keys(listing.dirs@));
    lemma_walk_below_gathers(path, listing, order, 0, nothing);
    lemma_dirs_gather(path, listing, 0, nothing);
    lemma_gathered_in_any_order(order, positions(listing.dirs@.len()), part);
    assert(order.skip(0) =~= order);
    assert(positions(listing.dirs@.len()).skip(0) =~= positions(listing.dirs@.len()));
    assert(nothing.add(below.to_multiset()) =~= below.to_multiset());
    assert(nothing.add(videos_under_dirs(path, listing, 0)) =~= videos_under_dirs(
        path,
        listing,
        0,
    ));
    lemma_multiset_commutative(here, below);
}

/// What a walk finds below the subdirectories `order[from..]` is what those
/// subdirectories hold.
pub proof fn lemma_walk_below_gathers(
    path: Seq<char>,
    listing: DirListing,
    order: Seq<usize>,
    from: nat,
    before: Multiset<Seq<char>>,
)
    requires
        from <= order.len(),
        forall|k: int| 0 <= k < order.len() ==> (#[trigger] order[k]) < listing.dirs@.len(),
        walk_below(path, listing, order, from) is Ok,
    ensures
        order.skip(from as int).fold_left(before, adding(videos_at(path, listing))) == before.add(
            walk_below(path, listing, order, from)->Ok_0.to_multiset(),
        ),
    decreases listing, 0nat, order.len() - from,
{
    let step = adding(videos_at(path, listing));
    let rest = order.skip(from as int);
    let found = walk_below(path, listing, order, from)->Ok_0;
    if from >= order.len() {
        to_multiset_len(found);
        assert(before.add(found.to_multiset()) =~= before);
    } else {
        let i = order[from as int];
        let sub = listing.dirs@[i as int];
        let first = walk(join(path, sub.name@), sub.listing)->Ok_0;
        let later = walk_below(path, listing, order, from + 1)->Ok_0;
        let tail = order.skip(from as int + 1);
        lemma_walk_finds_every_video(join(path, sub.name@), sub.listing);
        lemma_walk_below_gathers(path, listing, order, from + 1, step(before, i));
        rest.lemma_fold_left_alt(before, step);
        assert(rest.subrange(1, rest.len() as int) =~= tail);
        tail.lemma_fold_left_alt(step(before, rest[0]), step);
        lemma_multiset_commutative(first, later);
        assert(before.add(first.to_multiset()).add(later.to_multiset()) =~= before.add(
            first.to_multiset().add(later.to_multiset()),
        ));
    }
}

/// What the subdirectories `from..` hold, gathered position by position.
pub proof fn lemma_dirs_gather(
    path: Seq<char>,
    listing: DirListing,
    from: nat,
    before: Multiset<Seq<char>>,
)
    requires
        from <= listing.dirs@.len() <= usize::MAX,
    ensures
        positions(listing.dirs@.len()).skip(from as int).fold_left(
            before,
            adding(videos_at(path, listing)),
        ) == before.add(videos_under_dirs(path, listing, from)),
    decreases listing.dirs@.len() - from,
{
    let step = adding(videos_at(path, listing));
    let all = positions(listing.dirs@.len());
    let rest = all.skip(from as int);
    if from >= listing.dirs@.len() {
        assert(before.add(videos_under_dirs(path, listing, from)) =~= before);
    } else {
        let tail = all.skip(from as int + 1);
        let sub = listing.dirs@[from as int];
        let first = videos_under(join(path, sub.name@), sub.listing);
        assert(rest[0] == from as usize);
        lemma_dirs_gather(path, listing, from + 1, step(before, from as usize));
        rest.lemma_fold_left_alt(before, step);
        assert(rest.subrange(1, rest.len() as int) =~= tail);
        tail.lemma_fold_left_alt(step(before, rest[0]), step);
        assert(before.add(first).add(videos_under_dirs(path, listing, from + 1)) =~= before.add(
            first.add(videos_under_dirs(path, listing, from + 1)),
        ));
    }
}

/// The names of the subdirectories of `listing`, as they were listed.
pub open spec fn dir_names(listing: DirListing) -> Seq<Seq<char>> {
    listing.dirs@.map_values(|d: SubDir| d.name@)
}

/// Whether two listings describe the same tree: the same directories are
/// readable, each directory has the same files and the same subdirectories,
/// and subdirectories of the same name hold the same. The order of the
/// entries is left out of account.
pub open spec fn same_tree(a: DirListing, b: DirListing) -> bool
    decreases a,
{
    &&& a.readable == b.readable
    &&& a.readable ==> {
        &&& names_of(a.files@).to_multiset() == names_of(b.files@).to_multiset()
        &&& dir_names(a).to_multiset() == dir_names(b).to_multiset()
        &&& forall|i: int, j: int|
            0 <= i < a.dirs@.len() && 0 <= j < b.dirs@.len() && a.dirs@[i].name@
                == b.dirs@[j].name@ ==> same_tree(
                (#[trigger] a.dirs@[i]).listing,
                (#[trigger] b.dirs@[j]).listing,
            )
    }
}

/// The order in which the files of one directory are visited, as a relation
/// on their names: by extension, then by name.
pub open spec fn file_order() -> spec_fn(Seq<char>, Seq<char>) -> bool {
    |a: Seq<char>, b: Seq<char>| key_le((extension_or_empty(a), a), (extension_or_empty(b), b))
}

/// The order in which the subdirectories of one directory are visited, as a
/// relation on their names.
pub open spec fn name_order() -> spec_fn(Seq<char>, Seq<char>) -> bool {
    |a: Seq<char>, b: Seq<char>| lex_le(a, b)
}

/// Files are visited in a total order of their names.
pub proof fn lemma_file_order_is_total()
    ensures
        total_ordering(file_order()),
{
    let r = file_order();
    assert forall|x: Seq<char>| #[trigger] r(x, x) by {
        lemma_lex_le_reflexive(x);
    }
    assert forall|x: Seq<char>, y: Seq<char>| #[trigger] r(x, y) && #[trigger] r(y, x) implies x
        == y by {
        lemma_key_le_antisymmetric((extension_or_empty(x), x), (extension_or_empty(y), y));
    }
    assert forall|x: Seq<char>, y: Seq<char>, z: Seq<char>| #[trigger]
        r(x, y) && #[trigger] r(y, z) implies r(x, z) by {
        lemma_key_le_transitive(
            (extension_or_empty(x), x),
            (extension_or_empty(y), y),
            (extension_or_empty(z), z),
        );
    }
    assert forall|x: Seq<char>, y: Seq<char>| #[trigger] r(x, y) || #[trigger] r(y, x) by {
        lemma_lex_le_total(extension_or_empty(x), extension_or_empty(y));
        lemma_lex_le_total(x, y);
    }
}

/// Subdirectories are visited in a total order of their names.
pub proof fn lemma_name_order_is_total()
    ensures
        total_ordering(name_order()),
{
    let r = name_order();
    assert forall|x: Seq<char>| #[trigger] r(x, x) by {
        lemma_lex_le_reflexive(x);
    }
    assert forall|x: Seq<char>, y: Seq<char>| #[trigger] r(x, y) && #[trigger] r(y, x) implies x
        == y by {
        lemma_lex_le_antisymmetric(x, y);
    }
    assert forall|x: Seq<char>, y: Seq<char>, z: Seq<char>| #[trigger]
        r(x, y) && #[trigger] r(y, z) implies r(x, z) by {
        lemma_lex_le_transitive(x, y, z);
    }
    assert forall|x: Seq<char>, y: Seq<char>| #[trigger] r(x, y) || #[trigger] r(y, x) by {
        lemma_lex_le_total(x, y);
    }
}

/// Among the items that meet a condition, each comes as often as in the
/// whole sequence.
pub proof fn lemma_filter_keeps_counts<A>(s: Seq<A>, keep: spec_fn(A) -> bool)
    ensures
        s.filter(keep).to_multiset() == s.to_multiset().filter(keep),
    decreases s.len(),
{
    reveal(Seq::filter);
    if s.len() == 0 {
        to_multiset_len(s);
        assert(s.filter(keep).to_multiset() =~= s.to_multiset().filter(keep));
    } else {
        let front = s.drop_last();
        lemma_filter_keeps_counts(front, keep);
        assert(s =~= front.push(s.last()));
        to_multiset_build(front, s.last());
        to_multiset_build(front.filter(keep), s.last());
        assert(s.filter(keep).to_multiset() =~= s.to_multiset().filter(keep));
    }
}

/// The video files of one directory, in the order in which they are
/// visited, are in rising order.
pub proof fn lemma_videos_are_sorted(videos: Seq<Seq<char>>)
    ensures
        sorted_by(picked(visiting_order(file_keys(videos)), videos), file_order()),
{
    let keys = file_keys(videos);
    let order = visiting_order(keys);
    let sorted = picked(order, videos);
    lemma_visiting_order(keys);
    assert forall|k: int, l: int| 0 <= k < l < sorted.len() implies #[trigger] file_order()(
        sorted[k],
        sorted[l],
    ) by {
        assert(rank_order(keys)(order[k], order[l]));
        lemma_lex_le_reflexive(sorted[k]);
    }
}

/// The names of the subdirectories of one directory, in the order in which
/// they are visited, are in rising order.
pub proof fn lemma_dirs_are_sorted(listing: DirListing)
    ensures
        sorted_by(
            picked(visiting_order(dir_keys(listing.dirs@)), dir_names(listing)),
            name_order(),
        ),
{
    let keys = dir_keys(listing.dirs@);
    let order = visiting_order(keys);
    let sorted = picked(order, dir_names(listing));
    lemma_visiting_order(keys);
    assert forall|k: int, l: int| 0 <= k < l < sorted.len() implies #[trigger] name_order()(
        sorted[k],
        sorted[l],
    ) by {
        assert(rank_order(keys)(order[k], order[l]));
        lemma_lex_le_reflexive(sorted[k]);
    }
}

/// The order in which the files of a directory were listed has no part in
/// the videos that are found in it.
pub proof fn lemma_videos_of_ignores_listing_order(
    dir: Seq<char>,
    one: Seq<Seq<char>>,
    other: Seq<Seq<char>>,
)
    requires
        one.len() <= usize::MAX,
        other.len() <= usize::MAX,
        one.to_multiset() == other.to_multiset(),
    ensures
        videos_of(dir, one) == videos_of(dir, other),
{
    let keep = |n: Seq<char>| is_video_path(n);
    let (v1, v2) = (video_names(one), video_names(other));
    let (o1, o2) = (visiting_order(file_keys(v1)), visiting_order(file_keys(v2)));
    lemma_filter_keeps_counts(one, keep);
    lemma_filter_keeps_counts(other, keep);
    one.lemma_filter_len(keep);
    other.lemma_filter_len(keep);
    lemma_visiting_order(file_keys(v1));
    lemma_visiting_order(file_keys(v2));
    lemma_picked_rearranges(o1, v1);
    lemma_picked_rearranges(o2, v2);
    lemma_videos_are_sorted(v1);
    lemma_videos_are_sorted(v2);
    lemma_file_order_is_total();
    lemma_sorted_unique(picked(o1, v1), picked(o2, v2), file_order());
    assert(videos_of(dir, one) =~= paths_in(dir, picked(o1, v1)));
    assert(videos_of(dir, other) =~= paths_in(dir, picked(o2, v2)));
}

/// Two listings that describe the same tree give the same walk: the order
/// in which the entries of a directory were listed has no part in it.
pub proof fn lemma_walk_ignores_listing_order(path: Seq<char>, a: DirListing, b: DirListing)
    requires
        same_tree(a, b),
    ensures
        walk(path, a) == walk(path, b),
    decreases a, 1nat, 0nat,
{
    if a.readable {
        let (oa, ob) = (visiting_order(dir_keys(a.dirs@)), visiting_order(dir_keys(b.dirs@)));
        assert(a.files.len() == a.files@.len() && b.files.len() == b.files@.len());
        assert(a.dirs.len() == a.dirs@.len() && b.dirs.len() == b.dirs@.len());
        lemma_videos_of_ignores_listing_order(path, names_of(a.files@), names_of(b.files@));
        lemma_visiting_order(dir_keys(a.dirs@));
        lemma_visiting_order(dir_keys(b.dirs@));
        lemma_picked_rearranges(oa, dir_names(a));
        lemma_picked_rearranges(ob, dir_names(b));
        lemma_dirs_are_sorted(a);
        lemma_dirs_are_sorted(b);
        lemma_name_order_is_total();
        lemma_sorted_unique(picked(oa, dir_names(a)), picked(ob, dir_names(b)), name_order());
        assert(oa.len() == ob.len()) by {
            assert(picked(oa, dir_names(a)).len() == picked(ob, dir_names(b)).len());
        }
        assert forall|k: int| 0 <= k < oa.len() implies (#[trigger] a.dirs@[oa[k] as int]).name@
            == b.dirs@[ob[k] as int].name@ by {
            assert(picked(oa, dir_names(a))[k] == picked(ob, dir_names(b))[k]);
        }
        lemma_walk_below_ignores_listing_order(path, a, b, oa, ob, 0);
    }
}

/// Where two listings describe the same tree and their subdirectories are
/// taken in orders that agree name by name, the same is found below them.
pub proof fn lemma_walk_below_ignores_listing_order(
    path: Seq<char>,
    a: DirListing,
    b: DirListing,
    oa: Seq<usize>,
    ob: Seq<usize>,
    from: nat,
)
    requires
        same_tree(a, b),
        a.readable,
        oa.len() == ob.len(),
        forall|k: int| 0 <= k < oa.len() ==> (#[trigger] oa[k]) < a.dirs@.len(),
        forall|k: int| 0 <= k < ob.len() ==> (#[trigger] ob[k]) < b.dirs@.len(),
        forall|k: int|
            0 <= k < oa.len() ==> (#[trigger] a.dirs@[oa[k] as int]).name@
                == b.dirs@[ob[k] as int].name@,
    ensures
        walk_below(path, a, oa, from) == walk_below(path, b, ob, from),
    decreases a, 0nat, oa.len() - from,
{
    if from < oa.len() {
        let sa = a.dirs@[oa[from as int] as int];
        let sb = b.dirs@[ob[from as int] as int];
        assert(sa.name@ == sb.name@);
        lemma_walk_ignores_listing_order(join(path, sa.name@), sa.listing, sb.listing);
        lemma_walk_below_ignores_listing_order(path, a, b, oa, ob, from + 1);
    }
}

} // verus!
