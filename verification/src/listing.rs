//! What was read of a directory tree, and the videos that a walk through it
//! finds.

use crate::paths::{
    extension_or_empty, is_video_path, join, lemma_join_keeps_extension, lemma_join_lies_under,
    lemma_lies_under_transitive, lies_under,
};
use crate::sorting::{lemma_visiting_order, visiting_order};
use vstd::prelude::*;

verus! {

/// The entries of one directory, as they were listed.
#[derive(Debug)]
pub struct DirListing {
    /// False where the directory could not be listed; `files` and `dirs`
    /// then count for nothing.
    pub readable: bool,
    /// The names of the entries that are not directories, in any order.
    pub files: Vec<String>,
    /// The entries that are directories, in any order.
    pub dirs: Vec<SubDir>,
}

/// A directory inside a listed directory.
#[derive(Debug)]
pub struct SubDir {
    /// The directory's name, without the path that leads to it.
    pub name: String,
    /// What the directory holds.
    pub listing: DirListing,
}

/// The names in `files` as character sequences.
pub open spec fn names_of(files: Seq<String>) -> Seq<Seq<char>> {
    files.map_values(|f: String| f@)
}

/// The keys by which the files of one directory are ordered: by extension,
/// then by name.
pub open spec fn file_keys(names: Seq<Seq<char>>) -> Seq<(Seq<char>, Seq<char>)> {
    names.map_values(|n: Seq<char>| (extension_or_empty(n), n))
}

/// The keys by which the subdirectories of one directory are ordered: by
/// name.
pub open spec fn dir_keys(dirs: Seq<SubDir>) -> Seq<(Seq<char>, Seq<char>)> {
    dirs.map_values(|d: SubDir| (Seq::<char>::empty(), d.name@))
}

/// The video files among `names`, in the order in which they were listed.
pub open spec fn video_names(names: Seq<Seq<char>>) -> Seq<Seq<char>> {
    names.filter(|n: Seq<char>| is_video_path(n))
}

/// The paths of the videos that the directory `dir` holds itself, given the
/// names of its files: ordered by extension, then by name.
pub open spec fn videos_of(dir: Seq<char>, names: Seq<Seq<char>>) -> Seq<Seq<char>> {
    let videos = video_names(names);
    visiting_order(file_keys(videos)).map_values(|i: usize| join(dir, videos[i as int]))
}

/// The paths of the videos in the tree that `listing` describes, `path`
/// being the path of its top directory: first the videos of the directory
/// itself, then those of each subdirectory in turn, the subdirectories
/// ordered by name. Where a directory was not readable, the walk fails with
/// the path of the first such directory that it comes to.
pub open spec fn walk(path: Seq<char>, listing: DirListing) -> Result<Seq<Seq<char>>, Seq<char>>
    decreases listing, 1nat, 0nat,
{
    if !listing.readable {
        Err(path)
    } else {
        match walk_below(path, listing, visiting_order(dir_keys(listing.dirs@)), 0) {
            Ok(below) => Ok(videos_of(path, names_of(listing.files@)) + below),
            Err(failed) => Err(failed),
        }
    }
}

/// The videos below the subdirectories `order[from..]` of `listing`, taken
/// in that order. A position that the listing does not have is passed over.
pub open spec fn walk_below(
    path: Seq<char>,
    listing: DirListing,
    order: Seq<usize>,
    from: nat,
) -> Result<Seq<Seq<char>>, Seq<char>>
    decreases listing, 0nat, order.len() - from,
{
    if from >= order.len() {
        Ok(Seq::empty())
    } else if order[from as int] >= listing.dirs@.len() {
        walk_below(path, listing, order, from + 1)
    } else {
        let sub = listing.dirs@[order[from as int] as int];
        match walk(join(path, sub.name@), sub.listing) {
            Err(failed) => Err(failed),
            Ok(first) => match walk_below(path, listing, order, from + 1) {
                Ok(rest) => Ok(first + rest),
                Err(failed) => Err(failed),
            },
        }
    }
}

/// The names of two lists put together are the names of each, put together.
pub proof fn lemma_names_of_add(a: Seq<String>, b: Seq<String>)
    ensures
        names_of(a + b) == names_of(a) + names_of(b),
{
    assert(names_of(a + b) =~= names_of(a) + names_of(b));
}

/// The video files of a longer list are those of its beginning, and its
/// last name where that is a video file.
pub proof fn lemma_video_names_push(names: Seq<Seq<char>>, last: Seq<char>)
    ensures
        video_names(names.push(last)) == if is_video_path(last) {
            video_names(names).push(last)
        } else {
            video_names(names)
        },
{
    reveal(Seq::filter);
    assert(names.push(last).drop_last() =~= names);
}

/// Whether every path in `found` names a video file and lies under `root`.
pub open spec fn all_videos_under(root: Seq<char>, found: Seq<Seq<char>>) -> bool {
    forall|k: int|
        0 <= k < found.len() ==> is_video_path(#[trigger] found[k]) && lies_under(root, found[k])
}

/// The videos that a directory holds itself are video files under it, one
/// for each video file among its names.
pub proof fn lemma_videos_of(dir: Seq<char>, names: Seq<Seq<char>>)
    ensures
        videos_of(dir, names).len() == video_names(names).len(),
        all_videos_under(dir, videos_of(dir, names)),
{
    let videos = video_names(names);
    let found = videos_of(dir, names);
    lemma_visiting_order(file_keys(videos));
    assert forall|k: int| 0 <= k < found.len() implies is_video_path(#[trigger] found[k])
        && lies_under(dir, found[k]) by {
        let i = visiting_order(file_keys(videos))[k] as int;
        names.lemma_filter_pred(|n: Seq<char>| is_video_path(n), i);
        lemma_join_keeps_extension(dir, videos[i]);
        lemma_join_lies_under(dir, videos[i]);
    }
}

/// Whatever a walk finds names a video file and lies under the path that the
/// walk began at.
pub proof fn lemma_walk_finds_videos(path: Seq<char>, listing: DirListing)
    requires
        walk(path, listing) is Ok,
    ensures
        all_videos_under(path, walk(path, listing)->Ok_0),
    decreases listing, 1nat, 0nat,
{
    let order = visiting_order(dir_keys(listing.dirs@));
    lemma_videos_of(path, names_of(listing.files@));
    lemma_walk_below_finds_videos(path, listing, order, 0);
}

/// Whatever is found below the subdirectories of a directory names a video
/// file and lies under the directory.
pub proof fn lemma_walk_below_finds_videos(
    path: Seq<char>,
    listing: DirListing,
    order: Seq<usize>,
    from: nat,
)
    requires
        walk_below(path, listing, order, from) is Ok,
    ensures
        all_videos_under(path, walk_below(path, listing, order, from)->Ok_0),
    decreases listing, 0nat, order.len() - from,
{
    if from >= order.len() {
    } else if order[from as int] >= listing.dirs@.len() {
        lemma_walk_below_finds_videos(path, listing, order, from + 1);
    } else {
        let sub = listing.dirs@[order[from as int] as int];
        let below = join(path, sub.name@);
        lemma_walk_finds_videos(below, sub.listing);
        lemma_walk_below_finds_videos(path, listing, order, from + 1);
        lemma_join_lies_under(path, sub.name@);
        let first = walk(below, sub.listing)->Ok_0;
        let rest = walk_below(path, listing, order, from + 1)->Ok_0;
        let found = walk_below(path, listing, order, from)->Ok_0;
        assert(found == first + rest);
        assert forall|k: int| 0 <= k < found.len() implies is_video_path(#[trigger] found[k])
            && lies_under(path, found[k]) by {
            if k < first.len() {
                assert(found[k] == first[k]);
                lemma_lies_under_transitive(path, below, first[k]);
            } else {
                assert(found[k] == rest[k - first.len()]);
            }
        }
    }
}

} // verus!
