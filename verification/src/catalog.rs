//! The catalog: the videos found under one root directory, each under an
//! identifier made of its sequence number and its extension.

use crate::identifiers::{
    content_type, content_type_of, identifier, lemma_identifier_keeps_extension,
    lemma_identifiers_differ, lemma_sequence_number, make_identifier, sequence_number,
};
use crate::listing::{
    dir_keys, file_keys, lemma_names_of_add, lemma_video_names_push, lemma_walk_finds_videos,
    names_of, video_names, videos_of, walk, walk_below, DirListing, SubDir,
};
use crate::paths::{
    extension, extension_of, extension_or_empty, is_listed, is_video_path, join, join_path,
    known_extensions, lemma_lies_under_transitive, lies_under, video_extensions,
};
use crate::sorting::{key_views, sort_positions, visiting_order, SortKey};
use crate::text::{chars_of, decimal, decimal_string};
use vstd::prelude::*;
use vstd::string::*;

verus! {

/// What a catalog operation can fail with.
#[derive(Debug, Clone, PartialEq, Eq)]
pub enum CatalogError {
    /// No video has the identifier that was asked for.
    NotFound,
    /// The directory with this path could not be listed.
    Io(String),
}

/// One video of the catalog.
#[derive(Debug, Clone, PartialEq, Eq)]
pub struct VideoEntry {
    /// The identifier under which the video is served.
    pub id: String,
    /// The path of the video file.
    pub path: String,
}

/// Where the videos are, and where they are served.
#[derive(Debug, Clone)]
pub struct VideoPlayerConfig {
    /// The directory that is searched for videos.
    pub assets_root: String,
    /// The port to listen on.
    pub port: u16,
    /// The address to listen on.
    pub host: String,
}

impl Default for VideoPlayerConfig {
    /// The directory `assets`, served on port 9092 of every address.
    fn default() -> (config: Self)
        ensures
            config.assets_root@ == "assets"@,
            config.port == 9092,
            config.host@ == "0.0.0.0"@,
    {
        VideoPlayerConfig {
            assets_root: String::from_str("assets"),
            port: 9092,
            host: String::from_str("0.0.0.0"),
        }
    }
}

impl VideoPlayerConfig {
    /// The address to listen on, as host and port with a colon between.
    pub fn address(&self) -> (r: String)
        ensures
            r@ == self.host@.push(':') + decimal(self.port as nat),
    {
        let mut r = self.host.clone();
        proof {
            reveal_strlit(":");
        }
        r.append(":");
        r.append(decimal_string(self.port as usize).as_str());
        assert(r@ =~= self.host@.push(':') + decimal(self.port as nat));
        r
    }
}

/// The catalog of the videos under one root directory.
pub struct VideoPlayerState {
    videos: Vec<VideoEntry>,
    video_extensions: Vec<String>,
    next_index: usize,
    root: Option<String>,
}

impl View for VideoPlayerState {
    type V = Seq<Seq<char>>;

    /// The source paths of the videos, in the order of their sequence
    /// numbers.
    closed spec fn view(&self) -> Seq<Seq<char>> {
        self.videos@.map_values(|e: VideoEntry| e.path@)
    }
}

impl VideoPlayerState {
    /// The root directory that the catalog was built for, if it has one.
    pub closed spec fn root_path(&self) -> Option<Seq<char>> {
        match self.root {
            Some(r) => Some(r@),
            None => None,
        }
    }

    /// The invariant of the catalog: the `n`-th entry carries the identifier
    /// `identifier(n, path)` of its path, every path names a video file and,
    /// where the catalog has a root, lies under it.
    pub closed spec fn wf(&self) -> bool {
        &&& self.video_extensions.deep_view() == video_extensions()
        &&& self.next_index == self.videos@.len()
        &&& forall|i: int|
            0 <= i < self.videos@.len() ==> (#[trigger] self.videos@[i]).id@ == identifier(
                i as nat,
                self.videos@[i].path@,
            )
        &&& forall|i: int| 0 <= i < self@.len() ==> is_video_path(#[trigger] self@[i])
        &&& self.root_path() matches Some(r) ==> forall|i: int|
            0 <= i < self@.len() ==> lies_under(r, #[trigger] self@[i])
    }

    /// Whether the video with sequence number `i` is the one that is served
    /// under `id`.
    pub open spec fn serves(&self, i: int, id: Seq<char>) -> bool {
        0 <= i < self@.len() && identifier(i as nat, self@[i]) == id
    }

    /// Every video of a catalog has a recognised extension and, where the
    /// catalog has a root, lies under it.
    pub proof fn lemma_videos_under_root(&self)
        requires
            self.wf(),
        ensures
            forall|i: int| 0 <= i < self@.len() ==> is_video_path(#[trigger] self@[i]),
            self.root_path() matches Some(r) ==> forall|i: int|
                0 <= i < self@.len() ==> lies_under(r, #[trigger] self@[i]),
    {
    }

    /// The identifiers of a catalog carry the sequence numbers 0, 1, 2 and
    /// so on in the order of the entries, and no two of them are equal.
    pub proof fn lemma_identifiers_count_up(&self)
        requires
            self.wf(),
        ensures
            forall|i: int|
                0 <= i < self@.len() ==> sequence_number(
                    #[trigger] identifier(i as nat, self@[i]),
                ) == i,
            forall|i: int, j: int|
                0 <= i < self@.len() && 0 <= j < self@.len() && i != j ==> identifier(
                    i as nat,
                    self@[i],
                ) != identifier(j as nat, self@[j]),
    {
        assert forall|i: int| 0 <= i < self@.len() implies sequence_number(
            #[trigger] identifier(i as nat, self@[i]),
        ) == i by {
            lemma_sequence_number(i as nat, self@[i]);
        }
        assert forall|i: int, j: int|
            0 <= i < self@.len() && 0 <= j < self@.len() && i != j implies identifier(
            i as nat,
            self@[i],
        ) != identifier(j as nat, self@[j]) by {
            lemma_identifiers_differ(i as nat, self@[i], j as nat, self@[j]);
        }
    }

    /// An identifier serves one video at most.
    pub proof fn lemma_serves_one(&self, i: int, j: int, id: Seq<char>)
        requires
            self.serves(i, id),
            self.serves(j, id),
        ensures
            i == j,
    {
        if i != j {
            lemma_identifiers_differ(i as nat, self@[i], j as nat, self@[j]);
        }
    }

    /// An empty catalog without a root.
    pub fn new() -> (state: Self)
        ensures
            state.wf(),
            state@ == Seq::<Seq<char>>::empty(),
            state.root_path() is None,
    {
        let state = VideoPlayerState {
            videos: Vec::new(),
            video_extensions: known_extensions(),
            next_index: 0,
            root: None,
        };
        assert(state@ =~= Seq::<Seq<char>>::empty());
        state
    }

    /// Moves on to the next sequence number.
    fn advance_index(&mut self)
        requires
            old(self).next_index < usize::MAX,
        ensures
            final(self).next_index == old(self).next_index + 1,
            final(self).videos == old(self).videos,
            final(self).video_extensions == old(self).video_extensions,
            final(self).root == old(self).root,
    {
        self.next_index = self.next_index + 1;
    }

    /// Whether `path` names a video file.
    pub fn is_video_file(&self, path: &str) -> (r: bool)
        requires
            self.wf(),
        ensures
            r == is_video_path(path@),
    {
        match extension_of(path) {
            Some(ext) => is_listed(&self.video_extensions, &ext),
            None => false,
        }
    }

    /// Adds the video file `path` to the catalog, under the next sequence
    /// number.
    pub fn load_video(&mut self, path: String)
        requires
            old(self).wf(),
            is_video_path(path@),
            old(self).root_path() matches Some(r) ==> lies_under(r, path@),
        ensures
            final(self).wf(),
            final(self)@ == old(self)@.push(path@),
            final(self).root_path() == old(self).root_path(),
    {
        let id = make_identifier(self.next_index, path.as_str());
        self.videos.push(VideoEntry { id, path });
        assert(self.videos.len() == self.next_index + 1);
        self.advance_index();
        assert(self@ =~= old(self)@.push(path@));
    }

    /// The paths of the videos among the files of the directory `dir`, in
    /// the order in which they are visited.
    fn videos_in(&self, dir: &str, files: &Vec<String>) -> (found: Vec<String>)
        requires
            self.wf(),
        ensures
            names_of(found@) == videos_of(dir@, names_of(files@)),
    {
        let ghost names = names_of(files@);
        let ghost mut picked = Seq::<Seq<char>>::empty();
        let mut paths: Vec<String> = Vec::new();
        let mut keys: Vec<SortKey> = Vec::new();
        let mut i: usize = 0;
        proof {
            assert(names.take(0) =~= Seq::<Seq<char>>::empty());
            reveal(Seq::filter);
            assert(video_names(names.take(0)) =~= picked);
        }
        while i < files.len()
            invariant
                self.wf(),
                i <= files@.len(),
                names == names_of(files@),
                picked == video_names(names.take(i as int)),
                keys@.len() == picked.len(),
                paths@.len() == picked.len(),
                forall|j: int|
                    0 <= j < picked.len() ==> (#[trigger] keys@[j])@ == (
                        extension_or_empty(picked[j]),
                        picked[j],
                    ),
                forall|j: int|
                    0 <= j < picked.len() ==> (#[trigger] paths@[j])@ == join(dir@, picked[j]),
            decreases files@.len() - i,
        {
            proof {
                lemma_video_names_push(names.take(i as int), names[i as int]);
                assert(names.take(i + 1) =~= names.take(i as int).push(names[i as int]));
            }
            match extension_of(files[i].as_str()) {
                Some(ext) => {
                    if is_listed(&self.video_extensions, &ext) {
                        keys.push(
                            SortKey {
                                major: chars_of(ext.as_str()),
                                minor: chars_of(files[i].as_str()),
                            },
                        );
                        paths.push(join_path(dir, files[i].as_str()));
                        proof {
                            picked = picked.push(names[i as int]);
                        }
                    }
                },
                None => {},
            }
            i += 1;
        }
        assert(names.take(i as int) =~= names);
        assert(key_views(keys@) =~= file_keys(picked));
        let order = sort_positions(&keys);
        let mut found: Vec<String> = Vec::new();
        let mut k: usize = 0;
        while k < order.len()
            invariant
                k <= order@.len(),
                found@.len() == k,
                paths@.len() == picked.len(),
                forall|j: int| 0 <= j < order@.len() ==> (#[trigger] order@[j]) < paths@.len(),
                forall|j: int|
                    0 <= j < picked.len() ==> (#[trigger] paths@[j])@ == join(dir@, picked[j]),
                forall|j: int|
                    0 <= j < k ==> (#[trigger] found@[j])@ == join(
                        dir@,
                        picked[order@[j] as int],
                    ),
            decreases order@.len() - k,
        {
            found.push(paths[order[k]].clone());
            k += 1;
        }
        assert(names_of(found@) =~= videos_of(dir@, names));
        found
    }

    /// The keys by which the subdirectories `dirs` are ordered.
    fn keys_of_dirs(dirs: &Vec<SubDir>) -> (keys: Vec<SortKey>)
        ensures
            key_views(keys@) == dir_keys(dirs@),
    {
        let mut keys: Vec<SortKey> = Vec::new();
        let mut i: usize = 0;
        while i < dirs.len()
            invariant
                i <= dirs@.len(),
                keys@.len() == i,
                forall|j: int|
                    0 <= j < i ==> (#[trigger] keys@[j])@ == (
                        Seq::<char>::empty(),
                        dirs@[j].name@,
                    ),
            decreases dirs@.len() - i,
        {
            keys.push(SortKey { major: Vec::new(), minor: chars_of(dirs[i].name.as_str()) });
            i += 1;
        }
        assert(key_views(keys@) =~= dir_keys(dirs@));
        keys
    }

    /// Walks through the tree that `listing` describes, `root` being the
    /// path of its top directory, and returns the paths of the videos in it.
    /// Fails with the path of the first directory that was not readable.
    pub fn visit_dirs(&self, root: &str, listing: &DirListing) -> (r: Result<
        Vec<String>,
        CatalogError,
    >)
        requires
            self.wf(),
        ensures
            match walk(root@, *listing) {
                Ok(found) => r matches Ok(paths) && names_of(paths@) == found,
                Err(failed) => r matches Err(CatalogError::Io(path)) && path@ == failed,
            },
        decreases listing,
    {
        if !listing.readable {
            return Err(CatalogError::Io(String::from_str(root)));
        }
        let mut found = self.videos_in(root, &listing.files);
        let keys = Self::keys_of_dirs(&listing.dirs);
        let order = sort_positions(&keys);
        let ghost here = names_of(found@);
        let ghost mut below = Seq::<Seq<char>>::empty();
        let mut k: usize = 0;
        assert(here + below =~= here);
        while k < order.len()
            invariant
                self.wf(),
                k <= order@.len(),
                listing.readable,
                order@ == visiting_order(dir_keys(listing.dirs@)),
                forall|j: int|
                    0 <= j < order@.len() ==> (#[trigger] order@[j]) < listing.dirs@.len(),
                here == videos_of(root@, names_of(listing.files@)),
                names_of(found@) == here + below,
                match walk_below(root@, *listing, order@, k as nat) {
                    Ok(rest) => walk_below(root@, *listing, order@, 0) matches Ok(all) && all
                        == below + rest,
                    Err(failed) => walk_below(root@, *listing, order@, 0) == Err::<
                        Seq<Seq<char>>,
                        Seq<char>,
                    >(failed),
                },
            decreases order@.len() - k,
        {
            let sub = &listing.dirs[order[k]];
            let path = join_path(root, sub.name.as_str());
            match self.visit_dirs(path.as_str(), &sub.listing) {
                Err(e) => {
                    return Err(e);
                },
                Ok(mut deeper) => {
                    proof {
                        let first = names_of(deeper@);
                        match walk_below(root@, *listing, order@, (k + 1) as nat) {
                            Ok(rest) => {
                                assert(below + (first + rest) =~= (below + first) + rest);
                            },
                            Err(_) => {},
                        }
                        lemma_names_of_add(found@, deeper@);
                        assert((here + below) + first =~= here + (below + first));
                        below = below + first;
                    }
                    found.append(&mut deeper);
                },
            }
            k += 1;
        }
        Ok(found)
    }

    /// Adds the video files `paths` to the catalog, in their order.
    fn load_all(&mut self, paths: Vec<String>)
        requires
            old(self).wf(),
            forall|k: int| 0 <= k < paths@.len() ==> is_video_path(#[trigger] paths@[k]@),
            old(self).root_path() matches Some(r) ==> forall|k: int|
                0 <= k < paths@.len() ==> lies_under(r, #[trigger] paths@[k]@),
        ensures
            final(self).wf(),
            final(self)@ == old(self)@ + names_of(paths@),
            final(self).root_path() == old(self).root_path(),
    {
        let mut k: usize = 0;
        assert(self@ =~= old(self)@ + names_of(paths@.take(0)));
        while k < paths.len()
            invariant
                k <= paths@.len(),
                self.wf(),
                self.root_path() == old(self).root_path(),
                self@ == old(self)@ + names_of(paths@.take(k as int)),
                forall|j: int| 0 <= j < paths@.len() ==> is_video_path(#[trigger] paths@[j]@),
                self.root_path() matches Some(r) ==> forall|j: int|
                    0 <= j < paths@.len() ==> lies_under(r, #[trigger] paths@[j]@),
            decreases paths@.len() - k,
        {
            self.load_video(paths[k].clone());
            assert(self@ =~= old(self)@ + names_of(paths@.take(k + 1)));
            k += 1;
        }
        assert(paths@.take(k as int) =~= paths@);
    }

    /// Adds the videos of the tree that `listing` describes to the catalog,
    /// `root` being the path of its top directory. Where a directory of the
    /// tree was not readable, the catalog stays as it was.
    pub fn load_videos(&mut self, root: &str, listing: &DirListing) -> (r: Result<
        (),
        CatalogError,
    >)
        requires
            old(self).wf(),
            old(self).root_path() matches Some(r) ==> lies_under(r, root@),
        ensures
            final(self).wf(),
            final(self).root_path() == old(self).root_path(),
            match walk(root@, *listing) {
                Ok(found) => r is Ok && final(self)@ == old(self)@ + found,
                Err(failed) => r matches Err(CatalogError::Io(path)) && path@ == failed
                    && *final(self) == *old(self),
            },
    {
        match self.visit_dirs(root, listing) {
            Ok(found) => {
                proof {
                    lemma_walk_finds_videos(root@, *listing);
                    let paths = names_of(found@);
                    assert forall|k: int| 0 <= k < found@.len() implies is_video_path(
                        #[trigger] found@[k]@,
                    ) by {
                        assert(paths[k] == found@[k]@);
                    }
                    if let Some(r) = self.root_path() {
                        assert forall|k: int| 0 <= k < found@.len() implies lies_under(
                            r,
                            #[trigger] found@[k]@,
                        ) by {
                            assert(paths[k] == found@[k]@);
                            lemma_lies_under_transitive(r, root@, paths[k]);
                        }
                    }
                }
                self.load_all(found);
                Ok(())
            },
            Err(e) => Err(e),
        }
    }

    /// Puts the video files `paths` in the place of the catalog's videos,
    /// numbered from 0 in their order.
    pub fn replace(&mut self, paths: Vec<String>)
        requires
            old(self).wf(),
            forall|k: int| 0 <= k < paths@.len() ==> is_video_path(#[trigger] paths@[k]@),
            old(self).root_path() matches Some(r) ==> forall|k: int|
                0 <= k < paths@.len() ==> lies_under(r, #[trigger] paths@[k]@),
        ensures
            final(self).wf(),
            final(self)@ == names_of(paths@),
            final(self).root_path() == old(self).root_path(),
    {
        let mut fresh = Self::new();
        std::mem::swap(&mut fresh.root, &mut self.root);
        assert(fresh@ =~= Seq::<Seq<char>>::empty());
        fresh.load_all(paths);
        assert(fresh@ =~= names_of(paths@));
        *self = fresh;
    }

    /// A catalog of the videos in the tree that `listing` describes, the
    /// top directory of the tree being the root that `config` names. Fails
    /// with the path of the first directory that was not readable.
    pub fn build(config: &VideoPlayerConfig, listing: &DirListing) -> (r: Result<
        Self,
        CatalogError,
    >)
        ensures
            match walk(config.assets_root@, *listing) {
                Ok(found) => r matches Ok(state) && state.wf() && state@ == found
                    && state.root_path() == Some(config.assets_root@),
                Err(failed) => r matches Err(CatalogError::Io(path)) && path@ == failed,
            },
    {
        let mut state = Self::new();
        state.root = Some(config.assets_root.clone());
        assert(state@ =~= Seq::<Seq<char>>::empty());
        match state.load_videos(config.assets_root.as_str(), listing) {
            Ok(()) => {
                assert(state@ =~= walk(config.assets_root@, *listing)->Ok_0);
                Ok(state)
            },
            Err(e) => Err(e),
        }
    }

    /// Builds the catalog anew from the tree that `listing` describes, its
    /// top directory being the catalog's root. Where a directory of the
    /// tree was not readable, the catalog stays as it was.
    pub fn reload(&mut self, listing: &DirListing) -> (r: Result<(), CatalogError>)
        requires
            old(self).wf(),
            old(self).root_path() is Some,
        ensures
            final(self).wf(),
            final(self).root_path() == old(self).root_path(),
            match walk(old(self).root_path()->0, *listing) {
                Ok(found) => r is Ok && final(self)@ == found,
                Err(failed) => r matches Err(CatalogError::Io(path)) && path@ == failed
                    && *final(self) == *old(self),
            },
    {
        let root = self.root.as_ref().unwrap().clone();
        match self.visit_dirs(root.as_str(), listing) {
            Ok(found) => {
                proof {
                    lemma_walk_finds_videos(root@, *listing);
                    let paths = names_of(found@);
                    assert forall|k: int| 0 <= k < found@.len() implies is_video_path(
                        #[trigger] found@[k]@,
                    ) && lies_under(root@, found@[k]@) by {
                        assert(paths[k] == found@[k]@);
                    }
                }
                self.replace(found);
                Ok(())
            },
            Err(e) => Err(e),
        }
    }

    /// The root directory that the catalog was built for, if it has one.
    pub fn root(&self) -> (r: Option<&String>)
        ensures
            match r {
                Some(path) => self.root_path() == Some(path@),
                None => self.root_path() is None,
            },
    {
        self.root.as_ref()
    }

    /// A copy of the videos of the catalog, in the order of their sequence
    /// numbers.
    pub fn snapshot(&self) -> (entries: Vec<VideoEntry>)
        requires
            self.wf(),
        ensures
            entries@.len() == self@.len(),
            forall|i: int|
                0 <= i < entries@.len() ==> {
                    &&& (#[trigger] entries@[i]).path@ == self@[i]
                    &&& entries@[i].id@ == identifier(i as nat, self@[i])
                },
    {
        let mut entries: Vec<VideoEntry> = Vec::new();
        let mut i: usize = 0;
        while i < self.videos.len()
            invariant
                self.wf(),
                i <= self.videos@.len(),
                entries@.len() == i,
                forall|j: int|
                    0 <= j < i ==> {
                        &&& (#[trigger] entries@[j]).path@ == self@[j]
                        &&& entries@[j].id@ == identifier(j as nat, self@[j])
                    },
            decreases self.videos@.len() - i,
        {
            entries.push(
                VideoEntry { id: self.videos[i].id.clone(), path: self.videos[i].path.clone() },
            );
            i += 1;
        }
        entries
    }

    /// The number of videos in the catalog.
    pub fn len(&self) -> (n: usize)
        ensures
            n == self@.len(),
    {
        self.videos.len()
    }

    /// The videos of the catalog, in the order of their sequence numbers.
    pub fn videos(&self) -> (entries: &Vec<VideoEntry>)
        requires
            self.wf(),
        ensures
            entries@.len() == self@.len(),
            forall|i: int|
                0 <= i < entries@.len() ==> {
                    &&& (#[trigger] entries@[i]).path@ == self@[i]
                    &&& entries@[i].id@ == identifier(i as nat, self@[i])
                },
    {
        &self.videos
    }

    /// The source path of the video that is served under `id`. Fails with
    /// `NotFound` where no video of the catalog has this identifier.
    pub fn lookup(&self, id: &str) -> (r: Result<String, CatalogError>)
        requires
            self.wf(),
        ensures
            match r {
                Ok(path) => exists|i: int| #[trigger] self.serves(i, id@) && path@ == self@[i],
                Err(e) => e is NotFound && forall|i: int| !#[trigger] self.serves(i, id@),
            },
    {
        let wanted = String::from_str(id);
        let mut i: usize = 0;
        while i < self.videos.len()
            invariant
                self.wf(),
                wanted@ == id@,
                i <= self.videos@.len(),
                forall|j: int| j < i ==> !#[trigger] self.serves(j, id@),
            decreases self.videos@.len() - i,
        {
            if self.videos[i].id == wanted {
                let path = self.videos[i].path.clone();
                assert(self.serves(i as int, id@) && path@ == self@[i as int]);
                return Ok(path);
            }
            assert(self@[i as int] == self.videos@[i as int].path@);
            i += 1;
        }
        Err(CatalogError::NotFound)
    }

    /// The source path of the video that is served under `id`, and the
    /// content type to serve it with: `video/` and the extension of the
    /// identifier, which is that of the file. Fails with `NotFound` where no
    /// video of the catalog has this identifier.
    pub fn resolve(&self, id: &str) -> (r: Result<(String, String), CatalogError>)
        requires
            self.wf(),
        ensures
            match r {
                Ok((path, kind)) => {
                    &&& exists|i: int| #[trigger] self.serves(i, id@) && path@ == self@[i]
                    &&& kind@ == content_type(id@)
                    &&& extension(id@) == extension(path@)
                },
                Err(e) => e is NotFound && forall|i: int| !#[trigger] self.serves(i, id@),
            },
    {
        match self.lookup(id) {
            Ok(path) => {
                proof {
                    let i = choose|i: int| #[trigger] self.serves(i, id@) && path@ == self@[i];
                    lemma_identifier_keeps_extension(i as nat, self@[i]);
                }
                Ok((path, content_type_of(id)))
            },
            Err(e) => Err(e),
        }
    }
}

} // verus!
