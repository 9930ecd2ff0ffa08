//! Paths as character sequences: file extensions, the recognised video
//! formats, joining a directory with a name, and what it means for a path to
//! lie under a root.

use crate::text::chars_of;
use vstd::prelude::*;
use vstd::string::*;

verus! {

/// The position of the last `c` in `s`, or -1 where `s` holds none.
pub open spec fn last_index_of(s: Seq<char>, c: char) -> int
    decreases s.len(),
{
    if s.len() == 0 {
        -1
    } else if s.last() == c {
        s.len() - 1
    } else {
        last_index_of(s.drop_last(), c)
    }
}

/// The extension of the file that `path` names: what follows the last `.` of
/// the file name, the file name being what follows the last `/`. A file name
/// without a dot has no extension, and neither has one whose only dot is its
/// first character (a hidden file such as `.mp4`).
pub open spec fn extension(path: Seq<char>) -> Option<Seq<char>> {
    let dot = last_index_of(path, '.');
    let slash = last_index_of(path, '/');
    if dot > slash + 1 {
        Some(path.skip(dot + 1))
    } else {
        None
    }
}

/// The extension of `path`, or the empty sequence where it has none.
pub open spec fn extension_or_empty(path: Seq<char>) -> Seq<char> {
    match extension(path) {
        Some(ext) => ext,
        None => Seq::empty(),
    }
}

/// The extensions of the files that count as videos. Matching is exact:
/// `MP4` is not among them.
pub open spec fn video_extensions() -> Seq<Seq<char>> {
    seq![
        "mp4"@,
        "av1"@,
        "avi"@,
        "flv"@,
        "heic"@,
        "mkv"@,
        "mov"@,
        "mpg"@,
        "mpeg"@,
        "m4v"@,
        "webm"@,
        "wmv"@,
        "3gp"@,
    ]
}

/// Whether `path` names a video file: it has an extension, and the extension
/// is one of `video_extensions`.
pub open spec fn is_video_path(path: Seq<char>) -> bool {
    match extension(path) {
        Some(ext) => video_extensions().contains(ext),
        None => false,
    }
}

/// Whether a separator has to be written between `dir` and a name put
/// behind it.
pub open spec fn needs_separator(dir: Seq<char>) -> bool {
    dir.len() > 0 && dir.last() != '/'
}

/// The path of the entry `name` of the directory `dir`. An empty `dir` is
/// the current directory, and a `dir` that ends in `/` gets no second
/// separator.
pub open spec fn join(dir: Seq<char>, name: Seq<char>) -> Seq<char> {
    if needs_separator(dir) {
        dir.push('/') + name
    } else {
        dir + name
    }
}

/// Whether `path` is `root` itself or continues it at a component boundary.
pub open spec fn lies_under(root: Seq<char>, path: Seq<char>) -> bool {
    &&& root.is_prefix_of(path)
    &&& (path.len() == root.len() || !needs_separator(root) || path[root.len() as int] == '/')
}

/// What `last_index_of` returns is -1 or a position that holds `c`, and no
/// `c` stands behind it.
pub proof fn lemma_last_index_of(s: Seq<char>, c: char)
    ensures
        -1 <= last_index_of(s, c) < s.len(),
        last_index_of(s, c) >= 0 ==> s[last_index_of(s, c)] == c,
        forall|i: int| last_index_of(s, c) < i < s.len() ==> s[i] != c,
    decreases s.len(),
{
    if s.len() > 0 && s.last() != c {
        lemma_last_index_of(s.drop_last(), c);
        assert forall|i: int| last_index_of(s, c) < i < s.len() implies s[i] != c by {
            if i < s.len() - 1 {
                assert(s.drop_last()[i] == s[i]);
            }
        }
    }
}

/// The position `i` is the last `c` of `s` where it holds `c` and none
/// follows.
pub proof fn lemma_last_index_of_is(s: Seq<char>, c: char, i: int)
    requires
        0 <= i < s.len(),
        s[i] == c,
        forall|j: int| i < j < s.len() ==> s[j] != c,
    ensures
        last_index_of(s, c) == i,
    decreases s.len(),
{
    if s.last() != c {
        let t = s.drop_last();
        assert(i < s.len() - 1);
        assert(t[i] == s[i]);
        assert forall|j: int| i < j < t.len() implies t[j] != c by {
            assert(t[j] == s[j]);
        }
        lemma_last_index_of_is(t, c, i);
    }
}

/// A sequence without `c` has no last `c`.
pub proof fn lemma_last_index_of_none(s: Seq<char>, c: char)
    requires
        forall|j: int| 0 <= j < s.len() ==> s[j] != c,
    ensures
        last_index_of(s, c) == -1,
    decreases s.len(),
{
    if s.len() > 0 {
        let t = s.drop_last();
        assert forall|j: int| 0 <= j < t.len() implies t[j] != c by {
            assert(t[j] == s[j]);
        }
        lemma_last_index_of_none(t, c);
    }
}

/// An extension holds neither `.` nor `/`.
pub proof fn lemma_extension_is_plain(path: Seq<char>)
    requires
        extension(path) is Some,
    ensures
        forall|i: int|
            0 <= i < extension(path)->0.len() ==> {
                &&& (#[trigger] extension(path)->0[i]) != '.'
                &&& extension(path)->0[i] != '/'
            },
{
    lemma_last_index_of(path, '.');
    lemma_last_index_of(path, '/');
}

/// The last `c` of `a + b` is the last `c` of `b` where `b` holds one, and
/// else the last `c` of `a`.
pub proof fn lemma_last_index_of_concat(a: Seq<char>, b: Seq<char>, c: char)
    ensures
        last_index_of(a + b, c) == if last_index_of(b, c) >= 0 {
            a.len() + last_index_of(b, c)
        } else {
            last_index_of(a, c)
        },
    decreases b.len(),
{
    if b.len() == 0 {
        assert(a + b =~= a);
    } else {
        assert((a + b).drop_last() =~= a + b.drop_last());
        assert((a + b).last() == b.last());
        lemma_last_index_of(b.drop_last(), c);
        lemma_last_index_of_concat(a, b.drop_last(), c);
    }
}

/// A file has the same extension under whatever directory it stands.
pub proof fn lemma_join_keeps_extension(dir: Seq<char>, name: Seq<char>)
    ensures
        extension(join(dir, name)) == extension(name),
{
    let head = if needs_separator(dir) {
        dir.push('/')
    } else {
        dir
    };
    assert(join(dir, name) == head + name);
    lemma_last_index_of_concat(head, name, '.');
    lemma_last_index_of_concat(head, name, '/');
    lemma_last_index_of(head, '.');
    lemma_last_index_of(head, '/');
    lemma_last_index_of(name, '.');
    lemma_last_index_of(name, '/');
    if head.len() > 0 {
        assert(head.last() == '/');
        lemma_last_index_of_is(head, '/', head.len() - 1);
    }
    let dot = last_index_of(name, '.');
    if extension(name) is Some {
        assert((head + name).skip(head.len() + dot + 1) =~= name.skip(dot + 1));
    }
}

/// The entries of a directory lie under it.
pub proof fn lemma_join_lies_under(dir: Seq<char>, name: Seq<char>)
    ensures
        lies_under(dir, join(dir, name)),
{
    let path = join(dir, name);
    assert(dir =~= path.subrange(0, dir.len() as int));
}

/// What lies under a path lies under everything that the path lies under.
pub proof fn lemma_lies_under_transitive(a: Seq<char>, b: Seq<char>, c: Seq<char>)
    requires
        lies_under(a, b),
        lies_under(b, c),
    ensures
        lies_under(a, c),
{
    assert(a =~= b.subrange(0, a.len() as int));
    assert(b =~= c.subrange(0, b.len() as int));
    assert(a =~= c.subrange(0, a.len() as int));
    if b.len() == a.len() {
        assert(a =~= b);
    } else if c.len() > a.len() {
        assert(c[a.len() as int] == b[a.len() as int]);
    }
}

/// The position of the last `c` among the characters, if there is one.
fn last_index(chars: &Vec<char>, c: char) -> (r: Option<usize>)
    ensures
        match r {
            Some(i) => i < chars.len() && last_index_of(chars@, c) == i,
            None => last_index_of(chars@, c) == -1,
        },
{
    let mut i: usize = chars.len();
    while i > 0
        invariant
            i <= chars.len(),
            forall|j: int| i <= j < chars.len() ==> chars@[j] != c,
        decreases i,
    {
        i -= 1;
        if chars[i] == c {
            proof {
                lemma_last_index_of_is(chars@, c, i as int);
            }
            return Some(i);
        }
    }
    proof {
        lemma_last_index_of_none(chars@, c);
    }
    None
}

/// The extension of the file that `path` names, if it has one.
pub fn extension_of(path: &str) -> (r: Option<String>)
    ensures
        match r {
            Some(ext) => extension(path@) == Some(ext@),
            None => extension(path@) is None,
        },
{
    let chars = chars_of(path);
    let first: usize = match last_index(&chars, '/') {
        Some(slash) => slash + 1,
        None => 0,
    };
    match last_index(&chars, '.') {
        Some(dot) => {
            if dot > first {
                let ext = path.substring_char(dot + 1, chars.len());
                assert(ext@ =~= path@.skip(dot + 1));
                Some(String::from_str(ext))
            } else {
                None
            }
        },
        None => None,
    }
}

/// The extensions of the files that count as videos.
pub fn known_extensions() -> (known: Vec<String>)
    ensures
        known.deep_view() == video_extensions(),
{
    let mut known: Vec<String> = Vec::new();
    known.push(String::from_str("mp4"));
    known.push(String::from_str("av1"));
    known.push(String::from_str("avi"));
    known.push(String::from_str("flv"));
    known.push(String::from_str("heic"));
    known.push(String::from_str("mkv"));
    known.push(String::from_str("mov"));
    known.push(String::from_str("mpg"));
    known.push(String::from_str("mpeg"));
    known.push(String::from_str("m4v"));
    known.push(String::from_str("webm"));
    known.push(String::from_str("wmv"));
    known.push(String::from_str("3gp"));
    assert(known.deep_view() =~= video_extensions());
    known
}

/// Whether `ext` is one of the extensions in `known`.
pub(crate) fn is_listed(known: &Vec<String>, ext: &String) -> (r: bool)
    ensures
        r == known.deep_view().contains(ext@),
{
    let mut i: usize = 0;
    while i < known.len()
        invariant
            i <= known.len(),
            forall|j: int| 0 <= j < i ==> known.deep_view()[j] != ext@,
        decreases known.len() - i,
    {
        if known[i] == *ext {
            assert(known.deep_view()[i as int] == ext@);
            return true;
        }
        i += 1;
    }
    false
}

/// The path of the entry `name` of the directory `dir`.
pub fn join_path(dir: &str, name: &str) -> (r: String)
    ensures
        r@ == join(dir@, name@),
{
    let n: usize = dir.unicode_len();
    let mut r = String::from_str(dir);
    if n > 0 && dir.get_char(n - 1) != '/' {
        proof {
            reveal_strlit("/");
        }
        r.append("/");
        assert(r@ =~= dir@.push('/'));
    }
    r.append(name);
    r
}

} // verus!
