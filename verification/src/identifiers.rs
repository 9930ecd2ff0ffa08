//! Identifiers: the names under which the videos of a catalog are served.

use crate::paths::{
    extension, extension_of, extension_or_empty, lemma_extension_is_plain,
    lemma_last_index_of_concat, lemma_last_index_of_is, lemma_last_index_of_none,
};
use crate::text::{
    decimal, decimal_string, decimal_value, digit_char, is_digit, lemma_decimal_is_digits,
    lemma_decimal_value,
};
use vstd::prelude::*;
use vstd::string::*;

verus! {

/// The identifier of the video with sequence number `n` and source path
/// `path`: the number in decimal, a dot, and the extension of the path.
pub open spec fn identifier(n: nat, path: Seq<char>) -> Seq<char> {
    decimal(n).push('.') + extension_or_empty(path)
}

/// The content type under which the video with this identifier is served:
/// `video/` and the identifier's extension.
pub open spec fn content_type(identifier: Seq<char>) -> Seq<char> {
    "video/"@ + extension_or_empty(identifier)
}

/// What stands in `s` before its first `c`; all of `s` where it holds none.
pub open spec fn prefix_before(s: Seq<char>, c: char) -> Seq<char>
    decreases s.len(),
{
    if s.len() == 0 || s[0] == c {
        Seq::empty()
    } else {
        seq![s[0]] + prefix_before(s.drop_first(), c)
    }
}

/// The sequence number that an identifier carries: what stands before its
/// first dot, read as a decimal numeral.
pub open spec fn sequence_number(identifier: Seq<char>) -> nat {
    decimal_value(prefix_before(identifier, '.'))
}

/// What stands before the first `c` of `head`, `c` and `tail` is `head`,
/// where `head` holds no `c`.
pub proof fn lemma_prefix_before(head: Seq<char>, c: char, tail: Seq<char>)
    requires
        forall|i: int| 0 <= i < head.len() ==> head[i] != c,
    ensures
        prefix_before(head.push(c) + tail, c) == head,
    decreases head.len(),
{
    let whole = head.push(c) + tail;
    if head.len() == 0 {
        assert(whole[0] == c);
        assert(head =~= Seq::<char>::empty());
    } else {
        assert(whole[0] == head[0]);
        assert(whole.drop_first() =~= head.drop_first().push(c) + tail);
        assert forall|i: int| 0 <= i < head.drop_first().len() implies head.drop_first()[i]
            != c by {
            assert(head.drop_first()[i] == head[i + 1]);
        }
        lemma_prefix_before(head.drop_first(), c, tail);
        assert(head =~= seq![head[0]] + head.drop_first());
    }
}

/// No digit is a dot or a slash.
pub proof fn lemma_digit_is_plain(c: char)
    requires
        is_digit(c),
    ensures
        c != '.',
        c != '/',
{
    let d = choose|d: nat| d < 10 && c == #[trigger] digit_char(d);
    assert(c == digit_char(d));
}

/// An identifier carries the sequence number that it was made from.
pub proof fn lemma_sequence_number(n: nat, path: Seq<char>)
    ensures
        sequence_number(identifier(n, path)) == n,
{
    lemma_decimal_is_digits(n);
    assert forall|i: int| 0 <= i < decimal(n).len() implies decimal(n)[i] != '.' by {
        lemma_digit_is_plain(decimal(n)[i]);
    }
    lemma_prefix_before(decimal(n), '.', extension_or_empty(path));
    lemma_decimal_value(n);
}

/// Videos with different sequence numbers have different identifiers,
/// whatever their paths.
pub proof fn lemma_identifiers_differ(m: nat, p: Seq<char>, n: nat, q: Seq<char>)
    requires
        m != n,
    ensures
        identifier(m, p) != identifier(n, q),
{
    lemma_sequence_number(m, p);
    lemma_sequence_number(n, q);
}

/// The identifier of a file with an extension has that extension.
pub proof fn lemma_identifier_keeps_extension(n: nat, path: Seq<char>)
    requires
        extension(path) is Some,
    ensures
        extension(identifier(n, path)) == extension(path),
{
    let number = decimal(n);
    let ext = extension(path)->0;
    let head = number.push('.');
    lemma_decimal_is_digits(n);
    lemma_extension_is_plain(path);
    assert forall|i: int| 0 <= i < number.len() implies number[i] != '.' && number[i] != '/' by {
        lemma_digit_is_plain(number[i]);
    }
    assert forall|i: int| 0 <= i < ext.len() implies ext[i] != '.' && ext[i] != '/' by {
        assert(extension(path)->0[i] == ext[i]);
    }
    lemma_last_index_of_none(ext, '.');
    lemma_last_index_of_none(ext, '/');
    lemma_last_index_of_none(head, '/');
    lemma_last_index_of_is(head, '.', number.len() as int);
    lemma_last_index_of_concat(head, ext, '.');
    lemma_last_index_of_concat(head, ext, '/');
    assert((head + ext).skip(number.len() as int + 1) =~= ext);
}

/// The identifier of the video with sequence number `n` and source path
/// `path`.
pub fn make_identifier(n: usize, path: &str) -> (id: String)
    ensures
        id@ == identifier(n as nat, path@),
{
    let mut id = decimal_string(n);
    proof {
        reveal_strlit(".");
    }
    id.append(".");
    match extension_of(path) {
        Some(ext) => {
            id.append(ext.as_str());
        },
        None => {},
    }
    assert(id@ =~= identifier(n as nat, path@));
    id
}

/// The content type under which the video with this identifier is served.
pub fn content_type_of(identifier: &str) -> (kind: String)
    ensures
        kind@ == content_type(identifier@),
{
    let mut kind = String::from_str("video/");
    match extension_of(identifier) {
        Some(ext) => {
            kind.append(ext.as_str());
        },
        None => {},
    }
    assert(kind@ =~= content_type(identifier@));
    kind
}

} // verus!
