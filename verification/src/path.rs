//! Slash-separated paths: their components, their ancestors and the check
//! that a path names something without a `..`.
//!
//! A path is a text and is told apart from another letter by letter.  Its
//! components are the names between its slashes; an empty piece, before a
//! leading slash, between two slashes or after a trailing one, is no
//! component.

use vstd::prelude::*;
use vstd::string::StringExecFns;
use vstd::utf8::{decode_utf8, valid_utf8};

verus! {

/// `std::str::from_utf8`: the text that the bytes encode, where they are
/// well-formed UTF-8, and nothing where they are not.
#[verifier::external_body]
pub(crate) fn text_of(bytes: &[u8]) -> (text: Option<&str>)
    ensures
        text is Some <==> valid_utf8(bytes@),
        text is Some ==> text->0@ == decode_utf8(bytes@),
{
    core::str::from_utf8(bytes).ok()
}

/// `str::strip_prefix`: what follows `prefix` in `text`, where `text`
/// starts with it, and nothing where it does not.
#[verifier::external_body]
pub(crate) fn after_prefix<'a>(text: &'a str, prefix: &str) -> (rest: Option<&'a str>)
    ensures
        rest is Some <==> prefix@.is_prefix_of(text@),
        rest is Some ==> text@ == prefix@ + rest->0@,
{
    text.strip_prefix(prefix)
}

/// `str::split_once` at a character: the text before the first `mark` and
/// the text after it, or nothing where the text holds no `mark`.
#[verifier::external_body]
pub(crate) fn split_at_first(text: &str, mark: char) -> (parts: Option<(&str, &str)>)
    ensures
        match parts {
            Some((head, tail)) => text@ == head@ + seq![mark] + tail@ && !head@.contains(mark),
            None => !text@.contains(mark),
        },
{
    text.split_once(mark)
}

/// Number of characters before the first slash of `path`, or its length
/// where it holds none.
pub open spec fn head_len(path: Seq<char>) -> nat
    decreases path.len(),
{
    if path.len() == 0 || path[0] == '/' {
        0
    } else {
        1 + head_len(path.drop_first())
    }
}

/// The components of a path: the non-empty pieces between its slashes.
pub open spec fn components(path: Seq<char>) -> Seq<Seq<char>>
    decreases path.len(),
{
    if path.len() == 0 {
        Seq::empty()
    } else {
        let head = head_len(path);
        if head == 0 {
            components(path.skip(1))
        } else if head >= path.len() {
            seq![path]
        } else {
            seq![path.take(head as int)] + components(path.skip(head as int + 1))
        }
    }
}

/// The pieces of a text between its slashes, empty ones too.
pub open spec fn pieces(text: Seq<char>) -> Seq<Seq<char>>
    decreases text.len(),
{
    if !text.contains('/') {
        seq![text]
    } else {
        let head = head_len(text);
        if head < text.len() {
            seq![text.take(head as int)] + pieces(text.skip(head as int + 1))
        } else {
            seq![text]
        }
    }
}

/// The path names something and never steps out of the directory it is
/// relative to: it is not empty, and none of its components is `..`.
pub open spec fn is_safe(path: Seq<char>) -> bool {
    &&& path.len() > 0
    &&& forall|i: int|
        0 <= i < components(path).len() ==> #[trigger] components(path)[i] != seq!['.', '.']
}

/// `key` names `path` itself, the root, or a directory on the way to
/// `path`: it is `path` cut before a slash that follows a name.  So every
/// directory is named once, also where slashes follow one another.
pub open spec fn is_ancestor(key: Seq<char>, path: Seq<char>) -> bool {
    &&& key.is_prefix_of(path)
    &&& (key.len() == 0 || key.len() == path.len() || (path[key.len() as int] == '/'
        && key.last() != '/'))
}

/// The texts of a list of strings.
pub open spec fn texts(list: Seq<String>) -> Seq<Seq<char>> {
    Seq::new(list.len(), |i: int| list[i]@)
}

/// A text without a slash is one piece.
pub proof fn lemma_head_len_whole(path: Seq<char>)
    requires
        !path.contains('/'),
    ensures
        head_len(path) == path.len(),
    decreases path.len(),
{
    if path.len() > 0 {
        lemma_head_len_whole(path.drop_first());
    }
}

/// The first piece of `head + "/" + tail` is `head`, where `head` holds no
/// slash.
pub proof fn lemma_head_len_split(head: Seq<char>, tail: Seq<char>)
    requires
        !head.contains('/'),
    ensures
        head_len(head + seq!['/'] + tail) == head.len(),
    decreases head.len(),
{
    let path = head + seq!['/'] + tail;
    if head.len() > 0 {
        assert(path.drop_first() =~= head.drop_first() + seq!['/'] + tail);
        lemma_head_len_split(head.drop_first(), tail);
    } else {
        assert(path[0] == '/');
    }
}

/// The components of `head + "/" + tail`: `head`, unless it is empty, and
/// then those of `tail`.
pub proof fn lemma_components_split(head: Seq<char>, tail: Seq<char>)
    requires
        !head.contains('/'),
    ensures
        components(head + seq!['/'] + tail) == if head.len() == 0 {
            components(tail)
        } else {
            seq![head] + components(tail)
        },
{
    let path = head + seq!['/'] + tail;
    lemma_head_len_split(head, tail);
    if head.len() == 0 {
        assert(path.skip(1) =~= tail);
    } else {
        assert(path.take(head.len() as int) =~= head);
        assert(path.skip(head.len() as int + 1) =~= tail);
    }
}

/// The components of a text without a slash: the text, unless it is empty.
pub proof fn lemma_components_whole(path: Seq<char>)
    requires
        !path.contains('/'),
    ensures
        components(path) == if path.len() == 0 {
            Seq::<Seq<char>>::empty()
        } else {
            seq![path]
        },
{
    lemma_head_len_whole(path);
}

/// Splits a path into its components.
pub fn split_components(path: &str) -> (parts: Vec<String>)
    ensures
        texts(parts@) == components(path@),
{
    let mut parts: Vec<String> = Vec::new();
    let mut rest: &str = path;
    loop
        invariant
            components(path@) == texts(parts@) + components(rest@),
        decreases rest@.len(),
    {
        match split_at_first(rest, '/') {
            Some((head, tail)) => {
                proof {
                    lemma_components_split(head@, tail@);
                }
                if !head.is_empty() {
                    parts.push(head.to_owned());
                }
                rest = tail;
            },
            None => {
                proof {
                    lemma_components_whole(rest@);
                }
                if !rest.is_empty() {
                    parts.push(rest.to_owned());
                }
                return parts;
            },
        }
    }
}

/// Splits a text at every slash.
pub fn split_pieces(text: &str) -> (list: Vec<String>)
    ensures
        texts(list@) == pieces(text@),
        list@.len() > 0,
{
    let mut list: Vec<String> = Vec::new();
    let mut rest: &str = text;
    loop
        invariant
            pieces(text@) == texts(list@) + pieces(rest@),
        decreases rest@.len(),
    {
        match split_at_first(rest, '/') {
            Some((head, tail)) => {
                proof {
                    let whole = head@ + seq!['/'] + tail@;
                    lemma_head_len_split(head@, tail@);
                    assert(whole[head@.len() as int] == '/');
                    assert(whole.take(head@.len() as int) =~= head@);
                    assert(whole.skip(head@.len() as int + 1) =~= tail@);
                }
                list.push(head.to_owned());
                rest = tail;
            },
            None => {
                list.push(rest.to_owned());
                return list;
            },
        }
    }
}

/// Is the text `..`?
pub fn is_parent_link(text: &str) -> (is: bool)
    ensures
        is == (text@ == seq!['.', '.']),
{
    if text.unicode_len() == 2 {
        let same = text.get_char(0) == '.' && text.get_char(1) == '.';
        assert(same == (text@ =~= seq!['.', '.']));
        same
    } else {
        false
    }
}

/// Does the path name something without stepping out of the directory it
/// is relative to?
pub fn check_safe(path: &str) -> (safe: bool)
    ensures
        safe == is_safe(path@),
{
    if path.is_empty() {
        return false;
    }
    let parts = split_components(path);
    let mut i: usize = 0;
    while i < parts.len()
        invariant
            i <= parts@.len(),
            texts(parts@) == components(path@),
            forall|j: int| 0 <= j < i ==> #[trigger] components(path@)[j] != seq!['.', '.'],
        decreases parts.len() - i,
    {
        assert(texts(parts@)[i as int] == parts@[i as int]@);
        if is_parent_link(parts[i].as_str()) {
            return false;
        }
        i = i + 1;
    }
    true
}

/// Some string of the list spells `key`.
pub open spec fn lists(keys: Seq<String>, key: Seq<char>) -> bool {
    exists|i: int| 0 <= i < keys.len() && #[trigger] keys[i]@ == key
}

/// The ancestors of a path: the root, every directory on the way to the
/// path, and the path itself, each once, from the shortest to the longest.
pub fn ancestor_keys(path: &str) -> (keys: Vec<String>)
    ensures
        forall|key: Seq<char>| is_ancestor(key, path@) <==> lists(keys@, key),
        forall|i: int, j: int|
            0 <= i < j < keys@.len() ==> #[trigger] keys@[i]@.len() < #[trigger] keys@[j]@.len(),
{
    proof {
        reveal_strlit("/");
    }
    let mut keys: Vec<String> = Vec::new();
    keys.push(String::new());
    let mut prefix = String::new();
    let mut rest: &str = path;
    assert forall|key: Seq<char>| key.len() == 0 implies lists(keys@, key) by {
        assert(keys@[0]@ =~= key);
    }
    loop
        invariant
            "/"@ == seq!['/'],
            path@ == prefix@ + rest@,
            prefix@.len() == 0 || prefix@.last() == '/',
            keys@.len() > 0,
            keys@[0]@.len() == 0,
            forall|i: int|
                0 <= i < keys@.len() ==> is_ancestor(#[trigger] keys@[i]@, path@) && (keys@[i]@.len()
                    == 0 || keys@[i]@.len() < prefix@.len()),
            forall|key: Seq<char>|
                is_ancestor(key, path@) && (key.len() == 0 || key.len() < prefix@.len())
                    ==> lists(keys@, key),
            forall|i: int, j: int|
                0 <= i < j < keys@.len() ==> #[trigger] keys@[i]@.len()
                    < #[trigger] keys@[j]@.len(),
        decreases rest@.len(),
    {
        let ghost done = prefix@.len() as int;
        let ghost listed = keys@;
        match split_at_first(rest, '/') {
            Some((head, tail)) => {
                prefix.append(head);
                let ghost cut = prefix@.len() as int;
                if !head.is_empty() {
                    assert(head@.contains(head@.last()));
                    keys.push(prefix.clone());
                }
                prefix.append("/");
                rest = tail;
                proof {
                    assert forall|key: Seq<char>|
                        is_ancestor(key, path@) && (key.len() == 0 || key.len()
                            < prefix@.len()) implies lists(keys@, key) by {
                        if key.len() == 0 || key.len() < done {
                            let i = choose|i: int|
                                0 <= i < listed.len() && #[trigger] listed[i]@ == key;
                            assert(keys@[i]@ == key);
                        } else if key.len() == cut {
                            if head@.len() > 0 {
                                assert(keys@[keys@.len() - 1]@ == key);
                            } else {
                                assert(key.last() == path@[done - 1]);
                            }
                        } else {
                            assert(head@.contains(head@[key.len() - done]));
                        }
                    }
                }
            },
            None => {
                prefix.append(rest);
                if !prefix.as_str().is_empty() {
                    keys.push(prefix);
                }
                proof {
                    assert forall|key: Seq<char>| is_ancestor(key, path@) implies lists(
                        keys@,
                        key,
                    ) by {
                        if key.len() == 0 || key.len() < done {
                            let i = choose|i: int|
                                0 <= i < listed.len() && #[trigger] listed[i]@ == key;
                            assert(keys@[i]@ == key);
                        } else if key.len() == path@.len() {
                            assert(keys@[keys@.len() - 1]@ == key);
                        } else {
                            assert(rest@.contains(rest@[key.len() - done]));
                        }
                    }
                }
                return keys;
            },
        }
    }
}

} // verus!
