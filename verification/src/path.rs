//! Paths inside an archive: bytes, with `/` between the names.

use vstd::prelude::*;
use vstd::utf8::{encode_utf8, valid_utf8};
use crate::bytes::{copy_range, push_bytes};
use crate::error::{Error, Pk2Result};
use crate::raw::entry::{current_dir_name, parent_dir_name};

verus! {

/// The byte `/`, which separates the names of a path.
pub const SEPARATOR: u8 = 0x2f;

/// The position of the first `/` of `path`, or its length where it holds
/// none.
pub open spec fn separator_position(path: Seq<u8>) -> nat
    decreases path.len(),
{
    if path.len() == 0 || path[0] == SEPARATOR {
        0
    } else {
        1 + separator_position(path.skip(1))
    }
}

/// The names of a path in their order: what stands between the separators,
/// without what is empty and without `.`, which names where one is.
pub open spec fn spec_components(path: Seq<u8>) -> Seq<Seq<u8>>
    decreases path.len(),
{
    if path.len() == 0 {
        Seq::empty()
    } else {
        let end = separator_position(path) as int;
        let head = path.subrange(0, end);
        let rest = if end < path.len() {
            spec_components(path.subrange(end + 1, path.len() as int))
        } else {
            Seq::empty()
        };
        if head.len() == 0 || head == current_dir_name() {
            rest
        } else {
            seq![head] + rest
        }
    }
}

/// A path from the root, without the `/` that it starts with; `InvalidPath`
/// where it is empty or starts with anything else.
pub open spec fn spec_check_root(path: Seq<u8>) -> Pk2Result<Seq<u8>> {
    if path.len() > 0 && path[0] == SEPARATOR {
        Ok(path.skip(1))
    } else {
        Err(Error::InvalidPath)
    }
}

/// What a list of names holds.
pub open spec fn names_view(names: Seq<Vec<u8>>) -> Seq<Seq<u8>> {
    Seq::new(names.len(), |i: int| names[i]@)
}

/// Where the first separator lies, told from the bytes before it.
pub proof fn lemma_separator_position(path: Seq<u8>, end: int)
    requires
        0 <= end <= path.len(),
        forall|i: int| 0 <= i < end ==> path[i] != SEPARATOR,
        end == path.len() || path[end] == SEPARATOR,
    ensures
        separator_position(path) == end,
    decreases end,
{
    if end > 0 {
        lemma_separator_position(path.skip(1), end - 1);
    }
}

/// No name of a path is empty, is `.`, or holds a separator.
pub proof fn lemma_components_plain(path: Seq<u8>)
    ensures
        forall|k: int|
            0 <= k < spec_components(path).len() ==> {
                let name = #[trigger] spec_components(path)[k];
                name.len() > 0 && name != current_dir_name()
            },
    decreases path.len(),
{
    if path.len() > 0 {
        let end = separator_position(path) as int;
        let head = path.subrange(0, end);
        lemma_separator_bound(path);
        let rest = if end < path.len() {
            spec_components(path.subrange(end + 1, path.len() as int))
        } else {
            Seq::empty()
        };
        if end < path.len() {
            lemma_components_plain(path.subrange(end + 1, path.len() as int));
        }
        let all = spec_components(path);
        assert forall|k: int| 0 <= k < all.len() implies {
            let name = #[trigger] all[k];
            name.len() > 0 && name != current_dir_name()
        } by {
            if head.len() == 0 || head == current_dir_name() {
                assert(all[k] == rest[k]);
            } else if k > 0 {
                assert(all[k] == rest[k - 1]);
            }
        }
    }
}

proof fn lemma_separator_bound(path: Seq<u8>)
    ensures
        separator_position(path) <= path.len(),
    decreases path.len(),
{
    if !(path.len() == 0 || path[0] == SEPARATOR) {
        lemma_separator_bound(path.skip(1));
    }
}

/// A name put behind a path: the two with a separator between them, or the
/// name alone where the path is empty.
pub open spec fn spec_join(prefix: Seq<u8>, name: Seq<u8>) -> Seq<u8> {
    if prefix.len() == 0 {
        name
    } else {
        prefix + seq![SEPARATOR] + name
    }
}

/// A name put behind a path.
pub fn join(prefix: &[u8], name: &[u8]) -> (r: Vec<u8>)
    ensures
        r@ == spec_join(prefix@, name@),
{
    let mut path: Vec<u8> = Vec::new();
    if prefix.len() > 0 {
        push_bytes(&mut path, prefix);
        path.push(SEPARATOR);
    }
    push_bytes(&mut path, name);
    assert(path@ =~= spec_join(prefix@, name@));
    path
}

/// Whether `bytes` are text: the UTF-8 encoding of some characters.
#[verifier::opaque]
pub open spec fn spec_is_text(bytes: Seq<u8>) -> bool {
    valid_utf8(bytes)
}

/// Whether `bytes` are UTF-8. This calls `core::str::from_utf8`, of which it
/// is taken on trust that it accepts exactly the byte strings that are
/// UTF-8.
#[verifier::external_body]
fn utf8_accepts(bytes: &[u8]) -> (r: bool)
    ensures
        r == valid_utf8(bytes@),
{
    std::str::from_utf8(bytes).is_ok()
}

/// Whether `bytes` are text.
pub fn is_text(bytes: &[u8]) -> (r: bool)
    ensures
        r == spec_is_text(bytes@),
{
    proof {
        reveal(spec_is_text);
    }
    utf8_accepts(bytes)
}

/// The text that `bytes` encode. This calls `String::from_utf8`, of which it
/// is taken on trust that it accepts exactly the byte strings that are
/// UTF-8, and gives the text whose encoding they are; `None` stands for its
/// error.
#[verifier::external_body]
fn text_of(bytes: Vec<u8>) -> (r: Option<String>)
    ensures
        r is Some <==> valid_utf8(bytes@),
        r is Some ==> encode_utf8(r->Some_0@) == bytes@,
{
    match String::from_utf8(bytes) {
        Ok(text) => Some(text),
        Err(_) => None,
    }
}

/// The text that `bytes` encode, or `NonUnicodePath` where they are not
/// UTF-8.
pub fn to_text(bytes: Vec<u8>) -> (r: Pk2Result<String>)
    ensures
        match r {
            Ok(text) => spec_is_text(bytes@) && encode_utf8(text@) == bytes@,
            Err(e) => !spec_is_text(bytes@) && e == Error::NonUnicodePath,
        },
{
    proof {
        reveal(spec_is_text);
    }
    match text_of(bytes) {
        Some(text) => Ok(text),
        None => Err(Error::NonUnicodePath),
    }
}

/// Whether `name` is `.`.
pub fn is_current_dir(name: &[u8]) -> (r: bool)
    ensures
        r == (name@ == current_dir_name()),
{
    let r = name.len() == 1 && name[0] == 0x2eu8;
    assert(r == (name@ =~= current_dir_name()));
    r
}

/// Whether `name` is `..`.
pub fn is_parent_dir(name: &[u8]) -> (r: bool)
    ensures
        r == (name@ == parent_dir_name()),
{
    let r = name.len() == 2 && name[0] == 0x2eu8 && name[1] == 0x2eu8;
    assert(r == (name@ =~= parent_dir_name()));
    r
}

/// Strips the `/` that a path from the root starts with. A path that is
/// empty or starts with anything else is refused with `InvalidPath`.
pub fn check_root(path: &[u8]) -> (r: Pk2Result<&[u8]>)
    ensures
        match r {
            Ok(rest) => spec_check_root(path@) == Ok::<Seq<u8>, Error>(rest@),
            Err(e) => spec_check_root(path@) == Err::<Seq<u8>, Error>(e),
        },
{
    if path.len() > 0 && path[0] == SEPARATOR {
        let rest = vstd::slice::slice_subrange(path, 1, path.len());
        assert(rest@ =~= path@.skip(1));
        Ok(rest)
    } else {
        Err(Error::InvalidPath)
    }
}

/// The names of `path` in their order.
pub fn components(path: &[u8]) -> (r: Vec<Vec<u8>>)
    ensures
        names_view(r@) == spec_components(path@),
{
    let mut names: Vec<Vec<u8>> = Vec::new();
    let len = path.len();
    let mut start: usize = 0;
    assert(path@.subrange(0, len as int) =~= path@);
    assert(names_view(names@) + spec_components(path@) =~= spec_components(path@));
    while start < len
        invariant
            start <= len,
            len == path@.len(),
            names_view(names@) + spec_components(path@.subrange(start as int, len as int))
                == spec_components(path@),
        decreases len - start,
    {
        let ghost tail = path@.subrange(start as int, len as int);
        let mut end: usize = start;
        while end < len && path[end] != SEPARATOR
            invariant
                start <= end <= len,
                len == path@.len(),
                tail == path@.subrange(start as int, len as int),
                forall|i: int| 0 <= i < end - start ==> tail[i] != SEPARATOR,
            decreases len - end,
        {
            end += 1;
        }
        proof {
            lemma_separator_position(tail, end - start);
        }
        let head = vstd::slice::slice_subrange(path, start, end);
        assert(head@ =~= tail.subrange(0, end - start));
        let ghost before = names_view(names@);
        let keep = head.len() > 0 && !is_current_dir(head);
        if keep {
            names.push(copy_range(path, start, end));
            assert(names_view(names@) =~= before + seq![head@]);
        }
        proof {
            let rest = if end < len {
                spec_components(tail.subrange(end - start + 1, tail.len() as int))
            } else {
                Seq::empty()
            };
            if end < len {
                assert(tail.subrange(end - start + 1, tail.len() as int) =~= path@.subrange(
                    end + 1,
                    len as int,
                ));
            }
            if keep {
                assert((before + seq![head@]) + rest =~= before + (seq![head@] + rest));
            }
        }
        if end < len {
            start = end + 1;
        } else {
            start = len;
            assert(path@.subrange(len as int, len as int) =~= Seq::<u8>::empty());
            assert(names_view(names@) + Seq::<Seq<u8>>::empty() =~= names_view(names@));
        }
    }
    assert(path@.subrange(len as int, len as int) =~= Seq::<u8>::empty());
    assert(names_view(names@) + Seq::<Seq<u8>>::empty() =~= names_view(names@));
    names
}

} // verus!
