//! The path and file-name grammar the planner works with. A path's name is
//! everything after its last slash; the directory part is everything up to
//! and through that slash. A name splits into stem and extension at its
//! last dot, except that a name with no dot, or one that starts with a dot
//! (a dotfile), is all stem. A transform that empties a name stores the
//! sentinel token instead, so later stages always see a non-empty name.

use vstd::prelude::*;
use crate::text;
use crate::text::last_pos;

verus! {

/// The name part of a path: everything after the last slash.
pub open spec fn file_name_of(p: Seq<char>) -> Seq<char> {
    p.subrange(last_pos(p, '/') + 1, p.len() as int)
}

/// The directory part of a path: everything up to and through the last
/// slash; empty when the path has none.
pub open spec fn dir_of(p: Seq<char>) -> Seq<char> {
    p.subrange(0, last_pos(p, '/') + 1)
}

/// The path with its name part replaced.
pub open spec fn with_name(p: Seq<char>, name: Seq<char>) -> Seq<char> {
    dir_of(p) + name
}

/// Whether the name has an extension: it must have a dot, and not lead
/// with one.
pub open spec fn has_ext(name: Seq<char>) -> bool {
    name.len() > 0 && name[0] != '.' && last_pos(name, '.') >= 0
}

/// The stem: what precedes the last dot, or the whole name when there is
/// no extension.
pub open spec fn stem_of(name: Seq<char>) -> Seq<char> {
    if has_ext(name) {
        name.subrange(0, last_pos(name, '.'))
    } else {
        name
    }
}

/// The extension: what follows the last dot, when the name has one.
pub open spec fn ext_of(name: Seq<char>) -> Seq<char> {
    if has_ext(name) {
        name.subrange(last_pos(name, '.') + 1, name.len() as int)
    } else {
        Seq::empty()
    }
}

/// The sentinel that stands for an emptied name.
pub open spec fn sentinel() -> Seq<char> {
    seq!['<', 'B', 'L', 'A', 'N', 'K', '>']
}

/// The sentinel as a character vector.
pub fn sentinel_vec() -> (v: Vec<char>)
    ensures
        v@ == sentinel(),
{
    let mut v: Vec<char> = Vec::new();
    v.push('<');
    v.push('B');
    v.push('L');
    v.push('A');
    v.push('N');
    v.push('K');
    v.push('>');
    proof {
        assert(v@ =~= sentinel());
    }
    v
}

/// Where the last occurrence of `c` falls in a concatenation.
pub proof fn lemma_last_pos_concat(a: Seq<char>, b: Seq<char>, c: char)
    ensures
        last_pos(a + b, c) == if last_pos(b, c) >= 0 {
            a.len() + last_pos(b, c)
        } else {
            last_pos(a, c)
        },
    decreases b.len(),
{
    text::lemma_last_pos(a, c);
    text::lemma_last_pos(b, c);
    if b.len() == 0 {
        assert(a + b =~= a);
    } else {
        let ab = a + b;
        assert(ab[ab.len() - 1] == b[b.len() - 1]);
        if b[b.len() - 1] == c {
        } else {
            assert(ab.drop_last() =~= a + b.drop_last());
            lemma_last_pos_concat(a, b.drop_last(), c);
        }
    }
}

/// A path is its directory part followed by its name.
pub proof fn lemma_dir_name(p: Seq<char>)
    ensures
        dir_of(p) + file_name_of(p) == p,
        forall|j: int| 0 <= j < file_name_of(p).len() ==> file_name_of(p)[j] != '/',
{
    text::lemma_last_pos(p, '/');
    assert(dir_of(p) + file_name_of(p) =~= p);
}

/// Replacing the name keeps the directory and stores exactly the new name,
/// as long as the new name has no slash of its own.
pub proof fn lemma_with_name(p: Seq<char>, name: Seq<char>)
    requires
        forall|j: int| 0 <= j < name.len() ==> name[j] != '/',
    ensures
        file_name_of(with_name(p, name)) == name,
        dir_of(with_name(p, name)) == dir_of(p),
    decreases name.len(),
{
    let d = dir_of(p);
    text::lemma_last_pos(p, '/');
    lemma_last_pos_concat(d, name, '/');
    assert(last_pos(name, '/') == -1) by {
        text::lemma_last_pos(name, '/');
        if last_pos(name, '/') >= 0 {
            assert(name[last_pos(name, '/')] == '/');
        }
    }
    assert(last_pos(d, '/') == d.len() - 1) by {
        text::lemma_last_pos(d, '/');
        if d.len() > 0 {
            assert(d[d.len() - 1] == p[last_pos(p, '/')]);
        }
    }
    assert(file_name_of(with_name(p, name)) =~= name);
    assert(dir_of(with_name(p, name)) =~= d);
}

/// A name with an extension is stem, dot, extension; the extension itself
/// holds no dot.
pub proof fn lemma_stem_ext(name: Seq<char>)
    requires
        has_ext(name),
    ensures
        stem_of(name) + seq!['.'] + ext_of(name) == name,
        forall|j: int| 0 <= j < ext_of(name).len() ==> ext_of(name)[j] != '.',
{
    text::lemma_last_pos(name, '.');
    assert(stem_of(name) + seq!['.'] + ext_of(name) =~= name);
}

/// Copy a contiguous piece of a character vector.
#[verifier::loop_isolation(false)]
pub fn copy_range(v: &Vec<char>, from: usize, to: usize) -> (r: Vec<char>)
    requires
        from <= to <= v@.len(),
    ensures
        r@ == v@.subrange(from as int, to as int),
{
    let mut r: Vec<char> = Vec::new();
    let mut i: usize = from;
    while i < to
        invariant
            from <= i <= to,
            r@ == v@.subrange(from as int, i as int),
        decreases to - i,
    {
        r.push(v[i]);
        i = i + 1;
        proof {
            assert(r@ =~= v@.subrange(from as int, i as int));
        }
    }
    r
}

/// Split a path into directory part and name part.
pub fn split_dir_name(p: &Vec<char>) -> (r: (Vec<char>, Vec<char>))
    ensures
        r.0@ == dir_of(p@),
        r.1@ == file_name_of(p@),
{
    proof {
        text::lemma_last_pos(p@, '/');
    }
    let plen = p.len();
    let cut: usize = match text::last_pos_exec(p, '/') {
        Some(i) => i + 1,
        None => 0,
    };
    let d = copy_range(p, 0, cut);
    let n = copy_range(p, cut, plen);
    (d, n)
}

/// Split a name into its stem and, when it has one, its extension.
pub fn split_stem_ext(name: &Vec<char>) -> (r: (Vec<char>, Option<Vec<char>>))
    ensures
        r.0@ == stem_of(name@),
        match r.1 {
            Some(e) => has_ext(name@) && e@ == ext_of(name@),
            None => !has_ext(name@),
        },
{
    proof {
        text::lemma_last_pos(name@, '.');
    }
    if name.len() == 0 {
        return (copy_range(name, 0, 0), None);
    }
    if name[0] == '.' {
        proof {
            assert(name@.subrange(0, name@.len() as int) =~= name@);
        }
        return (copy_range(name, 0, name.len()), None);
    }
    match text::last_pos_exec(name, '.') {
        Some(i) => {
            let stem = copy_range(name, 0, i);
            let ext = copy_range(name, i + 1, name.len());
            (stem, Some(ext))
        },
        None => {
            proof {
                assert(name@.subrange(0, name@.len() as int) =~= name@);
            }
            (copy_range(name, 0, name.len()), None)
        },
    }
}

} // verus!
