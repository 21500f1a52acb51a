//! Verified utilities on character sequences: conversion between `String`
//! and `Vec<char>`, equality, lexicographic order, substring search,
//! literal find-and-replace, and locating the last occurrence of a marker
//! character. Everything a file name is made of passes through here.

use vstd::prelude::*;
use vstd::string::*;
use crate::bridge;

verus! {

/// The characters of a string, one vector cell per `char`.
#[verifier::loop_isolation(false)]
pub fn chars_of(s: &str) -> (v: Vec<char>)
    ensures
        v@ == s@,
{
    let n: usize = s.unicode_len();
    let mut v: Vec<char> = Vec::new();
    let mut i: usize = 0;
    while i < n
        invariant
            i <= n,
            n == s@.len(),
            v@ == s@.subrange(0, i as int),
        decreases n - i,
    {
        let c = s.get_char(i);
        v.push(c);
        i = i + 1;
        proof {
            assert(v@ =~= s@.subrange(0, i as int));
        }
    }
    proof {
        assert(v@ =~= s@);
    }
    v
}

/// The string spelled by a character vector.
#[verifier::loop_isolation(false)]
pub fn string_of(v: &Vec<char>) -> (s: String)
    ensures
        s@ == v@,
{
    let mut s = String::new();
    let mut i: usize = 0;
    while i < v.len()
        invariant
            i <= v.len(),
            s@ == v@.subrange(0, i as int),
        decreases v.len() - i,
    {
        bridge::push_char(&mut s, v[i]);
        i = i + 1;
        proof {
            assert(s@ =~= v@.subrange(0, i as int));
        }
    }
    proof {
        assert(s@ =~= v@);
    }
    s
}

/// Append every character of `src` to `dst`.
#[verifier::loop_isolation(false)]
pub fn push_all(dst: &mut Vec<char>, src: &Vec<char>)
    ensures
        final(dst)@ == old(dst)@ + src@,
{
    let mut i: usize = 0;
    while i < src.len()
        invariant
            i <= src.len(),
            dst@ == old(dst)@ + src@.subrange(0, i as int),
        decreases src.len() - i,
    {
        dst.push(src[i]);
        i = i + 1;
        proof {
            assert(dst@ =~= old(dst)@ + src@.subrange(0, i as int));
        }
    }
    proof {
        assert(dst@ =~= old(dst)@ + src@);
    }
}

/// A copy of a character vector.
#[verifier::loop_isolation(false)]
pub fn dup(v: &Vec<char>) -> (r: Vec<char>)
    ensures
        r@ == v@,
{
    let mut r: Vec<char> = Vec::new();
    push_all(&mut r, v);
    proof {
        assert(r@ =~= v@);
    }
    r
}

/// Two character vectors, one after the other.
pub fn concat2(a: &Vec<char>, b: &Vec<char>) -> (r: Vec<char>)
    ensures
        r@ == a@ + b@,
{
    let mut r = dup(a);
    push_all(&mut r, b);
    r
}

/// Whether two character vectors spell the same sequence.
#[verifier::loop_isolation(false)]
pub fn seq_eq(a: &Vec<char>, b: &Vec<char>) -> (r: bool)
    ensures
        r == (a@ == b@),
{
    if a.len() != b.len() {
        return false;
    }
    let mut i: usize = 0;
    while i < a.len()
        invariant
            i <= a.len(),
            a.len() == b.len(),
            forall|j: int| 0 <= j < i ==> a@[j] == b@[j],
        decreases a.len() - i,
    {
        if a[i] != b[i] {
            return false;
        }
        i = i + 1;
    }
    proof {
        assert(a@ =~= b@);
    }
    true
}

/// Lexicographic order on character sequences by code point.
pub open spec fn lex_le(a: Seq<char>, b: Seq<char>) -> bool
    decreases a.len(),
{
    if a.len() == 0 {
        true
    } else if b.len() == 0 {
        false
    } else if a[0] == b[0] {
        lex_le(a.drop_first(), b.drop_first())
    } else {
        (a[0] as u32) < (b[0] as u32)
    }
}

/// Distinct characters have distinct code points.
pub proof fn lemma_char_inj(x: char, y: char)
    requires
        x as u32 == y as u32,
    ensures
        x == y,
{
    vstd::utf8::char_u32_cast(x, x as u32);
    vstd::utf8::char_u32_cast(y, y as u32);
}

pub proof fn lemma_lex_total(a: Seq<char>, b: Seq<char>)
    ensures
        lex_le(a, b) || lex_le(b, a),
    decreases a.len(),
{
    if a.len() == 0 || b.len() == 0 {
    } else if a[0] == b[0] {
        lemma_lex_total(a.drop_first(), b.drop_first());
    } else {
        if a[0] as u32 == b[0] as u32 {
            lemma_char_inj(a[0], b[0]);
        }
    }
}

pub proof fn lemma_lex_antisym(a: Seq<char>, b: Seq<char>)
    requires
        lex_le(a, b),
        lex_le(b, a),
    ensures
        a == b,
    decreases a.len(),
{
    if a.len() == 0 {
        assert(b.len() == 0);
        assert(a =~= b);
    } else {
        assert(b.len() > 0);
        if a[0] != b[0] {
            assert((a[0] as u32) < (b[0] as u32));
            assert((b[0] as u32) < (a[0] as u32));
            assert(false);
        }
        lemma_lex_antisym(a.drop_first(), b.drop_first());
        assert(a =~= seq![a[0]] + a.drop_first());
        assert(b =~= seq![b[0]] + b.drop_first());
    }
}

pub proof fn lemma_lex_trans(a: Seq<char>, b: Seq<char>, c: Seq<char>)
    requires
        lex_le(a, b),
        lex_le(b, c),
    ensures
        lex_le(a, c),
    decreases a.len(),
{
    if a.len() == 0 {
    } else if b.len() == 0 {
    } else if c.len() == 0 {
    } else {
        if a[0] == b[0] && b[0] == c[0] {
            lemma_lex_trans(a.drop_first(), b.drop_first(), c.drop_first());
        } else if a[0] == b[0] {
        } else if b[0] == c[0] {
        }
    }
}

/// Lexicographic comparison, executable form.
#[verifier::loop_isolation(false)]
pub fn lex_le_exec(a: &Vec<char>, b: &Vec<char>) -> (r: bool)
    ensures
        r == lex_le(a@, b@),
{
    let mut i: usize = 0;
    let an = a.len();
    let bn = b.len();
    proof {
        assert(a@.skip(0) =~= a@);
        assert(b@.skip(0) =~= b@);
    }
    loop
        invariant
            i <= an,
            i <= bn,
            an == a@.len(),
            bn == b@.len(),
            forall|j: int| 0 <= j < i ==> a@[j] == b@[j],
            lex_le(a@, b@) == lex_le(a@.skip(i as int), b@.skip(i as int)),
        decreases an - i,
    {
        if i == an {
            proof {
                assert(a@.skip(i as int).len() == 0);
            }
            return true;
        }
        if i == bn {
            proof {
                assert(b@.skip(i as int).len() == 0);
                assert(a@.skip(i as int).len() > 0);
            }
            return false;
        }
        let ca = a[i];
        let cb = b[i];
        proof {
            assert(a@.skip(i as int)[0] == a@[i as int]);
            assert(b@.skip(i as int)[0] == b@[i as int]);
            assert(a@.skip(i as int).drop_first() =~= a@.skip(i as int + 1));
            assert(b@.skip(i as int).drop_first() =~= b@.skip(i as int + 1));
        }
        if ca == cb {
            i = i + 1;
        } else {
            return (ca as u32) < (cb as u32);
        }
    }
}

/// Whether `needle` occurs in `hay` starting at position `at`.
pub open spec fn occurs_at(hay: Seq<char>, needle: Seq<char>, at: int) -> bool {
    0 <= at && at + needle.len() <= hay.len() && hay.subrange(
        at,
        at + needle.len(),
    ) == needle
}

/// Whether `needle` occurs anywhere in `hay` as a contiguous run.
pub open spec fn has_substring(hay: Seq<char>, needle: Seq<char>) -> bool {
    exists|at: int| occurs_at(hay, needle, at)
}

/// Whether `needle` occurs at position `at`, executable form.
#[verifier::loop_isolation(false)]
pub fn occurs_at_exec(hay: &Vec<char>, needle: &Vec<char>, at: usize) -> (r: bool)
    requires
        at + needle@.len() <= hay@.len(),
    ensures
        r == occurs_at(hay@, needle@, at as int),
{
    let hlen = hay.len();
    let mut i: usize = 0;
    while i < needle.len()
        invariant
            i <= needle@.len(),
            at + needle@.len() <= hlen,
            forall|j: int| 0 <= j < i ==> hay@[at + j] == needle@[j],
        decreases needle@.len() - i,
    {
        if hay[at + i] != needle[i] {
            proof {
                let sub = hay@.subrange(at as int, at + needle@.len());
                assert(sub[i as int] == hay@[at + i]);
            }
            return false;
        }
        i = i + 1;
    }
    proof {
        assert(hay@.subrange(at as int, at + needle@.len()) =~= needle@);
    }
    true
}

/// Substring search, executable form.
#[verifier::loop_isolation(false)]
pub fn has_substring_exec(hay: &Vec<char>, needle: &Vec<char>) -> (r: bool)
    ensures
        r == has_substring(hay@, needle@),
{
    if needle.len() > hay.len() {
        proof {
            assert(forall|at: int| !occurs_at(hay@, needle@, at));
        }
        return false;
    }
    let last = hay.len() - needle.len();
    let mut at: usize = 0;
    loop
        invariant
            at <= last,
            last == hay@.len() - needle@.len(),
            forall|j: int| 0 <= j < at ==> !occurs_at(hay@, needle@, j),
        decreases last - at,
    {
        if occurs_at_exec(hay, needle, at) {
            return true;
        }
        if at == last {
            proof {
                assert(forall|j: int| occurs_at(hay@, needle@, j) ==> 0 <= j <= last);
            }
            return false;
        }
        at = at + 1;
    }
}

/// The position of the last occurrence of `c`, or -1 when `c` is absent.
pub open spec fn last_pos(s: Seq<char>, c: char) -> int
    decreases s.len(),
{
    if s.len() == 0 {
        -1
    } else if s[s.len() - 1] == c {
        s.len() - 1
    } else {
        last_pos(s.drop_last(), c)
    }
}

pub proof fn lemma_last_pos(s: Seq<char>, c: char)
    ensures
        -1 <= last_pos(s, c) < s.len(),
        last_pos(s, c) >= 0 ==> s[last_pos(s, c)] == c,
        forall|j: int| last_pos(s, c) < j < s.len() ==> s[j] != c,
    decreases s.len(),
{
    if s.len() == 0 {
    } else if s[s.len() - 1] == c {
    } else {
        lemma_last_pos(s.drop_last(), c);
        assert(forall|j: int| 0 <= j < s.len() - 1 ==> s[j] == s.drop_last()[j]);
    }
}

/// Locate the last occurrence of `c`, executable form.
#[verifier::loop_isolation(false)]
pub fn last_pos_exec(v: &Vec<char>, c: char) -> (r: Option<usize>)
    ensures
        match r {
            Some(i) => last_pos(v@, c) == i as int,
            None => last_pos(v@, c) == -1,
        },
{
    let mut i: usize = v.len();
    proof {
        assert(v@.subrange(0, v@.len() as int) =~= v@);
    }
    loop
        invariant
            i <= v@.len(),
            last_pos(v@, c) == last_pos(v@.subrange(0, i as int), c),
        decreases i,
    {
        if i == 0 {
            return None;
        }
        i = i - 1;
        proof {
            assert(v@.subrange(0, i as int + 1).drop_last() =~= v@.subrange(0, i as int));
            assert(v@.subrange(0, i as int + 1)[i as int] == v@[i as int]);
        }
        if v[i] == c {
            return Some(i);
        }
    }
}

/// Every occurrence of `find` replaced by `rep`, scanning left to right and
/// never rescanning replaced text. An empty `find` matches at every
/// position, so `rep` is spliced around every character.
pub open spec fn replace_all(s: Seq<char>, find: Seq<char>, rep: Seq<char>) -> Seq<char>
    decreases s.len(),
{
    if find.len() == 0 {
        rep + splice_tail(s, rep)
    } else if s.len() < find.len() {
        s
    } else if s.subrange(0, find.len() as int) == find {
        rep + replace_all(s.skip(find.len() as int), find, rep)
    } else {
        seq![s[0]] + replace_all(s.skip(1), find, rep)
    }
}

/// The first character, then `rep`, and so on: the tail shape of a
/// replacement whose pattern is empty.
pub open spec fn splice_tail(s: Seq<char>, rep: Seq<char>) -> Seq<char>
    decreases s.len(),
{
    if s.len() == 0 {
        Seq::empty()
    } else {
        seq![s[0]] + rep + splice_tail(s.drop_first(), rep)
    }
}

/// Literal find-and-replace, executable form.
#[verifier::loop_isolation(false)]
pub fn replace_all_exec(s: &Vec<char>, find: &Vec<char>, rep: &Vec<char>) -> (r: Vec<char>)
    ensures
        r@ == replace_all(s@, find@, rep@),
{
    let mut out: Vec<char> = Vec::new();
    if find.len() == 0 {
        push_all(&mut out, rep);
        let mut i: usize = 0;
        proof {
            assert(s@.skip(0) =~= s@);
        }
        while i < s.len()
            invariant
                i <= s@.len(),
                out@ + splice_tail(s@.skip(i as int), rep@) == replace_all(s@, find@, rep@),
            decreases s@.len() - i,
        {
            proof {
                let t = s@.skip(i as int);
                assert(t[0] == s@[i as int]);
                assert(t.drop_first() =~= s@.skip(i as int + 1));
            }
            let ghost before = out@;
            out.push(s[i]);
            push_all(&mut out, rep);
            i = i + 1;
            proof {
                assert(out@ + splice_tail(s@.skip(i as int), rep@) =~= before + splice_tail(
                    s@.skip(i as int - 1),
                    rep@,
                ));
            }
        }
        proof {
            assert(s@.skip(s@.len() as int).len() == 0);
            assert(out@ =~= out@ + splice_tail(s@.skip(s@.len() as int), rep@));
        }
        return out;
    }
    let flen = find.len();
    let mut i: usize = 0;
    proof {
        assert(s@.skip(0) =~= s@);
    }
    while flen <= s.len() - i
        invariant
            i <= s@.len(),
            out@ + replace_all(s@.skip(i as int), find@, rep@) == replace_all(s@, find@, rep@),
        decreases s@.len() - i,
    {
        proof {
            let t = s@.skip(i as int);
            assert(t.subrange(0, flen as int) =~= s@.subrange(i as int, i as int + flen));
        }
        if occurs_at_exec(s, find, i) {
            proof {
                let t = s@.skip(i as int);
                assert(t.skip(flen as int) =~= s@.skip(i as int + flen));
                assert((out@ + rep@) + replace_all(s@.skip(i as int + flen), find@, rep@)
                    =~= out@ + (rep@ + replace_all(s@.skip(i as int + flen), find@, rep@)));
            }
            push_all(&mut out, rep);
            i = i + flen;
        } else {
            proof {
                let t = s@.skip(i as int);
                assert(t[0] == s@[i as int]);
                assert(t.skip(1) =~= s@.skip(i as int + 1));
                assert((out@ + seq![s@[i as int]]) + replace_all(s@.skip(i as int + 1), find@, rep@)
                    =~= out@ + (seq![s@[i as int]] + replace_all(s@.skip(i as int + 1), find@, rep@)));
            }
            out.push(s[i]);
            i = i + 1;
        }
    }
    while i < s.len()
        invariant
            i <= s@.len(),
            s@.len() - i < flen,
            out@ + s@.skip(i as int) == replace_all(s@, find@, rep@),
        decreases s@.len() - i,
    {
        proof {
            let t = s@.skip(i as int);
            assert(t[0] == s@[i as int]);
            assert((out@ + seq![s@[i as int]]) + s@.skip(i as int + 1) =~= out@ + s@.skip(
                i as int,
            ));
        }
        out.push(s[i]);
        i = i + 1;
    }
    proof {
        assert(out@ =~= out@ + s@.skip(s@.len() as int));
    }
    out
}

} // verus!
