//! Path string logic: extension check for JPEG files and extraction of the
//! immediate parent directory name used as a coarse location hint.

use vstd::prelude::*;
use vstd::string::*;
use crate::text::{char_to_lower, lower_char, to_chars};

verus! {

/// Index of the last occurrence of `c` in `s`, or `-1` if `c` is absent.
pub open spec fn last_pos(s: Seq<char>, c: char) -> int
    decreases s.len(),
{
    if s.len() == 0 {
        -1
    } else if s[s.len() - 1] == c {
        s.len() - 1
    } else {
        last_pos(s.drop_last(), c)
    }
}

pub proof fn lemma_last_pos(s: Seq<char>, c: char)
    ensures
        last_pos(s, c) == -1 || (0 <= last_pos(s, c) < s.len() && s[last_pos(s, c)] == c),
        forall|j: int| last_pos(s, c) < j < s.len() ==> s[j] != c,
    decreases s.len(),
{
    if s.len() > 0 {
        lemma_last_pos(s.drop_last(), c);
        assert(forall|j: int| 0 <= j < s.len() - 1 ==> s[j] == s.drop_last()[j]);
    }
}

/// The extension of a path: the part of the final path component after its
/// last `.`, provided that dot is not the component's first character.
pub open spec fn extension_of(path: Seq<char>) -> Option<Seq<char>> {
    let l = last_pos(path, '/');
    let fname = path.subrange(l + 1, path.len() as int);
    let d = last_pos(fname, '.');
    if d <= 0 {
        None
    } else {
        Some(fname.subrange(d + 1, fname.len() as int))
    }
}

/// Whether a path names a JPEG file: its extension, lowered, is `jpg` or
/// `jpeg`.
pub open spec fn spec_is_jpeg(path: Seq<char>) -> bool {
    match extension_of(path) {
        Some(e) => {
            let le = e.map_values(|c: char| lower_char(c));
            le == "jpg"@ || le == "jpeg"@
        },
        None => false,
    }
}

/// The immediate parent directory name of a path, or `Unknown` when the
/// path has no parent component (consecutive separators also yield the
/// fallback).
pub open spec fn folder_name_of(path: Seq<char>) -> Seq<char> {
    let l = last_pos(path, '/');
    if l == -1 {
        "Unknown"@
    } else {
        let parent = path.subrange(0, l);
        let l2 = last_pos(parent, '/');
        let name = parent.subrange(l2 + 1, parent.len() as int);
        if name.len() == 0 {
            "Unknown"@
        } else {
            name
        }
    }
}

/// Index of the last occurrence of `c` in `s`, scanning from the end.
fn find_last(s: &Vec<char>, c: char) -> (r: Option<usize>)
    ensures
        match r {
            Some(p) => p < s@.len() && last_pos(s@, c) == p as int,
            None => last_pos(s@, c) == -1,
        },
{
    let n = s.len();
    let mut i: usize = n;
    while i > 0
        invariant
            n == s@.len(),
            i <= n,
            forall|j: int| i <= j < n ==> s@[j] != c,
        decreases i,
    {
        i = i - 1;
        if s[i] == c {
            proof {
                lemma_last_pos(s@, c);
                assert(last_pos(s@, c) == i as int) by {
                    if last_pos(s@, c) > i as int {
                        assert(s@[last_pos(s@, c)] != c);
                    }
                    if last_pos(s@, c) < i as int {
                        assert(s@[i as int] != c);
                    }
                }
            }
            return Some(i);
        }
    }
    proof {
        lemma_last_pos(s@, c);
        if last_pos(s@, c) != -1 {
            assert(s@[last_pos(s@, c)] != c);
        }
    }
    None
}

/// Whether the lowered characters of `e` spell exactly `tok`.
fn lowered_equals(e: &Vec<char>, tok: &Vec<char>) -> (r: bool)
    ensures
        r == (e@.map_values(|c: char| lower_char(c)) == tok@),
{
    let n = e.len();
    let m = tok.len();
    if n != m {
        assert(e@.map_values(|c: char| lower_char(c)).len() == n);
        return false;
    }
    let mut i: usize = 0;
    while i < n
        invariant
            n == e@.len(),
            n == tok@.len(),
            i <= n,
            forall|j: int| 0 <= j < i ==> lower_char(e@[j]) == tok@[j],
        decreases n - i,
    {
        if char_to_lower(e[i]) != tok[i] {
            assert(e@.map_values(|c: char| lower_char(c))[i as int] != tok@[i as int]);
            return false;
        }
        i = i + 1;
    }
    assert(e@.map_values(|c: char| lower_char(c)) =~= tok@);
    true
}

/// Whether the path names a JPEG file, by its extension.
pub fn is_jpeg(path: &str) -> (r: bool)
    ensures
        r == spec_is_jpeg(path@),
{
    let cs = to_chars(path);
    let n = cs.len();
    let fstart: usize = match find_last(&cs, '/') {
        Some(p) => p + 1,
        None => 0,
    };
    proof {
        lemma_last_pos(cs@, '/');
    }
    let fname: Vec<char> = {
        let mut v: Vec<char> = Vec::new();
        let mut i: usize = fstart;
        while i < n
            invariant
                n == cs@.len(),
                fstart <= i <= n,
                v@ == cs@.subrange(fstart as int, i as int),
            decreases n - i,
        {
            v.push(cs[i]);
            proof {
                assert(cs@.subrange(fstart as int, i as int).push(cs@[i as int]) =~= cs@.subrange(
                    fstart as int,
                    i + 1 as int,
                ));
            }
            i = i + 1;
        }
        v
    };
    assert(fname@ == cs@.subrange(fstart as int, n as int));
    proof {
        lemma_last_pos(fname@, '.');
    }
    let d = match find_last(&fname, '.') {
        Some(p) => p,
        None => {
            assert(!spec_is_jpeg(path@));
            return false;
        },
    };
    if d == 0 {
        assert(!spec_is_jpeg(path@));
        return false;
    }
    let fn_len = fname.len();
    let ext: Vec<char> = {
        let mut v: Vec<char> = Vec::new();
        let mut i: usize = d + 1;
        while i < fn_len
            invariant
                fn_len == fname@.len(),
                d + 1 <= i <= fn_len,
                v@ == fname@.subrange(d + 1 as int, i as int),
            decreases fn_len - i,
        {
            v.push(fname[i]);
            proof {
                assert(fname@.subrange(d + 1 as int, i as int).push(fname@[i as int])
                    =~= fname@.subrange(d + 1 as int, i + 1 as int));
            }
            i = i + 1;
        }
        v
    };
    assert(ext@ == fname@.subrange(d + 1 as int, fn_len as int));
    let jpg: Vec<char> = vec!['j', 'p', 'g'];
    let jpeg: Vec<char> = vec!['j', 'p', 'e', 'g'];
    proof {
        reveal_strlit("jpg");
        reveal_strlit("jpeg");
        assert(jpg@ =~= "jpg"@);
        assert(jpeg@ =~= "jpeg"@);
    }
    let r = lowered_equals(&ext, &jpg) || lowered_equals(&ext, &jpeg);
    r
}

/// The immediate parent directory name of the path, with `Unknown` as the
/// fallback when the path has no parent component.
pub fn folder_name(path: &str) -> (r: String)
    ensures
        r@ == folder_name_of(path@),
{
    let cs = to_chars(path);
    let l = match find_last(&cs, '/') {
        Some(p) => p,
        None => {
            return String::from_str("Unknown");
        },
    };
    let parent: Vec<char> = {
        let mut v: Vec<char> = Vec::new();
        let mut i: usize = 0;
        while i < l
            invariant
                l <= cs@.len(),
                i <= l,
                v@ == cs@.subrange(0, i as int),
            decreases l - i,
        {
            v.push(cs[i]);
            proof {
                assert(cs@.subrange(0, i as int).push(cs@[i as int]) =~= cs@.subrange(
                    0,
                    i + 1 as int,
                ));
            }
            i = i + 1;
        }
        v
    };
    assert(parent@ == cs@.subrange(0, l as int));
    let nstart: usize = match find_last(&parent, '/') {
        Some(p) => p + 1,
        None => 0,
    };
    if nstart == l {
        return String::from_str("Unknown");
    }
    let name = path.substring_char(nstart, l);
    proof {
        assert(name@ =~= parent@.subrange(nstart as int, parent@.len() as int));
    }
    String::from_str(name)
}

} // verus!
