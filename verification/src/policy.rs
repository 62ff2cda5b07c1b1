//! Skip policy: a file with a stored description is skipped unless the
//! description is "generic" — it contains one of the boilerplate tokens
//! `image`, `photo`, `picture`, `photograph` as a whole word, case
//! insensitively. A file without a stored description is never skipped.

use vstd::prelude::*;
use crate::text::{char_is_word, char_to_lower, is_word_char, lower_char, to_chars};

verus! {

pub open spec fn token_image() -> Seq<char> {
    seq!['i', 'm', 'a', 'g', 'e']
}

pub open spec fn token_photo() -> Seq<char> {
    seq!['p', 'h', 'o', 't', 'o']
}

pub open spec fn token_picture() -> Seq<char> {
    seq!['p', 'i', 'c', 't', 'u', 'r', 'e']
}

pub open spec fn token_photograph() -> Seq<char> {
    seq!['p', 'h', 'o', 't', 'o', 'g', 'r', 'a', 'p', 'h']
}

/// The boilerplate tokens, numbered.
pub open spec fn generic_token(k: int) -> Seq<char> {
    if k == 0 {
        token_image()
    } else if k == 1 {
        token_photo()
    } else if k == 2 {
        token_picture()
    } else {
        token_photograph()
    }
}

/// `tok` occurs in `s` at position `i` as a whole word, case-insensitively:
/// the characters match after ASCII lowering and no word character borders
/// the occurrence on either side.
pub open spec fn word_at(s: Seq<char>, tok: Seq<char>, i: int) -> bool {
    &&& 0 <= i
    &&& i + tok.len() <= s.len()
    &&& (forall|j: int| 0 <= j < tok.len() ==> lower_char(s[i + j]) == tok[j])
    &&& (i == 0 || !is_word_char(s[i - 1]))
    &&& (i + tok.len() == s.len() || !is_word_char(s[i + tok.len()]))
}

/// Some boilerplate token occurs in `s` as a whole word.
pub open spec fn has_generic_token(s: Seq<char>) -> bool {
    exists|k: int, i: int| 0 <= k < 4 && word_at(s, generic_token(k), i)
}

/// The skip decision on a stored description.
pub open spec fn spec_can_be_skipped(description: Option<Seq<char>>) -> bool {
    match description {
        Some(d) => !has_generic_token(d),
        None => false,
    }
}

/// Whether `tok` occurs as a whole word at position `i` of `s`.
fn word_at_exec(s: &Vec<char>, tok: &Vec<char>, i: usize) -> (r: bool)
    requires
        i + tok@.len() <= s@.len(),
    ensures
        r == word_at(s@, tok@, i as int),
{
    let n = s.len();
    let m = tok.len();
    if i > 0 && char_is_word(s[i - 1]) {
        return false;
    }
    if i + m < n && char_is_word(s[i + m]) {
        return false;
    }
    let mut j: usize = 0;
    while j < m
        invariant
            n == s@.len(),
            m == tok@.len(),
            i + m <= n,
            j <= m,
            i == 0 || !is_word_char(s@[i - 1]),
            i + m == n || !is_word_char(s@[i + m]),
            forall|k: int| 0 <= k < j ==> lower_char(s@[i + k]) == tok@[k],
        decreases m - j,
    {
        if char_to_lower(s[i + j]) != tok[j] {
            return false;
        }
        j = j + 1;
    }
    true
}

/// Whether `tok` occurs as a whole word anywhere in `s`.
fn find_word(s: &Vec<char>, tok: &Vec<char>) -> (r: bool)
    requires
        tok@.len() >= 1,
    ensures
        r == exists|i: int| word_at(s@, tok@, i),
{
    let n = s.len();
    let m = tok.len();
    if m > n {
        assert(forall|i: int| !word_at(s@, tok@, i));
        return false;
    }
    let mut i: usize = 0;
    while i <= n - m
        invariant
            n == s@.len(),
            m == tok@.len(),
            1 <= m <= n,
            i <= n - m + 1,
            forall|k: int| 0 <= k < i ==> !word_at(s@, tok@, k),
        decreases n - i,
    {
        if word_at_exec(s, tok, i) {
            assert(word_at(s@, tok@, i as int));
            return true;
        }
        i = i + 1;
    }
    assert(forall|k: int| !word_at(s@, tok@, k));
    false
}

/// Whether some boilerplate token occurs in `s` as a whole word,
/// proved equal to [`has_generic_token`].
pub fn is_generic_description(s: &str) -> (r: bool)
    ensures
        r == has_generic_token(s@),
{
    let cs = to_chars(s);
    let t0: Vec<char> = vec!['i', 'm', 'a', 'g', 'e'];
    let t1: Vec<char> = vec!['p', 'h', 'o', 't', 'o'];
    let t2: Vec<char> = vec!['p', 'i', 'c', 't', 'u', 'r', 'e'];
    let t3: Vec<char> = vec!['p', 'h', 'o', 't', 'o', 'g', 'r', 'a', 'p', 'h'];
    proof {
        assert(t0@ =~= generic_token(0));
        assert(t1@ =~= generic_token(1));
        assert(t2@ =~= generic_token(2));
        assert(t3@ =~= generic_token(3));
    }
    let r = find_word(&cs, &t0) || find_word(&cs, &t1) || find_word(&cs, &t2) || find_word(
        &cs,
        &t3,
    );
    proof {
        if has_generic_token(s@) {
            let (k, i) = choose|k: int, i: int| 0 <= k < 4 && word_at(s@, generic_token(k), i);
            if k == 0 {
                assert(word_at(cs@, t0@, i));
            } else if k == 1 {
                assert(word_at(cs@, t1@, i));
            } else if k == 2 {
                assert(word_at(cs@, t2@, i));
            } else {
                assert(word_at(cs@, t3@, i));
            }
        }
        if r {
            assert(has_generic_token(s@)) by {
                if exists|i: int| word_at(cs@, t0@, i) {
                    let i = choose|i: int| word_at(cs@, t0@, i);
                    assert(word_at(s@, generic_token(0), i));
                } else if exists|i: int| word_at(cs@, t1@, i) {
                    let i = choose|i: int| word_at(cs@, t1@, i);
                    assert(word_at(s@, generic_token(1), i));
                } else if exists|i: int| word_at(cs@, t2@, i) {
                    let i = choose|i: int| word_at(cs@, t2@, i);
                    assert(word_at(s@, generic_token(2), i));
                } else {
                    let i = choose|i: int| word_at(cs@, t3@, i);
                    assert(word_at(s@, generic_token(3), i));
                }
            }
        }
    }
    r
}

/// The skip decision for a file, given its stored description: no stored
/// description means the file needs processing; a stored but generic
/// description is treated as a placeholder and reprocessed; any other
/// stored description lets the file be skipped.
pub fn can_be_skipped(description: &Option<String>) -> (r: bool)
    ensures
        r == spec_can_be_skipped(description.deep_view()),
{
    match description {
        Some(d) => !is_generic_description(d.as_str()),
        None => false,
    }
}

} // verus!
