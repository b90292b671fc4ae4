//! Glob matching for ignore patterns.
//!
//! A pattern matches path components: `*` stands for any run of bytes other
//! than the separator, `?` for one such byte, anything else for itself. A
//! pattern without a separator is matched against the path's last component;
//! one with a separator is matched against the whole path. A trailing
//! separator restricts the pattern to directories.

use vstd::prelude::*;
use crate::tree::SLASH;

verus! {

/// The `*` wildcard.
pub const STAR: u8 = 42;

/// The `?` wildcard.
pub const QMARK: u8 = 63;

/// The negation prefix `!`.
pub const BANG: u8 = 33;

/// Whether the glob `p` matches all of `s`.
pub open spec fn glob_match(p: Seq<u8>, s: Seq<u8>) -> bool
    decreases p.len() + s.len(),
{
    if p.len() == 0 {
        s.len() == 0
    } else if p[0] == STAR {
        glob_match(p.skip(1), s) || (s.len() > 0 && s[0] != SLASH && glob_match(p, s.skip(1)))
    } else if p[0] == QMARK {
        s.len() > 0 && s[0] != SLASH && glob_match(p.skip(1), s.skip(1))
    } else {
        s.len() > 0 && s[0] == p[0] && glob_match(p.skip(1), s.skip(1))
    }
}

/// Decide `glob_match` on the suffixes of `p` and `s` from `pi` and `si` on.
fn glob_at(p: &Vec<u8>, s: &Vec<u8>, pi: usize, si: usize) -> (r: bool)
    requires
        pi <= p@.len(),
        si <= s@.len(),
    ensures
        r == glob_match(p@.skip(pi as int), s@.skip(si as int)),
    decreases p@.len() - pi + s@.len() - si,
{
    proof {
        if pi < p@.len() {
            assert(p@.skip(pi as int)[0] == p@[pi as int]);
            assert(p@.skip(pi as int).skip(1) =~= p@.skip(pi as int + 1));
        }
        if si < s@.len() {
            assert(s@.skip(si as int)[0] == s@[si as int]);
            assert(s@.skip(si as int).skip(1) =~= s@.skip(si as int + 1));
        }
    }
    if pi >= p.len() {
        return si >= s.len();
    }
    let pc = p[pi];
    if pc == STAR {
        if glob_at(p, s, pi + 1, si) {
            return true;
        }
        if si < s.len() && s[si] != SLASH {
            return glob_at(p, s, pi, si + 1);
        }
        false
    } else if pc == QMARK {
        if si < s.len() && s[si] != SLASH {
            glob_at(p, s, pi + 1, si + 1)
        } else {
            false
        }
    } else {
        if si < s.len() && s[si] == pc {
            glob_at(p, s, pi + 1, si + 1)
        } else {
            false
        }
    }
}

/// Whether the glob `p` matches all of `s`, from the start.
pub fn glob_matches(p: &Vec<u8>, s: &Vec<u8>) -> (r: bool)
    ensures
        r == glob_match(p@, s@),
{
    proof {
        assert(p@.skip(0) =~= p@);
        assert(s@.skip(0) =~= s@);
    }
    glob_at(p, s, 0, 0)
}

/// Whether `s` holds a separator.
pub open spec fn has_slash(s: Seq<u8>) -> bool {
    exists|i: int| 0 <= i < s.len() && s[i] == SLASH
}

/// The path's last component: everything after the final separator.
pub open spec fn basename(s: Seq<u8>) -> Seq<u8>
    decreases s.len(),
{
    if s.len() == 0 {
        Seq::empty()
    } else if s[s.len() - 1] == SLASH {
        Seq::empty()
    } else {
        basename(s.take(s.len() - 1)).push(s[s.len() - 1])
    }
}

proof fn lemma_basename_split(s: Seq<u8>, j: int)
    requires
        0 <= j < s.len(),
        s[j] == SLASH,
        forall|i: int| j < i < s.len() ==> s[i] != SLASH,
    ensures
        basename(s) == s.subrange(j + 1, s.len() as int),
    decreases s.len(),
{
    if j == s.len() - 1 {
        assert(s.subrange(j + 1, s.len() as int) =~= Seq::<u8>::empty());
    } else {
        let t = s.take(s.len() - 1);
        lemma_basename_split(t, j);
        assert(basename(s) == basename(t).push(s[s.len() - 1]));
        assert(t.subrange(j + 1, t.len() as int).push(s[s.len() - 1]) =~= s.subrange(
            j + 1,
            s.len() as int,
        ));
    }
}

proof fn lemma_basename_noslash(s: Seq<u8>)
    requires
        forall|i: int| 0 <= i < s.len() ==> s[i] != SLASH,
    ensures
        basename(s) == s,
    decreases s.len(),
{
    if s.len() == 0 {
        assert(basename(s) =~= s);
    } else {
        let t = s.take(s.len() - 1);
        lemma_basename_noslash(t);
        assert(basename(s) == t.push(s[s.len() - 1]));
        assert(t.push(s[s.len() - 1]) =~= s);
    }
}

/// Extract the path's last component.
pub fn basename_of(s: &Vec<u8>) -> (r: Vec<u8>)
    ensures
        r@ == basename(s@),
{
    let n: usize = s.len();
    let mut j: usize = n;
    while j > 0
        invariant
            j <= n,
            n == s@.len(),
            forall|i: int| j <= i < n ==> s@[i] != SLASH,
        decreases j,
    {
        if s[j - 1] == SLASH {
            proof {
                lemma_basename_split(s@, j - 1);
            }
            return crate::codec::copy_bytes_range(s, j, n);
        }
        j -= 1;
    }
    proof {
        lemma_basename_noslash(s@);
        assert(s@.subrange(0, n as int) =~= s@);
    }
    crate::codec::copy_bytes_range(s, 0, n)
}

/// One ignore rule: the glob text and whether it un-ignores.
pub struct Pattern {
    pub text: Vec<u8>,
    pub negative: bool,
}

/// Mathematical value of an ignore rule.
pub struct PatternV {
    pub text: Seq<u8>,
    pub negative: bool,
}

impl View for Pattern {
    type V = PatternV;

    open spec fn view(&self) -> PatternV {
        PatternV { text: self.text@, negative: self.negative }
    }
}

/// Reading a raw pattern: a leading `!` marks negation.
pub open spec fn parse_pattern_spec(raw: Seq<u8>) -> PatternV {
    if raw.len() > 0 && raw[0] == BANG {
        PatternV { text: raw.skip(1), negative: true }
    } else {
        PatternV { text: raw, negative: false }
    }
}

/// Read a raw pattern.
pub fn parse_pattern(raw: &Vec<u8>) -> (r: Pattern)
    ensures
        r@ == parse_pattern_spec(raw@),
{
    let n: usize = raw.len();
    if n > 0 && raw[0] == BANG {
        let text = crate::codec::copy_bytes_range(raw, 1, n);
        proof {
            assert(raw@.subrange(1, n as int) =~= raw@.skip(1));
        }
        Pattern { text, negative: true }
    } else {
        let text = crate::tree::clone_bytes(raw);
        Pattern { text, negative: false }
    }
}

/// Whether the rule text matches `path` (a path of kind `is_dir`): a trailing
/// separator restricts to directories, a separator-free text matches the last
/// component, and an empty text matches nothing.
pub open spec fn pattern_match(text: Seq<u8>, path: Seq<u8>, is_dir: bool) -> bool {
    if text.len() == 0 {
        false
    } else if text[text.len() - 1] == SLASH {
        is_dir && inner_match(text.take(text.len() - 1), path)
    } else {
        inner_match(text, path)
    }
}

/// Match against the whole path when the text names directories, against the
/// last component otherwise.
pub open spec fn inner_match(text: Seq<u8>, path: Seq<u8>) -> bool {
    if has_slash(text) {
        glob_match(text, path)
    } else {
        glob_match(text, basename(path))
    }
}

/// Whether `text` holds a separator.
fn text_has_slash(text: &Vec<u8>) -> (r: bool)
    ensures
        r == has_slash(text@),
{
    let n: usize = text.len();
    let mut i: usize = 0;
    while i < n
        invariant
            i <= n,
            n == text@.len(),
            forall|j: int| 0 <= j < i ==> text@[j] != SLASH,
        decreases n - i,
    {
        if text[i] == SLASH {
            return true;
        }
        i += 1;
    }
    false
}

/// Decide `pattern_match` for a rule text.
pub fn pattern_matches(text: &Vec<u8>, path: &Vec<u8>, is_dir: bool) -> (r: bool)
    ensures
        r == pattern_match(text@, path@, is_dir),
{
    let n: usize = text.len();
    if n == 0 {
        return false;
    }
    if text[n - 1] == SLASH {
        if !is_dir {
            return false;
        }
        let trimmed = crate::codec::copy_bytes_range(text, 0, n - 1);
        proof {
            assert(trimmed@ =~= text@.take(n - 1));
        }
        inner_matches(&trimmed, path)
    } else {
        inner_matches(text, path)
    }
}

/// Decide `inner_match`.
fn inner_matches(text: &Vec<u8>, path: &Vec<u8>) -> (r: bool)
    ensures
        r == inner_match(text@, path@),
{
    if text_has_slash(text) {
        glob_matches(text, path)
    } else {
        let base = basename_of(path);
        glob_matches(text, &base)
    }
}

} // verus!
