//! Character-level text helpers: ASCII lower-casing, search-key
//! normalization, trimming, and small string predicates used across
//! the crate.
//!
//! All functions address text by character index, never by byte index;
//! conversion from byte-addressed storage happens outside this crate.

use vstd::prelude::*;
use vstd::string::StrSliceExecFns;

verus! {

/// ASCII lower-casing of one character; every other character is unchanged.
pub open spec fn lower_char(c: char) -> char {
    if 'A' <= c && c <= 'Z' {
        ((c as u32) + 32) as char
    } else {
        c
    }
}

/// ASCII lower-casing of a character sequence.
pub open spec fn lower_seq(s: Seq<char>) -> Seq<char> {
    s.map_values(|c: char| lower_char(c))
}

/// Normalized form of a search key: `-` and `_` removed, ASCII letters
/// lower-cased, all other characters kept as they are.
pub open spec fn norm_seq(s: Seq<char>) -> Seq<char>
    decreases s.len(),
{
    if s.len() == 0 {
        Seq::empty()
    } else if s[0] == '-' || s[0] == '_' {
        norm_seq(s.drop_first())
    } else {
        seq![lower_char(s[0])] + norm_seq(s.drop_first())
    }
}

/// Lower-casing one character twice is the same as doing it once.
pub proof fn lemma_lower_char_idempotent(c: char)
    ensures
        lower_char(lower_char(c)) == lower_char(c),
{
    if 'A' <= c && c <= 'Z' {
        assert(lower_char(c) as u32 == (c as u32) + 32);
    }
}

/// Lower-casing never produces the separators that normalization strips.
pub proof fn lemma_lower_char_no_separator(c: char)
    ensures
        (lower_char(c) == '-') == (c == '-'),
        (lower_char(c) == '_') == (c == '_'),
{
    if 'A' <= c && c <= 'Z' {
        assert(lower_char(c) as u32 == (c as u32) + 32);
    }
}

/// Appending one character to the input extends the normalized form by
/// at most that one character.
pub proof fn lemma_norm_snoc(s: Seq<char>, c: char)
    ensures
        norm_seq(s.push(c)) == if c == '-' || c == '_' {
            norm_seq(s)
        } else {
            norm_seq(s).push(lower_char(c))
        },
    decreases s.len(),
{
    if s.len() == 0 {
        assert(s.push(c)[0] == c);
        assert(s.push(c).drop_first() =~= Seq::<char>::empty());
        assert(norm_seq(Seq::<char>::empty()) == Seq::<char>::empty());
        if !(c == '-' || c == '_') {
            assert(seq![lower_char(c)] + Seq::<char>::empty() =~= norm_seq(s).push(
                lower_char(c),
            ));
        }
    } else {
        assert(s.push(c).drop_first() =~= s.drop_first().push(c));
        lemma_norm_snoc(s.drop_first(), c);
        assert(s.push(c)[0] == s[0]);
        if !(s[0] == '-' || s[0] == '_') && !(c == '-' || c == '_') {
            assert(seq![lower_char(s[0])] + norm_seq(s.drop_first()).push(lower_char(c))
                =~= (seq![lower_char(s[0])] + norm_seq(s.drop_first())).push(lower_char(c)));
        }
    }
}

/// Normalization is idempotent: a normalized key is left unchanged by a
/// second normalization.
pub proof fn lemma_norm_idempotent(s: Seq<char>)
    ensures
        norm_seq(norm_seq(s)) == norm_seq(s),
    decreases s.len(),
{
    if s.len() == 0 {
    } else if s[0] == '-' || s[0] == '_' {
        lemma_norm_idempotent(s.drop_first());
    } else {
        let c = lower_char(s[0]);
        lemma_norm_idempotent(s.drop_first());
        lemma_lower_char_idempotent(s[0]);
        lemma_lower_char_no_separator(s[0]);
        let t = seq![c] + norm_seq(s.drop_first());
        assert(t[0] == c);
        assert(t.drop_first() =~= norm_seq(s.drop_first()));
        assert(norm_seq(t) == seq![lower_char(c)] + norm_seq(t.drop_first()));
    }
}

/// Normalizing an already lower-cased key gives the key's normal form.
pub proof fn lemma_norm_of_lower(s: Seq<char>)
    ensures
        norm_seq(lower_seq(s)) == norm_seq(s),
    decreases s.len(),
{
    if s.len() == 0 {
        assert(lower_seq(s) =~= Seq::<char>::empty());
    } else {
        assert(lower_seq(s).drop_first() =~= lower_seq(s.drop_first()));
        assert(lower_seq(s)[0] == lower_char(s[0]));
        lemma_norm_of_lower(s.drop_first());
        lemma_lower_char_idempotent(s[0]);
        lemma_lower_char_no_separator(s[0]);
    }
}

/// Lower-casing a sequence twice is the same as doing it once.
pub proof fn lemma_lower_seq_idempotent(s: Seq<char>)
    ensures
        lower_seq(lower_seq(s)) == lower_seq(s),
{
    assert forall|i: int| 0 <= i < s.len() implies #[trigger] lower_seq(lower_seq(s))[i]
        == lower_seq(s)[i] by {
        lemma_lower_char_idempotent(s[i]);
    }
    assert(lower_seq(lower_seq(s)) =~= lower_seq(s));
}

fn lower_char_exec(c: char) -> (r: char)
    ensures
        r == lower_char(c),
{
    let u: u32 = c as u32;
    if 65 <= u && u <= 90 {
        ((c as u8) + 32) as char
    } else {
        c
    }
}

/// Relies on String::push: appends exactly the one given character.
#[verifier::external_body]
fn push_char(s: &mut String, c: char)
    ensures
        final(s)@ == old(s)@.push(c),
{
    s.push(c)
}

/// ASCII lower-casing of a string.
pub fn lowercase(s: &str) -> (r: String)
    ensures
        r@ == lower_seq(s@),
{
    let n: usize = s.unicode_len();
    let mut r = String::new();
    let mut i: usize = 0;
    while i < n
        invariant
            i <= n,
            n == s@.len(),
            r@ == lower_seq(s@.take(i as int)),
        decreases n - i,
    {
        let c = s.get_char(i);
        push_char(&mut r, lower_char_exec(c));
        proof {
            assert(lower_seq(s@.take(i + 1 as int)) =~= lower_seq(s@.take(i as int)).push(
                lower_char(c),
            ));
        }
        i += 1;
    }
    proof {
        assert(s@.take(n as int) =~= s@);
    }
    r
}

/// Search-key normalization: `-` and `_` removed, ASCII letters lower-cased.
pub fn normalize(s: &str) -> (r: String)
    ensures
        r@ == norm_seq(s@),
{
    let n: usize = s.unicode_len();
    let mut r = String::new();
    let mut i: usize = 0;
    while i < n
        invariant
            i <= n,
            n == s@.len(),
            r@ == norm_seq(s@.take(i as int)),
        decreases n - i,
    {
        let c = s.get_char(i);
        proof {
            lemma_norm_snoc(s@.take(i as int), c);
            assert(s@.take(i + 1 as int) =~= s@.take(i as int).push(c));
        }
        if !(c == '-' || c == '_') {
            push_char(&mut r, lower_char_exec(c));
        }
        i += 1;
    }
    proof {
        assert(s@.take(n as int) =~= s@);
    }
    r
}

/// Whether `p` is a prefix of `s`, compared character by character.
pub fn str_starts_with(s: &str, p: &str) -> (r: bool)
    ensures
        r == p@.is_prefix_of(s@),
{
    let ns: usize = s.unicode_len();
    let np: usize = p.unicode_len();
    if np > ns {
        return false;
    }
    let mut i: usize = 0;
    while i < np
        invariant
            i <= np,
            np <= ns,
            ns == s@.len(),
            np == p@.len(),
            forall|j: int| 0 <= j < i ==> p@[j] == s@[j],
        decreases np - i,
    {
        if s.get_char(i) != p.get_char(i) {
            assert(p@[i as int] != s@.subrange(0, np as int)[i as int]);
            return false;
        }
        i += 1;
    }
    assert(p@ =~= s@.subrange(0, np as int));
    true
}

/// Whether `p` is a suffix of `s`, compared character by character.
pub fn str_ends_with(s: &str, p: &str) -> (r: bool)
    ensures
        r == p@.is_suffix_of(s@),
{
    let ns: usize = s.unicode_len();
    let np: usize = p.unicode_len();
    if np > ns {
        return false;
    }
    let d: usize = ns - np;
    let mut i: usize = 0;
    while i < np
        invariant
            i <= np,
            np <= ns,
            d == ns - np,
            ns == s@.len(),
            np == p@.len(),
            forall|j: int| 0 <= j < i ==> p@[j] == s@[d + j],
        decreases np - i,
    {
        if s.get_char(d + i) != p.get_char(i) {
            assert(p@[i as int] != s@.subrange(d as int, ns as int)[i as int]);
            return false;
        }
        i += 1;
    }
    assert(p@ =~= s@.subrange(d as int, ns as int));
    true
}

/// First position at or after `i` holding character `c`; the sequence
/// length if there is none.
pub open spec fn scan_char(s: Seq<char>, c: char, i: int) -> int
    decreases s.len() - i,
{
    if 0 <= i < s.len() {
        if s[i] == c {
            i
        } else {
            scan_char(s, c, i + 1)
        }
    } else {
        s.len() as int
    }
}

pub proof fn lemma_scan_char_bounds(s: Seq<char>, c: char, i: int)
    requires
        0 <= i <= s.len(),
    ensures
        i <= scan_char(s, c, i) <= s.len(),
        scan_char(s, c, i) < s.len() ==> s[scan_char(s, c, i)] == c,
        forall|j: int| i <= j < scan_char(s, c, i) ==> s[j] != c,
    decreases s.len() - i,
{
    if i < s.len() && s[i] != c {
        lemma_scan_char_bounds(s, c, i + 1);
    }
}

/// First position at or after `start` holding `c`, as an executable scan.
pub fn find_char_from(s: &str, c: char, start: usize) -> (r: usize)
    requires
        start <= s@.len(),
    ensures
        r == scan_char(s@, c, start as int),
{
    let n: usize = s.unicode_len();
    let mut i: usize = start;
    while i < n
        invariant
            start <= i <= n,
            n == s@.len(),
            scan_char(s@, c, start as int) == scan_char(s@, c, i as int),
        decreases n - i,
    {
        if s.get_char(i) == c {
            return i;
        }
        i += 1;
    }
    n
}

/// The characters that trimming removes at either end of a line fragment.
pub open spec fn is_space(c: char) -> bool {
    c == ' ' || c == '\t' || c == '\r'
}

/// First position at or after `i` holding a non-space character; the
/// sequence length if there is none.
pub open spec fn trim_start_idx(s: Seq<char>, i: int) -> int
    decreases s.len() - i,
{
    if 0 <= i < s.len() {
        if is_space(s[i]) {
            trim_start_idx(s, i + 1)
        } else {
            i
        }
    } else {
        s.len() as int
    }
}

/// One past the last non-space position strictly before `i`; zero if
/// there is none.
pub open spec fn trim_end_idx(s: Seq<char>, i: int) -> int
    decreases i,
{
    if 0 < i <= s.len() {
        if is_space(s[i - 1]) {
            trim_end_idx(s, i - 1)
        } else {
            i
        }
    } else {
        0
    }
}

/// The fragment with spaces removed from both ends.
pub open spec fn trimmed(s: Seq<char>) -> Seq<char> {
    let a = trim_start_idx(s, 0);
    let b = trim_end_idx(s, s.len() as int);
    if a <= b {
        s.subrange(a, b)
    } else {
        Seq::empty()
    }
}

proof fn lemma_trim_start_bounds(s: Seq<char>, i: int)
    requires
        0 <= i <= s.len(),
    ensures
        i <= trim_start_idx(s, i) <= s.len(),
    decreases s.len() - i,
{
    if i < s.len() && is_space(s[i]) {
        lemma_trim_start_bounds(s, i + 1);
    }
}

proof fn lemma_trim_end_bounds(s: Seq<char>, i: int)
    requires
        0 <= i <= s.len(),
    ensures
        0 <= trim_end_idx(s, i) <= i,
    decreases i,
{
    if 0 < i && is_space(s[i - 1]) {
        lemma_trim_end_bounds(s, i - 1);
    }
}

fn first_nonspace(s: &str) -> (r: usize)
    ensures
        r as int == trim_start_idx(s@, 0),
{
    let n: usize = s.unicode_len();
    let mut i: usize = 0;
    while i < n
        invariant
            i <= n,
            n == s@.len(),
            trim_start_idx(s@, 0) == trim_start_idx(s@, i as int),
        decreases n - i,
    {
        let c = s.get_char(i);
        if !(c == ' ' || c == '\t' || c == '\r') {
            return i;
        }
        i += 1;
    }
    n
}

fn after_last_nonspace(s: &str) -> (r: usize)
    ensures
        r as int == trim_end_idx(s@, s@.len() as int),
{
    let n: usize = s.unicode_len();
    let mut i: usize = n;
    while i > 0
        invariant
            i <= n,
            n == s@.len(),
            trim_end_idx(s@, n as int) == trim_end_idx(s@, i as int),
        decreases i,
    {
        let c = s.get_char(i - 1);
        if !(c == ' ' || c == '\t' || c == '\r') {
            return i;
        }
        i -= 1;
    }
    0
}

/// The fragment with spaces removed from both ends, as an executable scan.
pub fn trim_spaces<'a>(s: &'a str) -> (r: &'a str)
    ensures
        r@ == trimmed(s@),
{
    let a: usize = first_nonspace(s);
    let b: usize = after_last_nonspace(s);
    proof {
        lemma_trim_start_bounds(s@, 0);
        lemma_trim_end_bounds(s@, s@.len() as int);
    }
    if a <= b {
        s.substring_char(a, b)
    } else {
        proof {
            assert(Seq::<char>::empty() =~= s@.subrange(a as int, a as int));
        }
        s.substring_char(a, a)
    }
}

} // verus!
