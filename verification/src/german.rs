//! The per-word machine: casing classification and rewriting of German
//! special characters.
//!
//! The special characters are the umlaut vowels (a, o, u with diaeresis, each
//! in a lower and an upper form) and the eszett (lower `\u{df}` and its rare
//! upper form `\u{1e9e}`). Each has a two-letter ASCII digraph encoding:
//! `ae`, `oe`, `ue`, `ss` and their case variants.

use vstd::prelude::*;

verus! {

/// The direction of a transformation.
#[derive(Debug, Clone, Copy, PartialEq, Eq, Structural)]
pub enum Direction {
    /// Rewrite native glyphs to their ASCII digraphs.
    Expand,
    /// Rewrite ASCII digraphs back to native glyphs.
    Restore,
}

/// How a candidate digraph is resolved during restoration.
///
/// Many genuine German words contain `ae`/`oe`/`ue`/`ss` without meaning an
/// umlaut or eszett, so restoration is inherently ambiguous. The resolver is
/// an injectable policy; the facade's default is [`DigraphPolicy::PreferNative`].
#[derive(Debug, Clone, Copy, PartialEq, Eq, Structural)]
pub enum DigraphPolicy {
    /// Treat every candidate digraph as an encoded native character.
    PreferNative,
    /// Leave every candidate digraph literal.
    PreferLiteral,
}

/// The casing class of a word, governing how a multi-character substitution
/// is re-cased.
#[derive(Debug, Clone, Copy, PartialEq, Eq, Structural)]
pub enum Casing {
    /// Every letter is lowercase.
    AllLower,
    /// Every letter is uppercase (the lower eszett also counts, having no
    /// common upper form).
    AllUpper,
    /// Exactly the first letter is uppercase, the rest lowercase.
    Capitalized,
    /// Anything else; copied through without whole-word re-casing assumptions.
    Mixed,
}

/// An ASCII lowercase letter.
pub open spec fn is_ascii_lower(c: char) -> bool {
    97 <= c as u32 <= 122
}

/// An ASCII uppercase letter.
pub open spec fn is_ascii_upper(c: char) -> bool {
    65 <= c as u32 <= 90
}

/// A lowercase special character: one of the lower umlauts or the eszett.
pub open spec fn is_special_lower(c: char) -> bool {
    c == '\u{e4}' || c == '\u{f6}' || c == '\u{fc}' || c == '\u{df}'
}

/// An uppercase special character: one of the upper umlauts or the rare
/// uppercase eszett.
pub open spec fn is_special_upper(c: char) -> bool {
    c == '\u{c4}' || c == '\u{d6}' || c == '\u{dc}' || c == '\u{1e9e}'
}

/// A lowercase letter of the alphabet this crate works over.
pub open spec fn is_lower_letter(c: char) -> bool {
    is_ascii_lower(c) || is_special_lower(c)
}

/// An uppercase letter of the alphabet this crate works over.
pub open spec fn is_upper_letter(c: char) -> bool {
    is_ascii_upper(c) || is_special_upper(c)
}

/// A word character: words are maximal runs of these.
pub open spec fn is_word_char(c: char) -> bool {
    is_lower_letter(c) || is_upper_letter(c)
}

/// Whether a character is compatible with an all-uppercase word.
///
/// The lower eszett has no common uppercase form and appears inside
/// all-uppercase words, so it counts as upper-compatible.
pub open spec fn counts_as_upper(c: char) -> bool {
    is_upper_letter(c) || c == '\u{df}'
}

/// Executable check for a word character, mirroring [`is_word_char`].
pub fn check_word_char(c: char) -> (r: bool)
    ensures
        r == is_word_char(c),
{
    let u = c as u32;
    (97 <= u && u <= 122) || (65 <= u && u <= 90) || u == 0xe4 || u == 0xf6 || u == 0xfc
        || u == 0xdf || u == 0xc4 || u == 0xd6 || u == 0xdc || u == 0x1e9e
}

/// Executable check for a lowercase letter, mirroring [`is_lower_letter`].
pub fn check_lower_letter(c: char) -> (r: bool)
    ensures
        r == is_lower_letter(c),
{
    let u = c as u32;
    (97 <= u && u <= 122) || u == 0xe4 || u == 0xf6 || u == 0xfc || u == 0xdf
}

/// Executable check for an upper-compatible character, mirroring
/// [`counts_as_upper`].
pub fn check_upper_compat(c: char) -> (r: bool)
    ensures
        r == counts_as_upper(c),
{
    let u = c as u32;
    (65 <= u && u <= 90) || u == 0xc4 || u == 0xd6 || u == 0xdc || u == 0x1e9e || u == 0xdf
}

/// Every letter of the word is lowercase.
pub open spec fn word_all_lower(w: Seq<char>) -> bool {
    forall|i: int| 0 <= i < w.len() ==> is_lower_letter(#[trigger] w[i])
}

/// Every letter of the word is uppercase (the lower eszett counting as
/// upper-compatible).
pub open spec fn word_all_upper(w: Seq<char>) -> bool {
    forall|i: int| 0 <= i < w.len() ==> counts_as_upper(#[trigger] w[i])
}

/// The first letter is uppercase and all others are lowercase.
pub open spec fn word_capitalized(w: Seq<char>) -> bool {
    &&& w.len() > 0
    &&& counts_as_upper(w[0])
    &&& forall|i: int| 1 <= i < w.len() ==> is_lower_letter(#[trigger] w[i])
}

/// The casing class of a word: all-lower, all-upper and capitalized in that
/// order of precedence, anything else mixed.
pub open spec fn casing_of(w: Seq<char>) -> Casing {
    if word_all_lower(w) {
        Casing::AllLower
    } else if word_all_upper(w) {
        Casing::AllUpper
    } else if word_capitalized(w) {
        Casing::Capitalized
    } else {
        Casing::Mixed
    }
}

/// What one character becomes under expansion: a native glyph becomes its
/// digraph, re-cased by the word's casing class; anything else is copied
/// through. An uppercase glyph yields a fully uppercase digraph only in an
/// all-uppercase word, and a capitalized digraph otherwise; the lower eszett
/// yields an uppercase `SS` only in an all-uppercase word.
pub open spec fn expanded_char(c: char, cas: Casing) -> Seq<char> {
    if c == '\u{e4}' {
        seq!['a', 'e']
    } else if c == '\u{f6}' {
        seq!['o', 'e']
    } else if c == '\u{fc}' {
        seq!['u', 'e']
    } else if c == '\u{df}' {
        if cas == Casing::AllUpper {
            seq!['S', 'S']
        } else {
            seq!['s', 's']
        }
    } else if c == '\u{c4}' {
        if cas == Casing::AllUpper {
            seq!['A', 'E']
        } else {
            seq!['A', 'e']
        }
    } else if c == '\u{d6}' {
        if cas == Casing::AllUpper {
            seq!['O', 'E']
        } else {
            seq!['O', 'e']
        }
    } else if c == '\u{dc}' {
        if cas == Casing::AllUpper {
            seq!['U', 'E']
        } else {
            seq!['U', 'e']
        }
    } else if c == '\u{1e9e}' {
        if cas == Casing::AllUpper {
            seq!['S', 'S']
        } else {
            seq!['S', 's']
        }
    } else {
        seq![c]
    }
}

/// A word expanded character by character under one casing class.
pub open spec fn expanded_word(w: Seq<char>, cas: Casing) -> Seq<char>
    decreases w.len(),
{
    if w.len() == 0 {
        Seq::empty()
    } else {
        expanded_char(w[0], cas) + expanded_word(w.drop_first(), cas)
    }
}

/// Whether two adjacent characters form a candidate digraph: `ae`, `oe`,
/// `ue` or `ss` in any case combination.
pub open spec fn is_digraph(a: char, b: char) -> bool {
    ((a == 'a' || a == 'A' || a == 'o' || a == 'O' || a == 'u' || a == 'U') && (b == 'e' || b
        == 'E')) || ((a == 's' || a == 'S') && (b == 's' || b == 'S'))
}

/// The native glyph a digraph restores to; its case follows the digraph's
/// first character.
pub open spec fn digraph_native(a: char) -> char {
    if a == 'a' {
        '\u{e4}'
    } else if a == 'A' {
        '\u{c4}'
    } else if a == 'o' {
        '\u{f6}'
    } else if a == 'O' {
        '\u{d6}'
    } else if a == 'u' {
        '\u{fc}'
    } else if a == 'U' {
        '\u{dc}'
    } else if a == 's' {
        '\u{df}'
    } else {
        '\u{1e9e}'
    }
}

/// A word restored left to right: when `resolve` holds, each candidate
/// digraph becomes its native glyph and the scan skips past it; everything
/// else is copied through.
pub open spec fn restored_word(w: Seq<char>, resolve: bool) -> Seq<char>
    decreases w.len(),
{
    if w.len() == 0 {
        Seq::empty()
    } else if resolve && w.len() >= 2 && is_digraph(w[0], w[1]) {
        seq![digraph_native(w[0])] + restored_word(w.skip(2), resolve)
    } else {
        seq![w[0]] + restored_word(w.skip(1), resolve)
    }
}

/// What one word becomes in the given direction.
pub open spec fn transformed_word(w: Seq<char>, dir: Direction, pol: DigraphPolicy) -> Seq<char> {
    match dir {
        Direction::Expand => expanded_word(w, casing_of(w)),
        Direction::Restore => restored_word(w, pol == DigraphPolicy::PreferNative),
    }
}

/// The length of the maximal run of word characters at the front of `s`.
pub open spec fn word_run_len(s: Seq<char>) -> nat
    decreases s.len(),
{
    if s.len() == 0 || !is_word_char(s[0]) {
        0
    } else {
        1 + word_run_len(s.drop_first())
    }
}

pub proof fn lemma_word_run_len_le(s: Seq<char>)
    ensures
        word_run_len(s) <= s.len(),
    decreases s.len(),
{
    if s.len() > 0 && is_word_char(s[0]) {
        lemma_word_run_len_le(s.drop_first());
    }
}

/// The word run length is exactly the first position holding no word
/// character.
pub proof fn lemma_word_run_len_is(s: Seq<char>, k: int)
    requires
        0 <= k <= s.len(),
        forall|m: int| 0 <= m < k ==> is_word_char(#[trigger] s[m]),
        k < s.len() ==> !is_word_char(s[k]),
    ensures
        word_run_len(s) == k,
    decreases s.len(),
{
    if k == 0 {
    } else {
        let t = s.drop_first();
        assert(forall|m: int| 0 <= m < k - 1 ==> t[m] == s[m + 1]);
        assert(k - 1 < t.len() ==> t[k - 1] == s[k]);
        lemma_word_run_len_is(t, k - 1);
    }
}

/// What one in-scope region becomes: words (maximal runs of word characters)
/// are transformed in the given direction, separators are copied through.
pub open spec fn transformed_region(s: Seq<char>, dir: Direction, pol: DigraphPolicy) -> Seq<char>
    decreases s.len(),
    via transformed_region_decreases
{
    if s.len() == 0 {
        Seq::empty()
    } else if !is_word_char(s[0]) {
        seq![s[0]] + transformed_region(s.skip(1), dir, pol)
    } else {
        let k = word_run_len(s) as int;
        transformed_word(s.take(k), dir, pol) + transformed_region(s.skip(k), dir, pol)
    }
}

#[via_fn]
proof fn transformed_region_decreases(s: Seq<char>, dir: Direction, pol: DigraphPolicy) {
    if s.len() > 0 && is_word_char(s[0]) {
        lemma_word_run_len_le(s);
    }
}

/// Classify the casing of the word standing in positions `[i, j)` of `s`.
pub fn classify_word(s: &Vec<char>, i: usize, j: usize) -> (c: Casing)
    requires
        i <= j && j <= s@.len(),
    ensures
        c == casing_of(s@.subrange(i as int, j as int)),
{
    let ghost w = s@.subrange(i as int, j as int);
    let mut all_lower = true;
    let mut all_upper = true;
    let mut rest_lower = true;
    let mut m = i;
    while m < j
        invariant
            i <= m <= j && j <= s@.len(),
            w == s@.subrange(i as int, j as int),
            all_lower <==> (forall|t: int| 0 <= t < m - i ==> is_lower_letter(#[trigger] w[t])),
            all_upper <==> (forall|t: int| 0 <= t < m - i ==> counts_as_upper(#[trigger] w[t])),
            rest_lower <==> (forall|t: int| 1 <= t < m - i ==> is_lower_letter(#[trigger] w[t])),
        decreases j - m,
    {
        proof {
            assert(w[m - i] == s@[m as int]);
        }
        let lo = check_lower_letter(s[m]);
        let up = check_upper_compat(s[m]);
        all_lower = all_lower && lo;
        all_upper = all_upper && up;
        if m > i {
            rest_lower = rest_lower && lo;
        }
        m = m + 1;
    }
    if all_lower {
        Casing::AllLower
    } else if all_upper {
        Casing::AllUpper
    } else if check_upper_compat(s[i]) && rest_lower {
        proof {
            assert(w[0] == s@[i as int]);
            assert(word_capitalized(w));
        }
        Casing::Capitalized
    } else {
        proof {
            if w.len() > 0 {
                assert(w[0] == s@[i as int]);
            }
            assert(!word_capitalized(w));
        }
        Casing::Mixed
    }
}

/// Expand one character under a casing class, mirroring [`expanded_char`].
fn expand_char_exec(c: char, cas: Casing) -> (r: Vec<char>)
    ensures
        r@ == expanded_char(c, cas),
{
    let mut r: Vec<char> = Vec::new();
    if c == '\u{e4}' {
        r.push('a');
        r.push('e');
    } else if c == '\u{f6}' {
        r.push('o');
        r.push('e');
    } else if c == '\u{fc}' {
        r.push('u');
        r.push('e');
    } else if c == '\u{df}' {
        if cas == Casing::AllUpper {
            r.push('S');
            r.push('S');
        } else {
            r.push('s');
            r.push('s');
        }
    } else if c == '\u{c4}' {
        r.push('A');
        if cas == Casing::AllUpper {
            r.push('E');
        } else {
            r.push('e');
        }
    } else if c == '\u{d6}' {
        r.push('O');
        if cas == Casing::AllUpper {
            r.push('E');
        } else {
            r.push('e');
        }
    } else if c == '\u{dc}' {
        r.push('U');
        if cas == Casing::AllUpper {
            r.push('E');
        } else {
            r.push('e');
        }
    } else if c == '\u{1e9e}' {
        r.push('S');
        if cas == Casing::AllUpper {
            r.push('S');
        } else {
            r.push('s');
        }
    } else {
        r.push(c);
    }
    proof {
        assert(r@ =~= expanded_char(c, cas));
    }
    r
}

/// Executable check for a candidate digraph, mirroring [`is_digraph`].
fn check_digraph(a: char, b: char) -> (r: bool)
    ensures
        r == is_digraph(a, b),
{
    ((a == 'a' || a == 'A' || a == 'o' || a == 'O' || a == 'u' || a == 'U') && (b == 'e' || b
        == 'E')) || ((a == 's' || a == 'S') && (b == 's' || b == 'S'))
}

/// The native glyph for a digraph's first character, mirroring
/// [`digraph_native`].
fn digraph_native_exec(a: char) -> (r: char)
    ensures
        r == digraph_native(a),
{
    if a == 'a' {
        '\u{e4}'
    } else if a == 'A' {
        '\u{c4}'
    } else if a == 'o' {
        '\u{f6}'
    } else if a == 'O' {
        '\u{d6}'
    } else if a == 'u' {
        '\u{fc}'
    } else if a == 'U' {
        '\u{dc}'
    } else if a == 's' {
        '\u{df}'
    } else {
        '\u{1e9e}'
    }
}

/// Transform one in-scope region: segment it into words and separators, run
/// each word through the casing classifier and the special-character machine
/// in the requested direction, and copy separators through unchanged.
pub fn transform_region(s: &Vec<char>, direction: Direction, policy: DigraphPolicy) -> (r: Vec<
    char,
>)
    ensures
        r@ == transformed_region(s@, direction, policy),
{
    let mut out: Vec<char> = Vec::new();
    let mut i: usize = 0;
    proof {
        assert(s@.skip(0) =~= s@);
    }
    while i < s.len()
        invariant
            i <= s@.len(),
            out@ + transformed_region(s@.skip(i as int), direction, policy) == transformed_region(
                s@,
                direction,
                policy,
            ),
        decreases s@.len() - i,
    {
        let ghost suffix = s@.skip(i as int);
        let ghost pre_out = out@;
        proof {
            assert(forall|t: int| 0 <= t < suffix.len() ==> suffix[t] == s@[i + t]);
        }
        if !check_word_char(s[i]) {
            out.push(s[i]);
            proof {
                assert(suffix.skip(1) =~= s@.skip(i + 1));
                assert(out@ =~= pre_out + seq![s@[i as int]]);
                assert(pre_out + (seq![suffix[0]] + transformed_region(
                    s@.skip(i + 1),
                    direction,
                    policy,
                )) =~= out@ + transformed_region(s@.skip(i + 1), direction, policy));
            }
            i = i + 1;
        } else {
            // Find the end of the maximal word run.
            let mut j: usize = i;
            while j < s.len() && check_word_char(s[j])
                invariant
                    i <= j <= s@.len(),
                    forall|t: int| i <= t < j ==> is_word_char(#[trigger] s@[t]),
                decreases s@.len() - j,
            {
                j = j + 1;
            }
            let ghost w = s@.subrange(i as int, j as int);
            proof {
                assert(is_word_char(suffix[0]));
                assert(j > i);
                assert(forall|t: int| 0 <= t < j - i ==> suffix[t] == s@[i + t]);
                lemma_word_run_len_is(suffix, j - i);
                assert(suffix.take(j - i) =~= w);
                assert(suffix.skip(j - i) =~= s@.skip(j as int));
            }
            let cas = classify_word(s, i, j);
            match direction {
                Direction::Expand => {
                    let mut m = i;
                    while m < j
                        invariant
                            i <= m <= j <= s@.len(),
                            cas == casing_of(s@.subrange(i as int, j as int)),
                            out@ + expanded_word(s@.subrange(m as int, j as int), cas) == pre_out
                                + expanded_word(s@.subrange(i as int, j as int), cas),
                        decreases j - m,
                    {
                        let ghost wsuf = s@.subrange(m as int, j as int);
                        let mut piece = expand_char_exec(s[m], cas);
                        out.append(&mut piece);
                        proof {
                            assert(wsuf[0] == s@[m as int]);
                            assert(wsuf.drop_first() =~= s@.subrange(m + 1, j as int));
                        }
                        m = m + 1;
                    }
                    proof {
                        assert(s@.subrange(j as int, j as int) =~= Seq::<char>::empty());
                        assert(out@ =~= pre_out + expanded_word(w, cas));
                        assert(transformed_word(w, direction, policy) == expanded_word(w, cas));
                    }
                },
                Direction::Restore => {
                    let resolve = match policy {
                        DigraphPolicy::PreferNative => true,
                        DigraphPolicy::PreferLiteral => false,
                    };
                    let mut m = i;
                    while m < j
                        invariant
                            i <= m <= j <= s@.len(),
                            resolve == (policy == DigraphPolicy::PreferNative),
                            out@ + restored_word(s@.subrange(m as int, j as int), resolve)
                                == pre_out + restored_word(
                                s@.subrange(i as int, j as int),
                                resolve,
                            ),
                        decreases j - m,
                    {
                        let ghost wsuf = s@.subrange(m as int, j as int);
                        proof {
                            assert(wsuf[0] == s@[m as int]);
                            assert(wsuf.len() >= 2 ==> wsuf[1] == s@[m + 1]);
                        }
                        if resolve && m + 1 < j && check_digraph(s[m], s[m + 1]) {
                            out.push(digraph_native_exec(s[m]));
                            proof {
                                assert(wsuf.skip(2) =~= s@.subrange(m + 2, j as int));
                            }
                            m = m + 2;
                        } else {
                            out.push(s[m]);
                            proof {
                                assert(wsuf.skip(1) =~= s@.subrange(m + 1, j as int));
                            }
                            m = m + 1;
                        }
                    }
                    proof {
                        assert(s@.subrange(j as int, j as int) =~= Seq::<char>::empty());
                        assert(out@ =~= pre_out + restored_word(w, resolve));
                        assert(transformed_word(w, direction, policy) == restored_word(
                            w,
                            resolve,
                        ));
                    }
                },
            }
            proof {
                assert(transformed_region(suffix, direction, policy) == transformed_word(
                    w,
                    direction,
                    policy,
                ) + transformed_region(s@.skip(j as int), direction, policy));
                assert(pre_out + (transformed_word(w, direction, policy) + transformed_region(
                    s@.skip(j as int),
                    direction,
                    policy,
                )) =~= out@ + transformed_region(s@.skip(j as int), direction, policy));
            }
            i = j;
        }
    }
    proof {
        assert(s@.skip(i as int) =~= Seq::<char>::empty());
        assert(out@ + Seq::<char>::empty() =~= out@);
    }
    out
}

} // verus!
