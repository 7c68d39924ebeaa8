//! Name stems: lexicographic order and the decoding grammar.
//!
//! A stem is a file or directory name without its extension.  Its first
//! character encodes the entry's classification; the display name is read
//! from the first alphabetic character, past the first character where that
//! one marks a tool or a texture.

use vstd::prelude::*;
use crate::kind::{kind_of_char, ManualItem};

verus! {

/// Whether a character counts as alphabetic when a stem is decoded.  This
/// names the result of `char::is_alphabetic`, which depends on the
/// character alone.
pub uninterp spec fn is_alpha(c: char) -> bool;

/// Relies on `char::is_alphabetic`: whether the character has the Unicode
/// `Alphabetic` property, a function of the character alone.
#[verifier::external_body]
pub(crate) fn char_is_alphabetic(c: char) -> (r: bool)
    ensures
        r == is_alpha(c),
{
    c.is_alphabetic()
}

/// Relies on `String::push`: appends the one character at the end.
#[verifier::external_body]
pub(crate) fn push_char(s: &mut String, c: char)
    ensures
        final(s)@ == old(s)@.push(c),
{
    s.push(c);
}

/// Strict lexicographic order on character sequences, by code point: the
/// order in which sections and items are processed.
pub open spec fn lex_lt(a: Seq<char>, b: Seq<char>) -> bool
    decreases a.len(),
{
    if b.len() == 0 {
        false
    } else if a.len() == 0 {
        true
    } else if (a[0] as u32) < (b[0] as u32) {
        true
    } else if a[0] == b[0] {
        lex_lt(a.drop_first(), b.drop_first())
    } else {
        false
    }
}

/// Reflexive closure of `lex_lt`.
pub open spec fn lex_leq(a: Seq<char>, b: Seq<char>) -> bool {
    lex_lt(a, b) || a == b
}

/// `lex_lt` is irreflexive.
pub(crate) proof fn lemma_lex_lt_irrefl(a: Seq<char>)
    ensures
        !lex_lt(a, a),
    decreases a.len(),
{
    if a.len() > 0 {
        lemma_lex_lt_irrefl(a.drop_first());
    }
}

/// Any two character sequences are ordered or equal.
pub(crate) proof fn lemma_lex_trichotomy(a: Seq<char>, b: Seq<char>)
    ensures
        lex_lt(a, b) || lex_lt(b, a) || a == b,
    decreases a.len(),
{
    if a.len() == 0 && b.len() == 0 {
        assert(a =~= b);
    } else if a.len() > 0 && b.len() > 0 {
        if a[0] == b[0] {
            lemma_lex_trichotomy(a.drop_first(), b.drop_first());
            if !lex_lt(a, b) && !lex_lt(b, a) {
                assert(a.drop_first() == b.drop_first());
                assert(a.len() == b.len());
                assert forall|i: int| 0 <= i < a.len() implies a[i] == b[i] by {
                    if i > 0 {
                        assert(a[i] == a.drop_first()[i - 1]);
                        assert(b[i] == b.drop_first()[i - 1]);
                    }
                }
                assert(a =~= b);
            }
        } else {
            assert((a[0] as u32) != (b[0] as u32)) by {
                if (a[0] as u32) == (b[0] as u32) {
                    vstd::utf8::char_u32_cast(a[0], a[0] as u32);
                    vstd::utf8::char_u32_cast(b[0], b[0] as u32);
                }
            }
        }
    }
}

/// `lex_lt` is transitive.
pub(crate) proof fn lemma_lex_lt_trans(a: Seq<char>, b: Seq<char>, c: Seq<char>)
    requires
        lex_lt(a, b),
        lex_lt(b, c),
    ensures
        lex_lt(a, c),
    decreases a.len(),
{
    if a.len() > 0 && b.len() > 0 && c.len() > 0 && a[0] == b[0] && b[0] == c[0] {
        lemma_lex_lt_trans(a.drop_first(), b.drop_first(), c.drop_first());
    }
}

/// Compares two strings in the lexicographic order `lex_lt`.
pub fn str_lex_lt(a: &str, b: &str) -> (r: bool)
    ensures
        r == lex_lt(a@, b@),
{
    let alen = a.unicode_len();
    let blen = b.unicode_len();
    let mut i: usize = 0;
    proof {
        assert(a@.skip(0) =~= a@);
        assert(b@.skip(0) =~= b@);
    }
    loop
        invariant
            i <= alen,
            i <= blen,
            alen == a@.len(),
            blen == b@.len(),
            lex_lt(a@, b@) == lex_lt(a@.skip(i as int), b@.skip(i as int)),
        decreases blen - i,
    {
        if i >= blen {
            return false;
        }
        if i >= alen {
            return true;
        }
        let ca = a.get_char(i);
        let cb = b.get_char(i);
        if (ca as u32) < (cb as u32) {
            return true;
        }
        if ca != cb {
            return false;
        }
        proof {
            assert(a@.skip(i as int).drop_first() =~= a@.skip(i + 1));
            assert(b@.skip(i as int).drop_first() =~= b@.skip(i + 1));
        }
        i = i + 1;
    }
}

/// The suffix of `s` that begins at its first alphabetic character.
pub open spec fn skip_to_alpha(s: Seq<char>) -> Seq<char>
    decreases s.len(),
{
    if s.len() == 0 {
        Seq::empty()
    } else if is_alpha(s[0]) {
        s
    } else {
        skip_to_alpha(s.drop_first())
    }
}

/// The classification a stem encodes.
pub open spec fn spec_kind(stem: Seq<char>) -> ManualItem {
    kind_of_char(stem[0])
}

/// The raw display text of a stem.  A first character that encodes a tool
/// or texture classification is dropped; the text then runs from the first
/// alphabetic character of what is left.  A first character that encodes no
/// special classification stays part of the name.
pub open spec fn spec_remainder(stem: Seq<char>) -> Seq<char> {
    if spec_kind(stem) == ManualItem::Regular {
        skip_to_alpha(stem)
    } else {
        skip_to_alpha(stem.drop_first())
    }
}

/// ASCII upper-casing of one character, as `char::to_ascii_uppercase`
/// performs it: only `'a'` through `'z'` change.
pub open spec fn spec_upper(c: char) -> char {
    if 97 <= c as u32 && c as u32 <= 122 {
        (((c as u32) - 32) as u8) as char
    } else {
        c
    }
}

/// Decoding of one display-name character: underscores become spaces.
pub open spec fn spec_decode_char(c: char) -> char {
    if c == '_' {
        ' '
    } else {
        c
    }
}

/// A section's display name: the stem's remainder with its first letter
/// upper-cased and every underscore after it turned into a space.
pub open spec fn spec_section_name(stem: Seq<char>) -> Seq<char> {
    let rem = spec_remainder(stem);
    seq![spec_upper(rem[0])] + rem.drop_first().map_values(|c: char| spec_decode_char(c))
}

/// An item's display name: the stem's remainder, unchanged.
pub open spec fn spec_item_name(stem: Seq<char>) -> Seq<char> {
    spec_remainder(stem)
}

/// Finds the position of the first alphabetic character at or after
/// `start`; `None` when there is none.
fn find_alpha_from(stem: &str, start: usize) -> (r: Option<usize>)
    requires
        start <= stem@.len(),
    ensures
        match r {
            Some(j) => {
                &&& start <= j < stem@.len()
                &&& skip_to_alpha(stem@.subrange(start as int, stem@.len() as int)) == stem@
                    .subrange(j as int, stem@.len() as int)
            },
            None => skip_to_alpha(stem@.subrange(start as int, stem@.len() as int)).len() == 0,
        },
{
    let n = stem.unicode_len();
    let mut i: usize = start;
    while i < n
        invariant
            start <= i <= n,
            n == stem@.len(),
            skip_to_alpha(stem@.subrange(start as int, n as int)) == skip_to_alpha(
                stem@.subrange(i as int, n as int),
            ),
        decreases n - i,
    {
        let c = stem.get_char(i);
        if char_is_alphabetic(c) {
            proof {
                assert(stem@.subrange(i as int, n as int)[0] == stem@[i as int]);
            }
            return Some(i);
        }
        proof {
            assert(stem@.subrange(i as int, n as int).drop_first() =~= stem@.subrange(
                i + 1,
                n as int,
            ));
        }
        i = i + 1;
    }
    proof {
        assert(stem@.subrange(n as int, n as int) =~= Seq::<char>::empty());
    }
    None
}

/// The classification encoded in a stem's first character.
pub fn decode_kind(stem: &str) -> (k: ManualItem)
    requires
        stem@.len() > 0,
    ensures
        k == spec_kind(stem@),
{
    ManualItem::from(stem.get_char(0))
}

/// Where the search for a stem's display text begins: past the first
/// character where it marks a tool or a texture, at the front otherwise.
fn name_start(stem: &str) -> (start: usize)
    requires
        stem@.len() > 0,
    ensures
        start <= stem@.len(),
        spec_remainder(stem@) == skip_to_alpha(
            stem@.subrange(start as int, stem@.len() as int),
        ),
{
    let k = decode_kind(stem);
    if k == ManualItem::Regular {
        proof {
            assert(stem@.subrange(0, stem@.len() as int) =~= stem@);
        }
        0
    } else {
        proof {
            assert(stem@.subrange(1, stem@.len() as int) =~= stem@.drop_first());
        }
        1
    }
}

/// An item's display name: the stem's remainder, unchanged; empty when the
/// stem holds no alphabetic character to start the remainder at.
pub fn decode_item_name(stem: &str) -> (r: String)
    requires
        stem@.len() > 0,
    ensures
        r@ == spec_item_name(stem@),
{
    match find_alpha_from(stem, name_start(stem)) {
        Some(j) => {
            let sub = stem.substring_char(j, stem.unicode_len());
            sub.to_owned()
        },
        None => {
            proof {
                assert(spec_remainder(stem@) =~= Seq::<char>::empty());
            }
            String::new()
        },
    }
}

/// Upper-cases one ASCII letter, as `char::to_ascii_uppercase` does.
fn to_upper(c: char) -> (r: char)
    ensures
        r == spec_upper(c),
{
    let u = c as u32;
    if 97 <= u && u <= 122 {
        ((u - 32) as u8) as char
    } else {
        c
    }
}

/// A section's display name: the remainder with its first letter
/// upper-cased and every underscore after it turned into a space.
pub fn decode_section_name(stem: &str) -> (r: String)
    requires
        stem@.len() > 0,
        spec_remainder(stem@).len() > 0,
    ensures
        r@ == spec_section_name(stem@),
{
    let n = stem.unicode_len();
    let j = match find_alpha_from(stem, name_start(stem)) {
        Some(j) => j,
        None => unreached(),
    };
    let ghost rem = spec_remainder(stem@);
    let mut out = String::new();
    push_char(&mut out, to_upper(stem.get_char(j)));
    let mut k: usize = j + 1;
    proof {
        assert(rem[0] == stem@[j as int]);
        assert(out@ =~= seq![spec_upper(rem[0])] + rem.subrange(1, 1).map_values(
            |c: char| spec_decode_char(c),
        ));
    }
    while k < n
        invariant
            j + 1 <= k <= n,
            n == stem@.len(),
            rem == spec_remainder(stem@),
            rem == stem@.subrange(j as int, n as int),
            out@ == seq![spec_upper(rem[0])] + rem.subrange(1, k - j).map_values(
                |c: char| spec_decode_char(c),
            ),
        decreases n - k,
    {
        let c = stem.get_char(k);
        proof {
            assert(rem[k - j] == stem@[k as int]);
            assert(rem.subrange(1, k + 1 - j).map_values(|c: char| spec_decode_char(c)) =~= rem
                .subrange(1, k - j).map_values(|c: char| spec_decode_char(c)).push(
                spec_decode_char(rem[k - j]),
            ));
        }
        if c == '_' {
            push_char(&mut out, ' ');
        } else {
            push_char(&mut out, c);
        }
        k = k + 1;
    }
    proof {
        assert(rem.subrange(1, n - j) =~= rem.drop_first());
    }
    out
}

/// Whether a stem decodes to a non-empty display name: whether its
/// remainder holds at least one character.
pub fn has_decodable_name(stem: &str) -> (b: bool)
    requires
        stem@.len() > 0,
    ensures
        b == (spec_remainder(stem@).len() > 0),
{
    match find_alpha_from(stem, name_start(stem)) {
        Some(_) => true,
        None => false,
    }
}

/// A section's display name, or `None` where the stem cannot be decoded:
/// where it is empty or its remainder is.
pub fn try_decode_section_name(stem: &str) -> (r: Option<String>)
    ensures
        match r {
            Some(name) => {
                &&& stem@.len() > 0
                &&& spec_remainder(stem@).len() > 0
                &&& name@ == spec_section_name(stem@)
            },
            None => stem@.len() == 0 || spec_remainder(stem@).len() == 0,
        },
{
    if stem.unicode_len() == 0 {
        return None;
    }
    match find_alpha_from(stem, name_start(stem)) {
        Some(_) => Some(decode_section_name(stem)),
        None => None,
    }
}

} // verus!
