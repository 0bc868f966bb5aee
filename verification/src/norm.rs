//! Deterministic string canonicalization: lowercase, canonical decomposition
//! with combining marks stripped, non-alphanumeric characters replaced by
//! spaces, whitespace runs collapsed and trimmed.
//!
//! The Unicode tables (case folding, decomposition, character classes) are
//! outside code; everything after them — the mark filter, the space
//! replacement, the collapse and the trim — is verified, and the collapse
//! stage is proved idempotent.
use unicode_normalization::UnicodeNormalization;
use vstd::prelude::*;

verus! {

/// What `str::to_lowercase` returns: a function of the characters alone.
pub uninterp spec fn lower_of(s: Seq<char>) -> Seq<char>;

/// What unicode-normalization's `nfd` yields: the canonical decomposition,
/// a function of the characters alone.
pub uninterp spec fn nfd_of(s: Seq<char>) -> Seq<char>;

/// Whether a character is a Unicode combining mark.
pub uninterp spec fn is_mark(c: char) -> bool;

/// Whether a character is Unicode-alphanumeric.
pub uninterp spec fn is_alnum_char(c: char) -> bool;

/// Relies on `str::to_lowercase`: the Unicode lowercase mapping, depending on
/// the characters alone.
#[verifier::external_body]
fn to_lower(s: &str) -> (r: String)
    ensures
        r@ == lower_of(s@),
{
    s.to_lowercase()
}

/// Relies on unicode-normalization's `UnicodeNormalization::nfd`: canonical
/// decomposition, depending on the characters alone.
#[verifier::external_body]
fn nfd_decompose(s: &str) -> (r: String)
    ensures
        r@ == nfd_of(s@),
{
    s.nfd().collect()
}

/// Relies on unicode-normalization's combining-mark table.
pub assume_specification[ unicode_normalization::char::is_combining_mark ](c: char) -> (r: bool)
    ensures
        r == is_mark(c),
;

/// Relies on `char::is_alphanumeric`: the Unicode `Alphabetic` and numeric
/// character classes.
pub assume_specification[ char::is_alphanumeric ](c: char) -> (r: bool)
    ensures
        r == is_alnum_char(c),
;

/// Relies on `String`'s `FromIterator<char>`: collects exactly the given
/// characters.
#[verifier::external_body]
pub(crate) fn string_from_chars(v: &Vec<char>) -> (r: String)
    ensures
        r@ == v@,
{
    v.iter().collect()
}

/// A character that survives cleaning as itself: alphanumeric (a space never
/// is, whatever the alphanumeric table says).
pub open spec fn keeps(c: char) -> bool {
    c != ' ' && is_alnum_char(c)
}

/// The decomposition with combining marks removed.
pub open spec fn strip_marks(s: Seq<char>) -> Seq<char> {
    s.filter(|c: char| !is_mark(c))
}

/// One left-to-right pass: kept characters stay; any other character becomes
/// a single separating space (never leading, never doubled).
pub open spec fn clean_aux(s: Seq<char>) -> Seq<char>
    decreases s.len(),
{
    if s.len() == 0 {
        Seq::empty()
    } else {
        let rest = clean_aux(s.drop_last());
        if keeps(s.last()) {
            rest.push(s.last())
        } else if rest.len() > 0 && rest.last() != ' ' {
            rest.push(' ')
        } else {
            rest
        }
    }
}

/// The cleaning stage: collapse and trim. Kept characters separated by single
/// spaces, no leading or trailing space.
pub open spec fn clean(s: Seq<char>) -> Seq<char> {
    let t = clean_aux(s);
    if t.len() > 0 && t.last() == ' ' {
        t.drop_last()
    } else {
        t
    }
}

/// What `normalize` returns.
pub open spec fn normalize_spec(s: Seq<char>) -> Seq<char> {
    clean(strip_marks(nfd_of(lower_of(s))))
}

/// Shape of a partially cleaned sequence: no leading space, no doubled space,
/// every character kept or a space.
pub open spec fn space_collapsed(t: Seq<char>) -> bool {
    &&& t.len() > 0 ==> t[0] != ' '
    &&& forall|i: int| 0 < i < t.len() ==> !(t[i - 1] == ' ' && #[trigger] t[i] == ' ')
    &&& forall|i: int| 0 <= i < t.len() ==> keeps(#[trigger] t[i]) || t[i] == ' '
}

proof fn lemma_clean_aux_collapsed(s: Seq<char>)
    ensures
        space_collapsed(clean_aux(s)),
    decreases s.len(),
{
    if s.len() > 0 {
        lemma_clean_aux_collapsed(s.drop_last());
    }
}

proof fn lemma_clean_aux_fixed(t: Seq<char>)
    requires
        space_collapsed(t),
    ensures
        clean_aux(t) == t,
    decreases t.len(),
{
    if t.len() > 0 {
        let u = t.drop_last();
        assert(space_collapsed(u));
        lemma_clean_aux_fixed(u);
        if keeps(t.last()) {
            assert(u.push(t.last()) =~= t);
        } else {
            assert(t.last() == ' ');
            assert(t[0] != ' ');
            assert(t.len() >= 2);
            assert(u.last() == t[t.len() - 2]);
            assert(u.last() != ' ');
            assert(u.push(' ') =~= t);
        }
    }
}

/// The cleaning stage is idempotent: cleaning its own output changes nothing.
pub proof fn lemma_clean_idempotent(s: Seq<char>)
    ensures
        clean(clean(s)) == clean(s),
{
    lemma_clean_aux_collapsed(s);
    let t = clean_aux(s);
    let c = clean(s);
    assert(space_collapsed(c)) by {
        if t.len() > 0 && t.last() == ' ' {
            assert(c =~= t.drop_last());
        }
    }
    lemma_clean_aux_fixed(c);
    if c.len() > 0 && c.last() == ' ' {
        if t.len() > 0 && t.last() == ' ' {
            assert(c == t.drop_last());
            assert(c.last() == t[t.len() - 2]);
            assert(false);
        }
    }
}

/// Executable cleaning pass over characters.
fn clean_chars(v: &Vec<char>) -> (out: Vec<char>)
    ensures
        out@ == clean(v@),
{
    let mut out: Vec<char> = Vec::new();
    let mut i: usize = 0;
    while i < v.len()
        invariant
            i <= v@.len(),
            out@ == clean_aux(v@.subrange(0, i as int)),
        decreases v@.len() - i,
    {
        let c = v[i];
        proof {
            assert(v@.subrange(0, i + 1).drop_last() =~= v@.subrange(0, i as int));
            assert(v@.subrange(0, i + 1).last() == v@[i as int]);
        }
        if c != ' ' && c.is_alphanumeric() {
            out.push(c);
        } else {
            if out.len() > 0 {
                let last = out[out.len() - 1];
                if last != ' ' {
                    out.push(' ');
                }
            }
        }
        i += 1;
    }
    proof {
        assert(v@.subrange(0, v@.len() as int) =~= v@);
    }
    if out.len() > 0 {
        let last = out[out.len() - 1];
        if last == ' ' {
            let _ = out.pop();
        }
    }
    out
}

/// Executable mark filter.
fn strip_marks_chars(v: &Vec<char>) -> (out: Vec<char>)
    ensures
        out@ == strip_marks(v@),
{
    let mut out: Vec<char> = Vec::new();
    let mut i: usize = 0;
    proof {
        reveal(Seq::filter);
    }
    while i < v.len()
        invariant
            i <= v@.len(),
            out@ == v@.subrange(0, i as int).filter(|c: char| !is_mark(c)),
        decreases v@.len() - i,
    {
        let c = v[i];
        proof {
            reveal(Seq::filter);
            assert(v@.subrange(0, i + 1).drop_last() =~= v@.subrange(0, i as int));
            assert(v@.subrange(0, i + 1).last() == v@[i as int]);
        }
        if !unicode_normalization::char::is_combining_mark(c) {
            out.push(c);
        }
        i += 1;
    }
    proof {
        assert(v@.subrange(0, v@.len() as int) =~= v@);
    }
    out
}

/// Canonicalize a string: lowercase, fold diacritics away, replace
/// non-alphanumeric characters by spaces, collapse whitespace runs, trim.
///
/// Every string stored in the word index and every query passes through this.
pub fn normalize(raw: &str) -> (r: String)
    ensures
        r@ == normalize_spec(raw@),
{
    let low = to_lower(raw);
    let dec = nfd_decompose(low.as_str());
    let chars = crate::text::str_chars(dec.as_str());
    let stripped = strip_marks_chars(&chars);
    let cleaned = clean_chars(&stripped);
    string_from_chars(&cleaned)
}

} // verus!
