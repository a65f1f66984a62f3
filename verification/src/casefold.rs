//! Case folding: the character that stands for a character when case is
//! ignored.

use vstd::prelude::*;

verus! {

/// The characters that `char::to_lowercase` yields for `c`, in order.
pub uninterp spec fn char_lowercase(c: char) -> Seq<char>;

/// Calls `char::to_lowercase` of the standard library and collects what the
/// returned iterator yields. The mapping is that of the Unicode tables built
/// into the standard library and depends on the character alone. Nothing is
/// claimed here about which characters come out.
#[verifier::external_body]
fn lowercase_of(c: char) -> (lowered: Vec<char>)
    ensures
        lowered@ == char_lowercase(c),
{
    c.to_lowercase().collect()
}

/// `c` is one of the letters `A` to `Z`.
pub open spec fn is_ascii_upper(c: char) -> bool {
    'A' <= c <= 'Z'
}

/// `c` is one of the first 128 characters.
pub open spec fn is_ascii(c: char) -> bool {
    c <= '\u{7f}'
}

/// The character that stands for `c` when case is ignored. A letter from
/// `A` to `Z` gives the small letter, every other of the first 128
/// characters gives itself, and a character beyond them gives the first
/// character of its lowercase mapping. One character always gives one
/// character, so that folding keeps positions.
pub open spec fn fold_char(c: char) -> char {
    if is_ascii_upper(c) {
        (c as int + 32) as char
    } else if is_ascii(c) {
        c
    } else {
        let lowered = char_lowercase(c);
        if lowered.len() > 0 {
            lowered[0]
        } else {
            c
        }
    }
}

/// A text with every character folded; it has the length of `s`.
pub open spec fn fold_seq(s: Seq<char>) -> Seq<char> {
    s.map_values(|c: char| fold_char(c))
}

/// Folds one character.
pub fn fold(c: char) -> (folded: char)
    ensures
        folded == fold_char(c),
{
    if 'A' <= c && c <= 'Z' {
        ((c as u8) + 32) as char
    } else if c <= '\u{7f}' {
        c
    } else {
        let lowered = lowercase_of(c);
        if lowered.len() > 0 {
            lowered[0]
        } else {
            c
        }
    }
}

/// Folds a text character by character.
pub fn fold_chars(chars: &Vec<char>) -> (folded: Vec<char>)
    ensures
        folded@ == fold_seq(chars@),
{
    let mut folded: Vec<char> = Vec::new();
    let mut i: usize = 0;
    while i < chars.len()
        invariant
            i <= chars.len(),
            folded@ == fold_seq(chars@.take(i as int)),
        decreases chars.len() - i,
    {
        folded.push(fold(chars[i]));
        i += 1;
        assert(folded@ =~= fold_seq(chars@.take(i as int)));
    }
    assert(chars@.take(i as int) == chars@);
    folded
}

/// Folding a folded character changes nothing, for the first 128
/// characters.
pub proof fn lemma_fold_ascii_twice(c: char)
    requires
        is_ascii(c),
    ensures
        is_ascii(fold_char(c)),
        fold_char(fold_char(c)) == fold_char(c),
{
}

} // verus!
