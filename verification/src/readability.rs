//! Syllable counting with the vowel-group heuristic: adjacent vowels count
//! once, a silent trailing `e` is dropped (but not a consonant + "le"
//! ending), and every word with a letter gets at least one.
use crate::text::{ascii_letter, ascii_lower, ascii_text, chars_of};
use vstd::prelude::*;

verus! {

/// Schema version of the readability surface.
pub const SCHEMA_VERSION: &'static str = "1.0.0";

/// Whether `c` is alphabetic in Unicode's sense (`char::is_alphabetic`).
pub uninterp spec fn char_alphabetic(c: char) -> bool;

/// The Unicode lowercase mapping of `c` (`char::to_lowercase`), which may be
/// several characters.
pub uninterp spec fn char_lowercase(c: char) -> Seq<char>;

/// `char::is_alphabetic`: its result is named by `char_alphabetic`; on an
/// ASCII character it holds exactly of the letters.
#[verifier::external_body]
fn is_alphabetic(c: char) -> (r: bool)
    ensures
        r == char_alphabetic(c),
        c < '\u{80}' ==> (r <==> ascii_letter(c)),
{
    c.is_alphabetic()
}

/// `char::to_lowercase`, collected: its result is named by
/// `char_lowercase`; an ASCII character maps to its single ASCII lowercase.
#[verifier::external_body]
fn to_lowercase(c: char) -> (r: Vec<char>)
    ensures
        r@ == char_lowercase(c),
        c < '\u{80}' ==> r@ == seq![ascii_lower(c)],
{
    c.to_lowercase().collect()
}

/// The letters of `cs`, lowercased.
pub open spec fn lowered_letters(cs: Seq<char>) -> Seq<char>
    decreases cs.len(),
{
    if cs.len() == 0 {
        Seq::empty()
    } else {
        lowered_letters(cs.drop_last()) + if char_alphabetic(cs.last()) {
            char_lowercase(cs.last())
        } else {
            Seq::empty()
        }
    }
}

/// [`lowered_letters`] of ASCII text: its ASCII letters, lowercased.
pub open spec fn ascii_lowered_letters(cs: Seq<char>) -> Seq<char>
    decreases cs.len(),
{
    if cs.len() == 0 {
        Seq::empty()
    } else {
        ascii_lowered_letters(cs.drop_last()) + if ascii_letter(cs.last()) {
            seq![ascii_lower(cs.last())]
        } else {
            Seq::empty()
        }
    }
}

/// A vowel of the heuristic (`y` included).
pub open spec fn vowel(c: char) -> bool {
    c == 'a' || c == 'e' || c == 'i' || c == 'o' || c == 'u' || c == 'y'
}

/// The number of maximal runs of vowels in `w`.
pub open spec fn vowel_groups(w: Seq<char>) -> nat
    decreases w.len(),
{
    if w.len() == 0 {
        0
    } else {
        vowel_groups(w.drop_last()) + if vowel(w.last()) && (w.len() == 1 || !vowel(w[w.len() - 2])) {
            1nat
        } else {
            0nat
        }
    }
}

/// `w` ends in a silent `e`: longer than two letters, an `e` after a
/// consonant, but not a consonant + "le" ending.
pub open spec fn silent_e(w: Seq<char>) -> bool {
    let n = w.len();
    &&& n > 2
    &&& w[n - 1] == 'e'
    &&& !vowel(w[n - 2])
    &&& !(n >= 3 && w[n - 2] == 'l' && !vowel(w[n - 3]))
}

/// The syllables of the lowercased letters `w`: none without letters,
/// otherwise the vowel groups less a silent `e`, at least one.
pub open spec fn syllables_of(w: Seq<char>) -> nat {
    if w.len() == 0 {
        0
    } else {
        let c = vowel_groups(w);
        let d: nat = if silent_e(w) && c > 0 {
            (c - 1) as nat
        } else {
            c
        };
        if d >= 1 {
            d
        } else {
            1
        }
    }
}

fn is_vowel(c: char) -> (r: bool)
    ensures
        r == vowel(c),
{
    c == 'a' || c == 'e' || c == 'i' || c == 'o' || c == 'u' || c == 'y'
}

proof fn lemma_groups_le(w: Seq<char>)
    ensures
        vowel_groups(w) <= w.len(),
    decreases w.len(),
{
    if w.len() > 0 {
        lemma_groups_le(w.drop_last());
    }
}

/// Count the syllables of a single word with the vowel-group heuristic.
pub fn syllables(word: &str) -> (r: usize)
    ensures
        r == syllables_of(lowered_letters(word@)),
        ascii_text(word@) ==> lowered_letters(word@) == ascii_lowered_letters(word@),
{
    let cs = chars_of(word);
    let mut w: Vec<char> = Vec::new();
    let mut i: usize = 0;
    while i < cs.len()
        invariant
            cs@ == word@,
            i <= cs@.len(),
            w@ == lowered_letters(cs@.take(i as int)),
            ascii_text(word@) ==> lowered_letters(cs@.take(i as int)) == ascii_lowered_letters(cs@.take(i as int)),
        decreases cs@.len() - i,
    {
        let c = cs[i];
        proof {
            assert(cs@.take(i + 1).drop_last() =~= cs@.take(i as int));
            assert(cs@.take(i + 1).last() == c);
            if ascii_text(word@) {
                assert(word@[i as int] < '\u{80}');
            }
        }
        if is_alphabetic(c) {
            let lc = to_lowercase(c);
            let mut j: usize = 0;
            let ghost before = w@;
            while j < lc.len()
                invariant
                    j <= lc@.len(),
                    w@ == before + lc@.take(j as int),
                decreases lc@.len() - j,
            {
                w.push(lc[j]);
                j += 1;
                proof {
                    assert(w@ =~= before + lc@.take(j as int));
                }
            }
            proof {
                assert(lc@.take(lc@.len() as int) =~= lc@);
            }
        } else {
            proof {
                assert(w@ =~= w@ + Seq::<char>::empty());
            }
        }
        i += 1;
    }
    proof {
        assert(cs@.take(cs@.len() as int) =~= cs@);
    }
    let n = w.len();
    if n == 0 {
        return 0;
    }
    let mut count: usize = 0;
    let mut prev_vowel = false;
    let mut k: usize = 0;
    while k < n
        invariant
            n == w@.len(),
            k <= n,
            count == vowel_groups(w@.take(k as int)),
            count <= k,
            k > 0 ==> prev_vowel == vowel(w@[k - 1]),
            k == 0 ==> !prev_vowel,
        decreases n - k,
    {
        let v = is_vowel(w[k]);
        proof {
            assert(w@.take(k + 1).drop_last() =~= w@.take(k as int));
            assert(w@.take(k + 1).last() == w@[k as int]);
            if k > 0 {
                assert(w@.take(k + 1)[k - 1] == w@[k - 1]);
            }
        }
        if v && !prev_vowel {
            count += 1;
        }
        prev_vowel = v;
        k += 1;
    }
    proof {
        assert(w@.take(n as int) =~= w@);
    }
    if n > 2 && w[n - 1] == 'e' && !is_vowel(w[n - 2]) {
        let consonant_le = n >= 3 && w[n - 2] == 'l' && !is_vowel(w[n - 3]);
        if !consonant_le && count > 0 {
            count -= 1;
        }
    }
    if count >= 1 {
        count
    } else {
        1
    }
}


/// An `e` after a vowel is never silent: a lowercased word ending in a vowel
/// and then `e` (such as "agree" or "canoe") has as many syllables as vowel
/// groups.
pub proof fn law_e_after_vowel_is_sounded(w: Seq<char>)
    requires
        w.len() >= 2,
        w[w.len() - 1] == 'e',
        vowel(w[w.len() - 2]),
    ensures
        syllables_of(w) == vowel_groups(w),
        vowel_groups(w) >= 1,
{
    let n = w.len();
    assert(w.drop_last().last() == w[n - 2]);
    lemma_ends_in_vowel_has_group(w.drop_last());
    assert(vowel_groups(w) == vowel_groups(w.drop_last()));
}

proof fn lemma_ends_in_vowel_has_group(w: Seq<char>)
    requires
        w.len() >= 1,
        vowel(w.last()),
    ensures
        vowel_groups(w) >= 1,
    decreases w.len(),
{
    if w.len() >= 2 && vowel(w[w.len() - 2]) {
        assert(w.drop_last().last() == w[w.len() - 2]);
        lemma_ends_in_vowel_has_group(w.drop_last());
    }
}

/// A final `e` after a consonant, other than a consonant + "le" ending, is
/// silent: a word of more than two letters with at least two vowel groups
/// ending that way has one syllable fewer than vowel groups.
pub proof fn law_e_after_consonant_is_silent(w: Seq<char>)
    requires
        w.len() > 2,
        w[w.len() - 1] == 'e',
        !vowel(w[w.len() - 2]),
        !(w[w.len() - 2] == 'l' && !vowel(w[w.len() - 3])),
        vowel_groups(w) >= 2,
    ensures
        syllables_of(w) == vowel_groups(w) - 1,
{
}

} // verus!
