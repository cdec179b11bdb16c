//! The syllable-counting heuristic: a word's syllable count is the number of
//! maximal runs of vowel characters in it (each run is one syllable nucleus).

use vstd::prelude::*;

verus! {

/// The fixed set of syllable-nucleus characters: the Latin vowels
/// (y included) and the Cyrillic vowels, both cases listed explicitly.
pub open spec fn is_vowel(c: char) -> bool {
    ||| c == 'a'
    ||| c == 'e'
    ||| c == 'i'
    ||| c == 'o'
    ||| c == 'u'
    ||| c == 'y'
    ||| c == 'A'
    ||| c == 'E'
    ||| c == 'I'
    ||| c == 'O'
    ||| c == 'U'
    ||| c == 'Y'
    ||| c == '\u{0430}'
    ||| c == '\u{0435}'
    ||| c == '\u{0438}'
    ||| c == '\u{043e}'
    ||| c == '\u{0443}'
    ||| c == '\u{044b}'
    ||| c == '\u{044d}'
    ||| c == '\u{044e}'
    ||| c == '\u{044f}'
    ||| c == '\u{0410}'
    ||| c == '\u{0415}'
    ||| c == '\u{0418}'
    ||| c == '\u{041e}'
    ||| c == '\u{0423}'
    ||| c == '\u{042b}'
    ||| c == '\u{042d}'
    ||| c == '\u{042e}'
    ||| c == '\u{042f}'
}

/// Decides vowel-set membership.
pub fn is_vowel_char(c: char) -> (b: bool)
    ensures
        b == is_vowel(c),
{
    c == 'a' || c == 'e' || c == 'i' || c == 'o' || c == 'u' || c == 'y' || c == 'A' || c == 'E'
        || c == 'I' || c == 'O' || c == 'U' || c == 'Y' || c == '\u{0430}' || c == '\u{0435}'
        || c == '\u{0438}' || c == '\u{043e}' || c == '\u{0443}' || c == '\u{044b}'
        || c == '\u{044d}' || c == '\u{044e}' || c == '\u{044f}' || c == '\u{0410}'
        || c == '\u{0415}' || c == '\u{0418}' || c == '\u{041e}' || c == '\u{0423}'
        || c == '\u{042b}' || c == '\u{042d}' || c == '\u{042e}' || c == '\u{042f}'
}

/// Number of vowel runs in `s`, scanning left to right; `prev` says whether
/// the character just before `s` was a vowel (a run may not start at `s[0]`).
pub open spec fn syllables_rec(s: Seq<char>, prev: bool) -> nat
    decreases s.len(),
{
    if s.len() == 0 {
        0
    } else {
        (if is_vowel(s[0]) && !prev {
            1nat
        } else {
            0nat
        }) + syllables_rec(s.drop_first(), is_vowel(s[0]))
    }
}

/// The syllable count of a word: the number of maximal vowel runs in it.
pub open spec fn syllable_count(s: Seq<char>) -> nat {
    syllables_rec(s, false)
}

/// Number of vowel characters in `s`.
pub open spec fn num_vowels(s: Seq<char>) -> nat
    decreases s.len(),
{
    if s.len() == 0 {
        0
    } else {
        (if is_vowel(s[0]) {
            1nat
        } else {
            0nat
        }) + num_vowels(s.drop_first())
    }
}

/// Counts the syllables of a word: one per maximal run of vowel characters.
/// Total over all character sequences; a word without vowels counts zero.
pub fn count_syllables_in_word(word: &str) -> (n: usize)
    ensures
        n == syllable_count(word@),
{
    let len = word.unicode_len();
    let mut n: usize = 0;
    let mut prev = false;
    let mut i: usize = 0;
    proof {
        assert(word@.skip(0) =~= word@);
    }
    while i < len
        invariant
            i <= len,
            len == word@.len(),
            n <= i,
            syllable_count(word@) == n + syllables_rec(word@.skip(i as int), prev),
        decreases len - i,
    {
        let c = word.get_char(i);
        proof {
            assert(word@.skip(i as int)[0] == word@[i as int]);
            assert(word@.skip(i as int).drop_first() =~= word@.skip(i as int + 1));
        }
        let v = is_vowel_char(c);
        if v && !prev {
            n = n + 1;
        }
        prev = v;
        i = i + 1;
    }
    proof {
        assert(word@.skip(len as int) =~= Seq::<char>::empty());
    }
    n
}

proof fn lemma_consonant_only_rec(s: Seq<char>, prev: bool)
    requires
        forall|i: int| 0 <= i < s.len() ==> !is_vowel(s[i]),
    ensures
        syllables_rec(s, prev) == 0,
    decreases s.len(),
{
    if s.len() > 0 {
        assert forall|i: int| 0 <= i < s.drop_first().len() implies !is_vowel(
            s.drop_first()[i],
        ) by {
            assert(s.drop_first()[i] == s[i + 1]);
        }
        lemma_consonant_only_rec(s.drop_first(), is_vowel(s[0]));
    }
}

/// A word made only of non-vowel characters has no syllables.
pub proof fn lemma_consonant_only_zero(s: Seq<char>)
    requires
        forall|i: int| 0 <= i < s.len() ==> !is_vowel(s[i]),
    ensures
        syllable_count(s) == 0,
{
    lemma_consonant_only_rec(s, false);
}

/// No two adjacent characters of `s` are both vowels.
pub open spec fn no_adjacent_vowels(s: Seq<char>) -> bool {
    forall|i: int| 1 <= i < s.len() ==> !(is_vowel(s[i - 1]) && is_vowel(#[trigger] s[i]))
}

proof fn lemma_isolated_vowels_rec(s: Seq<char>, prev: bool)
    requires
        no_adjacent_vowels(s),
        prev ==> (s.len() == 0 || !is_vowel(s[0])),
    ensures
        syllables_rec(s, prev) == num_vowels(s),
    decreases s.len(),
{
    if s.len() > 0 {
        assert forall|i: int| 1 <= i < s.drop_first().len() implies !(is_vowel(
            s.drop_first()[i - 1],
        ) && is_vowel(#[trigger] s.drop_first()[i])) by {
            assert(s.drop_first()[i - 1] == s[i]);
            assert(s.drop_first()[i] == s[i + 1]);
        }
        if is_vowel(s[0]) && s.len() > 1 {
            assert(!(is_vowel(s[0]) && is_vowel(s[1])));
            assert(s.drop_first()[0] == s[1]);
        }
        lemma_isolated_vowels_rec(s.drop_first(), is_vowel(s[0]));
    }
}

/// A word whose vowels are all isolated (no two adjacent) has exactly one
/// syllable per vowel character.
pub proof fn lemma_isolated_vowels_count(s: Seq<char>)
    requires
        no_adjacent_vowels(s),
    ensures
        syllable_count(s) == num_vowels(s),
{
    lemma_isolated_vowels_rec(s, false);
}

proof fn lemma_duplicate_vowel_rec(s: Seq<char>, j: int, prev: bool)
    requires
        0 <= j < s.len(),
        is_vowel(s[j]),
    ensures
        syllables_rec(s.insert(j + 1, s[j]), prev) == syllables_rec(s, prev),
    decreases j,
{
    let t = s.insert(j + 1, s[j]);
    assert(t.len() == s.len() + 1);
    assert(t[0] == s[0]);
    if j == 0 {
        let u = t.drop_first();
        assert(u[0] == s[0]);
        assert(u.drop_first() =~= s.drop_first());
        assert(syllables_rec(u, true) == syllables_rec(s.drop_first(), true));
        assert(syllables_rec(t, prev) == (if is_vowel(s[0]) && !prev {
            1nat
        } else {
            0nat
        }) + syllables_rec(u, is_vowel(s[0])));
    } else {
        assert(t.drop_first() =~= s.drop_first().insert(j, s[j]));
        assert(s.drop_first()[j - 1] == s[j]);
        lemma_duplicate_vowel_rec(s.drop_first(), j - 1, is_vowel(s[0]));
    }
}

/// Run-collapse idempotence: duplicating a vowel right after itself leaves
/// the syllable count unchanged, since both copies lie in one vowel run.
pub proof fn lemma_duplicate_vowel_in_run(s: Seq<char>, j: int)
    requires
        0 <= j < s.len(),
        is_vowel(s[j]),
    ensures
        syllable_count(s.insert(j + 1, s[j])) == syllable_count(s),
{
    lemma_duplicate_vowel_rec(s, j, false);
}

} // verus!
