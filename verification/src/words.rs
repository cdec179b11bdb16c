//! Whitespace splitting: an input string becomes the sequence of its maximal
//! non-whitespace runs, in order; consecutive whitespace collapses and
//! leading or trailing whitespace is ignored.

use vstd::prelude::*;
use vstd::string::StrSliceExecFns;

verus! {

/// The whitespace characters: the code points with the Unicode `White_Space`
/// property, which is what splitting on whitespace goes by.
pub open spec fn is_space(c: char) -> bool {
    ||| c == '\u{0009}'
    ||| c == '\u{000a}'
    ||| c == '\u{000b}'
    ||| c == '\u{000c}'
    ||| c == '\u{000d}'
    ||| c == '\u{0020}'
    ||| c == '\u{0085}'
    ||| c == '\u{00a0}'
    ||| c == '\u{1680}'
    ||| c == '\u{2000}'
    ||| c == '\u{2001}'
    ||| c == '\u{2002}'
    ||| c == '\u{2003}'
    ||| c == '\u{2004}'
    ||| c == '\u{2005}'
    ||| c == '\u{2006}'
    ||| c == '\u{2007}'
    ||| c == '\u{2008}'
    ||| c == '\u{2009}'
    ||| c == '\u{200a}'
    ||| c == '\u{2028}'
    ||| c == '\u{2029}'
    ||| c == '\u{202f}'
    ||| c == '\u{205f}'
    ||| c == '\u{3000}'
}

/// Decides whitespace membership.
pub fn is_space_char(c: char) -> (b: bool)
    ensures
        b == is_space(c),
{
    c == '\u{0009}' || c == '\u{000a}' || c == '\u{000b}' || c == '\u{000c}' || c == '\u{000d}'
        || c == '\u{0020}' || c == '\u{0085}' || c == '\u{00a0}' || c == '\u{1680}'
        || c == '\u{2000}' || c == '\u{2001}' || c == '\u{2002}' || c == '\u{2003}'
        || c == '\u{2004}' || c == '\u{2005}' || c == '\u{2006}' || c == '\u{2007}'
        || c == '\u{2008}' || c == '\u{2009}' || c == '\u{200a}' || c == '\u{2028}'
        || c == '\u{2029}' || c == '\u{202f}' || c == '\u{205f}' || c == '\u{3000}'
}

/// The words of `s` from position `i` on, given the partial word `cur` read
/// just before position `i`: a left-to-right scan that closes `cur` at each
/// whitespace character and at the end of the string.
pub open spec fn scan_words(s: Seq<char>, i: int, cur: Seq<char>) -> Seq<Seq<char>>
    decreases s.len() - i,
{
    if i < 0 || i >= s.len() {
        if cur.len() == 0 {
            Seq::empty()
        } else {
            seq![cur]
        }
    } else if is_space(s[i]) {
        if cur.len() == 0 {
            scan_words(s, i + 1, Seq::empty())
        } else {
            seq![cur] + scan_words(s, i + 1, Seq::empty())
        }
    } else {
        scan_words(s, i + 1, cur.push(s[i]))
    }
}

/// The words of `s`: its maximal non-whitespace runs, in order.
pub open spec fn words_of(s: Seq<char>) -> Seq<Seq<char>> {
    scan_words(s, 0, Seq::empty())
}

/// Splits a string into its whitespace-separated words.
pub fn split_whitespace_words(s: &str) -> (words: Vec<String>)
    ensures
        words.deep_view() == words_of(s@),
{
    let n = s.unicode_len();
    let mut words: Vec<String> = Vec::new();
    let mut start: usize = 0;
    let mut in_word = false;
    let mut i: usize = 0;
    proof {
        assert(words.deep_view() =~= Seq::<Seq<char>>::empty());
        assert(Seq::<Seq<char>>::empty() + words_of(s@) =~= words_of(s@));
    }
    while i < n
        invariant
            i <= n,
            n == s@.len(),
            in_word ==> start < i,
            words_of(s@) == words.deep_view() + scan_words(
                s@,
                i as int,
                if in_word {
                    s@.subrange(start as int, i as int)
                } else {
                    Seq::<char>::empty()
                },
            ),
        decreases n - i,
    {
        let ghost cur: Seq<char> = if in_word {
            s@.subrange(start as int, i as int)
        } else {
            Seq::<char>::empty()
        };
        let ghost dv = words.deep_view();
        let c = s.get_char(i);
        let sp = is_space_char(c);
        if sp {
            if in_word {
                proof {
                    assert(cur.len() == i - start);
                    assert(scan_words(s@, i as int, cur) == seq![cur] + scan_words(
                        s@,
                        i as int + 1,
                        Seq::<char>::empty(),
                    ));
                }
                let w = s.substring_char(start, i).to_owned();
                words.push(w);
                in_word = false;
                proof {
                    assert(words.deep_view() =~= dv.push(cur));
                    assert(dv + (seq![cur] + scan_words(s@, i as int + 1, Seq::<char>::empty()))
                        =~= dv.push(cur) + scan_words(s@, i as int + 1, Seq::<char>::empty()));
                }
            }
        } else {
            if !in_word {
                start = i;
                in_word = true;
                proof {
                    assert(Seq::<char>::empty().push(s@[i as int]) =~= s@.subrange(
                        i as int,
                        i as int + 1,
                    ));
                }
            } else {
                proof {
                    assert(cur.push(s@[i as int]) =~= s@.subrange(start as int, i as int + 1));
                }
            }
        }
        i = i + 1;
    }
    if in_word {
        let ghost cur: Seq<char> = s@.subrange(start as int, n as int);
        let ghost dv = words.deep_view();
        proof {
            assert(cur.len() > 0);
            assert(scan_words(s@, n as int, cur) =~= seq![cur]);
        }
        let w = s.substring_char(start, n).to_owned();
        words.push(w);
        proof {
            assert(words.deep_view() =~= dv.push(cur));
            assert(dv + seq![cur] =~= dv.push(cur));
        }
    } else {
        proof {
            assert(scan_words(s@, n as int, Seq::<char>::empty()) =~= Seq::<Seq<char>>::empty());
            assert(words.deep_view() + Seq::<Seq<char>>::empty() =~= words.deep_view());
        }
    }
    words
}

} // verus!
