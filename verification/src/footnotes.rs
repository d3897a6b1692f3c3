//! Footnote repositioning: a footnote marker `[^label]` standing
//! immediately before a punctuation character swaps places with it,
//! so the marker always follows the punctuation.  The punctuation set
//! is a parameter; the default set is sentence punctuation plus the
//! comma.
use vstd::prelude::*;

use crate::text::chars_to_string;
use crate::text::find_char;
use crate::text::find_char_exec;
use crate::text::lemma_find_char_first;
use crate::text::lemma_find_char_is;
use crate::text::lemma_find_char_none;
use crate::text::push_all;
use crate::text::subvec;
use crate::text::to_chars;

verus! {

broadcast use crate::text::lemma_find_char_bounds;

/// The default punctuation set: sentence punctuation and the comma.
pub open spec fn default_puncts() -> Seq<char> {
    seq!['.', '!', '?', ';', ':', ',']
}

/// A footnote marker starts at the first position and is immediately
/// followed by one of the punctuation characters: `[`, `^`, label
/// text without `]`, the closing `]`, then the punctuation.
pub open spec fn footnote_at(s: Seq<char>, puncts: Seq<char>) -> bool {
    s.len() >= 2 && s[0] == '[' && s[1] == '^' && {
        let j = find_char(s, ']', 2);
        2 <= j && j + 1 < s.len() && puncts.contains(s[j + 1])
    }
}

/// The document with every footnote marker that directly precedes a
/// punctuation character moved to just after it.
pub open spec fn swap_footnotes(s: Seq<char>, puncts: Seq<char>) -> Seq<char>
    decreases s.len(),
{
    if s.len() == 0 {
        Seq::empty()
    } else if footnote_at(s, puncts) {
        let j = find_char(s, ']', 2);
        seq![s[j + 1]] + s.take(j + 1) + swap_footnotes(s.skip(j + 2), puncts)
    } else {
        seq![s[0]] + swap_footnotes(s.skip(1), puncts)
    }
}

/// Test whether `c` is one of the characters of `puncts`.
fn contains_char(puncts: &Vec<char>, c: char) -> (r: bool)
    ensures
        r == puncts@.contains(c),
{
    let mut i: usize = 0;
    while i < puncts.len()
        invariant
            0 <= i <= puncts@.len(),
            forall|k: int| 0 <= k < i ==> puncts@[k] != c,
        decreases puncts.len() - i,
    {
        if puncts[i] == c {
            return true;
        }
        i = i + 1;
    }
    false
}

/// Swap each footnote marker with the punctuation character that
/// directly follows it.
#[verifier::rlimit(60)]
pub fn swap_footnotes_exec(chars: &Vec<char>, puncts: &Vec<char>) -> (out: Vec<char>)
    ensures
        out@ == swap_footnotes(chars@, puncts@),
{
    let mut out: Vec<char> = Vec::new();
    let mut i: usize = 0;
    proof {
        assert(chars@.skip(0) =~= chars@);
        assert(out@ + swap_footnotes(chars@, puncts@) =~= swap_footnotes(chars@, puncts@));
    }
    while i < chars.len()
        invariant
            0 <= i <= chars@.len(),
            swap_footnotes(chars@, puncts@) == out@ + swap_footnotes(
                chars@.skip(i as int),
                puncts@,
            ),
        decreases chars.len() - i,
    {
        let ghost suffix = chars@.skip(i as int);
        let mut plain: bool = true;
        if chars[i] == '[' && chars.len() - i > 1 && chars[i + 1] == '^' {
            proof {
                assert(suffix[1] == chars@[i + 1]);
            }
            match find_char_exec(&chars, ']', i + 2) {
                Some(j) => {
                    proof {
                        lemma_find_char_first(chars@, ']', i + 2 as int);
                        assert forall|m: int| 2 <= m < j - i implies suffix[m] != ']' by {
                            assert(suffix[m] == chars@[i + m]);
                        }
                        lemma_find_char_is(suffix, ']', 2, j - i);
                    }
                    let is_punct: bool = if chars.len() - j > 1 {
                        contains_char(puncts, chars[j + 1])
                    } else {
                        false
                    };
                    if is_punct {
                        proof {
                            assert(suffix[j - i + 1] == chars@[j + 1]);
                            assert(footnote_at(suffix, puncts@));
                            assert(suffix.take(j - i + 1) =~= chars@.subrange(
                                i as int,
                                j + 1 as int,
                            ));
                            assert(suffix.skip(j - i + 2) =~= chars@.skip(j + 2 as int));
                            assert(swap_footnotes(suffix, puncts@) == seq![chars@[j + 1]]
                                + chars@.subrange(i as int, j + 1 as int) + swap_footnotes(
                                chars@.skip(j + 2 as int),
                                puncts@,
                            ));
                        }
                        out.push(chars[j + 1]);
                        let marker = subvec(&chars, i, j + 1);
                        push_all(&mut out, &marker);
                        proof {
                            assert(out@ + swap_footnotes(chars@.skip(j + 2 as int), puncts@)
                                =~= swap_footnotes(chars@, puncts@));
                        }
                        i = j + 2;
                        plain = false;
                    } else {
                        proof {
                            if footnote_at(suffix, puncts@) {
                                let jj = find_char(suffix, ']', 2);
                                assert(jj == j - i);
                                assert(suffix[jj + 1] == chars@[j + 1]);
                            }
                            assert(!footnote_at(suffix, puncts@));
                        }
                    }
                },
                None => {
                    proof {
                        lemma_find_char_first(chars@, ']', i + 2 as int);
                        assert forall|m: int| 2 <= m < suffix.len() implies suffix[m] != ']' by {
                            assert(suffix[m] == chars@[i + m]);
                        }
                        lemma_find_char_none(suffix, ']', 2);
                        assert(!footnote_at(suffix, puncts@));
                    }
                },
            }
        } else {
            proof {
                assert(suffix[0] == chars@[i as int]);
                if suffix.len() >= 2 {
                    assert(suffix[1] == chars@[i + 1]);
                }
                assert(!footnote_at(suffix, puncts@));
            }
        }
        if plain {
            proof {
                assert(suffix[0] == chars@[i as int]);
                assert(suffix.skip(1) =~= chars@.skip(i + 1 as int));
                assert(swap_footnotes(suffix, puncts@) == seq![chars@[i as int]] + swap_footnotes(
                    chars@.skip(i + 1 as int),
                    puncts@,
                ));
            }
            out.push(chars[i]);
            proof {
                assert(out@ + swap_footnotes(chars@.skip(i + 1 as int), puncts@) =~= swap_footnotes(
                    chars@,
                    puncts@,
                ));
            }
            i = i + 1;
        }
    }
    proof {
        assert(chars@.skip(chars@.len() as int) =~= Seq::<char>::empty());
        assert(out@ =~= swap_footnotes(chars@, puncts@));
    }
    out
}

/// Move footnotes to always after punctuation, with the default
/// punctuation set.
pub fn move_footnotes_after_punctuation(before: String) -> (after: String)
    ensures
        after@ == swap_footnotes(before@, default_puncts()),
{
    let chars = to_chars(before.as_str());
    let puncts: Vec<char> = vec!['.', '!', '?', ';', ':', ','];
    proof {
        assert(puncts@ =~= default_puncts());
    }
    let out = swap_footnotes_exec(&chars, &puncts);
    chars_to_string(&out)
}

/// A document in which no footnote marker directly precedes a
/// punctuation character is left untouched.
pub proof fn lemma_footnotes_untouched(s: Seq<char>, puncts: Seq<char>)
    requires
        forall|i: int| 0 <= i <= s.len() ==> !footnote_at(#[trigger] s.skip(i), puncts),
    ensures
        swap_footnotes(s, puncts) == s,
    decreases s.len(),
{
    if s.len() > 0 {
        assert(s.skip(0) =~= s);
        assert(!footnote_at(s, puncts));
        assert forall|i: int| 0 <= i <= s.skip(1).len() implies !footnote_at(
            #[trigger] s.skip(1).skip(i),
            puncts,
        ) by {
            assert(s.skip(1).skip(i) =~= s.skip(i + 1));
        }
        lemma_footnotes_untouched(s.skip(1), puncts);
        assert(seq![s[0]] + s.skip(1) =~= s);
    }
}

} // verus!
