//! Reference-space trimming: after a reference-definition label
//! `[...]: ` any extra spaces are deleted, so exactly one space
//! separates the label's colon from what follows.
use vstd::prelude::*;

use crate::text::chars_to_string;
use crate::text::find_char;
use crate::text::find_char_exec;
use crate::text::lemma_find_char_first;
use crate::text::lemma_find_char_is;
use crate::text::lemma_find_char_none;
use crate::text::lemma_skip_spaces_spec;
use crate::text::lemma_skip_spaces_is;
use crate::text::skip_spaces_exec;
use crate::text::skip_spaces_idx;
use crate::text::push_all;
use crate::text::subvec;
use crate::text::to_chars;

verus! {

broadcast use crate::text::lemma_find_char_bounds, crate::text::lemma_skip_spaces_bounds;

/// A reference label starts at the first position: `[`, a run of
/// characters other than `]`, then the closing `]`, a colon and one
/// space.
pub open spec fn ref_label_at(s: Seq<char>) -> bool {
    s.len() >= 1 && s[0] == '[' && {
        let j = find_char(s, ']', 1);
        1 <= j && j + 2 < s.len() && s[j + 1] == ':' && s[j + 2] == ' '
    }
}

/// The document with every run of spaces after a reference label
/// collapsed to the single space of the label itself.
pub open spec fn trim_ref_spaces(s: Seq<char>) -> Seq<char>
    decreases s.len(),
{
    if s.len() == 0 {
        Seq::empty()
    } else if ref_label_at(s) {
        let j = find_char(s, ']', 1);
        let e = skip_spaces_idx(s, j + 3);
        s.take(j + 3) + trim_ref_spaces(s.skip(e))
    } else {
        seq![s[0]] + trim_ref_spaces(s.skip(1))
    }
}

/// Delete extra spaces after a reference label such as a footnote
/// definition.
#[verifier::rlimit(60)]
pub fn remove_extra_ref_spaces(before: String) -> (after: String)
    ensures
        after@ == trim_ref_spaces(before@),
{
    let chars = to_chars(before.as_str());
    let mut out: Vec<char> = Vec::new();
    let mut i: usize = 0;
    proof {
        assert(chars@.skip(0) =~= chars@);
        assert(out@ + trim_ref_spaces(chars@) =~= trim_ref_spaces(chars@));
    }
    while i < chars.len()
        invariant
            0 <= i <= chars@.len(),
            chars@ == before@,
            trim_ref_spaces(chars@) == out@ + trim_ref_spaces(chars@.skip(i as int)),
        decreases chars.len() - i,
    {
        let ghost suffix = chars@.skip(i as int);
        let mut plain: bool = true;
        if chars[i] == '[' {
            match find_char_exec(&chars, ']', i + 1) {
                Some(j) => {
                    proof {
                        lemma_find_char_first(chars@, ']', i + 1 as int);
                        assert forall|m: int| 1 <= m < j - i implies suffix[m] != ']' by {
                            assert(suffix[m] == chars@[i + m]);
                        }
                        lemma_find_char_is(suffix, ']', 1, j - i);
                    }
                    if chars.len() - j > 2 && chars[j + 1] == ':' && chars[j + 2] == ' ' {
                        proof {
                            assert(suffix[j - i + 1] == chars@[j + 1]);
                            assert(suffix[j - i + 2] == chars@[j + 2]);
                            assert(ref_label_at(suffix));
                        }
                        let e = skip_spaces_exec(&chars, j + 3);
                        proof {
                            lemma_skip_spaces_spec(chars@, j + 3 as int);
                            assert forall|k: int| j - i + 3 <= k < e - i implies suffix[k]
                                == ' ' by {
                                assert(suffix[k] == chars@[i + k]);
                            }
                            if e - i < suffix.len() {
                                assert(suffix[e - i] == chars@[e as int]);
                            }
                            lemma_skip_spaces_is(suffix, j - i + 3, e - i);
                            assert(suffix.take(j - i + 3) =~= chars@.subrange(
                                i as int,
                                j + 3 as int,
                            ));
                            assert(suffix.skip(e - i) =~= chars@.skip(e as int));
                            assert(trim_ref_spaces(suffix) == suffix.take(j - i + 3)
                                + trim_ref_spaces(chars@.skip(e as int)));
                        }
                        let label = subvec(&chars, i, j + 3);
                        push_all(&mut out, &label);
                        proof {
                            assert(out@ + trim_ref_spaces(chars@.skip(e as int)) =~= trim_ref_spaces(
                                chars@,
                            ));
                        }
                        i = e;
                        plain = false;
                    } else {
                        proof {
                            if ref_label_at(suffix) {
                                let jj = find_char(suffix, ']', 1);
                                assert(jj == j - i);
                                assert(suffix[jj + 1] == chars@[j + 1]);
                                assert(suffix[jj + 2] == chars@[j + 2]);
                            }
                            assert(!ref_label_at(suffix));
                        }
                    }
                },
                None => {
                    proof {
                        lemma_find_char_first(chars@, ']', i + 1 as int);
                        assert forall|m: int| 1 <= m < suffix.len() implies suffix[m] != ']' by {
                            assert(suffix[m] == chars@[i + m]);
                        }
                        lemma_find_char_none(suffix, ']', 1);
                        assert(!ref_label_at(suffix));
                    }
                },
            }
        } else {
            proof {
                assert(suffix[0] == chars@[i as int]);
                assert(!ref_label_at(suffix));
            }
        }
        if plain {
            proof {
                assert(suffix[0] == chars@[i as int]);
                assert(suffix.skip(1) =~= chars@.skip(i + 1 as int));
                assert(trim_ref_spaces(suffix) == seq![chars@[i as int]] + trim_ref_spaces(
                    chars@.skip(i + 1 as int),
                ));
            }
            out.push(chars[i]);
            proof {
                assert(out@ + trim_ref_spaces(chars@.skip(i + 1 as int)) =~= trim_ref_spaces(
                    chars@,
                ));
            }
            i = i + 1;
        }
    }
    proof {
        assert(chars@.skip(chars@.len() as int) =~= Seq::<char>::empty());
        assert(out@ =~= trim_ref_spaces(chars@));
    }
    chars_to_string(&out)
}

} // verus!
