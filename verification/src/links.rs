//! Self-link simplification: an inline link `[text](target)` whose
//! text, once backslash escape markers are removed, equals its target
//! is rewritten as `<target>`; any other link is left untouched.
use vstd::prelude::*;

use crate::text::chars_eq;
use crate::text::chars_to_string;
use crate::text::find_char;
use crate::text::find_char_exec;
use crate::text::lemma_find_char_first;
use crate::text::lemma_find_char_is;
use crate::text::lemma_find_char_none;
use crate::text::push_all;
use crate::text::subvec;
use crate::text::to_chars;

verus! {

broadcast use crate::text::lemma_find_char_bounds;

/// An inline link starts at the first position: `[`, text without
/// `]`, then `](`, a target without `)`, and the closing `)`.
pub open spec fn link_at(s: Seq<char>) -> bool {
    s.len() >= 1 && s[0] == '[' && {
        let j = find_char(s, ']', 1);
        1 <= j && j + 1 < s.len() && s[j + 1] == '(' && {
            let k = find_char(s, ')', j + 2);
            j + 2 <= k < s.len()
        }
    }
}

/// The text with every backslash escape marker removed.
pub open spec fn strip_escapes(t: Seq<char>) -> Seq<char>
    decreases t.len(),
{
    if t.len() == 0 {
        Seq::empty()
    } else if t[0] == '\\' {
        strip_escapes(t.skip(1))
    } else {
        seq![t[0]] + strip_escapes(t.skip(1))
    }
}

/// The document with every self-link `[target](target)` rewritten as
/// `<target>`; the escape-stripped text decides the equality, but the
/// emitted target is the link's own.
pub open spec fn simplify_links(s: Seq<char>) -> Seq<char>
    decreases s.len(),
{
    if s.len() == 0 {
        Seq::empty()
    } else if link_at(s) {
        let j = find_char(s, ']', 1);
        let k = find_char(s, ')', j + 2);
        let text = s.subrange(1, j);
        let target = s.subrange(j + 2, k);
        if strip_escapes(text) == target {
            seq!['<'] + target + seq!['>'] + simplify_links(s.skip(k + 1))
        } else {
            s.take(k + 1) + simplify_links(s.skip(k + 1))
        }
    } else {
        seq![s[0]] + simplify_links(s.skip(1))
    }
}

/// Remove the backslash escape markers from a run of characters.
fn strip_escapes_exec(t: &Vec<char>) -> (out: Vec<char>)
    ensures
        out@ == strip_escapes(t@),
{
    let mut out: Vec<char> = Vec::new();
    let mut i: usize = 0;
    proof {
        assert(t@.skip(0) =~= t@);
        assert(out@ + strip_escapes(t@) =~= strip_escapes(t@));
    }
    while i < t.len()
        invariant
            0 <= i <= t@.len(),
            strip_escapes(t@) == out@ + strip_escapes(t@.skip(i as int)),
        decreases t.len() - i,
    {
        proof {
            assert(t@.skip(i as int)[0] == t@[i as int]);
            assert(t@.skip(i as int).skip(1) =~= t@.skip(i + 1 as int));
        }
        if t[i] != '\\' {
            out.push(t[i]);
        }
        proof {
            assert(out@ + strip_escapes(t@.skip(i + 1 as int)) =~= strip_escapes(t@));
        }
        i = i + 1;
    }
    proof {
        assert(t@.skip(t@.len() as int) =~= Seq::<char>::empty());
        assert(out@ =~= strip_escapes(t@));
    }
    out
}

/// Simplify `[URL](URL)` links to `<URL>`.
#[verifier::rlimit(60)]
pub fn simplify_urls(before: String) -> (after: String)
    ensures
        after@ == simplify_links(before@),
{
    let chars = to_chars(before.as_str());
    let mut out: Vec<char> = Vec::new();
    let mut i: usize = 0;
    proof {
        assert(chars@.skip(0) =~= chars@);
        assert(out@ + simplify_links(chars@) =~= simplify_links(chars@));
    }
    while i < chars.len()
        invariant
            0 <= i <= chars@.len(),
            chars@ == before@,
            simplify_links(chars@) == out@ + simplify_links(chars@.skip(i as int)),
        decreases chars.len() - i,
    {
        let ghost suffix = chars@.skip(i as int);
        let mut plain: bool = true;
        if chars[i] == '[' {
            match find_char_exec(&chars, ']', i + 1) {
                Some(j) => {
                    proof {
                        lemma_find_char_first(chars@, ']', i + 1 as int);
                        assert forall|m: int| 1 <= m < j - i implies suffix[m] != ']' by {
                            assert(suffix[m] == chars@[i + m]);
                        }
                        lemma_find_char_is(suffix, ']', 1, j - i);
                    }
                    if chars.len() - j > 1 && chars[j + 1] == '(' {
                        proof {
                            assert(suffix[j - i + 1] == chars@[j + 1]);
                        }
                        match find_char_exec(&chars, ')', j + 2) {
                            Some(k) => {
                                proof {
                                    lemma_find_char_first(chars@, ')', j + 2 as int);
                                    assert forall|m: int| j - i + 2 <= m < k - i implies suffix[m]
                                        != ')' by {
                                        assert(suffix[m] == chars@[i + m]);
                                    }
                                    lemma_find_char_is(suffix, ')', j - i + 2, k - i);
                                    assert(link_at(suffix));
                                    assert(suffix.subrange(1, j - i) =~= chars@.subrange(
                                        i + 1 as int,
                                        j as int,
                                    ));
                                    assert(suffix.subrange(j - i + 2, k - i) =~= chars@.subrange(
                                        j + 2 as int,
                                        k as int,
                                    ));
                                    assert(suffix.skip(k - i + 1) =~= chars@.skip(k + 1 as int));
                                }
                                let text = subvec(&chars, i + 1, j);
                                let target = subvec(&chars, j + 2, k);
                                let stripped = strip_escapes_exec(&text);
                                if chars_eq(&stripped, &target) {
                                    proof {
                                        assert(simplify_links(suffix) == seq!['<'] + suffix
                                            .subrange(j - i + 2, k - i) + seq!['>']
                                            + simplify_links(chars@.skip(k + 1 as int)));
                                    }
                                    out.push('<');
                                    push_all(&mut out, &target);
                                    out.push('>');
                                    proof {
                                        assert(out@ + simplify_links(chars@.skip(k + 1 as int))
                                            =~= simplify_links(chars@));
                                    }
                                } else {
                                    proof {
                                        assert(suffix.take(k - i + 1) =~= chars@.subrange(
                                            i as int,
                                            k + 1 as int,
                                        ));
                                        assert(simplify_links(suffix) == suffix.take(k - i + 1)
                                            + simplify_links(chars@.skip(k + 1 as int)));
                                    }
                                    let whole = subvec(&chars, i, k + 1);
                                    push_all(&mut out, &whole);
                                    proof {
                                        assert(out@ + simplify_links(chars@.skip(k + 1 as int))
                                            =~= simplify_links(chars@));
                                    }
                                }
                                i = k + 1;
                                plain = false;
                            },
                            None => {
                                proof {
                                    lemma_find_char_first(chars@, ')', j + 2 as int);
                                    assert forall|m: int|
                                        j - i + 2 <= m < suffix.len() implies suffix[m] != ')' by {
                                        assert(suffix[m] == chars@[i + m]);
                                    }
                                    lemma_find_char_none(suffix, ')', j - i + 2);
                                    assert(!link_at(suffix));
                                }
                            },
                        }
                    } else {
                        proof {
                            if link_at(suffix) {
                                let jj = find_char(suffix, ']', 1);
                                assert(jj == j - i);
                                assert(suffix[jj + 1] == chars@[j + 1]);
                            }
                            assert(!link_at(suffix));
                        }
                    }
                },
                None => {
                    proof {
                        lemma_find_char_first(chars@, ']', i + 1 as int);
                        assert forall|m: int| 1 <= m < suffix.len() implies suffix[m] != ']' by {
                            assert(suffix[m] == chars@[i + m]);
                        }
                        lemma_find_char_none(suffix, ']', 1);
                        assert(!link_at(suffix));
                    }
                },
            }
        } else {
            proof {
                assert(suffix[0] == chars@[i as int]);
                assert(!link_at(suffix));
            }
        }
        if plain {
            proof {
                assert(suffix[0] == chars@[i as int]);
                assert(suffix.skip(1) =~= chars@.skip(i + 1 as int));
                assert(simplify_links(suffix) == seq![chars@[i as int]] + simplify_links(
                    chars@.skip(i + 1 as int),
                ));
            }
            out.push(chars[i]);
            proof {
                assert(out@ + simplify_links(chars@.skip(i + 1 as int)) =~= simplify_links(
                    chars@,
                ));
            }
            i = i + 1;
        }
    }
    proof {
        assert(chars@.skip(chars@.len() as int) =~= Seq::<char>::empty());
        assert(out@ =~= simplify_links(chars@));
    }
    chars_to_string(&out)
}

} // verus!
