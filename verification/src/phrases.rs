//! Literal phrase replacement, used to canonicalize the
//! "through-running" family of phrases: the four spaced variants all
//! converge to the two hyphenated forms.
use vstd::prelude::*;

use crate::text::chars_to_string;
use crate::text::contains_seq;
use crate::text::matches_at;
use crate::text::matches_at_exec;
use crate::text::push_all;
use crate::text::to_chars;

verus! {

/// Every non-overlapping occurrence of `pat` in `s`, scanning left to
/// right, replaced by `rep`.
pub open spec fn replace_all(s: Seq<char>, pat: Seq<char>, rep: Seq<char>) -> Seq<char>
    decreases s.len(),
{
    if pat.len() == 0 || s.len() < pat.len() {
        s
    } else if s.take(pat.len() as int) == pat {
        rep + replace_all(s.skip(pat.len() as int), pat, rep)
    } else {
        seq![s[0]] + replace_all(s.skip(1), pat, rep)
    }
}

/// Replace every occurrence of `pat` in `s` by `rep`.
pub fn replace_all_exec(s: &Vec<char>, pat: &Vec<char>, rep: &Vec<char>) -> (out: Vec<char>)
    requires
        pat@.len() > 0,
    ensures
        out@ == replace_all(s@, pat@, rep@),
{
    let mut out: Vec<char> = Vec::new();
    let mut i: usize = 0;
    proof {
        assert(s@.skip(0) =~= s@);
        assert(out@ + replace_all(s@, pat@, rep@) =~= replace_all(s@, pat@, rep@));
    }
    while i < s.len()
        invariant
            0 <= i <= s@.len(),
            replace_all(s@, pat@, rep@) == out@ + replace_all(s@.skip(i as int), pat@, rep@),
        decreases s.len() - i,
    {
        let ghost suffix = s@.skip(i as int);
        if matches_at_exec(s, i, pat) {
            proof {
                assert(suffix.take(pat@.len() as int) =~= s@.subrange(
                    i as int,
                    i + pat@.len() as int,
                ));
                assert(suffix.skip(pat@.len() as int) =~= s@.skip(i + pat@.len() as int));
                assert(replace_all(suffix, pat@, rep@) == rep@ + replace_all(
                    s@.skip(i + pat@.len() as int),
                    pat@,
                    rep@,
                ));
            }
            push_all(&mut out, rep);
            proof {
                assert(out@ + replace_all(s@.skip(i + pat@.len() as int), pat@, rep@)
                    =~= replace_all(s@, pat@, rep@));
            }
            i = i + pat.len();
        } else {
            proof {
                assert(suffix.len() >= pat@.len() ==> suffix.take(pat@.len() as int) =~= s@
                    .subrange(i as int, i + pat@.len() as int));
                assert(suffix[0] == s@[i as int]);
                assert(suffix.skip(1) =~= s@.skip(i + 1 as int));
            }
            out.push(s[i]);
            proof {
                assert(out@ + replace_all(s@.skip(i + 1 as int), pat@, rep@) =~= replace_all(
                    s@,
                    pat@,
                    rep@,
                ));
            }
            i = i + 1;
        }
    }
    proof {
        assert(s@.skip(s@.len() as int) =~= Seq::<char>::empty());
        assert(out@ =~= replace_all(s@, pat@, rep@));
    }
    out
}

/// Where `pat` occurs nowhere in `s`, replacement leaves `s` as it is.
pub proof fn lemma_replace_all_absent(s: Seq<char>, pat: Seq<char>, rep: Seq<char>)
    requires
        !contains_seq(s, pat),
    ensures
        replace_all(s, pat, rep) == s,
    decreases s.len(),
{
    if pat.len() == 0 || s.len() < pat.len() {
    } else {
        if s.take(pat.len() as int) == pat {
            assert(s.take(pat.len() as int) =~= s.subrange(0, pat.len() as int));
            assert(matches_at(s, 0, pat));
        }
        assert forall|j: int| !matches_at(s.skip(1), j, pat) by {
            if matches_at(s.skip(1), j, pat) {
                assert(s.skip(1).subrange(j, j + pat.len() as int) =~= s.subrange(
                    j + 1,
                    j + 1 + pat.len() as int,
                ));
                assert(matches_at(s, j + 1, pat));
            }
        }
        lemma_replace_all_absent(s.skip(1), pat, rep);
        assert(replace_all(s, pat, rep) == seq![s[0]] + s.skip(1));
        assert(seq![s[0]] + s.skip(1) =~= s);
    }
}

/// The four spaced phrase variants in their canonical order.
pub open spec fn spec_through_running(s: Seq<char>) -> Seq<char> {
    replace_all(
        replace_all(
            replace_all(
                replace_all(s, "through running"@, "through-running"@),
                "running through"@,
                "through-running"@,
            ),
            "through run"@,
            "through-run"@,
        ),
        "run through"@,
        "through-run"@,
    )
}

/// Canonicalize "through-running" words, always hyphenating and
/// always putting "through" before "run".
pub fn canonicalize_through_running(before: String) -> (after: String)
    ensures
        after@ == spec_through_running(before@),
{
    proof {
        reveal_strlit("through running");
        reveal_strlit("running through");
        reveal_strlit("through run");
        reveal_strlit("run through");
        reveal_strlit("through-running");
        reveal_strlit("through-run");
    }
    let chars = to_chars(before.as_str());
    let s1 = replace_all_exec(
        &chars,
        &to_chars("through running"),
        &to_chars("through-running"),
    );
    let s2 = replace_all_exec(&s1, &to_chars("running through"), &to_chars("through-running"));
    let s3 = replace_all_exec(&s2, &to_chars("through run"), &to_chars("through-run"));
    let s4 = replace_all_exec(&s3, &to_chars("run through"), &to_chars("through-run"));
    chars_to_string(&s4)
}

/// Once no spaced variant is left, a second canonicalization changes
/// nothing.  (Adjacent replacements can conspire to leave a spaced
/// variant behind, so the premise does not hold of every document.)
pub proof fn lemma_through_running_idempotent(s: Seq<char>)
    requires
        !contains_seq(spec_through_running(s), "through running"@),
        !contains_seq(spec_through_running(s), "running through"@),
        !contains_seq(spec_through_running(s), "through run"@),
        !contains_seq(spec_through_running(s), "run through"@),
    ensures
        spec_through_running(spec_through_running(s)) == spec_through_running(s),
{
    let t = spec_through_running(s);
    lemma_replace_all_absent(t, "through running"@, "through-running"@);
    lemma_replace_all_absent(t, "running through"@, "through-running"@);
    lemma_replace_all_absent(t, "through run"@, "through-run"@);
    lemma_replace_all_absent(t, "run through"@, "through-run"@);
}

} // verus!
