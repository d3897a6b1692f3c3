//! The semantic line-break engine.  Each line of the document that
//! reaches the length threshold and is not a heading is split at
//! punctuation followed by spaces, first at sentence-ending
//! punctuation, then — for fragments still at the threshold — at
//! finer punctuation; after each splitting pass the fragments are
//! greedily rejoined while the accumulated length stays under the
//! threshold.
use vstd::prelude::*;

use crate::text::chars_to_string;
use crate::text::find_char;
use crate::text::find_char_exec;
use crate::text::join_with;
use crate::text::lemma_find_char_first;
use crate::text::lemma_find_char_is;
use crate::text::lemma_find_char_none;
use crate::text::lemma_join_with_push;
use crate::text::lemma_skip_spaces_spec;
use crate::text::lemma_skip_spaces_is;
use crate::text::skip_spaces_exec;
use crate::text::skip_spaces_idx;
use crate::text::subvec;
use crate::text::to_chars;

verus! {

broadcast use crate::text::lemma_find_char_bounds, crate::text::lemma_skip_spaces_bounds;

/// A line at or above this many characters is considered for
/// splitting, and rejoining keeps accumulated lengths under it.
pub const MAX_LINE_LEN: usize = 100;

/// The outer separator tier: sentence-ending punctuation.
pub open spec fn outer_seps() -> Seq<char> {
    seq!['.', '!', '?', ';', ':']
}

/// The inner separator tier: closing clause punctuation.
pub open spec fn inner_seps() -> Seq<char> {
    seq![',', ')', ']']
}

/// Whether `c` is ASCII whitespace.
pub open spec fn is_ascii_ws(c: char) -> bool {
    c == ' ' || c == '\t' || c == '\n' || c == '\r' || c == '\u{0C}'
}

/// Index of the first character at `from` or later that is not ASCII
/// whitespace, or the length of `s` when only whitespace remains.
pub open spec fn first_non_ws(s: Seq<char>, from: int) -> int
    decreases s.len() - from,
{
    if from < 0 {
        0
    } else if from >= s.len() {
        s.len() as int
    } else if !is_ascii_ws(s[from]) {
        from
    } else {
        first_non_ws(s, from + 1)
    }
}

/// The first run of whitespace pins `first_non_ws` down.
proof fn lemma_first_non_ws_is(s: Seq<char>, from: int, e: int)
    requires
        0 <= from <= e <= s.len(),
        forall|k: int| from <= k < e ==> is_ascii_ws(s[k]),
        e < s.len() ==> !is_ascii_ws(s[e]),
    ensures
        first_non_ws(s, from) == e,
    decreases e - from,
{
    if from < e {
        lemma_first_non_ws_is(s, from + 1, e);
    }
}

/// A heading: after leading ASCII whitespace the line starts with `#`.
pub open spec fn spec_is_heading(line: Seq<char>) -> bool {
    let k = first_non_ws(line, 0);
    k < line.len() && line[k] == '#'
}

/// Decide whether the line is a heading.
pub fn is_heading_exec(line: &Vec<char>) -> (b: bool)
    ensures
        b == spec_is_heading(line@),
{
    let mut i: usize = 0;
    while i < line.len() && (line[i] == ' ' || line[i] == '\t' || line[i] == '\n' || line[i] == '\r'
        || line[i] == '\u{0C}')
        invariant
            0 <= i <= line@.len(),
            forall|k: int| 0 <= k < i ==> is_ascii_ws(line@[k]),
        decreases line.len() - i,
    {
        i = i + 1;
    }
    proof {
        lemma_first_non_ws_is(line@, 0, i as int);
    }
    if i < line.len() {
        line[i] == '#'
    } else {
        false
    }
}

/// The line with every separator-plus-spaces occurrence rewritten as
/// the separator plus one line break, scanning left to right.
pub open spec fn insert_breaks(s: Seq<char>, seps: Seq<char>) -> Seq<char>
    decreases s.len(),
{
    if s.len() == 0 {
        Seq::empty()
    } else if s.len() >= 2 && seps.contains(s[0]) && s[1] == ' ' {
        let e = skip_spaces_idx(s, 1);
        seq![s[0], '\n'] + insert_breaks(s.skip(e), seps)
    } else {
        seq![s[0]] + insert_breaks(s.skip(1), seps)
    }
}

/// The pieces of `s` between line breaks, splitting at every `\n`.
pub open spec fn split_on_nl(s: Seq<char>) -> Seq<Seq<char>>
    decreases s.len(),
{
    let j = find_char(s, '\n', 0);
    if j < 0 {
        seq![s]
    } else {
        seq![s.take(j)] + split_on_nl(s.skip(j + 1))
    }
}

/// The lines of `s`: as `split_on_nl`, but a final line terminator
/// produces no empty last piece, and an empty document has no lines.
pub open spec fn split_term_nl(s: Seq<char>) -> Seq<Seq<char>> {
    if s.len() == 0 {
        Seq::empty()
    } else if s[s.len() - 1] == '\n' {
        split_on_nl(s.take(s.len() - 1))
    } else {
        split_on_nl(s)
    }
}

/// The greedy rejoin pass from fragment `i` on, with `cur` characters
/// accumulated on the current output line: a fragment joins the
/// current line with one space while the accumulated fragment lengths
/// stay under the threshold, and otherwise starts a new line.
pub open spec fn rejoin_from(frags: Seq<Seq<char>>, i: int, cur: nat) -> Seq<char>
    decreases frags.len() - i,
{
    if i < 0 || i >= frags.len() {
        Seq::empty()
    } else {
        let f = frags[i];
        if cur == 0 {
            f + rejoin_from(frags, i + 1, f.len())
        } else if cur + f.len() < MAX_LINE_LEN {
            seq![' '] + f + rejoin_from(frags, i + 1, (cur + f.len()) as nat)
        } else {
            seq!['\n'] + f + rejoin_from(frags, i + 1, f.len())
        }
    }
}

/// The greedy rejoin pass over all fragments.
pub open spec fn rejoin(frags: Seq<Seq<char>>) -> Seq<char> {
    rejoin_from(frags, 0, 0)
}

/// One splitting pass over one line: a line under the threshold, or a
/// heading, is left alone; any other line is split at the tier's
/// separators and greedily rejoined.
pub open spec fn break_line(line: Seq<char>, seps: Seq<char>) -> Seq<char> {
    if line.len() < MAX_LINE_LEN || spec_is_heading(line) {
        line
    } else {
        rejoin(split_on_nl(insert_breaks(line, seps)))
    }
}

/// Both passes over one input line: the outer tier first, then the
/// inner tier on each resulting piece, joined back with line breaks.
pub open spec fn process_line(line: Seq<char>) -> Seq<char> {
    join_with(
        split_term_nl(break_line(line, outer_seps())).map_values(|f: Seq<char>| break_line(f, inner_seps())),
        seq!['\n'],
    )
}

/// The whole engine: every line of the document processed
/// independently, the results joined back with line breaks.
pub open spec fn line_break_engine(doc: Seq<char>) -> Seq<char> {
    join_with(split_term_nl(doc).map_values(|l: Seq<char>| process_line(l)), seq!['\n'])
}

/// Test whether `c` is one of the characters of `seps`.
fn contains_sep(seps: &Vec<char>, c: char) -> (r: bool)
    ensures
        r == seps@.contains(c),
{
    let mut i: usize = 0;
    while i < seps.len()
        invariant
            0 <= i <= seps@.len(),
            forall|k: int| 0 <= k < i ==> seps@[k] != c,
        decreases seps.len() - i,
    {
        if seps[i] == c {
            return true;
        }
        i = i + 1;
    }
    false
}

/// Rewrite each separator-plus-spaces occurrence as the separator
/// plus one line break.
#[verifier::rlimit(60)]
fn insert_breaks_exec(line: &Vec<char>, seps: &Vec<char>) -> (out: Vec<char>)
    ensures
        out@ == insert_breaks(line@, seps@),
{
    let mut out: Vec<char> = Vec::new();
    let mut i: usize = 0;
    proof {
        assert(line@.skip(0) =~= line@);
        assert(out@ + insert_breaks(line@, seps@) =~= insert_breaks(line@, seps@));
    }
    while i < line.len()
        invariant
            0 <= i <= line@.len(),
            insert_breaks(line@, seps@) == out@ + insert_breaks(line@.skip(i as int), seps@),
        decreases line.len() - i,
    {
        let ghost suffix = line@.skip(i as int);
        let c = line[i];
        proof {
            assert(suffix[0] == line@[i as int]);
            if suffix.len() >= 2 {
                assert(suffix[1] == line@[i + 1]);
            }
        }
        if contains_sep(seps, c) && line.len() - i > 1 && line[i + 1] == ' ' {
            let e = skip_spaces_exec(line, i + 1);
            proof {
                lemma_skip_spaces_spec(line@, i + 1 as int);
                assert forall|k: int| 1 <= k < e - i implies suffix[k] == ' ' by {
                    assert(suffix[k] == line@[i + k]);
                }
                if e - i < suffix.len() {
                    assert(suffix[e - i] == line@[e as int]);
                }
                lemma_skip_spaces_is(suffix, 1, e - i);
                assert(suffix.skip(e - i) =~= line@.skip(e as int));
                assert(insert_breaks(suffix, seps@) == seq![line@[i as int], '\n'] + insert_breaks(
                    line@.skip(e as int),
                    seps@,
                ));
            }
            out.push(c);
            out.push('\n');
            proof {
                assert(out@ + insert_breaks(line@.skip(e as int), seps@) =~= insert_breaks(
                    line@,
                    seps@,
                ));
            }
            i = e;
        } else {
            proof {
                assert(suffix.skip(1) =~= line@.skip(i + 1 as int));
                assert(insert_breaks(suffix, seps@) == seq![line@[i as int]] + insert_breaks(
                    line@.skip(i + 1 as int),
                    seps@,
                ));
            }
            out.push(c);
            proof {
                assert(out@ + insert_breaks(line@.skip(i + 1 as int), seps@) =~= insert_breaks(
                    line@,
                    seps@,
                ));
            }
            i = i + 1;
        }
    }
    proof {
        assert(line@.skip(line@.len() as int) =~= Seq::<char>::empty());
        assert(out@ =~= insert_breaks(line@, seps@));
    }
    out
}

/// Split `s` at every line break.
fn split_on_nl_exec(s: &Vec<char>) -> (parts: Vec<Vec<char>>)
    ensures
        parts.deep_view() == split_on_nl(s@),
{
    let mut parts: Vec<Vec<char>> = Vec::new();
    let mut c: usize = 0;
    let n = s.len();
    proof {
        assert(s@.skip(0) =~= s@);
        assert(parts.deep_view() + split_on_nl(s@) =~= split_on_nl(s@));
    }
    loop
        invariant
            0 <= c <= s@.len(),
            n == s@.len(),
            split_on_nl(s@) == parts.deep_view() + split_on_nl(s@.skip(c as int)),
        decreases s@.len() - c,
    {
        let ghost suffix = s@.skip(c as int);
        let ghost old_parts = parts.deep_view();
        match find_char_exec(s, '\n', c) {
            Some(j) => {
                proof {
                    lemma_find_char_first(s@, '\n', c as int);
                    assert forall|m: int| 0 <= m < j - c implies suffix[m] != '\n' by {
                        assert(suffix[m] == s@[c + m]);
                    }
                    assert(suffix[j - c] == s@[j as int]);
                    lemma_find_char_is(suffix, '\n', 0, j - c);
                    assert(suffix.take(j - c) =~= s@.subrange(c as int, j as int));
                    assert(suffix.skip(j - c + 1) =~= s@.skip(j + 1 as int));
                    assert(split_on_nl(suffix) == seq![s@.subrange(c as int, j as int)]
                        + split_on_nl(s@.skip(j + 1 as int)));
                }
                let piece = subvec(s, c, j);
                parts.push(piece);
                proof {
                    assert(parts.deep_view() =~~= old_parts.push(s@.subrange(c as int, j as int)));
                    assert(parts.deep_view() + split_on_nl(s@.skip(j + 1 as int)) =~= split_on_nl(
                        s@,
                    ));
                }
                c = j + 1;
            },
            None => {
                proof {
                    lemma_find_char_first(s@, '\n', c as int);
                    assert forall|m: int| 0 <= m < suffix.len() implies suffix[m] != '\n' by {
                        assert(suffix[m] == s@[c + m]);
                    }
                    lemma_find_char_none(suffix, '\n', 0);
                    assert(split_on_nl(suffix) == seq![suffix]);
                    assert(suffix =~= s@.subrange(c as int, s@.len() as int));
                }
                let piece = subvec(s, c, s.len());
                parts.push(piece);
                proof {
                    assert(parts.deep_view() =~~= old_parts.push(suffix));
                    assert(parts.deep_view() =~= split_on_nl(s@));
                }
                break ;
            },
        }
    }
    parts
}

/// Split `s` into its lines, dropping a final line terminator.
fn split_term_exec(s: &Vec<char>) -> (parts: Vec<Vec<char>>)
    ensures
        parts.deep_view() == split_term_nl(s@),
{
    if s.len() == 0 {
        let parts: Vec<Vec<char>> = Vec::new();
        proof {
            assert(parts.deep_view() =~= split_term_nl(s@));
        }
        parts
    } else if s[s.len() - 1] == '\n' {
        let t = subvec(s, 0, s.len() - 1);
        proof {
            assert(t@ =~= s@.take(s@.len() - 1));
        }
        split_on_nl_exec(&t)
    } else {
        split_on_nl_exec(s)
    }
}

/// Join the parts with one line break between neighbours.
fn join_nl_exec(parts: &Vec<Vec<char>>) -> (out: Vec<char>)
    ensures
        out@ == join_with(parts.deep_view(), seq!['\n']),
{
    let ghost dv = parts.deep_view();
    let mut out: Vec<char> = Vec::new();
    if parts.len() == 0 {
        return out;
    }
    let first = &parts[0];
    let mut tmp = subvec(first, 0, first.len());
    out.append(&mut tmp);
    proof {
        assert(dv[0] =~= first@);
        assert(first@.subrange(0, first@.len() as int) =~= first@);
        assert(out@ =~= first@);
        assert(dv.take(1) =~= seq![dv[0]]);
        assert(join_with(dv.take(1), seq!['\n']) == dv[0]);
    }
    let mut i: usize = 1;
    while i < parts.len()
        invariant
            1 <= i <= dv.len(),
            dv == parts.deep_view(),
            dv.len() == parts@.len(),
            out@ == join_with(dv.take(i as int), seq!['\n']),
        decreases parts.len() - i,
    {
        let p = &parts[i];
        proof {
            assert(dv[i as int] =~= p@);
        }
        out.push('\n');
        let mut tp = subvec(p, 0, p.len());
        proof {
            assert(p@.subrange(0, p@.len() as int) =~= p@);
        }
        out.append(&mut tp);
        proof {
            lemma_join_with_push(dv.take(i as int), dv[i as int], seq!['\n']);
            assert(dv.take(i as int).push(dv[i as int]) =~= dv.take(i + 1 as int));
            assert(out@ =~= join_with(dv.take(i as int), seq!['\n']) + seq!['\n'] + dv[i as int]);
        }
        i = i + 1;
    }
    proof {
        assert(dv.take(dv.len() as int) =~= dv);
    }
    out
}

/// Greedily rejoin the fragments into lines bounded by the threshold.
fn rejoin_exec(frags: &Vec<Vec<char>>) -> (out: Vec<char>)
    ensures
        out@ == rejoin(frags.deep_view()),
{
    let ghost dv = frags.deep_view();
    let mut out: Vec<char> = Vec::new();
    let mut cur: usize = 0;
    let mut i: usize = 0;
    proof {
        assert(out@ + rejoin_from(dv, 0, 0) =~= rejoin_from(dv, 0, 0));
    }
    while i < frags.len()
        invariant
            0 <= i <= dv.len(),
            dv == frags.deep_view(),
            dv.len() == frags@.len(),
            rejoin(dv) == out@ + rejoin_from(dv, i as int, cur as nat),
        decreases frags.len() - i,
    {
        let f = &frags[i];
        proof {
            assert(dv[i as int] =~= f@);
        }
        let flen = f.len();
        let mut tf = subvec(f, 0, flen);
        proof {
            assert(f@.subrange(0, f@.len() as int) =~= f@);
        }
        if cur == 0 {
            out.append(&mut tf);
            proof {
                assert(rejoin_from(dv, i as int, 0) == dv[i as int] + rejoin_from(
                    dv,
                    i + 1,
                    dv[i as int].len(),
                ));
                assert(out@ + rejoin_from(dv, i + 1, dv[i as int].len()) =~= rejoin(dv));
            }
            cur = flen;
        } else if cur < MAX_LINE_LEN && flen < MAX_LINE_LEN - cur {
            out.push(' ');
            out.append(&mut tf);
            proof {
                assert(rejoin_from(dv, i as int, cur as nat) == seq![' '] + dv[i as int]
                    + rejoin_from(dv, i + 1, (cur + dv[i as int].len()) as nat));
                assert(out@ + rejoin_from(dv, i + 1, (cur + dv[i as int].len()) as nat) =~= rejoin(
                    dv,
                ));
            }
            cur = cur + flen;
        } else {
            out.push('\n');
            out.append(&mut tf);
            proof {
                assert(cur + dv[i as int].len() >= MAX_LINE_LEN);
                assert(rejoin_from(dv, i as int, cur as nat) == seq!['\n'] + dv[i as int]
                    + rejoin_from(dv, i + 1, dv[i as int].len()));
                assert(out@ + rejoin_from(dv, i + 1, dv[i as int].len()) =~= rejoin(dv));
            }
            cur = flen;
        }
        i = i + 1;
    }
    out
}

/// One splitting-and-rejoining pass over one line with the given
/// separator tier.
pub fn break_line_exec(line: &Vec<char>, seps: &Vec<char>) -> (out: Vec<char>)
    ensures
        out@ == break_line(line@, seps@),
{
    if line.len() < MAX_LINE_LEN {
        let out = subvec(line, 0, line.len());
        proof {
            assert(line@.subrange(0, line@.len() as int) =~= line@);
        }
        return out;
    }
    if is_heading_exec(line) {
        let out = subvec(line, 0, line.len());
        proof {
            assert(line@.subrange(0, line@.len() as int) =~= line@);
        }
        return out;
    }
    let broken = insert_breaks_exec(line, seps);
    let frags = split_on_nl_exec(&broken);
    rejoin_exec(&frags)
}

/// Add semantic line breaks as best as possible: rewrap each
/// non-heading line that reaches the threshold, first at sentence
/// punctuation, then at finer punctuation.
pub fn add_semantic_line_breaks(before: String) -> (after: String)
    ensures
        after@ == line_break_engine(before@),
{
    let chars = to_chars(before.as_str());
    let outer: Vec<char> = vec!['.', '!', '?', ';', ':'];
    let inner: Vec<char> = vec![',', ')', ']'];
    proof {
        assert(outer@ =~= outer_seps());
        assert(inner@ =~= inner_seps());
    }
    let lines = split_term_exec(&chars);
    let ghost lines_dv = lines.deep_view();
    let mut processed: Vec<Vec<char>> = Vec::new();
    let mut li: usize = 0;
    while li < lines.len()
        invariant
            0 <= li <= lines_dv.len(),
            lines_dv == lines.deep_view(),
            lines_dv.len() == lines@.len(),
            lines_dv == split_term_nl(before@),
            outer@ == outer_seps(),
            inner@ == inner_seps(),
            processed.deep_view().len() == li,
            forall|m: int|
                0 <= m < li ==> processed.deep_view()[m] == process_line(lines_dv[m]),
        decreases lines.len() - li,
    {
        let line = &lines[li];
        proof {
            assert(lines_dv[li as int] =~= line@);
        }
        let outer_res = break_line_exec(line, &outer);
        let frags = split_term_exec(&outer_res);
        let ghost frags_dv = frags.deep_view();
        let mut inner_parts: Vec<Vec<char>> = Vec::new();
        let mut fi: usize = 0;
        while fi < frags.len()
            invariant
                0 <= fi <= frags_dv.len(),
                frags_dv == frags.deep_view(),
                frags_dv.len() == frags@.len(),
                inner@ == inner_seps(),
                inner_parts.deep_view().len() == fi,
                forall|m: int|
                    0 <= m < fi ==> inner_parts.deep_view()[m] == break_line(
                        frags_dv[m],
                        inner_seps(),
                    ),
            decreases frags.len() - fi,
        {
            let frag = &frags[fi];
            proof {
                assert(frags_dv[fi as int] =~= frag@);
            }
            let r = break_line_exec(frag, &inner);
            let ghost old_ip = inner_parts.deep_view();
            inner_parts.push(r);
            proof {
                assert(inner_parts.deep_view() =~~= old_ip.push(
                    break_line(frags_dv[fi as int], inner_seps()),
                ));
            }
            fi = fi + 1;
        }
        proof {
            assert(inner_parts.deep_view() =~= frags_dv.map_values(
                |f: Seq<char>| break_line(f, inner_seps()),
            ));
        }
        let joined = join_nl_exec(&inner_parts);
        proof {
            assert(joined@ == process_line(lines_dv[li as int]));
        }
        let ghost old_pr = processed.deep_view();
        processed.push(joined);
        proof {
            assert(processed.deep_view() =~~= old_pr.push(process_line(lines_dv[li as int])));
        }
        li = li + 1;
    }
    proof {
        assert(processed.deep_view() =~= split_term_nl(before@).map_values(
            |l: Seq<char>| process_line(l),
        ));
    }
    let out = join_nl_exec(&processed);
    chars_to_string(&out)
}

/// Whether the line holds a break point of the tier: a separator
/// character directly followed by a space.
pub open spec fn has_break_point(s: Seq<char>, seps: Seq<char>) -> bool {
    exists|i: int| 0 <= i && i + 1 < s.len() && seps.contains(s[i]) && s[i + 1] == ' '
}

/// A line with no break point of the tier is not touched by the
/// splitting pass.
proof fn lemma_insert_breaks_absent(s: Seq<char>, seps: Seq<char>)
    requires
        !has_break_point(s, seps),
    ensures
        insert_breaks(s, seps) == s,
    decreases s.len(),
{
    if s.len() > 0 {
        if s.len() >= 2 && seps.contains(s[0]) && s[1] == ' ' {
            assert(has_break_point(s, seps)) by {
                assert(s[1int] == ' ');
            }
        }
        assert(!has_break_point(s.skip(1), seps)) by {
            if has_break_point(s.skip(1), seps) {
                let i = choose|i: int|
                    0 <= i && i + 1 < s.skip(1).len() && seps.contains(s.skip(1)[i]) && s.skip(1)[i
                        + 1] == ' ';
                assert(s.skip(1)[i] == s[i + 1]);
                assert(s.skip(1)[i + 1] == s[i + 2]);
                assert(0 <= i + 1 && i + 2 < s.len() && seps.contains(s[i + 1]) && s[i + 2] == ' ');
            }
        }
        lemma_insert_breaks_absent(s.skip(1), seps);
        assert(seq![s[0]] + s.skip(1) =~= s);
    }
}

/// A sequence without a line break splits into itself alone.
proof fn lemma_split_on_nl_single(s: Seq<char>)
    requires
        forall|k: int| 0 <= k < s.len() ==> s[k] != '\n',
    ensures
        split_on_nl(s) == seq![s],
{
    lemma_find_char_none(s, '\n', 0);
}

/// Rejoining a single fragment yields that fragment.
proof fn lemma_rejoin_single(f: Seq<char>)
    ensures
        rejoin(seq![f]) == f,
{
    assert(rejoin_from(seq![f], 0, 0) == f + rejoin_from(seq![f], 1, f.len()));
    assert(f + Seq::<char>::empty() =~= f);
}

/// A line that both passes leave alone passes through the engine's
/// per-line processing unchanged.
proof fn lemma_process_line_fixed(line: Seq<char>)
    requires
        forall|k: int| 0 <= k < line.len() ==> line[k] != '\n',
        break_line(line, outer_seps()) == line,
        break_line(line, inner_seps()) == line,
    ensures
        process_line(line) == line,
{
    if line.len() == 0 {
        assert(split_term_nl(line) =~= Seq::<Seq<char>>::empty());
        assert(split_term_nl(line).map_values(|f: Seq<char>| break_line(f, inner_seps()))
            =~= Seq::<Seq<char>>::empty());
        assert(process_line(line) =~= line);
    } else {
        assert(line[line.len() - 1] != '\n');
        lemma_split_on_nl_single(line);
        assert(split_term_nl(line) == seq![line]);
        assert(split_term_nl(line).map_values(|f: Seq<char>| break_line(f, inner_seps()))
            =~= seq![line]);
        assert(join_with(seq![line], seq!['\n']) == line);
    }
}

/// One pass leaves a line alone when it has no break point of the
/// pass's tier.
proof fn lemma_break_line_absent(line: Seq<char>, seps: Seq<char>)
    requires
        forall|k: int| 0 <= k < line.len() ==> line[k] != '\n',
        !has_break_point(line, seps),
    ensures
        break_line(line, seps) == line,
{
    if line.len() < MAX_LINE_LEN || spec_is_heading(line) {
    } else {
        lemma_insert_breaks_absent(line, seps);
        lemma_split_on_nl_single(line);
        lemma_rejoin_single(line);
    }
}

/// There is always at least one piece.
broadcast proof fn lemma_split_nonempty(s: Seq<char>)
    ensures
        #[trigger] split_on_nl(s).len() >= 1,
{
    broadcast use crate::text::lemma_find_char_bounds;

}

/// No piece of a split holds a line break.
proof fn lemma_split_no_nl(s: Seq<char>)
    ensures
        forall|k: int, m: int|
            0 <= k < split_on_nl(s).len() && 0 <= m < split_on_nl(s)[k].len()
                ==> #[trigger] split_on_nl(s)[k][m] != '\n',
    decreases s.len(),
{
    let j = find_char(s, '\n', 0);
    lemma_find_char_first(s, '\n', 0);
    if j < 0 {
        assert(split_on_nl(s) == seq![s]);
    } else {
        lemma_split_no_nl(s.skip(j + 1));
        let parts = seq![s.take(j)] + split_on_nl(s.skip(j + 1));
        assert forall|k: int, m: int|
            0 <= k < parts.len() && 0 <= m < parts[k].len() implies #[trigger] parts[k][m]
            != '\n' by {
            if k == 0 {
                assert(parts[0][m] == s[m]);
            } else {
                assert(parts[k] == split_on_nl(s.skip(j + 1))[k - 1]);
            }
        }
    }
}

/// The first piece of a split starts with the first character of the
/// input, when that character is not itself a line break.
proof fn lemma_split_head(t: Seq<char>)
    requires
        t.len() > 0,
        t[0] != '\n',
    ensures
        split_on_nl(t)[0].len() > 0,
        split_on_nl(t)[0][0] == t[0],
{
    broadcast use crate::text::lemma_find_char_bounds;

    let j = find_char(t, '\n', 0);
    if j < 0 {
        assert(split_on_nl(t) == seq![t]);
    } else {
        assert(j >= 1);
        assert(split_on_nl(t)[0] == t.take(j));
        assert(t.take(j)[0] == t[0]);
    }
}

/// The splitting pass emits its input's first character first.
proof fn lemma_insert_breaks_head(t: Seq<char>, seps: Seq<char>)
    requires
        t.len() > 0,
    ensures
        insert_breaks(t, seps).len() > 0,
        insert_breaks(t, seps)[0] == t[0],
{
    if t.len() >= 2 && seps.contains(t[0]) && t[1] == ' ' {
        let e = skip_spaces_idx(t, 1);
        assert(insert_breaks(t, seps)[0] == seq![t[0], '\n'][0]);
    } else {
        assert(insert_breaks(t, seps)[0] == seq![t[0]][0]);
    }
}

/// Splitting after a leading ordinary character: the character joins
/// the first piece.
proof fn lemma_split_cons(c: char, t: Seq<char>)
    requires
        c != '\n',
    ensures
        split_on_nl(seq![c] + t) == seq![seq![c] + split_on_nl(t)[0]] + split_on_nl(
            t,
        ).drop_first(),
{
    broadcast use crate::text::lemma_find_char_bounds, lemma_split_nonempty;

    let u = seq![c] + t;
    let j = find_char(t, '\n', 0);
    lemma_find_char_first(t, '\n', 0);
    if j < 0 {
        assert forall|k: int| 0 <= k < u.len() implies u[k] != '\n' by {
            if k >= 1 {
                assert(u[k] == t[k - 1]);
            }
        }
        lemma_find_char_none(u, '\n', 0);
        assert(split_on_nl(u) == seq![u]);
        assert(split_on_nl(t) == seq![t]);
        assert(split_on_nl(t).drop_first() =~= Seq::<Seq<char>>::empty());
        assert(seq![seq![c] + t] + Seq::<Seq<char>>::empty() =~= seq![seq![c] + t]);
    } else {
        assert forall|m: int| 0 <= m < j + 1 implies u[m] != '\n' by {
            if m >= 1 {
                assert(u[m] == t[m - 1]);
            }
        }
        assert(u[j + 1] == t[j]);
        lemma_find_char_is(u, '\n', 0, j + 1);
        assert(split_on_nl(u) == seq![u.take(j + 1)] + split_on_nl(u.skip(j + 2)));
        assert(u.take(j + 1) =~= seq![c] + t.take(j));
        assert(u.skip(j + 2) =~= t.skip(j + 1));
        assert(split_on_nl(t) == seq![t.take(j)] + split_on_nl(t.skip(j + 1)));
        assert(split_on_nl(t)[0] == t.take(j));
        assert(split_on_nl(t).drop_first() =~= split_on_nl(t.skip(j + 1)));
        assert(split_on_nl(u) =~= seq![seq![c] + split_on_nl(t)[0]] + split_on_nl(
            t,
        ).drop_first());
    }
}

/// Splitting after a leading line break: an empty first piece.
proof fn lemma_split_cons_nl(t: Seq<char>)
    ensures
        split_on_nl(seq!['\n'] + t) == seq![Seq::<char>::empty()] + split_on_nl(t),
{
    let u = seq!['\n'] + t;
    assert(u[0] == '\n');
    lemma_find_char_is(u, '\n', 0, 0);
    assert(split_on_nl(u) == seq![u.take(0)] + split_on_nl(u.skip(1)));
    assert(u.take(0) =~= Seq::<char>::empty());
    assert(u.skip(1) =~= t);
}

/// The splitting pass is exhaustive: no fragment it yields still
/// holds a break point of its tier, so a second pass over a fragment
/// would find nothing to split.
pub proof fn lemma_insert_breaks_exhaustive(s: Seq<char>, seps: Seq<char>)
    requires
        forall|k: int| 0 <= k < s.len() ==> s[k] != '\n',
    ensures
        forall|k: int|
            0 <= k < split_on_nl(insert_breaks(s, seps)).len() ==> !has_break_point(
                #[trigger] split_on_nl(insert_breaks(s, seps))[k],
                seps,
            ),
    decreases s.len(),
{
    broadcast use crate::text::lemma_skip_spaces_bounds, lemma_split_nonempty;

    if s.len() == 0 {
        assert(insert_breaks(s, seps) =~= Seq::<char>::empty());
        lemma_find_char_none(Seq::<char>::empty(), '\n', 0);
        assert(split_on_nl(Seq::<char>::empty()) == seq![Seq::<char>::empty()]);
        assert(!has_break_point(Seq::<char>::empty(), seps));
    } else if s.len() >= 2 && seps.contains(s[0]) && s[1] == ' ' {
        let e = skip_spaces_idx(s, 1);
        lemma_skip_spaces_spec(s, 1);
        assert forall|k: int| 0 <= k < s.skip(e).len() implies s.skip(e)[k] != '\n' by {
            assert(s.skip(e)[k] == s[e + k]);
        }
        lemma_insert_breaks_exhaustive(s.skip(e), seps);
        let rest = insert_breaks(s.skip(e), seps);
        let out = insert_breaks(s, seps);
        assert(out =~= seq![s[0]] + (seq!['\n'] + rest));
        lemma_split_cons_nl(rest);
        lemma_split_cons(s[0], seq!['\n'] + rest);
        let inner = seq![Seq::<char>::empty()] + split_on_nl(rest);
        assert(split_on_nl(seq!['\n'] + rest) == inner);
        assert(inner[0] == Seq::<char>::empty());
        assert(split_on_nl(out) == seq![seq![s[0]] + Seq::<char>::empty()] + inner.drop_first());
        assert(inner.drop_first() =~= split_on_nl(rest));
        assert forall|k: int| 0 <= k < split_on_nl(out).len() implies !has_break_point(
            #[trigger] split_on_nl(out)[k],
            seps,
        ) by {
            if k == 0 {
                assert(split_on_nl(out)[0] == seq![s[0]] + Seq::<char>::empty());
                assert(split_on_nl(out)[0].len() == 1);
            } else {
                assert(split_on_nl(out)[k] == split_on_nl(rest)[k - 1]);
            }
        }
    } else {
        assert forall|k: int| 0 <= k < s.skip(1).len() implies s.skip(1)[k] != '\n' by {
            assert(s.skip(1)[k] == s[k + 1]);
        }
        lemma_insert_breaks_exhaustive(s.skip(1), seps);
        let rest = insert_breaks(s.skip(1), seps);
        let out = insert_breaks(s, seps);
        assert(out == seq![s[0]] + rest);
        lemma_split_cons(s[0], rest);
        let g = seq![s[0]] + split_on_nl(rest)[0];
        assert(split_on_nl(out) == seq![g] + split_on_nl(rest).drop_first());
        assert(!has_break_point(g, seps)) by {
            if has_break_point(g, seps) {
                let i = choose|i: int|
                    0 <= i && i + 1 < g.len() && seps.contains(g[i]) && g[i + 1] == ' ';
                if i == 0 {
                    // the head would have matched: its neighbour is not a space
                    assert(split_on_nl(rest)[0].len() > 0);
                    assert(g[1] == split_on_nl(rest)[0][0]);
                    assert(s.skip(1).len() > 0);
                    lemma_insert_breaks_head(s.skip(1), seps);
                    assert(rest[0] == s[1]);
                    assert(s[1] != '\n');
                    lemma_split_head(rest);
                    assert(split_on_nl(rest)[0][0] == s[1]);
                    assert(s[1] == ' ' && seps.contains(s[0]) && s.len() >= 2);
                } else {
                    // a break point inside the first fragment of the rest
                    assert(g[i] == split_on_nl(rest)[0][i - 1]);
                    assert(g[i + 1] == split_on_nl(rest)[0][i]);
                    assert(has_break_point(split_on_nl(rest)[0], seps));
                }
            }
        }
        assert forall|k: int| 0 <= k < split_on_nl(out).len() implies !has_break_point(
            #[trigger] split_on_nl(out)[k],
            seps,
        ) by {
            if k > 0 {
                assert(split_on_nl(out)[k] == split_on_nl(rest).drop_first()[k - 1]);
                assert(split_on_nl(rest).drop_first()[k - 1] == split_on_nl(rest)[k]);
            }
        }
    }
}

/// A fragment of one splitting pass, taken as a line of its own, is
/// a fixed point of that pass: the engine introduces no new break on
/// a fragment it has already cut.
pub proof fn lemma_fragment_fixed(line: Seq<char>, seps: Seq<char>, k: int)
    requires
        forall|m: int| 0 <= m < line.len() ==> line[m] != '\n',
        0 <= k < split_on_nl(insert_breaks(line, seps)).len(),
    ensures
        break_line(split_on_nl(insert_breaks(line, seps))[k], seps) == split_on_nl(
            insert_breaks(line, seps),
        )[k],
{
    let p = split_on_nl(insert_breaks(line, seps))[k];
    lemma_insert_breaks_exhaustive(line, seps);
    lemma_split_no_nl(insert_breaks(line, seps));
    lemma_break_line_absent(p, seps);
}

/// The characters of `s` other than spaces and line breaks, in order.
pub open spec fn content_of(s: Seq<char>) -> Seq<char>
    decreases s.len(),
{
    if s.len() == 0 {
        Seq::empty()
    } else if s[0] == ' ' || s[0] == '\n' {
        content_of(s.skip(1))
    } else {
        seq![s[0]] + content_of(s.skip(1))
    }
}

/// The content of the concatenation of the parts, in order.
pub open spec fn content_cat(parts: Seq<Seq<char>>) -> Seq<char>
    decreases parts.len(),
{
    if parts.len() == 0 {
        Seq::empty()
    } else {
        content_of(parts[0]) + content_cat(parts.drop_first())
    }
}

/// The content of a single character.
proof fn lemma_content_one(c: char)
    ensures
        content_of(seq![c]) == if c == ' ' || c == '\n' {
            Seq::<char>::empty()
        } else {
            seq![c]
        },
{
    reveal_with_fuel(content_of, 2);
    assert(seq![c].skip(1) =~= Seq::<char>::empty());
}

/// Content distributes over concatenation.
proof fn lemma_content_concat(a: Seq<char>, b: Seq<char>)
    ensures
        content_of(a + b) == content_of(a) + content_of(b),
    decreases a.len(),
{
    if a.len() == 0 {
        assert(a + b =~= b);
        assert(content_of(a) + content_of(b) =~= content_of(b));
    } else {
        lemma_content_concat(a.skip(1), b);
        assert((a + b).skip(1) =~= a.skip(1) + b);
        assert((a + b)[0] == a[0]);
        if !(a[0] == ' ' || a[0] == '\n') {
            assert(seq![a[0]] + (content_of(a.skip(1)) + content_of(b)) =~= (seq![a[0]]
                + content_of(a.skip(1))) + content_of(b));
        }
    }
}

/// The splitting pass only trades space runs for line breaks: the
/// content is unchanged.
proof fn lemma_content_insert_breaks(s: Seq<char>, seps: Seq<char>)
    ensures
        content_of(insert_breaks(s, seps)) == content_of(s),
    decreases s.len(),
{
    if s.len() == 0 {
    } else if s.len() >= 2 && seps.contains(s[0]) && s[1] == ' ' {
        let e = skip_spaces_idx(s, 1);
        lemma_skip_spaces_spec(s, 1);
        lemma_content_insert_breaks(s.skip(e), seps);
        lemma_content_concat(seq![s[0], '\n'], insert_breaks(s.skip(e), seps));
        lemma_content_skip_spaces(s, 1, e);
        assert(seq![s[0], '\n'] =~= seq![s[0]] + seq!['\n']);
        lemma_content_concat(seq![s[0]], seq!['\n']);
        lemma_content_one(s[0]);
        lemma_content_one('\n');
        if s[0] == ' ' || s[0] == '\n' {
            assert(content_of(seq![s[0], '\n']) =~= Seq::<char>::empty());
            assert(content_of(s) == content_of(s.skip(1)));
            assert(Seq::<char>::empty() + content_of(s.skip(e)) =~= content_of(s.skip(e)));
        } else {
            assert(content_of(seq![s[0], '\n']) =~= seq![s[0]]);
            assert(content_of(s) == seq![s[0]] + content_of(s.skip(1)));
        }
    } else {
        lemma_content_insert_breaks(s.skip(1), seps);
        lemma_content_concat(seq![s[0]], insert_breaks(s.skip(1), seps));
        lemma_content_one(s[0]);
        if s[0] == ' ' || s[0] == '\n' {
            assert(content_of(seq![s[0]]) =~= Seq::<char>::empty());
            assert(Seq::<char>::empty() + content_of(s.skip(1)) =~= content_of(s.skip(1)));
        } else {
            assert(content_of(seq![s[0]]) =~= seq![s[0]]);
        }
    }
}

/// Skipping over a run of spaces does not change the content.
proof fn lemma_content_skip_spaces(s: Seq<char>, a: int, e: int)
    requires
        0 <= a <= e <= s.len(),
        forall|k: int| a <= k < e ==> s[k] == ' ',
    ensures
        content_of(s.skip(a)) == content_of(s.skip(e)),
    decreases e - a,
{
    if a < e {
        lemma_content_skip_spaces(s, a + 1, e);
        assert(s.skip(a)[0] == s[a]);
        assert(s.skip(a).skip(1) =~= s.skip(a + 1));
    }
}

/// The greedy rejoin only inserts separators: the content is that of
/// the fragments in order.
proof fn lemma_content_rejoin_from(frags: Seq<Seq<char>>, i: int, cur: nat)
    requires
        0 <= i <= frags.len(),
    ensures
        content_of(rejoin_from(frags, i, cur)) == content_cat(frags.skip(i)),
    decreases frags.len() - i,
{
    if i < frags.len() {
        let f = frags[i];
        assert(frags.skip(i).drop_first() =~= frags.skip(i + 1));
        assert(frags.skip(i)[0] == f);
        if cur == 0 {
            lemma_content_rejoin_from(frags, i + 1, f.len());
            lemma_content_concat(f, rejoin_from(frags, i + 1, f.len()));
        } else if cur + f.len() < MAX_LINE_LEN {
            lemma_content_rejoin_from(frags, i + 1, (cur + f.len()) as nat);
            lemma_content_concat(seq![' '] + f, rejoin_from(frags, i + 1, (cur + f.len()) as nat));
            lemma_content_concat(seq![' '], f);
            lemma_content_one(' ');
            assert(Seq::<char>::empty() + content_of(f) =~= content_of(f));
        } else {
            lemma_content_rejoin_from(frags, i + 1, f.len());
            lemma_content_concat(seq!['\n'] + f, rejoin_from(frags, i + 1, f.len()));
            lemma_content_concat(seq!['\n'], f);
            lemma_content_one('\n');
            assert(Seq::<char>::empty() + content_of(f) =~= content_of(f));
        }
    }
}

/// Splitting at line breaks preserves the content.
proof fn lemma_content_split_on_nl(s: Seq<char>)
    ensures
        content_cat(split_on_nl(s)) == content_of(s),
    decreases s.len(),
{
    broadcast use crate::text::lemma_find_char_bounds;

    let j = find_char(s, '\n', 0);
    if j < 0 {
        assert(split_on_nl(s) == seq![s]);
        assert(split_on_nl(s).drop_first() =~= Seq::<Seq<char>>::empty());
        assert(content_cat(Seq::<Seq<char>>::empty()) == Seq::<char>::empty());
        assert(content_cat(seq![s]) == content_of(s) + content_cat(Seq::<Seq<char>>::empty()));
        assert(content_of(s) + Seq::<char>::empty() =~= content_of(s));
    } else {
        lemma_content_split_on_nl(s.skip(j + 1));
        let parts = seq![s.take(j)] + split_on_nl(s.skip(j + 1));
        assert(parts.drop_first() =~= split_on_nl(s.skip(j + 1)));
        assert(parts[0] == s.take(j));
        assert(content_cat(parts) == content_of(s.take(j)) + content_cat(parts.drop_first()));
        assert(s =~= s.take(j) + (seq!['\n'] + s.skip(j + 1)));
        lemma_content_concat(s.take(j), seq!['\n'] + s.skip(j + 1));
        lemma_content_concat(seq!['\n'], s.skip(j + 1));
        lemma_content_one('\n');
        assert(Seq::<char>::empty() + content_of(s.skip(j + 1)) =~= content_of(s.skip(j + 1)));
    }
}

/// Splitting into lines preserves the content.
proof fn lemma_content_split_term(s: Seq<char>)
    ensures
        content_cat(split_term_nl(s)) == content_of(s),
{
    if s.len() == 0 {
    } else if s[s.len() - 1] == '\n' {
        lemma_content_split_on_nl(s.take(s.len() - 1));
        assert(s =~= s.take(s.len() - 1) + seq!['\n']);
        lemma_content_concat(s.take(s.len() - 1), seq!['\n']);
        lemma_content_one('\n');
        assert(content_of(s.take(s.len() - 1)) + Seq::<char>::empty() =~= content_of(
            s.take(s.len() - 1),
        ));
    } else {
        lemma_content_split_on_nl(s);
    }
}

/// Joining with line breaks preserves the content.
proof fn lemma_content_join(parts: Seq<Seq<char>>)
    ensures
        content_of(join_with(parts, seq!['\n'])) == content_cat(parts),
    decreases parts.len(),
{
    if parts.len() == 0 {
    } else if parts.len() == 1 {
        assert(parts.drop_first() =~= Seq::<Seq<char>>::empty());
        assert(content_cat(Seq::<Seq<char>>::empty()) == Seq::<char>::empty());
        assert(content_cat(parts) == content_of(parts[0]) + content_cat(parts.drop_first()));
        assert(content_of(parts[0]) + Seq::<char>::empty() =~= content_of(parts[0]));
    } else {
        assert(content_cat(parts) == content_of(parts[0]) + content_cat(parts.drop_first()));
        lemma_content_join(parts.drop_first());
        assert(parts.skip(1) =~= parts.drop_first());
        lemma_content_concat(parts[0] + seq!['\n'], join_with(parts.drop_first(), seq!['\n']));
        assert(parts[0] + seq!['\n'] + join_with(parts.drop_first(), seq!['\n']) =~= (parts[0]
            + seq!['\n']) + join_with(parts.drop_first(), seq!['\n']));
        lemma_content_concat(parts[0], seq!['\n']);
        lemma_content_one('\n');
        assert(content_of(parts[0]) + Seq::<char>::empty() =~= content_of(parts[0]));
    }
}

/// One pass preserves the content of the line.
proof fn lemma_content_break_line(line: Seq<char>, seps: Seq<char>)
    ensures
        content_of(break_line(line, seps)) == content_of(line),
{
    if line.len() < MAX_LINE_LEN || spec_is_heading(line) {
    } else {
        lemma_content_insert_breaks(line, seps);
        lemma_content_split_on_nl(insert_breaks(line, seps));
        lemma_content_rejoin_from(split_on_nl(insert_breaks(line, seps)), 0, 0);
        assert(split_on_nl(insert_breaks(line, seps)).skip(0) =~= split_on_nl(
            insert_breaks(line, seps),
        ));
    }
}

/// Mapping a content-preserving pass over the parts preserves the
/// content of the whole.
proof fn lemma_content_cat_inner(parts: Seq<Seq<char>>)
    ensures
        content_cat(parts.map_values(|f: Seq<char>| break_line(f, inner_seps()))) == content_cat(
            parts,
        ),
    decreases parts.len(),
{
    let mapped = parts.map_values(|f: Seq<char>| break_line(f, inner_seps()));
    if parts.len() > 0 {
        lemma_content_cat_inner(parts.drop_first());
        lemma_content_break_line(parts[0], inner_seps());
        assert(mapped[0] == break_line(parts[0], inner_seps()));
        assert(mapped.drop_first() =~= parts.drop_first().map_values(
            |f: Seq<char>| break_line(f, inner_seps()),
        ));
    }
}

/// The engine's per-line processing preserves the content of the
/// line: splitting and rejoining only trade spaces for line breaks.
pub proof fn lemma_content_process_line(line: Seq<char>)
    ensures
        content_of(process_line(line)) == content_of(line),
{
    let outer_res = break_line(line, outer_seps());
    let parts = split_term_nl(outer_res);
    lemma_content_break_line(line, outer_seps());
    lemma_content_split_term(outer_res);
    lemma_content_cat_inner(parts);
    lemma_content_join(parts.map_values(|f: Seq<char>| break_line(f, inner_seps())));
}

/// Mapping the per-line processing over the lines preserves the
/// content of the whole.
proof fn lemma_content_cat_lines(parts: Seq<Seq<char>>)
    ensures
        content_cat(parts.map_values(|l: Seq<char>| process_line(l))) == content_cat(parts),
    decreases parts.len(),
{
    let mapped = parts.map_values(|l: Seq<char>| process_line(l));
    if parts.len() > 0 {
        lemma_content_cat_lines(parts.drop_first());
        lemma_content_process_line(parts[0]);
        assert(mapped[0] == process_line(parts[0]));
        assert(mapped.drop_first() =~= parts.drop_first().map_values(
            |l: Seq<char>| process_line(l),
        ));
    }
}

/// The engine preserves the document's content: no character other
/// than spaces and line breaks is added, dropped or reordered.
pub proof fn lemma_engine_preserves_content(doc: Seq<char>)
    ensures
        content_of(line_break_engine(doc)) == content_of(doc),
{
    lemma_content_split_term(doc);
    lemma_content_cat_lines(split_term_nl(doc));
    lemma_content_join(split_term_nl(doc).map_values(|l: Seq<char>| process_line(l)));
}

/// Headings are never split: a heading line passes through the
/// engine's per-line processing unchanged.
pub proof fn lemma_engine_preserves_heading(line: Seq<char>)
    requires
        spec_is_heading(line),
        forall|k: int| 0 <= k < line.len() ==> line[k] != '\n',
    ensures
        process_line(line) == line,
{
    lemma_process_line_fixed(line);
}

/// A line already under the threshold passes through the engine's
/// per-line processing unchanged.
pub proof fn lemma_engine_preserves_short(line: Seq<char>)
    requires
        line.len() < MAX_LINE_LEN,
        forall|k: int| 0 <= k < line.len() ==> line[k] != '\n',
    ensures
        process_line(line) == line,
{
    lemma_process_line_fixed(line);
}

/// A line with no break point of either tier is emitted as it is,
/// however long: the engine never truncates or force-breaks a line.
pub proof fn lemma_engine_preserves_unsplittable(line: Seq<char>)
    requires
        forall|k: int| 0 <= k < line.len() ==> line[k] != '\n',
        !has_break_point(line, outer_seps()),
        !has_break_point(line, inner_seps()),
    ensures
        process_line(line) == line,
{
    lemma_break_line_absent(line, outer_seps());
    lemma_break_line_absent(line, inner_seps());
    lemma_process_line_fixed(line);
}

} // verus!
