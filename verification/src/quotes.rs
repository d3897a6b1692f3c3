//! Quote canonicalization: every curly single quote becomes an ASCII
//! apostrophe and every curly double quote becomes an ASCII double
//! quote; all other characters pass through unchanged.
use vstd::prelude::*;

use crate::text::chars_to_string;
use crate::text::to_chars;

verus! {

/// Whether `c` is one of the curly single quotes.
pub open spec fn is_curly_single(c: char) -> bool {
    c == '\u{2018}' || c == '\u{2019}'
}

/// Whether `c` is one of the curly double quotes.
pub open spec fn is_curly_double(c: char) -> bool {
    c == '\u{201C}' || c == '\u{201D}'
}

/// The canonical form of one character: curly quotes map to their
/// ASCII counterparts, everything else maps to itself.
pub open spec fn canon_quote_char(c: char) -> char {
    if is_curly_single(c) {
        '\''
    } else if is_curly_double(c) {
        '"'
    } else {
        c
    }
}

/// The document with every character replaced by its canonical form.
pub open spec fn canon_quotes(s: Seq<char>) -> Seq<char>
    decreases s.len(),
{
    if s.len() == 0 {
        Seq::empty()
    } else {
        seq![canon_quote_char(s[0])] + canon_quotes(s.skip(1))
    }
}

/// `canon_quotes` maps each position independently.
pub proof fn lemma_canon_quotes_pointwise(s: Seq<char>)
    ensures
        canon_quotes(s).len() == s.len(),
        forall|i: int| 0 <= i < s.len() ==> canon_quotes(s)[i] == canon_quote_char(s[i]),
    decreases s.len(),
{
    if s.len() > 0 {
        lemma_canon_quotes_pointwise(s.skip(1));
        assert forall|i: int| 0 <= i < s.len() implies canon_quotes(s)[i] == canon_quote_char(
            s[i],
        ) by {
            if i > 0 {
                assert(canon_quotes(s)[i] == canon_quotes(s.skip(1))[i - 1]);
                assert(s.skip(1)[i - 1] == s[i]);
            }
        }
    }
}

/// Number of occurrences of `c` in `s`.
pub open spec fn count_char(s: Seq<char>, c: char) -> nat
    decreases s.len(),
{
    if s.len() == 0 {
        0
    } else if s[0] == c {
        1 + count_char(s.skip(1), c)
    } else {
        count_char(s.skip(1), c)
    }
}

/// Replace fancy (curly) quotes with simple ASCII quotes.
pub fn canonicalize_quotes(before: String) -> (after: String)
    ensures
        after@ == canon_quotes(before@),
{
    let chars = to_chars(before.as_str());
    let mut out: Vec<char> = Vec::new();
    let mut i: usize = 0;
    proof {
        assert(before@.skip(0) =~= before@);
        assert(out@ + canon_quotes(before@) =~= canon_quotes(before@));
    }
    while i < chars.len()
        invariant
            0 <= i <= chars@.len(),
            chars@ == before@,
            canon_quotes(before@) == out@ + canon_quotes(before@.skip(i as int)),
        decreases chars.len() - i,
    {
        let c = chars[i];
        let mapped: char = if c == '\u{2018}' || c == '\u{2019}' {
            '\''
        } else if c == '\u{201C}' || c == '\u{201D}' {
            '"'
        } else {
            c
        };
        proof {
            assert(before@.skip(i as int)[0] == before@[i as int]);
            assert(before@.skip(i as int).skip(1) =~= before@.skip(i + 1 as int));
            assert(canon_quotes(before@.skip(i as int)) == seq![canon_quote_char(before@[i as int])]
                + canon_quotes(before@.skip(i + 1 as int)));
        }
        out.push(mapped);
        proof {
            assert(out@ + canon_quotes(before@.skip(i + 1 as int)) =~= canon_quotes(before@));
        }
        i = i + 1;
    }
    proof {
        assert(before@.skip(before@.len() as int) =~= Seq::<char>::empty());
        assert(out@ =~= canon_quotes(before@));
    }
    chars_to_string(&out)
}

/// No curly quote character remains after canonicalization, and the
/// length of the document is unchanged.
pub proof fn lemma_quotes_no_curly(s: Seq<char>)
    ensures
        canon_quotes(s).len() == s.len(),
        forall|i: int|
            0 <= i < canon_quotes(s).len() ==> !is_curly_single(canon_quotes(s)[i])
                && !is_curly_double(canon_quotes(s)[i]),
{
    lemma_canon_quotes_pointwise(s);
}

/// The ASCII apostrophe count grows by exactly the number of curly
/// single quotes removed, and likewise for double quotes.
pub proof fn lemma_quotes_count(s: Seq<char>)
    ensures
        count_char(canon_quotes(s), '\'') == count_char(s, '\'') + count_char(s, '\u{2018}')
            + count_char(s, '\u{2019}'),
        count_char(canon_quotes(s), '"') == count_char(s, '"') + count_char(s, '\u{201C}')
            + count_char(s, '\u{201D}'),
    decreases s.len(),
{
    if s.len() > 0 {
        lemma_quotes_count(s.skip(1));
        assert(canon_quotes(s) == seq![canon_quote_char(s[0])] + canon_quotes(s.skip(1)));
        assert(canon_quotes(s).skip(1) =~= canon_quotes(s.skip(1)));
        assert(canon_quotes(s)[0] == canon_quote_char(s[0]));
    }
}

} // verus!
