//! Embedded-image removal: every span of the form `<data:image/` up
//! to the next `>` is replaced by the placeholder `TODO`; the text
//! between spans is kept verbatim.
use vstd::prelude::*;

use crate::text::chars_to_string;
use crate::text::find_char;
use crate::text::join_with;
use crate::text::find_char_exec;
use crate::text::lemma_find_char_first;
use crate::text::lemma_find_char_is;
use crate::text::lemma_find_char_none;
use crate::text::matches_at;
use crate::text::matches_at_exec;
use crate::text::push_all;
use crate::text::to_chars;

verus! {

broadcast use crate::text::lemma_find_char_bounds;

/// The literal opening of an embedded-image span.
pub open spec fn image_prefix() -> Seq<char> {
    "<data:image/"@
}

/// The placeholder that replaces each embedded-image span.
pub open spec fn todo_marker() -> Seq<char> {
    "TODO"@
}

/// An embedded-image span starts at the first position: the literal
/// prefix, then a run of characters other than `>`, then `>`.
pub open spec fn image_at(s: Seq<char>) -> bool {
    matches_at(s, 0, image_prefix()) && 12 <= find_char(s, '>', 12) < s.len()
}

/// The document with every embedded-image span replaced by the
/// placeholder, scanning left to right.
pub open spec fn strip_images(s: Seq<char>) -> Seq<char>
    decreases s.len(),
{
    if s.len() == 0 {
        Seq::empty()
    } else if image_at(s) {
        todo_marker() + strip_images(s.skip(find_char(s, '>', 12) + 1))
    } else {
        seq![s[0]] + strip_images(s.skip(1))
    }
}

/// The number of embedded-image spans in the document.
pub open spec fn image_count(s: Seq<char>) -> nat
    decreases s.len(),
{
    if s.len() == 0 {
        0
    } else if image_at(s) {
        1 + image_count(s.skip(find_char(s, '>', 12) + 1))
    } else {
        image_count(s.skip(1))
    }
}

/// The segments of the document between embedded-image spans, in order.
pub open spec fn image_segments(s: Seq<char>) -> Seq<Seq<char>>
    decreases s.len(),
{
    if s.len() == 0 {
        seq![Seq::<char>::empty()]
    } else if image_at(s) {
        seq![Seq::<char>::empty()] + image_segments(s.skip(find_char(s, '>', 12) + 1))
    } else {
        let rest = image_segments(s.skip(1));
        seq![seq![s[0]] + rest[0]] + rest.skip(1)
    }
}

/// There is always at least one segment.
pub broadcast proof fn lemma_image_segments_nonempty(s: Seq<char>)
    ensures
        #[trigger] image_segments(s).len() >= 1,
    decreases s.len(),
{
    if s.len() > 0 {
        if image_at(s) {
            lemma_image_segments_nonempty(s.skip(find_char(s, '>', 12) + 1));
        } else {
            lemma_image_segments_nonempty(s.skip(1));
        }
    }
}

/// Delete large embedded images (`<data:image/[^>]*>` HTML elements),
/// leaving a placeholder for each.
pub fn remove_embedded_images(before: String) -> (after: String)
    ensures
        after@ == strip_images(before@),
{
    proof {
        reveal_strlit("<data:image/");
        reveal_strlit("TODO");
    }
    let chars = to_chars(before.as_str());
    let prefix = to_chars("<data:image/");
    let todo = to_chars("TODO");
    let mut out: Vec<char> = Vec::new();
    let mut i: usize = 0;
    proof {
        assert(chars@.skip(0) =~= chars@);
        assert(out@ + strip_images(chars@) =~= strip_images(chars@));
    }
    while i < chars.len()
        invariant
            0 <= i <= chars@.len(),
            chars@ == before@,
            prefix@ == image_prefix(),
            todo@ == todo_marker(),
            strip_images(chars@) == out@ + strip_images(chars@.skip(i as int)),
        decreases chars.len() - i,
    {
        let ghost suffix = chars@.skip(i as int);
        let mut plain: bool = true;
        if matches_at_exec(&chars, i, &prefix) {
            proof {
                assert(suffix.subrange(0, 12) =~= chars@.subrange(i as int, i + 12 as int));
                assert(matches_at(suffix, 0, image_prefix()));
            }
            match find_char_exec(&chars, '>', i + 12) {
                Some(j) => {
                    proof {
                        lemma_find_char_first(chars@, '>', i + 12 as int);
                        assert forall|m: int| 12 <= m < j - i implies suffix[m] != '>' by {
                            assert(suffix[m] == chars@[i + m]);
                        }
                        lemma_find_char_is(suffix, '>', 12, j - i);
                        assert(image_at(suffix));
                        assert(suffix.skip(j - i + 1) =~= chars@.skip(j + 1 as int));
                        assert(strip_images(suffix) == todo_marker() + strip_images(
                            chars@.skip(j + 1 as int),
                        ));
                    }
                    push_all(&mut out, &todo);
                    proof {
                        assert(out@ + strip_images(chars@.skip(j + 1 as int)) =~= strip_images(
                            chars@,
                        ));
                    }
                    i = j + 1;
                    plain = false;
                },
                None => {
                    proof {
                        lemma_find_char_first(chars@, '>', i + 12 as int);
                        assert forall|m: int| 12 <= m < suffix.len() implies suffix[m] != '>' by {
                            assert(suffix[m] == chars@[i + m]);
                        }
                        lemma_find_char_none(suffix, '>', 12);
                        assert(!image_at(suffix));
                    }
                },
            }
        } else {
            proof {
                if matches_at(suffix, 0, image_prefix()) {
                    assert(suffix.subrange(0, 12) =~= chars@.subrange(i as int, i + 12 as int));
                    assert(matches_at(chars@, i as int, image_prefix()));
                }
                assert(!image_at(suffix));
            }
        }
        if plain {
            proof {
                assert(suffix[0] == chars@[i as int]);
                assert(suffix.skip(1) =~= chars@.skip(i + 1 as int));
                assert(strip_images(suffix) == seq![chars@[i as int]] + strip_images(
                    chars@.skip(i + 1 as int),
                ));
            }
            out.push(chars[i]);
            proof {
                assert(out@ + strip_images(chars@.skip(i + 1 as int)) =~= strip_images(chars@));
            }
            i = i + 1;
        }
    }
    proof {
        assert(chars@.skip(chars@.len() as int) =~= Seq::<char>::empty());
        assert(out@ =~= strip_images(chars@));
    }
    chars_to_string(&out)
}

/// The characters of the document outside the embedded-image spans,
/// in order.
pub open spec fn outside_image_text(s: Seq<char>) -> Seq<char>
    decreases s.len(),
{
    if s.len() == 0 {
        Seq::empty()
    } else if image_at(s) {
        outside_image_text(s.skip(find_char(s, '>', 12) + 1))
    } else {
        seq![s[0]] + outside_image_text(s.skip(1))
    }
}

/// Concatenating the segments recovers exactly the text outside the
/// spans.
proof fn lemma_image_segments_text(s: Seq<char>)
    ensures
        join_with(image_segments(s), Seq::empty()) == outside_image_text(s),
    decreases s.len(),
{
    broadcast use lemma_image_segments_nonempty;

    let sep = Seq::<char>::empty();
    if s.len() == 0 {
    } else if image_at(s) {
        let rest = s.skip(find_char(s, '>', 12) + 1);
        lemma_image_segments_text(rest);
        let parts = seq![Seq::<char>::empty()] + image_segments(rest);
        assert(parts.len() >= 2);
        assert(parts[0] == Seq::<char>::empty());
        assert(parts.skip(1) =~= image_segments(rest));
        assert(join_with(parts, sep) == parts[0] + sep + join_with(image_segments(rest), sep));
        assert(parts[0] + sep + outside_image_text(rest) =~= outside_image_text(rest));
    } else {
        let rest = image_segments(s.skip(1));
        lemma_image_segments_text(s.skip(1));
        let parts = seq![seq![s[0]] + rest[0]] + rest.skip(1);
        assert(parts.len() == rest.len());
        if rest.len() == 1 {
            assert(join_with(parts, sep) == seq![s[0]] + rest[0]);
            assert(join_with(rest, sep) == rest[0]);
            assert(seq![s[0]] + rest[0] =~= seq![s[0]] + join_with(rest, sep));
        } else {
            assert(parts.skip(1) =~= rest.skip(1));
            assert(join_with(parts, sep) == (seq![s[0]] + rest[0]) + sep + join_with(
                rest.skip(1),
                sep,
            ));
            assert(join_with(rest, sep) == rest[0] + sep + join_with(rest.skip(1), sep));
            assert((seq![s[0]] + rest[0]) + sep + join_with(rest.skip(1), sep) =~= seq![s[0]] + (
            rest[0] + sep + join_with(rest.skip(1), sep)));
        }
    }
}

/// The output is the segments between spans joined by the
/// placeholder: one placeholder per span, the text outside the spans
/// kept verbatim (concatenating the segments with nothing recovers
/// it exactly).
pub proof fn lemma_image_removal_structure(s: Seq<char>)
    ensures
        image_segments(s).len() == image_count(s) + 1,
        strip_images(s) == join_with(image_segments(s), todo_marker()),
        join_with(image_segments(s), Seq::empty()) == outside_image_text(s),
    decreases s.len(),
{
    lemma_image_segments_text(s);
    broadcast use lemma_image_segments_nonempty;

    if s.len() == 0 {
    } else if image_at(s) {
        let rest = s.skip(find_char(s, '>', 12) + 1);
        lemma_image_removal_structure(rest);
        let parts = seq![Seq::<char>::empty()] + image_segments(rest);
        assert(parts.len() >= 2);
        assert(parts[0] == Seq::<char>::empty());
        assert(parts.skip(1) =~= image_segments(rest));
        assert(join_with(parts, todo_marker()) == parts[0] + todo_marker() + join_with(
            image_segments(rest),
            todo_marker(),
        ));
        assert(parts[0] + todo_marker() + strip_images(rest) =~= todo_marker() + strip_images(
            rest,
        ));
    } else {
        let rest = image_segments(s.skip(1));
        lemma_image_removal_structure(s.skip(1));
        let parts = seq![seq![s[0]] + rest[0]] + rest.skip(1);
        assert(parts.len() == rest.len());
        if rest.len() == 1 {
            assert(join_with(parts, todo_marker()) == seq![s[0]] + rest[0]);
            assert(join_with(rest, todo_marker()) == rest[0]);
            assert(seq![s[0]] + rest[0] =~= seq![s[0]] + join_with(rest, todo_marker()));
        } else {
            assert(parts.skip(1) =~= rest.skip(1));
            assert(join_with(parts, todo_marker()) == (seq![s[0]] + rest[0]) + todo_marker()
                + join_with(rest.skip(1), todo_marker()));
            assert(join_with(rest, todo_marker()) == rest[0] + todo_marker() + join_with(
                rest.skip(1),
                todo_marker(),
            ));
            assert((seq![s[0]] + rest[0]) + todo_marker() + join_with(rest.skip(1), todo_marker())
                =~= seq![s[0]] + (rest[0] + todo_marker() + join_with(rest.skip(1), todo_marker())));
        }
    }
}

} // verus!
