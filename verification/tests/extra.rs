use mdstyle::add_semantic_line_breaks;
use mdstyle::canonicalize_quotes;
use mdstyle::canonicalize_through_running;
use mdstyle::ensure_trailing_newline;
use mdstyle::move_footnotes_after_punctuation;
use mdstyle::remove_embedded_images;
use mdstyle::remove_extra_ref_spaces;
use mdstyle::simplify_urls;
use mdstyle::Command;

#[test]
fn quotes_leave_no_curly_and_keep_counts() {
    let before = "she said “hi” and ‘bye’ — it's \"plain\"";
    let after = canonicalize_quotes(before.into());
    assert!(!after.contains('‘'));
    assert!(!after.contains('’'));
    assert!(!after.contains('“'));
    assert!(!after.contains('”'));
    // one ASCII apostrophe was already there, two curly singles were added to it
    assert_eq!(after.matches('\'').count(), 3);
    // two ASCII double quotes were already there, two curly doubles were added
    assert_eq!(after.matches('"').count(), 4);
    assert_eq!(after, "she said \"hi\" and 'bye' — it's \"plain\"");
}

#[test]
fn quotes_on_plain_text_change_nothing() {
    let before = "no fancy quotes here";
    assert_eq!(canonicalize_quotes(before.into()), before);
}

#[test]
fn image_placeholder_count_matches_span_count() {
    let before = "a<data:image/png;x>b<data:image/gif;y>c";
    let after = remove_embedded_images(before.into());
    assert_eq!(after, "aTODObTODOc");
    assert_eq!(after.matches("TODO").count(), 2);
}

#[test]
fn image_without_closing_bracket_is_kept() {
    let before = "start <data:image/png;no end";
    assert_eq!(remove_embedded_images(before.into()), before);
}

#[test]
fn image_free_text_is_untouched() {
    let before = "nothing <here> to remove";
    assert_eq!(remove_embedded_images(before.into()), before);
}

#[test]
fn ref_spaces_single_space_is_kept() {
    let before = "[^2]: hello";
    assert_eq!(remove_extra_ref_spaces(before.into()), before);
}

#[test]
fn ref_spaces_label_without_colon_is_untouched() {
    let before = "[link]  (no colon)";
    assert_eq!(remove_extra_ref_spaces(before.into()), before);
}

#[test]
fn non_self_link_is_left_unchanged() {
    let before = "[title](https://example.test)";
    assert_eq!(simplify_urls(before.into()), before);
}

#[test]
fn self_link_with_escapes_is_simplified() {
    let before = r"[a\_b\_c](a_b_c)";
    assert_eq!(simplify_urls(before.into()), "<a_b_c>");
}

#[test]
fn through_running_is_idempotent_on_canonical_text() {
    let before = "through-running, through running, running through, through-run, through run, run through";
    let once = canonicalize_through_running(before.to_string());
    let twice = canonicalize_through_running(once.clone());
    assert_eq!(once, twice);
}

#[test]
fn footnote_not_adjacent_to_punctuation_is_untouched() {
    let before = "a marker[^note] standing free";
    assert_eq!(move_footnotes_after_punctuation(before.into()), before);
}

#[test]
fn footnote_swaps_with_comma() {
    let before = "first[^a], second";
    assert_eq!(move_footnotes_after_punctuation(before.into()), "first,[^a] second");
}

#[test]
fn footnote_swaps_before_each_punctuation_kind() {
    let before = "a[^1]! b[^2]? c[^3]; d[^4]:";
    assert_eq!(move_footnotes_after_punctuation(before.into()), "a![^1] b?[^2] c;[^3] d:[^4]");
}

#[test]
fn short_line_is_not_rewrapped() {
    let before = "a short line. with punctuation, too";
    assert_eq!(add_semantic_line_breaks(before.into()), before);
}

#[test]
fn heading_line_is_never_split() {
    let long_heading = format!("# {}. {}. {}", "x".repeat(40), "y".repeat(40), "z".repeat(40));
    assert_eq!(add_semantic_line_breaks(long_heading.clone()), long_heading);
}

#[test]
fn unsplittable_long_line_is_emitted_as_is() {
    let before = "w".repeat(150);
    assert_eq!(add_semantic_line_breaks(before.clone()), before);
}

#[test]
fn line_breaks_are_idempotent_on_engine_output() {
    let before = format!(
        "{}. {}. {}",
        "a".repeat(60),
        "b".repeat(60),
        "c".repeat(60)
    );
    let once = add_semantic_line_breaks(before);
    let twice = add_semantic_line_breaks(once.clone());
    assert_eq!(once, twice);
}

#[test]
fn long_sentences_break_after_sentence_punctuation() {
    let before = format!("{}. {}", "a".repeat(60), "b".repeat(60));
    let after = format!("{}.\n{}", "a".repeat(60), "b".repeat(60));
    assert_eq!(add_semantic_line_breaks(before), after);
}

#[test]
fn line_breaks_consume_the_whole_space_run() {
    let before = format!("{}.   {}", "a".repeat(60), "b".repeat(60));
    let after = format!("{}.\n{}", "a".repeat(60), "b".repeat(60));
    assert_eq!(add_semantic_line_breaks(before), after);
}

#[test]
fn blank_lines_pass_through_the_engine() {
    let before = "first paragraph\n\nsecond paragraph";
    assert_eq!(add_semantic_line_breaks(before.into()), before);
}

#[test]
fn engine_drops_a_final_line_terminator() {
    assert_eq!(add_semantic_line_breaks("x\n".into()), "x");
}

#[test]
fn line_breaks_are_idempotent_on_the_corpus() {
    let once = "
# A Not-So-Capital Plan Part 2: The Future is Electric

Metro-North's M8 can run on catenary power (left[^M8-catenary-pantograph-citation])
or on either over- or under-running third rails (shoe seen at right[^M8-third-rail-shoe-citation]).

## Introduction

In major cities all across the globe, electric trains form the backbone of urban transportation.
The benefits of electrification are simply too great to ignore.
Electric trains accelerate faster, reduce overall journey times,
and provide a higher-quality passenger experience than their diesel-powered counterparts,
all while being cheaper to run and maintain.
Electric trains are also a powerful tool for decarbonization:
they can easily run on non-carbon fuel sources and produce no local pollution.
It is rare that a single technology can reduce both pollution and costs while also actually improving service,
but electric rail can accomplish just that.
That is why the future of rail is electric around both the country and the world.
        ";
    assert_eq!(add_semantic_line_breaks(once.into()), once);
}

#[test]
fn dispatcher_selects_each_rule() {
    assert_eq!(Command::Quotes.rewrite("‘x’".into()), "'x'");
    assert_eq!(Command::EmbeddedImages.rewrite("<data:image/a>".into()), "TODO");
    assert_eq!(Command::ExtraRefSpaces.rewrite("[r]:   v".into()), "[r]: v");
    assert_eq!(Command::SimplifyUrls.rewrite("[u](u)".into()), "<u>");
    assert_eq!(Command::ThroughRunning.rewrite("run through".into()), "through-run");
    assert_eq!(Command::FootnotesAfterPunctuation.rewrite("[^9];".into()), ";[^9]");
    let short = "too short to wrap.";
    assert_eq!(Command::SemanticLineBreaks.rewrite(short.into()), short);
}

#[test]
fn trailing_newline_is_added_once() {
    assert_eq!(ensure_trailing_newline("a".into()), "a\n");
    assert_eq!(ensure_trailing_newline("a\n".into()), "a\n");
    assert_eq!(ensure_trailing_newline("".into()), "\n");
}
