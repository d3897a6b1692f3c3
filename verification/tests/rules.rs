use mdstyle::add_semantic_line_breaks;
use mdstyle::canonicalize_quotes;
use mdstyle::canonicalize_through_running;
use mdstyle::move_footnotes_after_punctuation;
use mdstyle::remove_embedded_images;
use mdstyle::remove_extra_ref_spaces;
use mdstyle::simplify_urls;

#[test]
fn test_canonicalize_quotes() {
    let before = "‘’, “”";
    let after = "'', \"\"";
    assert_eq!(canonicalize_quotes(before.into()), after);
}

#[test]
fn test_remove_embedded_images() {
    let before = "[image1]: <data:image/png;base64,iVBORw0KGgoAAAAN>

[image2]: <data:image/png;base64,iVBORw0KGgoAAAANS>";
    let after = "[image1]: TODO

[image2]: TODO";
    assert_eq!(remove_embedded_images(before.into()), after);
}

#[test]
fn test_remove_extra_ref_spaces() {
    let before = "[^2]:    hello";
    let after = "[^2]: hello";
    assert_eq!(remove_extra_ref_spaces(before.into()), after);
}

#[test]
fn test_simplify_urls() {
    let before = r"[URL](URL), [URL\_2](URL_2)";
    let after = "<URL>, <URL_2>";
    assert_eq!(simplify_urls(before.into()), after);
}

#[test]
fn test_add_semantic_line_breaks() {
    let before = "
# A Not-So-Capital Plan Part 2: The Future is Electric

Metro-North's M8 can run on catenary power (left[^M8-catenary-pantograph-citation]) or on either over- or under-running third rails (shoe seen at right[^M8-third-rail-shoe-citation]).

## Introduction

In major cities all across the globe, electric trains form the backbone of urban transportation. The benefits of electrification are simply too great to ignore. Electric trains accelerate faster, reduce overall journey times, and provide a higher-quality passenger experience than their diesel-powered counterparts, all while being cheaper to run and maintain. Electric trains are also a powerful tool for decarbonization: they can easily run on non-carbon fuel sources and produce no local pollution. It is rare that a single technology can reduce both pollution and costs while also actually improving service, but electric rail can accomplish just that. That is why the future of rail is electric around both the country and the world.
        ";
    let after = "
# A Not-So-Capital Plan Part 2: The Future is Electric

Metro-North's M8 can run on catenary power (left[^M8-catenary-pantograph-citation])
or on either over- or under-running third rails (shoe seen at right[^M8-third-rail-shoe-citation]).

## Introduction

In major cities all across the globe, electric trains form the backbone of urban transportation.
The benefits of electrification are simply too great to ignore.
Electric trains accelerate faster, reduce overall journey times,
and provide a higher-quality passenger experience than their diesel-powered counterparts,
all while being cheaper to run and maintain.
Electric trains are also a powerful tool for decarbonization:
they can easily run on non-carbon fuel sources and produce no local pollution.
It is rare that a single technology can reduce both pollution and costs while also actually improving service,
but electric rail can accomplish just that.
That is why the future of rail is electric around both the country and the world.
        ";
    assert_eq!(add_semantic_line_breaks(before.into()), after);
}

#[test]
fn test_canonicalize_through_running() {
    let before = "through-running, through running, running through, through-run, through run, run through";
    let after = "through-running, through-running, through-running, through-run, through-run, through-run";
    assert_eq!(canonicalize_through_running(before.into()), after);
}

#[test]
fn test_move_footnotes_after_punctuation() {
    let before = "[^1].";
    let after = ".[^1]";
    assert_eq!(move_footnotes_after_punctuation(before.into()), after);
}
