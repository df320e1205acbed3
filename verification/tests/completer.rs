//! Tests of the incomplete-markdown repair pass.
use markdown_bib_processor::markdown::parse_incomplete_markdown;

#[test]
fn completes_unterminated_bold() {
    assert_eq!(parse_incomplete_markdown("hello **world"), "hello **world**");
}

#[test]
fn drops_unterminated_image() {
    assert_eq!(parse_incomplete_markdown("see ![alt"), "see ");
}

#[test]
fn closes_unterminated_link_with_placeholder() {
    assert_eq!(
        parse_incomplete_markdown("click [here"),
        "click [here](streamdown:incomplete-link)"
    );
}

#[test]
fn incomplete_link_overrides_other_rules() {
    // the dangling bold span is left alone once the link placeholder fires
    assert_eq!(
        parse_incomplete_markdown("**bold [link"),
        "**bold [link](streamdown:incomplete-link)"
    );
}

#[test]
fn closed_links_are_left_alone() {
    assert_eq!(parse_incomplete_markdown("a [b](c) d"), "a [b](c) d");
}

#[test]
fn completes_bold_italic() {
    assert_eq!(parse_incomplete_markdown("x ***yz"), "x ***yz***");
}

#[test]
fn four_leading_asterisks_stay() {
    assert_eq!(parse_incomplete_markdown("****abc"), "****abc");
}

#[test]
fn completes_single_asterisk_italic() {
    assert_eq!(parse_incomplete_markdown("an *italic word"), "an *italic word*");
}

#[test]
fn list_bullets_are_not_emphasis() {
    assert_eq!(parse_incomplete_markdown("- a\n* b\n* c"), "- a\n* b\n* c");
}

#[test]
fn completes_double_underscore() {
    assert_eq!(parse_incomplete_markdown("a __bold"), "a __bold__");
}

#[test]
fn completes_single_underscore() {
    assert_eq!(parse_incomplete_markdown("a _word"), "a _word_");
}

#[test]
fn word_internal_underscores_do_not_count() {
    assert_eq!(parse_incomplete_markdown("file_name and x"), "file_name and x");
}

#[test]
fn escaped_underscores_do_not_count() {
    assert_eq!(parse_incomplete_markdown("a \\_b and x"), "a \\_b and x");
}

#[test]
fn underscore_inside_math_does_not_count() {
    assert_eq!(parse_incomplete_markdown("$x_1$ done"), "$x_1$ done");
}

#[test]
fn completes_inline_code() {
    assert_eq!(parse_incomplete_markdown("run `ls"), "run `ls`");
}

#[test]
fn complete_code_block_is_untouched() {
    let text = "```\nlet x = **1;\n```\n";
    assert_eq!(parse_incomplete_markdown(text), text);
}

#[test]
fn open_code_fence_gets_no_inline_backtick() {
    assert_eq!(parse_incomplete_markdown("```\ncode"), "```\ncode");
}

#[test]
fn completes_strikethrough() {
    assert_eq!(parse_incomplete_markdown("a ~~gone"), "a ~~gone~~");
}

#[test]
fn completes_block_math_inline() {
    assert_eq!(parse_incomplete_markdown("$$x+y"), "$$x+y$$");
}

#[test]
fn completes_block_math_on_own_line() {
    assert_eq!(parse_incomplete_markdown("$$\nx+y"), "$$\nx+y\n$$");
}

#[test]
fn meaningless_trailing_content_is_left_alone() {
    assert_eq!(parse_incomplete_markdown("a ** "), "a ** ");
}

#[test]
fn unicode_whitespace_counts_as_meaningless() {
    // a no-break space after the dangling marker is whitespace, so the
    // trailing content is meaningless and the span is left alone
    assert_eq!(parse_incomplete_markdown("a **\u{a0}"), "a **\u{a0}");
}

#[test]
fn unicode_letters_keep_underscores_word_internal() {
    assert_eq!(parse_incomplete_markdown("ä_ö and x"), "ä_ö and x");
}

#[test]
fn existing_placeholder_suppresses_other_rules() {
    // text already ending in the reserved placeholder is returned as is,
    // even when another span dangles
    let text = "**b [c](streamdown:incomplete-link)";
    assert_eq!(parse_incomplete_markdown(text), text);
}

#[test]
fn empty_input_stays_empty() {
    assert_eq!(parse_incomplete_markdown(""), "");
}

#[test]
fn complete_text_is_a_fixed_point() {
    // texts with no trailing unterminated span pass through unchanged, and
    // a second application changes nothing either
    let samples = [
        "plain text",
        "a **bold** word",
        "a *i* and _u_ and `c` and ~~s~~",
        "$$\nx\n$$\n",
        "[link](https://example.test) end",
    ];
    for s in samples {
        let once = parse_incomplete_markdown(s);
        assert_eq!(once, s);
        assert_eq!(parse_incomplete_markdown(&once), once);
    }
}

#[test]
fn completion_is_idempotent_on_repaired_text() {
    let samples = ["x **y", "a *b", "c _d", "e ~~f", "$$g", "h `i"];
    for s in samples {
        let once = parse_incomplete_markdown(s);
        let twice = parse_incomplete_markdown(&once);
        assert_eq!(twice, once);
    }
}
