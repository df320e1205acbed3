//! End-to-end tests of the citation pipeline: resolution, link rewriting,
//! bibliography assembly and formatting under the built-in CSL styles.
use markdown_bib_processor::process_markdown_and_bibtex;

fn normalize(s: String) -> String {
    s.replace("\r\n", "\n").split_whitespace().collect::<Vec<_>>().join(" ")
}

fn run_test(
    markdown_input: &str,
    bibtex_input: &str,
    bibliography_link_prefix: &str,
    citation_style_name: &str,
    expected_markdown: &str,
    expected_bibliography_part_1: &str,
    expected_bibliography_part_2: Option<&str>,
) {
    match process_markdown_and_bibtex(
        markdown_input,
        bibtex_input,
        bibliography_link_prefix,
        citation_style_name,
    ) {
        Ok(output) => {
            assert_eq!(output.modified_markdown.trim(), expected_markdown.trim());

            let actual_bib_normalized = normalize(output.bibliography_markdown.clone());
            let expected_bib_part_1_normalized =
                normalize(expected_bibliography_part_1.to_string());

            assert!(
                actual_bib_normalized.contains(&expected_bib_part_1_normalized),
                "Bibliography check (Part 1) failed.\nExpected to contain:\n{}\nActual:\n{}",
                expected_bib_part_1_normalized,
                actual_bib_normalized
            );

            if let Some(part_2) = expected_bibliography_part_2 {
                let expected_bib_part_2_normalized = normalize(part_2.to_string());
                assert!(
                    actual_bib_normalized.contains(&expected_bib_part_2_normalized),
                    "Bibliography check (Part 2) failed.\nExpected to contain:\n{}\nActual:\n{}",
                    expected_bib_part_2_normalized,
                    actual_bib_normalized
                );
            }

            assert!(output.bibliography_markdown.starts_with("# Bibliography"));
            if expected_bibliography_part_1.contains("<a name=")
                || (expected_bibliography_part_2.is_some()
                    && expected_bibliography_part_2.unwrap().contains("<a name="))
            {
                assert!(
                    output.bibliography_markdown.contains("## <a name="),
                    "Bibliography missing anchor links"
                );
            }
        }
        Err(e) => {
            panic!("process_markdown_and_bibtex failed: {:?}", e);
        }
    }
}

#[test]
fn test_apa_style_and_anchors() {
    let markdown_input = "See @Smith20a and @Doe21.";
    let bibtex_input = r#"
@article{smith20first_key,
  author = {Smith, John and Collaborator, Jane},
  year = {2020},
  title = {First Great Paper},
  journal = {Journal of Studies},
  volume = {1},
  number = {1},
  pages = {1-10},
}
@book{doe2021_key,
  author = {Doe, Jane},
  year = {2021},
  title = {A Book on Everything},
  publisher = {Open Books},
  address = {New York},
}
        "#;
    let style = "apa";
    let link_prefix = "test_bib.html";
    let expected_markdown =
        "See [Smith20a](test_bib.html#smith20a) and [Doe21](test_bib.html#doe21).";

    let expected_bib_doe =
        "## <a name=\"doe21\"></a>Doe, J. (2021). *A Book on Everything*. Open Books.";
    let expected_bib_smith = "## <a name=\"smith20a\"></a>Smith, J., & Collaborator, J. (2020). First Great Paper. *Journal of Studies*, *1*(1), 1–10.";

    run_test(
        markdown_input,
        bibtex_input,
        link_prefix,
        style,
        expected_markdown,
        expected_bib_doe,
        Some(expected_bib_smith),
    );
}

#[test]
fn test_mla_style_and_suffixes() {
    let markdown_input = "As shown by @BestAuth22a and @BestAuth22b.";
    let bibtex_input = r#"
@article{best_alpha_key,
  author = {Best, Author},
  year = {2022},
  title = {Alpha Work},
  journal = {Journal of Alpha},
}
@article{best_beta_key,
  author = {Best, Author},
  year = {2022},
  title = {Beta Work},
  journal = {Journal of Beta},
}
        "#;
    let style = "mla";
    let link_prefix = "mla_bib.html";
    let expected_markdown =
        "As shown by [BestAuth22a](mla_bib.html#bestauth22a) and [BestAuth22b](mla_bib.html#bestauth22b).";

    let expected_bib_alpha =
        "## <a name=\"bestauth22a\"></a>Best, Author. “Alpha Work.” *Journal of Alpha*, 2022.";
    let expected_bib_beta =
        "## <a name=\"bestauth22b\"></a>Best, Author. “Beta Work.” *Journal of Beta*, 2022.";

    run_test(
        markdown_input,
        bibtex_input,
        link_prefix,
        style,
        expected_markdown,
        expected_bib_alpha,
        Some(expected_bib_beta),
    );
}

#[test]
fn test_empty_input_apa() {
    run_test(
        "",
        "",
        "prefix.html",
        "apa",
        "",
        "*(No citation keys found in Markdown input)*",
        None,
    );
}

#[test]
fn test_markdown_no_bibtex_match_apa() {
    run_test(
        "Cite @Unknown24.",
        "@article{somekey, author={Someone}, year={2023}, title={Title}}",
        "prefix.html",
        "apa",
        "Cite @Unknown24 [Reference Not Found].",
        "*(No BibTeX entries found matching any citation keys)*",
        None,
    );
}

#[test]
fn unknown_style_is_an_error() {
    let r = process_markdown_and_bibtex("text", "", "p.html", "no-such-style");
    match r {
        Err(e) => assert!(e.contains("Unknown citation style")),
        Ok(_) => panic!("expected an error for an unknown style"),
    }
}

#[test]
fn malformed_bibtex_is_an_error() {
    // an entry whose year is not a number fails BibLaTeX typing
    let r = process_markdown_and_bibtex(
        "text",
        "@article{k, author={A, B}, year={twenty}, title={T}}",
        "p.html",
        "apa",
    );
    assert!(r.is_err());
}

#[test]
fn duplicate_keys_share_one_bibliography_item() {
    // @Doe21 and @Doe21a resolve to the same entry: one item, one anchor,
    // and both markers link to that single anchor.
    let bibtex = r#"
@book{doe2021_key,
  author = {Doe, Jane},
  year = {2021},
  title = {A Book on Everything},
  publisher = {Open Books},
}
        "#;
    let out =
        process_markdown_and_bibtex("See @Doe21 and @Doe21a.", bibtex, "b.html", "apa").unwrap();
    assert_eq!(
        out.modified_markdown,
        "See [Doe21](b.html#doe21) and [Doe21a](b.html#doe21)."
    );
    let count = out.bibliography_markdown.matches("## <a name=").count();
    assert_eq!(count, 1);
    assert!(out.bibliography_markdown.contains("## <a name=\"doe21\"></a>"));
}

#[test]
fn suffix_beyond_group_size_is_unresolved() {
    let bibtex = r#"
@book{doe2021_key,
  author = {Doe, Jane},
  year = {2021},
  title = {A Book on Everything},
  publisher = {Open Books},
}
        "#;
    let out = process_markdown_and_bibtex("See @Doe21c.", bibtex, "b.html", "apa").unwrap();
    assert_eq!(out.modified_markdown, "See @Doe21c [Reference Not Found].");
}

#[test]
fn fuzzy_match_requires_exact_year() {
    // "Doee" is within edit distance of "Doe", but the year differs, so the
    // fuzzy scan may not use the entry.
    let bibtex = r#"
@book{doe2021_key,
  author = {Doe, Jane},
  year = {2021},
  title = {A Book on Everything},
  publisher = {Open Books},
}
        "#;
    let out = process_markdown_and_bibtex("See @Doee22.", bibtex, "b.html", "apa").unwrap();
    assert_eq!(out.modified_markdown, "See @Doee22 [Reference Not Found].");
    let near = process_markdown_and_bibtex("See @Doee21.", bibtex, "b.html", "apa").unwrap();
    assert_eq!(near.modified_markdown, "See [Doee21](b.html#doee21).");
}

#[test]
fn exact_match_wins_over_fuzzy() {
    // Both surnames are close to "Smith", but the exact group must win for
    // @Smith20 while @Smyth20 takes its own exact group too.
    let bibtex = r#"
@article{smith_key,
  author = {Smith, Ann},
  year = {2020},
  title = {Alpha},
  journal = {J One},
}
@article{smyth_key,
  author = {Smyth, Bob},
  year = {2020},
  title = {Beta},
  journal = {J Two},
}
        "#;
    let out =
        process_markdown_and_bibtex("@Smith20 and @Smyth20.", bibtex, "b.html", "apa").unwrap();
    assert_eq!(
        out.modified_markdown,
        "[Smith20](b.html#smith20) and [Smyth20](b.html#smyth20)."
    );
    let count = out.bibliography_markdown.matches("## <a name=").count();
    assert_eq!(count, 2);
}

#[test]
fn fuzzy_picks_least_distance() {
    // "Smyth" is one edit from "Smith" and two from "Smithe"; the closer
    // surname must win even though the farther entry comes first.
    let bibtex = r#"
@article{smithe_key,
  author = {Smithe, Ann},
  year = {2020},
  title = {Farther Work},
  journal = {J One},
}
@article{smith_key,
  author = {Smith, Bob},
  year = {2020},
  title = {Closer Work},
  journal = {J Two},
}
        "#;
    let out = process_markdown_and_bibtex("@Smyth20.", bibtex, "b.html", "apa").unwrap();
    assert_eq!(out.modified_markdown, "[Smyth20](b.html#smyth20).");
    assert!(out.bibliography_markdown.contains("Closer Work"));
    assert!(!out.bibliography_markdown.contains("Farther Work"));
}

#[test]
fn entries_without_surname_or_two_digit_year_are_not_indexed() {
    // a one-digit year has no two-digit token and an entry without an
    // author has no surname: neither can resolve a citation
    let bibtex = r#"
@book{ancient_key,
  author = {Doe, Jane},
  year = {5},
  title = {Ancient Scroll},
}
@book{anon_key,
  year = {2021},
  title = {Anonymous Pamphlet},
}
        "#;
    let out = process_markdown_and_bibtex("@Doe05 and @Anon21.", bibtex, "b.html", "apa").unwrap();
    assert_eq!(
        out.modified_markdown,
        "@Doe05 [Reference Not Found] and @Anon21 [Reference Not Found]."
    );
    assert!(out
        .bibliography_markdown
        .contains("*(No BibTeX entries found matching any citation keys)*"));
}

#[test]
fn malformed_markers_are_not_recognized() {
    // three digits, an uppercase suffix, and a word character after the
    // suffix all break the marker grammar
    let bibtex = r#"
@book{doe2021_key,
  author = {Doe, Jane},
  year = {2021},
  title = {A Book on Everything},
  publisher = {Open Books},
}
        "#;
    let out =
        process_markdown_and_bibtex("@Doe215 @Doe21B @Doe21ax", bibtex, "b.html", "apa").unwrap();
    assert_eq!(out.modified_markdown, "@Doe215 @Doe21B @Doe21ax");
    assert!(out
        .bibliography_markdown
        .contains("*(No citation keys found in Markdown input)*"));
}
