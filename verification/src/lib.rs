//! Citation resolution and bibliography assembly for markdown documents,
//! together with a repair pass that closes unterminated markdown spans in
//! truncated text.
//!
//! Citation markers of the form `@Author07b` are resolved against a
//! BibLaTeX bibliography by exact (surname, year) lookup with fuzzy
//! surname fallback, rewritten into links, and collected into a
//! deduplicated, deterministically ordered bibliography formatted by a
//! named CSL style.
//!
//! Decisions where the behaviour could be read more than one way:
//!
//! - A marker's suffix letter is rendered verbatim: the visible link text
//!   is the marker without its `@`, and the anchor is the lowercased
//!   marker without its `@`, so `@Smith20a` links as `Smith20a` to
//!   `#smith20a`. An `'a'` suffix is not suppressed; that reading matches
//!   the worked examples and keeps `@Smith20` and `@Smith20a` distinct
//!   keys (they still share one bibliography item when they resolve to
//!   the same entry).
//! - The bibliography style is a built-in CSL style *name* (`"apa"`,
//!   `"mla"`, …) resolved against hayagriva's style archive, with the
//!   archive's bundled locales; raw CSL or locale XML is not taken.
//! - Fuzzy surname matching fires only when the exact (surname, year)
//!   lookup finds no group, considers only groups with the same year
//!   token, and takes the first group at the least edit distance. The
//!   distance threshold is a parameter of `resolve_citations`; this
//!   crate's markdown pass uses ten.
//! - Author tokens are ASCII by grammar, so anchors and the marker side
//!   of a lookup fold ASCII letters; bibliography surnames and titles are
//!   lowercased with `str::to_lowercase` (Unicode). Whitespace in the
//!   repair pass is Unicode per `char::is_whitespace`, and the
//!   word-internal underscore test uses `char::is_alphanumeric`. Only the
//!   marker's trailing word boundary uses ASCII word characters: the
//!   Unicode word-character class is the pattern engine's own and has no
//!   std counterpart to call.
#![allow(unused_imports)]
#![verifier::loop_isolation(false)]

pub mod chars;
pub mod citation;
pub mod markdown;
pub mod outside;
pub mod render;
pub mod resolve;

use vstd::prelude::*;

use crate::citation::{KeyV, scan_markers, extract_citations};
use crate::resolve::{
    RecordV, BibRecord, groups_upto, resolve_key_spec, resolve_key, build_groups,
    lemma_resolve_in_range, sort_upto,
};
use crate::render::{
    ItemV, BibItem, uniq_keys_upto, unique_keys, rep_sorted_positions, rep_order, idx_seq,
    items_upto, item_order, build_items, sort_items, anchor_map, rewrite_from, rewrite_document,
    render_bibliography,
};
use crate::markdown::parse_incomplete_markdown;

verus! {

/// The two rendered documents the pass produces.
pub struct ProcessingOutput {
    pub modified_markdown: String,
    pub bibliography_markdown: String,
}

/// The unique citation keys of a document, in first-seen order.
pub open spec fn doc_uniq_keys(doc: Seq<char>) -> Seq<KeyV> {
    uniq_keys_upto(scan_markers(doc, 0), scan_markers(doc, 0).len() as int)
}

/// The resolution of each unique key against the records' candidate
/// groups, under the given fuzzy threshold.
pub open spec fn doc_resolutions(doc: Seq<char>, entries: Seq<RecordV>, thr: nat) -> Seq<
    Option<usize>,
> {
    Seq::new(
        doc_uniq_keys(doc).len(),
        |i: int|
            resolve_key_spec(
                groups_upto(entries, entries.len() as int),
                doc_uniq_keys(doc)[i],
                thr,
            ),
    )
}

/// The final bibliography items of a document: resolved keys walked in
/// representative order, deduplicated by entry identity, then sorted by
/// (surname, year, title).
pub open spec fn doc_items(doc: Seq<char>, entries: Seq<RecordV>, thr: nat) -> Seq<ItemV> {
    let u = doc_uniq_keys(doc);
    let res = doc_resolutions(doc, entries, thr);
    let order = sort_upto(idx_seq(u.len() as int), u.len() as int, rep_order(u));
    let pre = items_upto(order, u, res, entries, order.len() as int);
    sort_upto(pre, pre.len() as int, item_order(entries))
}

/// The document with every marker occurrence rewritten: resolved keys
/// become links to their item's anchor, unresolved keys keep the marker
/// with the not-found annotation.
pub open spec fn doc_rewritten(
    doc: Seq<char>,
    entries: Seq<RecordV>,
    thr: nat,
    prefix: Seq<char>,
) -> Seq<char> {
    rewrite_from(
        doc,
        0,
        anchor_map(
            doc_uniq_keys(doc),
            doc_resolutions(doc, entries, thr),
            entries,
            doc_items(doc, entries, thr),
        ),
        prefix,
    )
}

/// The final bibliography list of a document is sorted: no item strictly
/// precedes an earlier one under the (surname, year, title) order.
pub proof fn lemma_doc_items_sorted(doc: Seq<char>, entries: Seq<RecordV>, thr: nat)
    ensures
        forall|i: int, j: int|
            0 <= i < j < doc_items(doc, entries, thr).len() ==> !crate::render::item_order(entries)(
                #[trigger] doc_items(doc, entries, thr)[j],
                #[trigger] doc_items(doc, entries, thr)[i],
            ),
{
    let u = doc_uniq_keys(doc);
    let res = doc_resolutions(doc, entries, thr);
    let order = sort_upto(idx_seq(u.len() as int), u.len() as int, rep_order(u));
    let pre = items_upto(order, u, res, entries, order.len() as int);
    crate::render::lemma_items_final_sorted(entries, pre, pre.len() as int);
}

/// Two distinct markdown keys that resolve to the same bibliography entry
/// identity produce exactly one bibliography item in the final list, and
/// the anchor map sends both keys to that single item's anchor, so both
/// markers in the body link to the same target.
pub proof fn lemma_doc_same_entry_single_anchor(
    doc: Seq<char>,
    entries: Seq<RecordV>,
    thr: nat,
    ki1: usize,
    ki2: usize,
)
    requires
        ki1 < doc_uniq_keys(doc).len(),
        ki2 < doc_uniq_keys(doc).len(),
        doc_resolutions(doc, entries, thr)[ki1 as int] is Some,
        doc_resolutions(doc, entries, thr)[ki2 as int] is Some,
        entries[doc_resolutions(doc, entries, thr)[ki1 as int]->Some_0 as int].key == entries[doc_resolutions(
            doc,
            entries,
            thr,
        )[ki2 as int]->Some_0 as int].key,
    ensures
        ({
            let u = doc_uniq_keys(doc);
            let amap = anchor_map(
                u,
                doc_resolutions(doc, entries, thr),
                entries,
                doc_items(doc, entries, thr),
            );
            &&& amap(u[ki1 as int]) is Some
            &&& amap(u[ki1 as int]) == amap(u[ki2 as int])
            &&& forall|m1: int, m2: int|
                0 <= m1 < m2 < doc_items(doc, entries, thr).len() ==> entries[doc_items(
                    doc,
                    entries,
                    thr,
                )[m1].entry as int].key != entries[doc_items(doc, entries, thr)[m2].entry as int].key
        }),
{
    let u = doc_uniq_keys(doc);
    let res = doc_resolutions(doc, entries, thr);
    let ms = scan_markers(doc, 0);
    crate::render::lemma_uniq_distinct(ms, ms.len() as int);
    let order = sort_upto(idx_seq(u.len() as int), u.len() as int, rep_order(u));
    crate::resolve::lemma_sort_upto_contains(
        idx_seq(u.len() as int),
        u.len() as int,
        rep_order(u),
        ki1,
    );
    assert(exists|i: int| 0 <= i < u.len() && #[trigger] idx_seq(u.len() as int)[i] == ki1) by {
        assert(idx_seq(u.len() as int)[ki1 as int] == ki1);
    }
    assert(order.contains(ki1));
    let j1 = choose|j: int| 0 <= j < order.len() && #[trigger] order[j] == ki1;
    crate::resolve::lemma_sort_upto_contains(
        idx_seq(u.len() as int),
        u.len() as int,
        rep_order(u),
        ki2,
    );
    assert(exists|i: int| 0 <= i < u.len() && #[trigger] idx_seq(u.len() as int)[i] == ki2) by {
        assert(idx_seq(u.len() as int)[ki2 as int] == ki2);
    }
    assert(order.contains(ki2));
    let j2 = choose|j: int| 0 <= j < order.len() && #[trigger] order[j] == ki2;
    crate::render::lemma_same_entry_single_anchor(order, u, res, entries, ki1, ki2, j1, j2);
}

/// The resolution pass before formatting: the rewritten document, the
/// final bibliography items, and whether any citation key occurred.
pub struct ResolutionOutput {
    pub modified: Vec<char>,
    pub items: Vec<BibItem>,
    pub had_keys: bool,
}

/// Resolve every citation marker of `doc` against the records, rewrite the
/// markers, and assemble the deduplicated, ordered bibliography items.
pub fn resolve_citations(
    doc: &Vec<char>,
    entries: &Vec<BibRecord>,
    prefix: &Vec<char>,
    thr: usize,
) -> (r: ResolutionOutput)
    ensures
        r.items.deep_view() == doc_items(doc@, entries.deep_view(), thr as nat),
        r.modified@ == doc_rewritten(doc@, entries.deep_view(), thr as nat, prefix@),
        r.had_keys == (scan_markers(doc@, 0).len() != 0),
        forall|j: int|
            0 <= j < r.items.deep_view().len() ==> (#[trigger] r.items.deep_view()[j].entry)
                < entries.len(),
{
    let ghost ev = entries.deep_view();
    let keys = extract_citations(doc);
    let u = unique_keys(&keys);
    let groups = build_groups(entries);
    let mut res: Vec<Option<usize>> = Vec::new();
    let mut i: usize = 0;
    while i < u.len()
        invariant
            i <= u.len(),
            res.len() == i,
            ev == entries.deep_view(),
            groups.deep_view() == groups_upto(ev, entries.len() as int),
            forall|m: int|
                0 <= m < i ==> res@[m] == resolve_key_spec(
                    groups_upto(ev, entries.len() as int),
                    #[trigger] u.deep_view()[m],
                    thr as nat,
                ),
            forall|m: int|
                0 <= m < i && res@[m] is Some ==> (#[trigger] res@[m])->Some_0 < entries.len(),
        decreases u.len() - i,
    {
        let one = resolve_key(&groups, &u[i], thr);
        proof {
            assert(u.deep_view()[i as int] == u[i as int]@);
            if one is Some {
                lemma_resolve_in_range(ev, entries.len() as int, u[i as int]@, thr as nat);
            }
        }
        res.push(one);
        i = i + 1;
    }
    proof {
        assert(u.deep_view() == doc_uniq_keys(doc@));
        assert(res@ =~= doc_resolutions(doc@, ev, thr as nat));
    }
    let order = rep_sorted_positions(&u);
    let pre = build_items(&order, &u, &res, entries);
    let items = sort_items(entries, pre);
    let modified = rewrite_document(doc, &u, &res, entries, &items, prefix);
    let had_keys = keys.len() > 0;
    proof {
        assert(items.deep_view() == doc_items(doc@, ev, thr as nat));
        assert(modified@ == doc_rewritten(doc@, ev, thr as nat, prefix@));
    }
    ResolutionOutput { modified, items, had_keys }
}

/// Resolve the citation markers of a markdown document against a BibLaTeX
/// bibliography, rewrite each marker into a link under the given prefix
/// (or annotate it as not found), assemble the deduplicated bibliography
/// formatted by the named built-in CSL style, and finally repair any
/// trailing unterminated markdown span in the rewritten document.
///
/// Fails exactly when the bibliography source does not parse or no
/// built-in independent style carries the given name; an unresolved
/// citation is annotated inline, never an error. The fuzzy surname
/// threshold of the resolution is ten. On success the output document is
/// exactly the repaired rewrite of the input over the parsed records, and
/// the bibliography is the rendered item list (whose per-item display
/// texts come from the CSL formatter).
pub fn process_markdown_and_bibtex(
    markdown_input: &str,
    bibtex_input: &str,
    bibliography_link_prefix: &str,
    csl_style: &str,
) -> (r: Result<ProcessingOutput, String>)
    ensures
        r is Ok <==> crate::outside::bib_records_of(bibtex_input@) is Some
            && crate::outside::style_known(csl_style@),
        r is Ok ==> (r->Ok_0).modified_markdown@ == crate::markdown::completed(
            doc_rewritten(
                markdown_input@,
                crate::outside::bib_records_of(bibtex_input@)->Some_0,
                10,
                bibliography_link_prefix@,
            ),
        ),
        r is Ok ==> exists|fmt: Seq<Seq<char>>|
            (#[trigger] fmt.len()) == doc_items(
                markdown_input@,
                crate::outside::bib_records_of(bibtex_input@)->Some_0,
                10,
            ).len() && crate::render::bib_text(
                doc_items(
                    markdown_input@,
                    crate::outside::bib_records_of(bibtex_input@)->Some_0,
                    10,
                ),
                fmt,
                scan_markers(markdown_input@, 0).len() != 0,
            ) == (r->Ok_0).bibliography_markdown@,
        r is Ok ==> (r->Ok_0).bibliography_markdown@.take(14) == "# Bibliography"@,
        r is Ok && scan_markers(markdown_input@, 0).len() == 0 ==> (
        r->Ok_0).bibliography_markdown@ == "# Bibliography\n\n"@ + crate::render::no_keys_note(),
{
    let (entries_raw, records) = match crate::outside::parse_bib_records(bibtex_input) {
        Ok(p) => p,
        Err(e) => {
            return Err(e);
        },
    };
    let style = match crate::outside::style_by_name(csl_style) {
        Some(s) => s,
        None => {
            let msg = String::from_str("Unknown citation style: ");
            return Err(msg.concat(csl_style));
        },
    };
    let doc = crate::chars::chars_of(markdown_input);
    let doc = crate::chars::chars_of(markdown_input);
    let prefix = crate::chars::chars_of(bibliography_link_prefix);
    let resolved = resolve_citations(&doc, &records, &prefix, 10);
    let mut formatted: Vec<String> = Vec::new();
    let mut j: usize = 0;
    while j < resolved.items.len()
        invariant
            formatted.len() == j,
            j <= resolved.items.len(),
            records.len() == entries_raw.len(),
            forall|m: int|
                0 <= m < resolved.items.deep_view().len() ==> (
                #[trigger] resolved.items.deep_view()[m].entry) < records.len(),
        decreases resolved.items.len() - j,
    {
        let e_idx = resolved.items[j].entry;
        proof {
            assert(resolved.items.deep_view()[j as int] == resolved.items[j as int]@);
            assert(resolved.items.deep_view()[j as int].entry < records.len());
            assert(e_idx < entries_raw.len());
        }
        let parts = crate::outside::format_entry(&entries_raw[e_idx], &style);
        let md = crate::outside::format_markdown(&parts);
        formatted.push(crate::chars::string_of(&md));
        j = j + 1;
    }
    let bibliography_markdown = render_bibliography(&resolved.items, &formatted, resolved.had_keys);
    proof {
        if scan_markers(markdown_input@, 0).len() == 0 {
            assert(doc_uniq_keys(doc@).len() == 0);
            assert(doc_items(doc@, records.deep_view(), 10) =~= Seq::<ItemV>::empty());
            assert(resolved.items.deep_view().len() == 0);
            assert(!resolved.had_keys);
        }
        reveal_strlit("# Bibliography");
        reveal_strlit("# Bibliography\n");
        reveal_strlit("# Bibliography\n\n");
        assert(bibliography_markdown@.take(14) =~= "# Bibliography"@);
    }
    let modified_str = crate::chars::string_of(&resolved.modified);
    proof {
        if scan_markers(markdown_input@, 0).len() == 0 {
            crate::render::lemma_rewrite_no_markers(
                doc@,
                0,
                anchor_map(
                    doc_uniq_keys(doc@),
                    doc_resolutions(doc@, records.deep_view(), 10),
                    records.deep_view(),
                    doc_items(doc@, records.deep_view(), 10),
                ),
                prefix@,
            );
            assert(doc@.skip(0) =~= doc@);
            assert(modified_str@ == markdown_input@);
        }
    }
    let modified_markdown = parse_incomplete_markdown(modified_str.as_str());
    proof {
        let rv = crate::outside::bib_records_of(bibtex_input@)->Some_0;
        assert(records.deep_view() == rv);
        assert(modified_markdown@ == crate::markdown::completed(
            doc_rewritten(markdown_input@, rv, 10, bibliography_link_prefix@),
        ));
        let items = doc_items(markdown_input@, rv, 10);
        let fmt = formatted.deep_view();
        assert(resolved.items.deep_view() == items);
        assert(fmt.len() == items.len());
        assert(resolved.had_keys == (scan_markers(markdown_input@, 0).len() != 0));
        assert(crate::render::bib_text(items, fmt, scan_markers(markdown_input@, 0).len() != 0)
            == bibliography_markdown@);
    }
    Ok(ProcessingOutput { modified_markdown, bibliography_markdown })
}

} // verus!
