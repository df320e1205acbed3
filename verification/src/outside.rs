//! Trusted declarations for the outside crates the engine calls: the
//! Levenshtein distance used by fuzzy author matching, and the hayagriva
//! bibliography collaborators (BibLaTeX parsing and CSL-driven formatting).
use vstd::prelude::*;

use crate::resolve::{lev_dist, BibRecord, RecordV};

verus! {

/// Relies on `levenshtein::levenshtein`: the Levenshtein edit distance
/// between the character sequences of the two strings.
#[verifier::external_body]
fn levenshtein_str(a: &str, b: &str) -> (r: usize)
    ensures
        r == lev_dist(a@, b@),
{
    levenshtein::levenshtein(a, b)
}

/// The edit distance between two character vectors.
pub fn edit_distance(a: &Vec<char>, b: &Vec<char>) -> (r: usize)
    ensures
        r == lev_dist(a@, b@),
{
    let sa = crate::chars::string_of(a);
    let sb = crate::chars::string_of(b);
    levenshtein_str(sa.as_str(), sb.as_str())
}

#[verifier::external_type_specification]
#[verifier::external_body]
pub struct ExEntry(hayagriva::Entry);

#[verifier::external_type_specification]
#[verifier::external_body]
pub struct ExIndependentStyle(hayagriva::citationberg::IndependentStyle);

#[verifier::external_type_specification]
#[verifier::external_body]
pub struct ExElemChildren(hayagriva::ElemChildren);

#[verifier::external_type_specification]
#[verifier::external_body]
pub struct ExFormatted(hayagriva::Formatted);

/// The mathematical value of one formatted text run.
#[verifier::ext_equal]
pub ghost struct PartV {
    pub text: Seq<char>,
    pub italic: bool,
    pub bold: bool,
}

/// One run of formatted bibliography text: its characters and whether the
/// style rendered it italic or bold.
pub struct FormattedPart {
    pub text: String,
    pub italic: bool,
    pub bold: bool,
}

impl View for FormattedPart {
    type V = PartV;

    open spec fn view(&self) -> PartV {
        PartV { text: self.text@, italic: self.italic, bold: self.bold }
    }
}

impl DeepView for FormattedPart {
    type V = PartV;

    open spec fn deep_view(&self) -> PartV {
        self.view()
    }
}

/// Whether a character is Unicode-alphanumeric, as `char::is_alphanumeric`
/// answers it: a property of the character alone.
pub uninterp spec fn alnum_of(c: char) -> bool;

/// Relies on `char::is_alphanumeric`: membership in the Unicode
/// `Alphabetic` and numeric categories, a function of the character.
#[verifier::external_body]
pub(crate) fn is_alphanumeric_char(c: char) -> (r: bool)
    ensures
        r == alnum_of(c),
{
    c.is_alphanumeric()
}

/// What Unicode lowercasing yields on a character sequence: the result
/// depends on the characters alone.
pub uninterp spec fn lower_of(s: Seq<char>) -> Seq<char>;

/// Relies on `str::to_lowercase`: Unicode lowercasing, a function of the
/// characters alone; an empty string stays empty.
#[verifier::external_body]
fn lowercase_str(s: &str) -> (r: String)
    ensures
        r@ == lower_of(s@),
        s@.len() == 0 ==> r@.len() == 0,
{
    s.to_lowercase()
}

/// Unicode-lowercase a character vector.
pub fn lowercase_chars(v: &Vec<char>) -> (r: Vec<char>)
    ensures
        r@ == lower_of(v@),
{
    let s = crate::chars::string_of(v);
    let low = lowercase_str(s.as_str());
    crate::chars::chars_of(low.as_str())
}

/// What BibLaTeX parsing yields on a given source text: the plain-value
/// records of its entries, in source order, or nothing when the source
/// does not parse. Parsing is a pure function of the source text, so the
/// result may carry a name.
pub uninterp spec fn bib_records_of(src: Seq<char>) -> Option<Seq<RecordV>>;

/// Whether a built-in independent CSL style carries this name. The style
/// archive is a static table, so the answer is a function of the name.
pub uninterp spec fn style_known(name: Seq<char>) -> bool;

/// Relies on `hayagriva::io::from_biblatex_str` and the `Entry` accessors
/// `key`, `authors` (with `Person::name`), `date` (with `Date::year`) and
/// `title`: parses a BibLaTeX source into its entries, in source order,
/// paired with the plain-value records the engine reads of them — named
/// `bib_records_of` — or reports the parse errors.
#[verifier::external_body]
pub(crate) fn parse_bib_records(src: &str) -> (r: Result<(Vec<hayagriva::Entry>, Vec<BibRecord>), String>)
    ensures
        match r {
            Ok(p) => bib_records_of(src@) == Some(p.1.deep_view()) && p.0.len() == p.1.len(),
            Err(_) => bib_records_of(src@) is None,
        },
{
    let lib = match hayagriva::io::from_biblatex_str(src) {
        Ok(lib) => lib,
        Err(errs) => return Err(format!("BibTeX parsing error: {:?}", errs)),
    };
    let entries: Vec<hayagriva::Entry> = lib.into_iter().collect();
    let records = entries.iter().map(|e| BibRecord {
        key: e.key().chars().collect(),
        families: e.authors().map(|ps| ps.iter().map(|p| p.name.chars().collect()).collect()),
        year: e.date().map(|d| d.year),
        title: e.title().map(|t| t.to_string().chars().collect()),
    }).collect();
    Ok((entries, records))
}

/// Relies on `hayagriva::archive::ArchivedStyle::by_name` and `get`: the
/// built-in CSL style of that name, when it is an independent style; the
/// archive is static, so success is exactly `style_known`.
#[verifier::external_body]
pub(crate) fn style_by_name(name: &str) -> (r: Option<hayagriva::citationberg::IndependentStyle>)
    ensures
        r is Some <==> style_known(name@),
{
    match hayagriva::archive::ArchivedStyle::by_name(name) {
        Some(archived) => match archived.get() {
            hayagriva::citationberg::Style::Independent(s) => Some(s),
            hayagriva::citationberg::Style::Dependent(_) => None,
        },
        None => None,
    }
}

/// Relies on citationberg's `Formatting`: the text of one rendered run
/// with its italic and bold flags.
#[verifier::external_body]
fn part_of(f: &hayagriva::Formatted) -> FormattedPart {
    FormattedPart {
        text: f.text.clone(),
        italic: f.formatting.font_style == hayagriva::citationberg::FontStyle::Italic,
        bold: f.formatting.font_weight == hayagriva::citationberg::FontWeight::Bold,
    }
}

/// Relies on hayagriva's rendered element tree (`ElemChildren`): flattens
/// it depth-first into formatted text runs.
#[verifier::external_body]
fn collect_parts(c: &hayagriva::ElemChildren, parts: &mut Vec<FormattedPart>) {
    for child in c.0.iter() {
        match child {
            hayagriva::ElemChild::Text(f) => parts.push(part_of(f)),
            hayagriva::ElemChild::Elem(e) => collect_parts(&e.children, parts),
            hayagriva::ElemChild::Markup(m) => parts.push(
                FormattedPart { text: m.clone(), italic: false, bold: false },
            ),
            hayagriva::ElemChild::Link { text, .. } => parts.push(part_of(text)),
            hayagriva::ElemChild::Transparent { .. } => {},
        }
    }
}

/// Relies on `hayagriva::BibliographyDriver`: renders the one entry under
/// the given style with the archive's CSL locales and hands back the
/// formatted text runs of its bibliography item.
#[verifier::external_body]
pub(crate) fn format_entry(
    e: &hayagriva::Entry,
    style: &hayagriva::citationberg::IndependentStyle,
) -> (parts: Vec<FormattedPart>) {
    let locales = hayagriva::archive::locales();
    let items = vec![hayagriva::CitationItem::with_entry(e)];
    let mut driver = hayagriva::BibliographyDriver::new();
    driver.citation(hayagriva::CitationRequest::from_items(items, style, &locales));
    let request = hayagriva::BibliographyRequest { style, locale: None, locale_files: &locales };
    let mut parts: Vec<FormattedPart> = Vec::new();
    if let Some(bib) = driver.finish(request).bibliography {
        if let Some(item) = bib.items.into_iter().next() {
            collect_parts(&item.content, &mut parts);
        }
    }
    parts
}

/// Adjacent runs with the same formatting, merged; empty runs dropped.
pub open spec fn merged_upto(parts: Seq<PartV>, n: int) -> Seq<PartV>
    decreases n,
{
    if n <= 0 {
        Seq::empty()
    } else {
        let p = merged_upto(parts, n - 1);
        let x = parts[n - 1];
        if x.text.len() == 0 {
            p
        } else if p.len() > 0 && p.last().italic == x.italic && p.last().bold == x.bold {
            p.update(
                p.len() - 1,
                PartV { text: p.last().text + x.text, italic: x.italic, bold: x.bold },
            )
        } else {
            p.push(x)
        }
    }
}

/// One merged run as markdown: the text wrapped in `***`, `**` or `*`
/// according to its formatting.
pub open spec fn wrap_part(p: PartV) -> Seq<char> {
    if p.italic && p.bold {
        seq!['*', '*', '*'] + p.text + seq!['*', '*', '*']
    } else if p.bold {
        seq!['*', '*'] + p.text + seq!['*', '*']
    } else if p.italic {
        seq!['*'] + p.text + seq!['*']
    } else {
        p.text
    }
}

/// The markdown rendering of the first `n` merged runs.
pub open spec fn md_of_merged(ps: Seq<PartV>, n: int) -> Seq<char>
    decreases n,
{
    if n <= 0 {
        Seq::empty()
    } else {
        md_of_merged(ps, n - 1) + wrap_part(ps[n - 1])
    }
}

/// The markdown text of a formatted entry: adjacent runs with the same
/// formatting merged, then each run wrapped in emphasis markers.
pub open spec fn markdown_of_parts(parts: Seq<PartV>) -> Seq<char> {
    let m = merged_upto(parts, parts.len() as int);
    md_of_merged(m, m.len() as int)
}

struct PartChars {
    pub text: Vec<char>,
    pub italic: bool,
    pub bold: bool,
}

impl View for PartChars {
    type V = PartV;

    closed spec fn view(&self) -> PartV {
        PartV { text: self.text@, italic: self.italic, bold: self.bold }
    }
}

impl DeepView for PartChars {
    type V = PartV;

    closed spec fn deep_view(&self) -> PartV {
        self.view()
    }
}

/// Render formatted runs as markdown text.
pub fn format_markdown(parts: &Vec<FormattedPart>) -> (out: Vec<char>)
    ensures
        out@ == markdown_of_parts(parts.deep_view()),
{
    let ghost pv = parts.deep_view();
    let mut merged: Vec<PartChars> = Vec::new();
    let mut i: usize = 0;
    while i < parts.len()
        invariant
            i <= parts.len(),
            pv == parts.deep_view(),
            merged.deep_view() =~= merged_upto(pv, i as int),
        decreases parts.len() - i,
    {
        proof {
            assert(pv[i as int] == parts[i as int]@);
        }
        let text = crate::chars::chars_of(parts[i].text.as_str());
        let italic = parts[i].italic;
        let bold = parts[i].bold;
        if text.len() > 0 {
            let ghost prev = merged.deep_view();
            let mut matched = false;
            if merged.len() > 0 {
                let lastidx = merged.len() - 1;
                if merged[lastidx].italic == italic && merged[lastidx].bold == bold {
                    matched = true;
                }
            }
            if matched {
                let mut lastp = match merged.pop() {
                    Some(lp) => lp,
                    None => PartChars { text: Vec::new(), italic, bold },
                };
                let ghost lv = lastp@;
                let mut j: usize = 0;
                while j < text.len()
                    invariant
                        j <= text.len(),
                        lastp@.text =~= lv.text + text@.take(j as int),
                        lastp@.italic == lv.italic,
                        lastp@.bold == lv.bold,
                    decreases text.len() - j,
                {
                    lastp.text.push(text[j]);
                    assert(lastp@.text =~= lv.text + text@.take(j + 1));
                    j = j + 1;
                }
                proof {
                    assert(text@.take(text@.len() as int) =~= text@);
                    assert(lastp@.text =~= lv.text + pv[i as int].text);
                }
                merged.push(lastp);
                proof {
                    assert(prev.last() == lv);
                    assert(merged.deep_view() =~~= prev.drop_last().push(lastp@));
                    assert(merged.deep_view() =~~= merged_upto(pv, i + 1));
                }
            } else {
                merged.push(PartChars { text, italic, bold });
                proof {
                    assert(merged.deep_view() =~~= merged_upto(pv, i + 1));
                }
            }
        } else {
            proof {
                assert(merged.deep_view() =~~= merged_upto(pv, i + 1));
            }
        }
        i = i + 1;
    }
    let ghost mv = merged.deep_view();
    let mut out: Vec<char> = Vec::new();
    let mut j: usize = 0;
    while j < merged.len()
        invariant
            j <= merged.len(),
            mv == merged.deep_view(),
            out@ =~= md_of_merged(mv, j as int),
        decreases merged.len() - j,
    {
        proof {
            assert(mv[j as int] == merged[j as int]@);
        }
        let italic = merged[j].italic;
        let bold = merged[j].bold;
        if italic && bold {
            out.push('*');
            out.push('*');
            out.push('*');
        } else if bold {
            out.push('*');
            out.push('*');
        } else if italic {
            out.push('*');
        }
        let mut m: usize = 0;
        let ghost mid = out@;
        while m < merged[j].text.len()
            invariant
                m <= mv[j as int].text.len(),
                mv == merged.deep_view(),
                out@ =~= mid + mv[j as int].text.take(m as int),
            decreases mv[j as int].text.len() - m,
        {
            out.push(merged[j].text[m]);
            assert(out@ =~= mid + mv[j as int].text.take(m + 1));
            m = m + 1;
        }
        if italic && bold {
            out.push('*');
            out.push('*');
            out.push('*');
        } else if bold {
            out.push('*');
            out.push('*');
        } else if italic {
            out.push('*');
        }
        proof {
            assert(out@ =~= md_of_merged(mv, j + 1));
        }
        j = j + 1;
    }
    proof {
        assert(out@ =~= markdown_of_parts(pv));
    }
    out
}

} // verus!
