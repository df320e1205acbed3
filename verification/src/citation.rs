//! The citation marker grammar: `@<letters><2 digits>[<1 lowercase letter>]`
//! terminated by a word boundary, scanned left to right without overlap.
use vstd::prelude::*;

use crate::chars::{
    is_ascii_letter, is_ascii_digit, is_ascii_lower, is_word_char, exec_is_ascii_letter,
    exec_is_ascii_digit, exec_is_ascii_lower, exec_is_word_char,
};

verus! {

/// The mathematical value of a citation key: its three tokens.
#[verifier::ext_equal]
pub ghost struct KeyV {
    pub author: Seq<char>,
    pub year: Seq<char>,
    pub suffix: Seq<char>,
}

/// One citation key: author token, 2-digit year token, and an optional
/// single-lowercase-letter disambiguation suffix.
pub struct CitationKey {
    pub author: Vec<char>,
    pub year: Vec<char>,
    pub suffix: Vec<char>,
}

impl View for CitationKey {
    type V = KeyV;

    open spec fn view(&self) -> KeyV {
        KeyV { author: self.author@, year: self.year@, suffix: self.suffix@ }
    }
}

impl DeepView for CitationKey {
    type V = KeyV;

    open spec fn deep_view(&self) -> KeyV {
        self.view()
    }
}

impl Clone for CitationKey {
    fn clone(&self) -> (r: Self)
        ensures
            r@ == self@,
    {
        CitationKey { author: self.author.clone(), year: self.year.clone(), suffix: self.suffix.clone() }
    }
}

/// A well-formed key as the scanner produces it.
pub open spec fn wf_key(k: KeyV) -> bool {
    &&& k.author.len() >= 1
    &&& (forall|i: int| 0 <= i < k.author.len() ==> is_ascii_letter(k.author[i]))
    &&& k.year.len() == 2
    &&& (forall|i: int| 0 <= i < k.year.len() ==> is_ascii_digit(k.year[i]))
    &&& (k.suffix.len() == 0 || (k.suffix.len() == 1 && is_ascii_lower(k.suffix[0])))
}

/// End of the maximal run of ASCII letters starting at `i`.
pub open spec fn letters_end(s: Seq<char>, i: int) -> int
    decreases s.len() - i,
    when 0 <= i
{
    if i >= s.len() || !is_ascii_letter(s[i]) {
        i
    } else {
        letters_end(s, i + 1)
    }
}

pub proof fn lemma_letters_end(s: Seq<char>, i: int)
    requires
        0 <= i,
    ensures
        i <= letters_end(s, i) <= s.len() || (i > s.len() && letters_end(s, i) == i),
        i <= letters_end(s, i),
    decreases s.len() - i,
{
    if i < s.len() && is_ascii_letter(s[i]) {
        lemma_letters_end(s, i + 1);
    }
}

/// Try to read a citation marker starting at the `@` at position `i`.
/// Returns the key and the position just after the marker. The author token
/// is the maximal letter run, the year token exactly two digits not
/// followed by a word character (unless a suffix letter follows), and the
/// suffix a single lowercase letter followed by a word boundary.
pub open spec fn marker_match_at(s: Seq<char>, i: int) -> Option<(KeyV, int)> {
    let a0 = i + 1;
    let ae = letters_end(s, a0);
    if ae == a0 {
        None
    } else if ae + 2 > s.len() || !is_ascii_digit(s[ae]) || !is_ascii_digit(s[ae + 1]) {
        None
    } else {
        let p = ae + 2;
        let base = KeyV {
            author: s.subrange(a0, ae),
            year: s.subrange(ae, p),
            suffix: Seq::empty(),
        };
        if p < s.len() && is_ascii_lower(s[p]) {
            if p + 1 == s.len() || !is_word_char(s[p + 1]) {
                Some((KeyV { suffix: seq![s[p]], ..base }, p + 1))
            } else {
                None
            }
        } else if p == s.len() || !is_word_char(s[p]) {
            Some((base, p))
        } else {
            None
        }
    }
}

/// All markers of the document from position `i` on, left to right,
/// non-overlapping, in order of occurrence (with repetitions).
pub open spec fn scan_markers(s: Seq<char>, i: int) -> Seq<KeyV>
    decreases s.len() - i,
    when 0 <= i
{
    if i >= s.len() {
        Seq::empty()
    } else if s[i] == '@' && marker_match_at(s, i) is Some {
        let ke = marker_match_at(s, i)->Some_0;
        seq![ke.0] + scan_markers(
            s,
            if ke.1 > i {
                ke.1
            } else {
                i + 1
            },
        )
    } else {
        scan_markers(s, i + 1)
    }
}

/// Every scanned marker is well-formed.
pub proof fn lemma_marker_match_wf(s: Seq<char>, i: int)
    requires
        0 <= i,
        marker_match_at(s, i) is Some,
    ensures
        wf_key(marker_match_at(s, i)->Some_0.0),
        i + 3 <= marker_match_at(s, i)->Some_0.1 <= s.len(),
{
    let a0 = i + 1;
    let ae = letters_end(s, a0);
    lemma_letters_end(s, a0);
    lemma_letters_chars(s, a0, ae);
    let ke = marker_match_at(s, i)->Some_0;
    assert(ke.0.author =~= s.subrange(a0, ae));
}

/// The characters of a maximal letter run are letters.
pub proof fn lemma_letters_chars(s: Seq<char>, i: int, e: int)
    requires
        0 <= i,
        e == letters_end(s, i),
    ensures
        forall|j: int| i <= j < e ==> is_ascii_letter(s[j]),
    decreases s.len() - i,
{
    if i < s.len() && is_ascii_letter(s[i]) {
        lemma_letters_chars(s, i + 1, e);
    }
}

/// Read the maximal ASCII letter run starting at position `i`.
fn exec_letters_end(s: &Vec<char>, i: usize) -> (r: usize)
    requires
        i <= s.len(),
    ensures
        r == letters_end(s@, i as int),
        i <= r <= s.len(),
{
    let mut j: usize = i;
    while j < s.len() && exec_is_ascii_letter(s[j])
        invariant
            i <= j <= s.len(),
            letters_end(s@, i as int) == letters_end(s@, j as int),
        decreases s.len() - j,
    {
        j = j + 1;
    }
    j
}

/// Try to read a citation marker at the `@` at position `i`.
pub fn try_marker_at(s: &Vec<char>, i: usize) -> (r: Option<(CitationKey, usize)>)
    requires
        i < s.len(),
    ensures
        match r {
            Some(ke) => {
                &&& marker_match_at(s@, i as int) is Some
                &&& marker_match_at(s@, i as int)->Some_0.0 == ke.0@
                &&& marker_match_at(s@, i as int)->Some_0.1 == ke.1 as int
                &&& i < ke.1 <= s.len()
            },
            None => marker_match_at(s@, i as int) is None,
        },
{
    let a0 = i + 1;
    if a0 > s.len() {
        return None;
    }
    let ae = exec_letters_end(s, a0);
    if ae == a0 {
        return None;
    }
    if s.len() - ae < 2 || !exec_is_ascii_digit(s[ae]) || !exec_is_ascii_digit(s[ae + 1]) {
        return None;
    }
    let p = ae + 2;
    let mut author: Vec<char> = Vec::new();
    let mut j: usize = a0;
    while j < ae
        invariant
            a0 <= j <= ae,
            author@ =~= s@.subrange(a0 as int, j as int),
        decreases ae - j,
    {
        author.push(s[j]);
        assert(author@ =~= s@.subrange(a0 as int, j + 1));
        j = j + 1;
    }
    let mut year: Vec<char> = Vec::new();
    year.push(s[ae]);
    year.push(s[ae + 1]);
    assert(year@ =~= s@.subrange(ae as int, p as int));
    if p < s.len() && exec_is_ascii_lower(s[p]) {
        if p + 1 == s.len() || !exec_is_word_char(s[p + 1]) {
            let mut suffix: Vec<char> = Vec::new();
            suffix.push(s[p]);
            assert(suffix@ =~= seq![s@[p as int]]);
            return Some((CitationKey { author, year, suffix }, p + 1));
        } else {
            return None;
        }
    }
    if p == s.len() || !exec_is_word_char(s[p]) {
        let suffix: Vec<char> = Vec::new();
        assert(suffix@ =~= Seq::<char>::empty());
        return Some((CitationKey { author, year, suffix }, p));
    }
    None
}

/// Scan the whole document for citation markers, in order of occurrence.
pub fn extract_citations(doc: &Vec<char>) -> (keys: Vec<CitationKey>)
    ensures
        keys.deep_view() == scan_markers(doc@, 0),
        forall|i: int| 0 <= i < keys.len() ==> wf_key(#[trigger] keys.deep_view()[i]),
{
    let mut keys: Vec<CitationKey> = Vec::new();
    let mut i: usize = 0;
    while i < doc.len()
        invariant
            i <= doc.len(),
            scan_markers(doc@, 0) =~= keys.deep_view() + scan_markers(doc@, i as int),
            forall|j: int| 0 <= j < keys.len() ==> wf_key(#[trigger] keys.deep_view()[j]),
        decreases doc.len() - i,
    {
        let mut stepped = false;
        if doc[i] == '@' {
            if let Some((k, e)) = try_marker_at(doc, i) {
                proof {
                    lemma_marker_match_wf(doc@, i as int);
                }
                let ghost prev = keys.deep_view();
                let ghost kv = k@;
                keys.push(k);
                proof {
                    assert(keys.deep_view() =~= prev.push(kv));
                    assert(scan_markers(doc@, 0) =~= keys.deep_view() + scan_markers(
                        doc@,
                        e as int,
                    ));
                    assert(forall|j: int|
                        0 <= j < keys.len() ==> wf_key(#[trigger] keys.deep_view()[j]));
                }
                i = e;
                stepped = true;
            }
        }
        if !stepped {
            i = i + 1;
        }
    }
    keys
}

/// Map a suffix token to the zero-based index it selects in a candidate
/// group: the empty suffix and `a` select 0, `b` selects 1, and so on,
/// saturating at 0 below `a`.
pub open spec fn suffix_index(suffix: Seq<char>) -> nat {
    if suffix.len() == 0 {
        0
    } else if suffix[0] as u32 >= 'a' as u32 {
        (suffix[0] as u32 - 'a' as u32) as nat
    } else {
        0
    }
}

/// Executable form of `suffix_index` on a suffix string.
pub fn suffix_to_index(suffix: &str) -> (r: usize)
    ensures
        r == suffix_index(suffix@),
{
    if suffix.unicode_len() == 0 {
        return 0;
    }
    let c = suffix.get_char(0);
    let u = c as u32;
    if u >= 'a' as u32 {
        (u - 'a' as u32) as usize
    } else {
        0
    }
}

/// `suffix_index` on a character vector.
pub fn suffix_vec_to_index(suffix: &Vec<char>) -> (r: usize)
    ensures
        r == suffix_index(suffix@),
{
    if suffix.len() == 0 {
        return 0;
    }
    let c = suffix[0];
    let u = c as u32;
    if u >= 'a' as u32 {
        (u - 'a' as u32) as usize
    } else {
        0
    }
}

/// The suffix-to-index map is total (defined above for every suffix), sends
/// the empty suffix and `a` to index 0, and is strictly order-preserving —
/// hence injective — on single lowercase letters.
pub proof fn lemma_suffix_index_order(a: Seq<char>, b: Seq<char>)
    requires
        a.len() == 1 && is_ascii_lower(a[0]),
        b.len() == 1 && is_ascii_lower(b[0]),
        (a[0] as u32) < (b[0] as u32),
    ensures
        suffix_index(a) < suffix_index(b),
        suffix_index(Seq::<char>::empty()) == 0,
        suffix_index(seq!['a']) == 0,
{
}

} // verus!
