//! Repair of markdown text that was cut off mid-stream: detects trailing
//! unterminated inline spans (links, images, emphasis, code, strikethrough,
//! display math) and closes or strips them so the text renders cleanly.
use vstd::prelude::*;

use crate::chars::{is_space_char, exec_is_space_char};

verus! {

/// Does `pat` occur in `s` starting at position `i`?
pub open spec fn occurs_at(s: Seq<char>, pat: Seq<char>, i: int) -> bool {
    0 <= i && i + pat.len() <= s.len() && s.subrange(i, i + pat.len()) == pat
}

/// Number of non-overlapping occurrences of `pat` in `s` from position `i`
/// on, scanning left to right and skipping over each occurrence found, the
/// way `str::matches` counts.
pub open spec fn count_occ_from(s: Seq<char>, pat: Seq<char>, i: int) -> nat
    decreases s.len() - i,
    when 0 <= i && pat.len() > 0
{
    if i + pat.len() > s.len() {
        0
    } else if s.subrange(i, i + pat.len()) == pat {
        1 + count_occ_from(s, pat, i + pat.len())
    } else {
        count_occ_from(s, pat, i + 1)
    }
}

/// Non-overlapping occurrence count of `pat` in all of `s`.
pub open spec fn count_occ(s: Seq<char>, pat: Seq<char>) -> nat {
    count_occ_from(s, pat, 0)
}

/// Index of the first occurrence of `pat` at or after `i`, or `-1`.
pub open spec fn first_occ_from(s: Seq<char>, pat: Seq<char>, i: int) -> int
    decreases s.len() - i,
    when 0 <= i && pat.len() > 0
{
    if i + pat.len() > s.len() {
        -1
    } else if s.subrange(i, i + pat.len()) == pat {
        i
    } else {
        first_occ_from(s, pat, i + 1)
    }
}

/// Index of the last occurrence of character `c` in `s`, or `-1`.
pub open spec fn last_pos(s: Seq<char>, c: char) -> int
    decreases s.len(),
{
    if s.len() == 0 {
        -1
    } else if s.last() == c {
        s.len() - 1
    } else {
        last_pos(s.drop_last(), c)
    }
}

/// `last_pos` is exactly the greatest index holding `c`, or `-1` if none.
pub proof fn lemma_last_pos(s: Seq<char>, c: char)
    ensures
        -1 <= last_pos(s, c) < s.len(),
        last_pos(s, c) >= 0 ==> s[last_pos(s, c)] == c,
        forall|j: int| last_pos(s, c) < j < s.len() ==> s[j] != c,
    decreases s.len(),
{
    if s.len() > 0 && s.last() != c {
        lemma_last_pos(s.drop_last(), c);
        assert(forall|j: int| 0 <= j < s.len() - 1 ==> s[j] == s.drop_last()[j]);
    }
}

/// Whether `s` contains `c` at all.
pub open spec fn contains_char(s: Seq<char>, c: char) -> bool {
    last_pos(s, c) >= 0
}

/// Test whether `pat` occurs in `s` at position `i`.
fn exec_occurs_at(s: &Vec<char>, pat: &Vec<char>, i: usize) -> (r: bool)
    requires
        i + pat.len() <= s.len(),
    ensures
        r == occurs_at(s@, pat@, i as int),
{
    let mut j: usize = 0;
    while j < pat.len()
        invariant
            j <= pat.len(),
            i + pat.len() <= s.len(),
            forall|k: int| 0 <= k < j ==> s@[i + k] == pat@[k],
        decreases pat.len() - j,
    {
        if s[i + j] != pat[j] {
            assert(s@.subrange(i as int, i + pat.len()) != pat@) by {
                assert(s@.subrange(i as int, i + pat.len())[j as int] == s@[i + j]);
            }
            return false;
        }
        j = j + 1;
    }
    assert(s@.subrange(i as int, i + pat.len()) =~= pat@);
    true
}

/// Count non-overlapping occurrences of `pat` in `s`.
fn exec_count_occ(s: &Vec<char>, pat: &Vec<char>) -> (r: usize)
    requires
        pat.len() > 0,
    ensures
        r == count_occ(s@, pat@),
{
    if s.len() < pat.len() {
        return 0;
    }
    let mut i: usize = 0;
    let mut count: usize = 0;
    while i <= s.len() - pat.len()
        invariant
            s.len() >= pat.len(),
            pat.len() > 0,
            i <= s.len(),
            count + count_occ_from(s@, pat@, i as int) == count_occ(s@, pat@),
            count <= i,
        decreases s.len() - i,
    {
        if exec_occurs_at(s, pat, i) {
            count = count + 1;
            i = i + pat.len();
        } else {
            i = i + 1;
        }
    }
    count
}

/// Find the first occurrence of `pat` in `s`.
fn exec_first_occ(s: &Vec<char>, pat: &Vec<char>) -> (r: Option<usize>)
    requires
        pat.len() > 0,
    ensures
        match r {
            Some(i) => i + pat.len() <= s.len() && first_occ_from(s@, pat@, 0) == i as int,
            None => first_occ_from(s@, pat@, 0) == -1,
        },
{
    if s.len() < pat.len() {
        return None;
    }
    let mut i: usize = 0;
    while i <= s.len() - pat.len()
        invariant
            s.len() >= pat.len(),
            pat.len() > 0,
            i <= s.len(),
            first_occ_from(s@, pat@, 0) == first_occ_from(s@, pat@, i as int),
        decreases s.len() - i,
    {
        if exec_occurs_at(s, pat, i) {
            return Some(i);
        }
        i = i + 1;
    }
    None
}

/// Find the last occurrence of character `c` in `s`.
fn exec_last_pos(s: &Vec<char>, c: char) -> (r: Option<usize>)
    ensures
        match r {
            Some(i) => i < s.len() && last_pos(s@, c) == i as int,
            None => last_pos(s@, c) == -1,
        },
{
    proof {
        lemma_last_pos(s@, c);
    }
    let mut i: usize = s.len();
    while i > 0
        invariant
            i <= s.len(),
            forall|j: int| i <= j < s.len() ==> s@[j] != c,
        decreases i,
    {
        i = i - 1;
        if s[i] == c {
            proof {
                if last_pos(s@, c) > i {
                    assert(s@[last_pos(s@, c)] != c);
                }
            }
            return Some(i);
        }
    }
    None
}

/// Whether `s` contains `c`.
fn exec_contains_char(s: &Vec<char>, c: char) -> (r: bool)
    ensures
        r == contains_char(s@, c),
{
    match exec_last_pos(s, c) {
        Some(_) => true,
        None => false,
    }
}

/// Content counted as meaningless after a dangling marker: nothing but
/// whitespace and the emphasis marker characters themselves.
pub open spec fn meaningless_content(s: Seq<char>) -> bool {
    forall|j: int|
        0 <= j < s.len() ==> is_space_char(s[j]) || s[j] == '_' || s[j] == '~' || s[j] == '*'
            || s[j] == '`'
}

/// Test `meaningless_content` on the suffix of `s` starting at `from`.
fn exec_meaningless_from(s: &Vec<char>, from: usize) -> (r: bool)
    requires
        from <= s.len(),
    ensures
        r == meaningless_content(s@.skip(from as int)),
{
    let mut j: usize = from;
    while j < s.len()
        invariant
            from <= j <= s.len(),
            forall|k: int|
                from <= k < j ==> is_space_char(s@[k]) || s@[k] == '_' || s@[k] == '~' || s@[k]
                    == '*' || s@[k] == '`',
        decreases s.len() - j,
    {
        let c = s[j];
        if !(exec_is_space_char(c) || c == '_' || c == '~' || c == '*' || c == '`') {
            assert(s@.skip(from as int)[j - from] == s@[j as int]);
            return false;
        }
        j = j + 1;
    }
    assert forall|k: int| 0 <= k < s@.skip(from as int).len() implies is_space_char(
        s@.skip(from as int)[k],
    ) || s@.skip(from as int)[k] == '_' || s@.skip(from as int)[k] == '~' || s@.skip(from as int)[k]
        == '*' || s@.skip(from as int)[k] == '`' by {
        assert(s@.skip(from as int)[k] == s@[from + k]);
    }
    true
}

/// The triple-backtick fence.
pub open spec fn fence_pat() -> Seq<char> {
    seq!['`', '`', '`']
}

/// A complete fenced code block is present: an even, nonzero number of
/// fences and at least one newline.
pub open spec fn has_complete_code_block(s: Seq<char>) -> bool {
    count_occ(s, fence_pat()) > 0 && count_occ(s, fence_pat()) % 2 == 0 && contains_char(s, '\n')
}

fn fence_vec() -> (r: Vec<char>)
    ensures
        r@ == fence_pat(),
{
    let mut v: Vec<char> = Vec::new();
    v.push('`');
    v.push('`');
    v.push('`');
    assert(v@ =~= fence_pat());
    v
}

/// Decide `has_complete_code_block`.
pub fn exec_has_complete_code_block(s: &Vec<char>) -> (r: bool)
    ensures
        r == has_complete_code_block(s@),
{
    let pat = fence_vec();
    let n = exec_count_occ(s, &pat);
    n > 0 && n % 2 == 0 && exec_contains_char(s, '\n')
}

/// State of the left-to-right math-span scan after processing `s` up to
/// (but not including) position `end`, starting at `j` with inline state
/// `inl` and display state `blk`. Unescaped `$` toggles inline math outside
/// display math; unescaped `$$` toggles display math; `\$` toggles nothing.
pub open spec fn math_scan(s: Seq<char>, end: int, j: int, inl: bool, blk: bool) -> (bool, bool)
    decreases end - j,
    when j >= 0
{
    if j < 0 || j >= end || j >= s.len() {
        (inl, blk)
    } else if s[j] == '\\' && j + 1 < s.len() && s[j + 1] == '$' {
        math_scan(s, end, if j + 2 <= end { j + 2 } else { end }, inl, blk)
    } else if s[j] == '$' {
        if j + 1 < s.len() && s[j + 1] == '$' {
            math_scan(s, end, if j + 2 <= end { j + 2 } else { end }, false, !blk)
        } else if !blk {
            math_scan(s, end, j + 1, !inl, blk)
        } else {
            math_scan(s, end, j + 1, inl, blk)
        }
    } else {
        math_scan(s, end, j + 1, inl, blk)
    }
}

/// Is position `i` inside an inline or display math span?
pub open spec fn in_math(s: Seq<char>, i: int) -> bool {
    math_scan(s, i, 0, false, false).0 || math_scan(s, i, 0, false, false).1
}

/// Decide `in_math`.
fn exec_in_math(s: &Vec<char>, i: usize) -> (r: bool)
    requires
        i <= s.len(),
    ensures
        r == in_math(s@, i as int),
{
    let mut j: usize = 0;
    let mut inl = false;
    let mut blk = false;
    while j < i
        invariant
            j <= s.len() + 2,
            math_scan(s@, i as int, 0, false, false) == math_scan(
                s@,
                i as int,
                j as int,
                inl,
                blk,
            ),
        decreases i + 2 - j,
    {
        if j >= s.len() {
            break ;
        }
        let c = s[j];
        if c == '\\' && j + 1 < s.len() && s[j + 1] == '$' {
            j = if j + 2 <= i {
                j + 2
            } else {
                i
            };
        } else if c == '$' {
            if j + 1 < s.len() && s[j + 1] == '$' {
                blk = !blk;
                inl = false;
                j = if j + 2 <= i {
                    j + 2
                } else {
                    i
                };
            } else {
                if !blk {
                    inl = !inl;
                }
                j = j + 1;
            }
        } else {
            j = j + 1;
        }
    }
    inl || blk
}

/// Start of the line containing position `i`: just after the previous
/// newline, or the start of the text.
pub open spec fn line_start(s: Seq<char>, i: int) -> int
    decreases i,
{
    if i <= 0 {
        0
    } else if s[i - 1] == '\n' {
        i
    } else {
        line_start(s, i - 1)
    }
}

pub proof fn lemma_line_start(s: Seq<char>, i: int)
    requires
        i >= 0,
    ensures
        0 <= line_start(s, i) <= i,
    decreases i,
{
    if i > 0 && s[i - 1] != '\n' {
        lemma_line_start(s, i - 1);
    }
}

/// An asterisk acting as a list bullet: only whitespace before it on its
/// line, and whitespace directly after it.
pub open spec fn bullet_at(s: Seq<char>, i: int) -> bool {
    &&& (forall|k: int| line_start(s, i) <= k < i ==> is_space_char(s[k]))
    &&& i + 1 < s.len()
    &&& is_space_char(s[i + 1])
}

/// An asterisk at `i` that counts as a single emphasis marker: not part of
/// a `**` run and not a list bullet.
pub open spec fn single_star_at(s: Seq<char>, i: int) -> bool {
    &&& 0 <= i < s.len()
    &&& s[i] == '*'
    &&& (i == 0 || s[i - 1] != '*')
    &&& (i + 1 == s.len() || s[i + 1] != '*')
    &&& !bullet_at(s, i)
}

/// An underscore at `i` that counts as a single emphasis marker: not part
/// of `__`, not escaped, not inside a math span, and not word-internal.
pub open spec fn single_underscore_at(s: Seq<char>, i: int) -> bool {
    &&& 0 <= i < s.len()
    &&& s[i] == '_'
    &&& (i == 0 || s[i - 1] != '_')
    &&& (i + 1 == s.len() || s[i + 1] != '_')
    &&& (i == 0 || s[i - 1] != '\\')
    &&& !in_math(s, i)
    &&& !(i > 0 && i + 1 < s.len() && wordish(s[i - 1]) && wordish(s[i + 1]))
}

/// A character that keeps an underscore word-internal: Unicode
/// alphanumeric or underscore.
pub open spec fn wordish(c: char) -> bool {
    crate::outside::alnum_of(c) || c == '_'
}

/// A backtick at `i` that is part of a triple-backtick fence.
pub open spec fn part_of_fence(s: Seq<char>, i: int) -> bool {
    ||| (i + 3 <= s.len() && s[i] == '`' && s[i + 1] == '`' && s[i + 2] == '`')
    ||| (i >= 1 && i + 2 <= s.len() && s[i - 1] == '`' && s[i] == '`' && s[i + 1] == '`')
    ||| (i >= 2 && i < s.len() && s[i - 2] == '`' && s[i - 1] == '`' && s[i] == '`')
}

/// A backtick at `i` counting as a single inline-code marker.
pub open spec fn single_backtick_at(s: Seq<char>, i: int) -> bool {
    0 <= i < s.len() && s[i] == '`' && !part_of_fence(s, i)
}

/// Number of positions in `s[..n]` satisfying the predicate `pred`.
pub open spec fn count_matching(s: Seq<char>, pred: spec_fn(Seq<char>, int) -> bool, n: int) -> nat
    decreases n,
{
    if n <= 0 {
        0
    } else {
        count_matching(s, pred, n - 1) + if pred(s, n - 1) {
            1nat
        } else {
            0nat
        }
    }
}

pub open spec fn count_single_asterisks(s: Seq<char>) -> nat {
    count_matching(s, |t: Seq<char>, i: int| single_star_at(t, i), s.len() as int)
}

pub open spec fn count_single_underscores(s: Seq<char>) -> nat {
    count_matching(s, |t: Seq<char>, i: int| single_underscore_at(t, i), s.len() as int)
}

pub open spec fn count_single_backticks(s: Seq<char>) -> nat {
    count_matching(s, |t: Seq<char>, i: int| single_backtick_at(t, i), s.len() as int)
}

/// Is everything between the start of `i`'s line and `i` whitespace?
fn exec_line_prefix_space(s: &Vec<char>, i: usize) -> (r: bool)
    requires
        i <= s.len(),
    ensures
        r == (forall|k: int| line_start(s@, i as int) <= k < i ==> is_space_char(s@[k])),
{
    proof {
        lemma_line_start(s@, i as int);
    }
    let mut j: usize = i;
    while j > 0
        invariant
            j <= i,
            line_start(s@, i as int) == line_start(s@, j as int),
            forall|k: int| j <= k < i ==> is_space_char(s@[k]),
        decreases j,
    {
        if s[j - 1] == '\n' {
            assert(line_start(s@, j as int) == j as int);
            return true;
        }
        if !exec_is_space_char(s[j - 1]) {
            proof {
                lemma_line_start(s@, j as int - 1);
                assert(line_start(s@, j as int) == line_start(s@, j as int - 1));
            }
            return false;
        }
        j = j - 1;
    }
    true
}

/// Count asterisks that act as single emphasis markers.
pub fn exec_count_single_asterisks(s: &Vec<char>) -> (r: usize)
    ensures
        r == count_single_asterisks(s@),
{
    let ghost pred = |t: Seq<char>, i: int| single_star_at(t, i);
    let mut i: usize = 0;
    let mut count: usize = 0;
    while i < s.len()
        invariant
            i <= s.len(),
            count == count_matching(s@, pred, i as int),
            count <= i,
        decreases s.len() - i,
    {
        let c = s[i];
        let mut hit = false;
        if c == '*' {
            let prev_star = i > 0 && s[i - 1] == '*';
            let next_star = i + 1 < s.len() && s[i + 1] == '*';
            if !prev_star && !next_star {
                let bullet = exec_line_prefix_space(s, i) && i + 1 < s.len() && exec_is_space_char(
                    s[i + 1],
                );
                if !bullet {
                    hit = true;
                }
            }
        }
        proof {
            assert(hit == pred(s@, i as int));
        }
        if hit {
            count = count + 1;
        }
        i = i + 1;
    }
    count
}

/// Count underscores that act as single emphasis markers.
pub fn exec_count_single_underscores(s: &Vec<char>) -> (r: usize)
    ensures
        r == count_single_underscores(s@),
{
    let ghost pred = |t: Seq<char>, i: int| single_underscore_at(t, i);
    let mut i: usize = 0;
    let mut count: usize = 0;
    while i < s.len()
        invariant
            i <= s.len(),
            count == count_matching(s@, pred, i as int),
            count <= i,
        decreases s.len() - i,
    {
        let c = s[i];
        let mut hit = false;
        if c == '_' {
            let prev = i > 0;
            let double = (i > 0 && s[i - 1] == '_') || (i + 1 < s.len() && s[i + 1] == '_');
            let escaped = i > 0 && s[i - 1] == '\\';
            if !double && !escaped {
                let word_internal = i > 0 && i + 1 < s.len() && exec_wordish(s[i - 1])
                    && exec_wordish(s[i + 1]);
                if !word_internal && !exec_in_math(s, i) {
                    hit = true;
                }
            }
        }
        proof {
            assert(hit == pred(s@, i as int));
        }
        if hit {
            count = count + 1;
        }
        i = i + 1;
    }
    count
}

fn exec_wordish(c: char) -> (r: bool)
    ensures
        r == wordish(c),
{
    crate::outside::is_alphanumeric_char(c) || c == '_'
}

/// A `[` (or `![`) with no matching `]` anywhere after it.
pub open spec fn unclosed_bracket_at(s: Seq<char>, i: int) -> bool {
    0 <= i < s.len() && s[i] == '[' && (forall|j: int| i < j < s.len() ==> s[j] != ']')
}

/// First position of an unclosed `[`, or `-1` when every `[` is closed.
pub open spec fn first_unclosed_bracket_from(s: Seq<char>, i: int) -> int
    decreases s.len() - i,
    when 0 <= i
{
    if i >= s.len() {
        -1
    } else if unclosed_bracket_at(s, i) {
        i
    } else {
        first_unclosed_bracket_from(s, i + 1)
    }
}

/// The reserved placeholder appended to an unterminated link.
pub open spec fn link_marker() -> Seq<char> {
    seq![']', '(', 's', 't', 'r', 'e', 'a', 'm', 'd', 'o', 'w', 'n', ':', 'i', 'n', 'c', 'o', 'm', 'p', 'l', 'e', 't', 'e', '-', 'l', 'i', 'n', 'k', ')']
}

/// Does `s` end with the reserved incomplete-link placeholder?
pub open spec fn ends_with_link_marker(s: Seq<char>) -> bool {
    s.len() >= link_marker().len() && s.skip(s.len() - link_marker().len()) == link_marker()
}

/// Rule for unterminated links and images: an unterminated image is dropped
/// from the `!` on; an unterminated link gets the reserved placeholder.
pub open spec fn fix_links_images(s: Seq<char>) -> Seq<char> {
    let m = first_unclosed_bracket_from(s, 0);
    if m < 0 {
        s
    } else if m >= 1 && s[m - 1] == '!' {
        s.take(m - 1)
    } else {
        s + link_marker()
    }
}

pub open spec fn dbl_star() -> Seq<char> {
    seq!['*', '*']
}

pub open spec fn trp_star() -> Seq<char> {
    seq!['*', '*', '*']
}

pub open spec fn dbl_under() -> Seq<char> {
    seq!['_', '_']
}

pub open spec fn dbl_tilde() -> Seq<char> {
    seq!['~', '~']
}

pub open spec fn dbl_dollar() -> Seq<char> {
    seq!['$', '$']
}

/// Rule for unterminated inline code: outside complete or open fenced
/// blocks, an odd number of lone backticks is closed with one more.
pub open spec fn fix_inline_code(s: Seq<char>) -> Seq<char> {
    let fences = count_occ(s, fence_pat());
    if fences > 0 && fences % 2 == 0 && contains_char(s, '\n') {
        s
    } else if contains_char(s, '`') && fences % 2 == 0 && count_single_backticks(s) % 2 == 1 {
        s + seq!['`']
    } else {
        s
    }
}

/// Rule for unterminated `***` spans.
pub open spec fn fix_bold_italic(s: Seq<char>) -> Seq<char> {
    if has_complete_code_block(s) {
        s
    } else if s.len() >= 4 && s[0] == '*' && s[1] == '*' && s[2] == '*' && s[3] == '*' {
        s
    } else {
        let l = last_pos(s, '*');
        if l >= 2 && s[l - 1] == '*' && s[l - 2] == '*' && !meaningless_content(s.skip(l + 1))
            && count_occ(s, trp_star()) % 2 == 1 {
            s + trp_star()
        } else {
            s
        }
    }
}

/// Rule for unterminated `**` spans.
pub open spec fn fix_bold(s: Seq<char>) -> Seq<char> {
    if has_complete_code_block(s) {
        s
    } else {
        let l = last_pos(s, '*');
        if l >= 1 && s[l - 1] == '*' && !meaningless_content(s.skip(l + 1)) && count_occ(
            s,
            dbl_star(),
        ) % 2 == 1 {
            s + dbl_star()
        } else {
            s
        }
    }
}

/// Rule for unterminated `__` spans.
pub open spec fn fix_double_underscore(s: Seq<char>) -> Seq<char> {
    let l = last_pos(s, '_');
    if l >= 1 && s[l - 1] == '_' && !meaningless_content(s.skip(l + 1)) && count_occ(
        s,
        dbl_under(),
    ) % 2 == 1 {
        s + dbl_under()
    } else {
        s
    }
}

/// Rule for unterminated single-`*` emphasis.
pub open spec fn fix_single_asterisk(s: Seq<char>) -> Seq<char> {
    if has_complete_code_block(s) {
        s
    } else {
        let l = last_pos(s, '*');
        if l >= 0 && !meaningless_content(s.skip(l + 1)) && count_single_asterisks(s) % 2 == 1 {
            s + seq!['*']
        } else {
            s
        }
    }
}

/// Rule for unterminated single-`_` emphasis.
pub open spec fn fix_single_underscore(s: Seq<char>) -> Seq<char> {
    if has_complete_code_block(s) {
        s
    } else {
        let l = last_pos(s, '_');
        if l >= 0 && !meaningless_content(s.skip(l + 1)) && count_single_underscores(s) % 2 == 1 {
            s + seq!['_']
        } else {
            s
        }
    }
}

/// Rule for unterminated `~~` spans.
pub open spec fn fix_strikethrough(s: Seq<char>) -> Seq<char> {
    let l = last_pos(s, '~');
    if l >= 1 && s[l - 1] == '~' && !meaningless_content(s.skip(l + 1)) && count_occ(
        s,
        dbl_tilde(),
    ) % 2 == 1 {
        s + dbl_tilde()
    } else {
        s
    }
}

/// Rule for unterminated `$$` display math: closed on a fresh line when the
/// opening fence was followed by a newline and the text does not already
/// end in one.
pub open spec fn fix_block_katex(s: Seq<char>) -> Seq<char> {
    if count_occ(s, dbl_dollar()) % 2 == 1 {
        let f = first_occ_from(s, dbl_dollar(), 0);
        if f >= 0 && contains_char(s.skip(f), '\n') && s[s.len() - 1] != '\n' {
            s + seq!['\n', '$', '$']
        } else {
            s + dbl_dollar()
        }
    } else {
        s
    }
}

/// The whole repair pass in rule order; the link/image rule overrides every
/// later rule when it inserts the reserved placeholder.
pub open spec fn completed(s: Seq<char>) -> Seq<char> {
    if s.len() == 0 {
        s
    } else {
        let r1 = fix_links_images(s);
        if ends_with_link_marker(r1) {
            r1
        } else {
            fix_block_katex(
                fix_strikethrough(
                    fix_single_underscore(
                        fix_single_asterisk(
                            fix_double_underscore(fix_bold(fix_bold_italic(fix_inline_code(r1)))),
                        ),
                    ),
                ),
            )
        }
    }
}

/// Count backticks that are not part of a triple-backtick fence.
pub fn exec_count_single_backticks(s: &Vec<char>) -> (r: usize)
    ensures
        r == count_single_backticks(s@),
{
    let ghost pred = |t: Seq<char>, i: int| single_backtick_at(t, i);
    let mut i: usize = 0;
    let mut count: usize = 0;
    while i < s.len()
        invariant
            i <= s.len(),
            count == count_matching(s@, pred, i as int),
            count <= i,
        decreases s.len() - i,
    {
        let c = s[i];
        let mut hit = false;
        if c == '`' {
            let f1 = s.len() - i >= 3 && s[i + 1] == '`' && s[i + 2] == '`';
            let f2 = i >= 1 && s.len() - i >= 2 && s[i - 1] == '`' && s[i + 1] == '`';
            let f3 = i >= 2 && s[i - 2] == '`' && s[i - 1] == '`';
            if !f1 && !f2 && !f3 {
                hit = true;
            }
        }
        proof {
            assert(hit == pred(s@, i as int));
        }
        if hit {
            count = count + 1;
        }
        i = i + 1;
    }
    count
}

fn pat2(a: char, b: char) -> (r: Vec<char>)
    ensures
        r@ == seq![a, b],
{
    let mut v: Vec<char> = Vec::new();
    v.push(a);
    v.push(b);
    assert(v@ =~= seq![a, b]);
    v
}

fn pat3(a: char, b: char, c: char) -> (r: Vec<char>)
    ensures
        r@ == seq![a, b, c],
{
    let mut v: Vec<char> = Vec::new();
    v.push(a);
    v.push(b);
    v.push(c);
    assert(v@ =~= seq![a, b, c]);
    v
}

fn link_marker_vec() -> (r: Vec<char>)
    ensures
        r@ == link_marker(),
{
    let mut v: Vec<char> = Vec::new();
    v.push(']');
    v.push('(');
    v.push('s');
    v.push('t');
    v.push('r');
    v.push('e');
    v.push('a');
    v.push('m');
    v.push('d');
    v.push('o');
    v.push('w');
    v.push('n');
    v.push(':');
    v.push('i');
    v.push('n');
    v.push('c');
    v.push('o');
    v.push('m');
    v.push('p');
    v.push('l');
    v.push('e');
    v.push('t');
    v.push('e');
    v.push('-');
    v.push('l');
    v.push('i');
    v.push('n');
    v.push('k');
    v.push(')');
    assert(v@ =~= link_marker());
    v
}

/// Does `s` contain `c` at or after position `from`?
fn exec_contains_from(s: &Vec<char>, from: usize, c: char) -> (r: bool)
    requires
        from <= s.len(),
    ensures
        r == contains_char(s@.skip(from as int), c),
{
    proof {
        lemma_last_pos(s@.skip(from as int), c);
    }
    let mut j: usize = from;
    while j < s.len()
        invariant
            from <= j <= s.len(),
            forall|k: int| from <= k < j ==> s@[k] != c,
        decreases s.len() - j,
    {
        if s[j] == c {
            proof {
                assert(s@.skip(from as int)[j - from] == s@[j as int]);
                if last_pos(s@.skip(from as int), c) < 0 {
                    assert(s@.skip(from as int)[j - from] != c);
                }
            }
            return true;
        }
        j = j + 1;
    }
    proof {
        let t = s@.skip(from as int);
        if last_pos(t, c) >= 0 {
            assert(t[last_pos(t, c)] == s@[from + last_pos(t, c)]);
        }
    }
    false
}

/// Is there no `]` after position `i`?
fn exec_no_rbracket_after(s: &Vec<char>, i: usize) -> (r: bool)
    requires
        i < s.len(),
    ensures
        r == (forall|j: int| i < j < s.len() ==> s@[j] != ']'),
{
    let mut j: usize = i + 1;
    while j < s.len()
        invariant
            i < j <= s.len(),
            forall|k: int| i < k < j ==> s@[k] != ']',
        decreases s.len() - j,
    {
        if s[j] == ']' {
            return false;
        }
        j = j + 1;
    }
    true
}

/// The link/image rule: drop an unterminated image, close an unterminated
/// link with the reserved placeholder.
pub fn handle_incomplete_links_and_images(text: Vec<char>) -> (r: Vec<char>)
    ensures
        r@ == fix_links_images(text@),
{
    let ghost s = text@;
    let mut i: usize = 0;
    while i < text.len()
        invariant
            i <= text.len(),
            first_unclosed_bracket_from(s, 0) == first_unclosed_bracket_from(s, i as int),
        decreases text.len() - i,
    {
        if text[i] == '[' && exec_no_rbracket_after(&text, i) {
            assert(unclosed_bracket_at(s, i as int));
            if i >= 1 && text[i - 1] == '!' {
                let mut t = text;
                t.truncate(i - 1);
                assert(t@ =~= s.take(i - 1));
                return t;
            } else {
                let mut t = text;
                let mut k: usize = 0;
                let marker = link_marker_vec();
                while k < marker.len()
                    invariant
                        k <= marker.len(),
                        t@ == s + marker@.take(k as int),
                    decreases marker.len() - k,
                {
                    t.push(marker[k]);
                    assert(t@ =~= s + marker@.take(k + 1));
                    k = k + 1;
                }
                assert(t@ =~= s + link_marker());
                return t;
            }
        }
        assert(!unclosed_bracket_at(s, i as int));
        i = i + 1;
    }
    text
}

/// Does the text end with the reserved incomplete-link placeholder?
fn exec_ends_with_link_marker(s: &Vec<char>) -> (r: bool)
    ensures
        r == ends_with_link_marker(s@),
{
    let marker = link_marker_vec();
    if s.len() < marker.len() {
        return false;
    }
    let start = s.len() - marker.len();
    let r = exec_occurs_at(s, &marker, start);
    proof {
        assert(s@.subrange(start as int, start + marker@.len()) =~= s@.skip(
            s@.len() - link_marker().len(),
        ));
    }
    r
}

/// The inline-code rule.
pub fn handle_incomplete_inline_code(text: Vec<char>) -> (r: Vec<char>)
    ensures
        r@ == fix_inline_code(text@),
{
    let ghost s = text@;
    let fence = fence_vec();
    let fences = exec_count_occ(&text, &fence);
    if fences > 0 && fences % 2 == 0 && exec_contains_char(&text, '\n') {
        return text;
    }
    if exec_contains_char(&text, '`') && fences % 2 == 0 && exec_count_single_backticks(&text) % 2
        == 1 {
        let mut t = text;
        t.push('`');
        assert(t@ =~= s + seq!['`']);
        return t;
    }
    text
}

/// The `***` rule.
pub fn handle_incomplete_bold_italic(text: Vec<char>) -> (r: Vec<char>)
    ensures
        r@ == fix_bold_italic(text@),
{
    let ghost s = text@;
    if exec_has_complete_code_block(&text) {
        return text;
    }
    if text.len() >= 4 && text[0] == '*' && text[1] == '*' && text[2] == '*' && text[3] == '*' {
        return text;
    }
    if let Some(l) = exec_last_pos(&text, '*') {
        if l >= 2 && text[l - 1] == '*' && text[l - 2] == '*' && !exec_meaningless_from(
            &text,
            l + 1,
        ) {
            let pat = pat3('*', '*', '*');
            if exec_count_occ(&text, &pat) % 2 == 1 {
                let mut t = text;
                t.push('*');
                t.push('*');
                t.push('*');
                assert(t@ =~= s + trp_star());
                return t;
            }
        }
    }
    text
}

/// The `**` rule.
pub fn handle_incomplete_bold(text: Vec<char>) -> (r: Vec<char>)
    ensures
        r@ == fix_bold(text@),
{
    let ghost s = text@;
    if exec_has_complete_code_block(&text) {
        return text;
    }
    if let Some(l) = exec_last_pos(&text, '*') {
        if l >= 1 && text[l - 1] == '*' && !exec_meaningless_from(&text, l + 1) {
            let pat = pat2('*', '*');
            if exec_count_occ(&text, &pat) % 2 == 1 {
                let mut t = text;
                t.push('*');
                t.push('*');
                assert(t@ =~= s + dbl_star());
                return t;
            }
        }
    }
    text
}

/// The `__` rule.
pub fn handle_incomplete_double_underscore_italic(text: Vec<char>) -> (r: Vec<char>)
    ensures
        r@ == fix_double_underscore(text@),
{
    let ghost s = text@;
    if let Some(l) = exec_last_pos(&text, '_') {
        if l >= 1 && text[l - 1] == '_' && !exec_meaningless_from(&text, l + 1) {
            let pat = pat2('_', '_');
            if exec_count_occ(&text, &pat) % 2 == 1 {
                let mut t = text;
                t.push('_');
                t.push('_');
                assert(t@ =~= s + dbl_under());
                return t;
            }
        }
    }
    text
}

/// The single-`*` rule.
pub fn handle_incomplete_single_asterisk_italic(text: Vec<char>) -> (r: Vec<char>)
    ensures
        r@ == fix_single_asterisk(text@),
{
    let ghost s = text@;
    if exec_has_complete_code_block(&text) {
        return text;
    }
    if let Some(l) = exec_last_pos(&text, '*') {
        if !exec_meaningless_from(&text, l + 1) && exec_count_single_asterisks(&text) % 2 == 1 {
            let mut t = text;
            t.push('*');
            assert(t@ =~= s + seq!['*']);
            return t;
        }
    }
    text
}

/// The single-`_` rule.
pub fn handle_incomplete_single_underscore_italic(text: Vec<char>) -> (r: Vec<char>)
    ensures
        r@ == fix_single_underscore(text@),
{
    let ghost s = text@;
    if exec_has_complete_code_block(&text) {
        return text;
    }
    if let Some(l) = exec_last_pos(&text, '_') {
        if !exec_meaningless_from(&text, l + 1) && exec_count_single_underscores(&text) % 2 == 1 {
            let mut t = text;
            t.push('_');
            assert(t@ =~= s + seq!['_']);
            return t;
        }
    }
    text
}

/// The `~~` rule.
pub fn handle_incomplete_strikethrough(text: Vec<char>) -> (r: Vec<char>)
    ensures
        r@ == fix_strikethrough(text@),
{
    let ghost s = text@;
    if let Some(l) = exec_last_pos(&text, '~') {
        if l >= 1 && text[l - 1] == '~' && !exec_meaningless_from(&text, l + 1) {
            let pat = pat2('~', '~');
            if exec_count_occ(&text, &pat) % 2 == 1 {
                let mut t = text;
                t.push('~');
                t.push('~');
                assert(t@ =~= s + dbl_tilde());
                return t;
            }
        }
    }
    text
}

/// The `$$` display-math rule.
pub fn handle_incomplete_block_katex(text: Vec<char>) -> (r: Vec<char>)
    ensures
        r@ == fix_block_katex(text@),
{
    let ghost s = text@;
    let pat = pat2('$', '$');
    let n = exec_count_occ(&text, &pat);
    if n % 2 == 1 {
        let fo = exec_first_occ(&text, &pat);
        if let Some(f) = fo {
            let has_nl = exec_contains_from(&text, f, '\n');
            let ends_nl = text[text.len() - 1] == '\n';
            if has_nl && !ends_nl {
                let mut t = text;
                t.push('\n');
                t.push('$');
                t.push('$');
                assert(t@ =~= s + seq!['\n', '$', '$']);
                return t;
            } else {
                let mut t = text;
                t.push('$');
                t.push('$');
                assert(t@ =~= s + dbl_dollar());
                return t;
            }
        } else {
            let mut t = text;
            t.push('$');
            t.push('$');
            assert(t@ =~= s + dbl_dollar());
            return t;
        }
    }
    text
}

/// The link/image rule would act on `s`.
pub open spec fn fires_links_images(s: Seq<char>) -> bool {
    first_unclosed_bracket_from(s, 0) >= 0
}

/// The inline-code rule would act on `s`.
pub open spec fn fires_inline_code(s: Seq<char>) -> bool {
    let fences = count_occ(s, fence_pat());
    &&& !(fences > 0 && fences % 2 == 0 && contains_char(s, '\n'))
    &&& contains_char(s, '`')
    &&& fences % 2 == 0
    &&& count_single_backticks(s) % 2 == 1
}

/// The `***` rule would act on `s`.
pub open spec fn fires_bold_italic(s: Seq<char>) -> bool {
    let l = last_pos(s, '*');
    &&& !has_complete_code_block(s)
    &&& !(s.len() >= 4 && s[0] == '*' && s[1] == '*' && s[2] == '*' && s[3] == '*')
    &&& l >= 2
    &&& s[l - 1] == '*'
    &&& s[l - 2] == '*'
    &&& !meaningless_content(s.skip(l + 1))
    &&& count_occ(s, trp_star()) % 2 == 1
}

/// The `**` rule would act on `s`.
pub open spec fn fires_bold(s: Seq<char>) -> bool {
    let l = last_pos(s, '*');
    &&& !has_complete_code_block(s)
    &&& l >= 1
    &&& s[l - 1] == '*'
    &&& !meaningless_content(s.skip(l + 1))
    &&& count_occ(s, dbl_star()) % 2 == 1
}

/// The `__` rule would act on `s`.
pub open spec fn fires_double_underscore(s: Seq<char>) -> bool {
    let l = last_pos(s, '_');
    &&& l >= 1
    &&& s[l - 1] == '_'
    &&& !meaningless_content(s.skip(l + 1))
    &&& count_occ(s, dbl_under()) % 2 == 1
}

/// The single-`*` rule would act on `s`.
pub open spec fn fires_single_asterisk(s: Seq<char>) -> bool {
    let l = last_pos(s, '*');
    &&& !has_complete_code_block(s)
    &&& l >= 0
    &&& !meaningless_content(s.skip(l + 1))
    &&& count_single_asterisks(s) % 2 == 1
}

/// The single-`_` rule would act on `s`.
pub open spec fn fires_single_underscore(s: Seq<char>) -> bool {
    let l = last_pos(s, '_');
    &&& !has_complete_code_block(s)
    &&& l >= 0
    &&& !meaningless_content(s.skip(l + 1))
    &&& count_single_underscores(s) % 2 == 1
}

/// The `~~` rule would act on `s`.
pub open spec fn fires_strikethrough(s: Seq<char>) -> bool {
    let l = last_pos(s, '~');
    &&& l >= 1
    &&& s[l - 1] == '~'
    &&& !meaningless_content(s.skip(l + 1))
    &&& count_occ(s, dbl_tilde()) % 2 == 1
}

/// The `$$` rule would act on `s`.
pub open spec fn fires_block_katex(s: Seq<char>) -> bool {
    count_occ(s, dbl_dollar()) % 2 == 1
}

/// `s` has no trailing unterminated span: none of the repair rules would
/// change it.
pub open spec fn no_trailing_incomplete(s: Seq<char>) -> bool {
    &&& !fires_links_images(s)
    &&& !fires_inline_code(s)
    &&& !fires_bold_italic(s)
    &&& !fires_bold(s)
    &&& !fires_double_underscore(s)
    &&& !fires_single_asterisk(s)
    &&& !fires_single_underscore(s)
    &&& !fires_strikethrough(s)
    &&& !fires_block_katex(s)
}

/// On text with no trailing unterminated span the repair pass is the
/// identity, and hence applying it twice equals applying it once.
pub proof fn lemma_completed_idempotent(s: Seq<char>)
    requires
        no_trailing_incomplete(s),
    ensures
        completed(s) == s,
        completed(completed(s)) == completed(s),
{
    assert(fix_links_images(s) == s);
    assert(fix_inline_code(s) == s);
    assert(fix_bold_italic(s) == s);
    assert(fix_bold(s) == s);
    assert(fix_double_underscore(s) == s);
    assert(fix_single_asterisk(s) == s);
    assert(fix_single_underscore(s) == s);
    assert(fix_strikethrough(s) == s);
    assert(fix_block_katex(s) == s);
}

/// Repair a possibly truncated markdown text: strip or close a trailing
/// unterminated link or image, then close unterminated inline code, bold,
/// italic, strikethrough and display-math spans, in that order.
pub fn parse_incomplete_markdown(text: &str) -> (r: String)
    ensures
        r@ == completed(text@),
{
    let v = crate::chars::chars_of(text);
    if v.len() == 0 {
        return crate::chars::string_of(&v);
    }
    let r1 = handle_incomplete_links_and_images(v);
    if exec_ends_with_link_marker(&r1) {
        return crate::chars::string_of(&r1);
    }
    let r2 = handle_incomplete_inline_code(r1);
    let r3 = handle_incomplete_bold_italic(r2);
    let r4 = handle_incomplete_bold(r3);
    let r5 = handle_incomplete_double_underscore_italic(r4);
    let r6 = handle_incomplete_single_asterisk_italic(r5);
    let r7 = handle_incomplete_single_underscore_italic(r6);
    let r8 = handle_incomplete_strikethrough(r7);
    let r9 = handle_incomplete_block_katex(r8);
    crate::chars::string_of(&r9)
}

} // verus!
