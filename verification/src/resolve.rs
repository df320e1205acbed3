//! The bibliography side of the engine: the record model for externally
//! parsed entries, grouping by (surname, year) with title-ordered candidate
//! groups, and exact-then-fuzzy citation resolution.
use vstd::prelude::*;

use crate::chars::{lower_seq, lower_vec, dec_of, dec_string, lex_le, lex_le_exec};
use crate::citation::{KeyV, CitationKey, suffix_index, suffix_vec_to_index};

verus! {

/// The mathematical value of a bibliography record.
#[verifier::ext_equal]
pub ghost struct RecordV {
    pub key: Seq<char>,
    pub families: Option<Seq<Seq<char>>>,
    pub year: Option<i32>,
    pub title: Option<Seq<char>>,
}

/// What the engine reads of one externally parsed bibliography entry: its
/// canonical key, its authors' family names in order, its year, and its
/// title. Fields that the source lacks are `None`.
pub struct BibRecord {
    pub key: Vec<char>,
    pub families: Option<Vec<Vec<char>>>,
    pub year: Option<i32>,
    pub title: Option<Vec<char>>,
}

impl View for BibRecord {
    type V = RecordV;

    open spec fn view(&self) -> RecordV {
        RecordV {
            key: self.key@,
            families: match self.families {
                Some(fs) => Some(fs.deep_view()),
                None => None,
            },
            year: self.year,
            title: match self.title {
                Some(t) => Some(t@),
                None => None,
            },
        }
    }
}

impl DeepView for BibRecord {
    type V = RecordV;

    open spec fn deep_view(&self) -> RecordV {
        self.view()
    }
}

/// The lowercased surname of the first author, if any. Records carry
/// arbitrary Unicode, so lowercasing is `str::to_lowercase`'s, named
/// `lower_of`; the marker side of a lookup is ASCII by grammar, where the
/// two foldings agree.
pub open spec fn surname_lc(r: RecordV) -> Option<Seq<char>> {
    match r.families {
        Some(fs) => if fs.len() == 0 {
            None
        } else {
            Some(crate::outside::lower_of(fs[0]))
        },
        None => None,
    }
}

/// The two-digit year token: the last two characters of the decimal year,
/// if the rendering has at least two characters.
pub open spec fn year_yy(r: RecordV) -> Option<Seq<char>> {
    match r.year {
        Some(y) => {
            let ds = dec_of(y as int);
            if ds.len() >= 2 {
                Some(ds.skip(ds.len() - 2))
            } else {
                None
            }
        },
        None => None,
    }
}

/// The lowercased title used for ordering; empty when absent.
pub open spec fn title_sort(r: RecordV) -> Seq<char> {
    match r.title {
        Some(t) => crate::outside::lower_of(t),
        None => Seq::empty(),
    }
}

/// The full decimal year string used for the final bibliography order;
/// empty when absent.
pub open spec fn year_str(r: RecordV) -> Seq<char> {
    match r.year {
        Some(y) => dec_of(y as int),
        None => Seq::empty(),
    }
}

/// A record is indexed when it has both a surname and a year token.
pub open spec fn indexed(r: RecordV) -> bool {
    surname_lc(r) is Some && year_yy(r) is Some
}

/// The lowercased surname of a record's first author.
pub fn get_first_author_last_name(r: &BibRecord) -> (res: Option<Vec<char>>)
    ensures
        match res {
            Some(v) => surname_lc(r@) == Some(v@),
            None => surname_lc(r@) is None,
        },
{
    match &r.families {
        Some(fs) => {
            if fs.len() == 0 {
                None
            } else {
                let v = crate::outside::lowercase_chars(&fs[0]);
                assert(fs.deep_view()[0] == fs[0]@);
                Some(v)
            }
        },
        None => None,
    }
}

/// The two-digit year token of a record.
pub fn get_year_yy(r: &BibRecord) -> (res: Option<Vec<char>>)
    ensures
        match res {
            Some(v) => year_yy(r@) == Some(v@),
            None => year_yy(r@) is None,
        },
{
    match r.year {
        Some(y) => {
            let ds = dec_string(y as i64);
            if ds.len() >= 2 {
                let mut out: Vec<char> = Vec::new();
                out.push(ds[ds.len() - 2]);
                out.push(ds[ds.len() - 1]);
                assert(out@ =~= dec_of(y as int).skip(dec_of(y as int).len() - 2));
                Some(out)
            } else {
                None
            }
        },
        None => None,
    }
}

/// The lowercased title of a record, for ordering.
pub fn get_entry_title_for_sort(r: &BibRecord) -> (res: Vec<char>)
    ensures
        res@ == title_sort(r@),
{
    match &r.title {
        Some(t) => crate::outside::lowercase_chars(t),
        None => Vec::new(),
    }
}

/// The full decimal year string of a record.
pub fn get_year_str(r: &BibRecord) -> (res: Vec<char>)
    ensures
        res@ == year_str(r@),
{
    match r.year {
        Some(y) => dec_string(y as i64),
        None => Vec::new(),
    }
}

/// Strict lexicographic order.
pub open spec fn lex_lt(a: Seq<char>, b: Seq<char>) -> bool {
    lex_le(a, b) && a != b
}

/// Decide `lex_lt`.
pub fn lex_lt_exec(a: &Vec<char>, b: &Vec<char>) -> (r: bool)
    ensures
        r == lex_lt(a@, b@),
{
    lex_le_exec(a, b) && !crate::chars::vec_eq(a, b)
}

/// Insert `x` into `s` directly before the first element that `x` precedes
/// strictly — after any run of equal elements, so repeated insertion is a
/// stable insertion sort.
pub open spec fn insert_by<T>(s: Seq<T>, x: T, lt: spec_fn(T, T) -> bool) -> Seq<T>
    decreases s.len(),
{
    if s.len() == 0 {
        seq![x]
    } else if lt(x, s[0]) {
        seq![x] + s
    } else {
        seq![s[0]] + insert_by(s.skip(1), x, lt)
    }
}

/// `insert_by` places `x` exactly at the first position whose element `x`
/// strictly precedes.
pub proof fn lemma_insert_by_at<T>(s: Seq<T>, x: T, lt: spec_fn(T, T) -> bool, pos: int)
    requires
        0 <= pos <= s.len(),
        forall|j: int| 0 <= j < pos ==> !lt(x, s[j]),
        pos < s.len() ==> lt(x, s[pos]),
    ensures
        insert_by(s, x, lt) =~= s.take(pos) + seq![x] + s.skip(pos),
    decreases pos,
{
    if s.len() == 0 {
        assert(insert_by(s, x, lt) =~= s.take(pos) + seq![x] + s.skip(pos));
    } else if pos == 0 {
        assert(insert_by(s, x, lt) =~= s.take(pos) + seq![x] + s.skip(pos));
    } else {
        lemma_insert_by_at(s.skip(1), x, lt, pos - 1);
        assert(forall|j: int| 0 <= j < pos - 1 ==> s.skip(1)[j] == s[j + 1]);
        assert(insert_by(s, x, lt) =~= seq![s[0]] + insert_by(s.skip(1), x, lt));
        assert(s.skip(1).take(pos - 1) =~= s.take(pos).skip(1));
        assert(s.skip(1).skip(pos - 1) =~= s.skip(pos));
        assert(insert_by(s, x, lt) =~= s.take(pos) + seq![x] + s.skip(pos));
    }
}

/// `insert_by` keeps an upper bound on the member indices.
pub proof fn lemma_insert_by_bound(s: Seq<usize>, x: usize, lt: spec_fn(usize, usize) -> bool, n: int)
    requires
        forall|j: int| 0 <= j < s.len() ==> (#[trigger] s[j]) < n,
        x < n,
    ensures
        forall|j: int|
            0 <= j < insert_by(s, x, lt).len() ==> (#[trigger] insert_by(s, x, lt)[j]) < n,
    decreases s.len(),
{
    if s.len() != 0 && !lt(x, s[0]) {
        assert(forall|j: int| 0 <= j < s.skip(1).len() ==> (#[trigger] s.skip(1)[j]) < n);
        lemma_insert_by_bound(s.skip(1), x, lt, n);
        assert(insert_by(s, x, lt) =~= seq![s[0]] + insert_by(s.skip(1), x, lt));
    }
}

/// The elements of `insert_by(s, x, lt)` are those of `s` plus `x`.
pub proof fn lemma_insert_by_contains<T>(s: Seq<T>, x: T, lt: spec_fn(T, T) -> bool, y: T)
    ensures
        insert_by(s, x, lt).contains(y) <==> s.contains(y) || y == x,
    decreases s.len(),
{
    let r = insert_by(s, x, lt);
    if s.len() == 0 {
        assert(r =~= seq![x]);
        if s.contains(y) {
            let w = choose|w: int| 0 <= w < s.len() && s[w] == y;
        }
        if r.contains(y) {
            let w = choose|w: int| 0 <= w < r.len() && r[w] == y;
            assert(y == x);
        }
        if y == x {
            assert(r[0] == y);
        }
    } else if lt(x, s[0]) {
        assert(r =~= seq![x] + s);
        if r.contains(y) {
            let w = choose|w: int| 0 <= w < r.len() && r[w] == y;
            if w > 0 {
                assert(s[w - 1] == y);
            }
        }
        if s.contains(y) {
            let w = choose|w: int| 0 <= w < s.len() && s[w] == y;
            assert(r[w + 1] == y);
        }
        if y == x {
            assert(r[0] == y);
        }
    } else {
        lemma_insert_by_contains(s.skip(1), x, lt, y);
        let u = insert_by(s.skip(1), x, lt);
        assert(r =~= seq![s[0]] + u);
        if r.contains(y) {
            let w = choose|w: int| 0 <= w < r.len() && r[w] == y;
            if w == 0 {
                assert(s[0] == y);
            } else {
                assert(u[w - 1] == y);
                assert(u.contains(y));
                if s.skip(1).contains(y) {
                    let v = choose|v: int| 0 <= v < s.skip(1).len() && s.skip(1)[v] == y;
                    assert(s[v + 1] == y);
                }
            }
        }
        if s.contains(y) {
            let w = choose|w: int| 0 <= w < s.len() && s[w] == y;
            if w == 0 {
                assert(r[0] == y);
            } else {
                assert(s.skip(1)[w - 1] == y);
                assert(s.skip(1).contains(y));
                assert(u.contains(y));
                let v = choose|v: int| 0 <= v < u.len() && u[v] == y;
                assert(r[v + 1] == y);
            }
        }
        if y == x {
            assert(u.contains(y));
            let v = choose|v: int| 0 <= v < u.len() && u[v] == y;
            assert(r[v + 1] == y);
        }
    }
}

/// Inserting a fresh element keeps a duplicate-free sequence
/// duplicate-free.
pub proof fn lemma_insert_by_distinct<T>(s: Seq<T>, x: T, lt: spec_fn(T, T) -> bool)
    requires
        !s.contains(x),
        forall|i: int, j: int| 0 <= i < j < s.len() ==> s[i] != s[j],
    ensures
        forall|i: int, j: int|
            0 <= i < j < insert_by(s, x, lt).len() ==> #[trigger] insert_by(s, x, lt)[i]
                != #[trigger] insert_by(s, x, lt)[j],
    decreases s.len(),
{
    let r = insert_by(s, x, lt);
    if s.len() == 0 {
        assert(r =~= seq![x]);
    } else if lt(x, s[0]) {
        assert(r =~= seq![x] + s);
        assert forall|i: int, j: int| 0 <= i < j < r.len() implies r[i] != r[j] by {
            if i == 0 {
                if r[j] == x {
                    assert(s[j - 1] == x);
                    assert(s.contains(x));
                }
            }
        }
    } else {
        let u = insert_by(s.skip(1), x, lt);
        assert(r =~= seq![s[0]] + u);
        assert(forall|i: int, j: int|
            0 <= i < j < s.skip(1).len() ==> #[trigger] s.skip(1)[i] != #[trigger] s.skip(1)[j]);
        if s.skip(1).contains(x) {
            let w = choose|w: int| 0 <= w < s.skip(1).len() && s.skip(1)[w] == x;
            assert(s[w + 1] == x);
            assert(s.contains(x));
        }
        lemma_insert_by_distinct(s.skip(1), x, lt);
        assert forall|i: int, j: int| 0 <= i < j < r.len() implies r[i] != r[j] by {
            if i == 0 {
                if r[0] == r[j] {
                    lemma_insert_by_contains(s.skip(1), x, lt, u[j - 1]);
                    assert(u.contains(u[j - 1]));
                    if s.skip(1).contains(s[0]) {
                        let w = choose|w: int| 0 <= w < s.skip(1).len() && s.skip(1)[w] == s[0];
                        assert(s[w + 1] == s[0]);
                    } else {
                        assert(s[0] == x);
                        assert(s.contains(x));
                    }
                }
            } else {
                assert(u[i - 1] != u[j - 1]);
            }
        }
    }
}

/// The elements of the sorted prefix are exactly the first `n` elements.
pub proof fn lemma_sort_upto_contains<T>(s: Seq<T>, n: int, lt: spec_fn(T, T) -> bool, y: T)
    requires
        n <= s.len(),
    ensures
        sort_upto(s, n, lt).contains(y) <==> exists|i: int| 0 <= i < n && s[i] == y,
    decreases n,
{
    let r = sort_upto(s, n, lt);
    if n <= 0 {
        if r.contains(y) {
            let w = choose|w: int| 0 <= w < r.len() && r[w] == y;
        }
        if exists|i: int| 0 <= i < n && s[i] == y {
            let i = choose|i: int| 0 <= i < n && s[i] == y;
        }
    } else {
        lemma_sort_upto_contains(s, n - 1, lt, y);
        lemma_insert_by_contains(sort_upto(s, n - 1, lt), s[n - 1], lt, y);
        if r.contains(y) {
            if y == s[n - 1] {
                assert(exists|i: int| 0 <= i < n && s[i] == y) by {
                    assert(s[n - 1] == y);
                }
            } else {
                let i = choose|i: int| 0 <= i < n - 1 && s[i] == y;
                assert(exists|i2: int| 0 <= i2 < n && s[i2] == y) by {
                    assert(s[i] == y);
                }
            }
        }
        if exists|i: int| 0 <= i < n && s[i] == y {
            let i = choose|i: int| 0 <= i < n && s[i] == y;
            if i == n - 1 {
            } else {
                assert(exists|i2: int| 0 <= i2 < n - 1 && s[i2] == y) by {
                    assert(s[i] == y);
                }
            }
        }
    }
}

/// Sorting a duplicate-free prefix yields a duplicate-free sequence.
pub proof fn lemma_sort_upto_distinct<T>(s: Seq<T>, n: int, lt: spec_fn(T, T) -> bool)
    requires
        n <= s.len(),
        forall|i: int, j: int| 0 <= i < j < n ==> s[i] != s[j],
    ensures
        forall|i: int, j: int|
            0 <= i < j < sort_upto(s, n, lt).len() ==> #[trigger] sort_upto(s, n, lt)[i]
                != #[trigger] sort_upto(s, n, lt)[j],
    decreases n,
{
    if n > 0 {
        lemma_sort_upto_distinct(s, n - 1, lt);
        lemma_sort_upto_contains(s, n - 1, lt, s[n - 1]);
        if sort_upto(s, n - 1, lt).contains(s[n - 1]) {
            let i = choose|i: int| 0 <= i < n - 1 && #[trigger] s[i] == s[n - 1];
        }
        lemma_insert_by_distinct(sort_upto(s, n - 1, lt), s[n - 1], lt);
    }
}

/// A lower bound under `le` is kept by insertion.
pub proof fn lemma_insert_by_lower_bound<T>(
    s: Seq<T>,
    x: T,
    lt: spec_fn(T, T) -> bool,
    le: spec_fn(T, T) -> bool,
    b: T,
)
    requires
        le(b, x),
        forall|i: int| 0 <= i < s.len() ==> le(b, #[trigger] s[i]),
    ensures
        forall|j: int|
            0 <= j < insert_by(s, x, lt).len() ==> le(b, #[trigger] insert_by(s, x, lt)[j]),
    decreases s.len(),
{
    if s.len() != 0 && !lt(x, s[0]) {
        assert(forall|i: int| 0 <= i < s.skip(1).len() ==> le(b, #[trigger] s.skip(1)[i]));
        lemma_insert_by_lower_bound(s.skip(1), x, lt, le, b);
        assert(insert_by(s, x, lt) =~= seq![s[0]] + insert_by(s.skip(1), x, lt));
    } else if s.len() != 0 {
        assert(insert_by(s, x, lt) =~= seq![x] + s);
    } else {
        assert(insert_by(s, x, lt) =~= seq![x]);
    }
}

/// Inserting `x` keeps a sequence sorted by `le` when `x` compares
/// consistently with every element under `lt` and `le` is transitive.
pub proof fn lemma_insert_by_sorted<T>(s: Seq<T>, x: T, lt: spec_fn(T, T) -> bool, le: spec_fn(
    T,
    T,
) -> bool)
    requires
        forall|i: int| 0 <= i < s.len() && lt(x, #[trigger] s[i]) ==> le(x, s[i]),
        forall|i: int| 0 <= i < s.len() && !lt(x, #[trigger] s[i]) ==> le(s[i], x),
        forall|a: T, b: T, c: T| #[trigger] le(a, b) && #[trigger] le(b, c) ==> le(a, c),
        forall|i: int, j: int| 0 <= i < j < s.len() ==> le(#[trigger] s[i], #[trigger] s[j]),
    ensures
        forall|i: int, j: int|
            0 <= i < j < insert_by(s, x, lt).len() ==> le(
                #[trigger] insert_by(s, x, lt)[i],
                #[trigger] insert_by(s, x, lt)[j],
            ),
    decreases s.len(),
{
    let r = insert_by(s, x, lt);
    if s.len() == 0 {
        assert(r =~= seq![x]);
    } else if lt(x, s[0]) {
        assert(r =~= seq![x] + s);
        assert forall|i: int, j: int| 0 <= i < j < r.len() implies le(r[i], r[j]) by {
            if i == 0 {
                assert(le(x, s[0]));
                if j > 1 {
                    assert(le(s[0], s[j - 1]));
                }
            }
        }
    } else {
        let u = insert_by(s.skip(1), x, lt);
        assert(r =~= seq![s[0]] + u);
        assert(le(s[0], x));
        assert(forall|i: int|
            0 <= i < s.skip(1).len() && lt(x, #[trigger] s.skip(1)[i]) ==> le(x, s.skip(1)[i]));
        assert(forall|i: int|
            0 <= i < s.skip(1).len() && !lt(x, #[trigger] s.skip(1)[i]) ==> le(s.skip(1)[i], x));
        assert(forall|i: int, j: int|
            0 <= i < j < s.skip(1).len() ==> le(#[trigger] s.skip(1)[i], #[trigger] s.skip(1)[j]));
        lemma_insert_by_sorted(s.skip(1), x, lt, le);
        assert(forall|i: int| 0 <= i < s.skip(1).len() ==> le(s[0], #[trigger] s.skip(1)[i]));
        lemma_insert_by_lower_bound(s.skip(1), x, lt, le, s[0]);
        assert forall|i: int, j: int| 0 <= i < j < r.len() implies le(r[i], r[j]) by {
            if i == 0 {
                assert(le(s[0], u[j - 1]));
            } else {
                assert(le(u[i - 1], u[j - 1]));
            }
        }
    }
}

/// Stable insertion sort of the first `n` elements of `s`, in order.
pub open spec fn sort_upto<T>(s: Seq<T>, n: int, lt: spec_fn(T, T) -> bool) -> Seq<T>
    decreases n,
{
    if n <= 0 {
        Seq::empty()
    } else {
        insert_by(sort_upto(s, n - 1, lt), s[n - 1], lt)
    }
}

/// The mathematical value of a candidate group.
#[verifier::ext_equal]
pub ghost struct GroupV {
    pub surname: Seq<char>,
    pub year: Seq<char>,
    pub members: Seq<usize>,
}

/// A candidate group: the entries sharing one (lowercased surname,
/// two-digit year) pair, as indices into the record list, ordered by
/// lowercased title with original order preserved among equal titles.
pub struct Group {
    pub surname: Vec<char>,
    pub year: Vec<char>,
    pub members: Vec<usize>,
}

impl View for Group {
    type V = GroupV;

    open spec fn view(&self) -> GroupV {
        GroupV { surname: self.surname@, year: self.year@, members: self.members@ }
    }
}

impl DeepView for Group {
    type V = GroupV;

    open spec fn deep_view(&self) -> GroupV {
        self.view()
    }
}

/// The grouping key of a record, when it is indexed.
pub open spec fn group_key_of(r: RecordV) -> Option<(Seq<char>, Seq<char>)> {
    if indexed(r) {
        Some((surname_lc(r)->Some_0, year_yy(r)->Some_0))
    } else {
        None
    }
}

/// First group with the given key, or `-1`.
pub open spec fn find_group_idx(groups: Seq<GroupV>, sn: Seq<char>, yy: Seq<char>, j: int) -> int
    decreases groups.len() - j,
    when 0 <= j
{
    if j >= groups.len() {
        -1
    } else if groups[j].surname == sn && groups[j].year == yy {
        j
    } else {
        find_group_idx(groups, sn, yy, j + 1)
    }
}

/// The title order on member indices: strictly smaller lowercased title.
pub open spec fn title_order(entries: Seq<RecordV>) -> spec_fn(usize, usize) -> bool {
    |a: usize, b: usize| lex_lt(title_sort(entries[a as int]), title_sort(entries[b as int]))
}

/// The candidate groups after processing the first `n` records, in order
/// of first appearance of each (surname, year) key; each indexed record
/// joins its group's member list at the title-ordered position.
pub open spec fn groups_upto(entries: Seq<RecordV>, n: int) -> Seq<GroupV>
    decreases n,
{
    if n <= 0 {
        Seq::empty()
    } else {
        let p = groups_upto(entries, n - 1);
        match group_key_of(entries[n - 1]) {
            Some(k) => {
                let g = find_group_idx(p, k.0, k.1, 0);
                if g >= 0 {
                    p.update(
                        g,
                        GroupV {
                            surname: k.0,
                            year: k.1,
                            members: insert_by(p[g].members, (n - 1) as usize, title_order(entries)),
                        },
                    )
                } else {
                    p.push(GroupV { surname: k.0, year: k.1, members: seq![(n - 1) as usize] })
                }
            },
            None => p,
        }
    }
}

/// Every member index of `groups_upto(entries, n)` is below `n`.
pub proof fn lemma_groups_upto_bounds(entries: Seq<RecordV>, n: int)
    ensures
        forall|g: int, j: int|
            0 <= g < groups_upto(entries, n).len() && 0 <= j < groups_upto(
                entries,
                n,
            )[g].members.len() ==> (#[trigger] groups_upto(entries, n)[g].members[j]) < n,
    decreases n,
{
    if n > 0 {
        lemma_groups_upto_bounds(entries, n - 1);
        let p = groups_upto(entries, n - 1);
        let q = groups_upto(entries, n);
        match group_key_of(entries[n - 1]) {
            Some(k) => {
                let g = find_group_idx(p, k.0, k.1, 0);
                lemma_find_group_idx(p, k.0, k.1);
                if g >= 0 {
                    let lt = title_order(entries);
                    lemma_insert_by_bound(p[g].members, (n - 1) as usize, lt, n);
                } else {
                }
            },
            None => {
            },
        }
    }
}

/// `find_group_idx` finds a valid index with the key, or reports none.
pub proof fn lemma_find_group_idx(groups: Seq<GroupV>, sn: Seq<char>, yy: Seq<char>)
    ensures
        find_group_idx(groups, sn, yy, 0) >= 0 ==> {
            let g = find_group_idx(groups, sn, yy, 0);
            0 <= g < groups.len() && groups[g].surname == sn && groups[g].year == yy
        },
{
    lemma_find_group_idx_from(groups, sn, yy, 0);
}

pub proof fn lemma_find_group_idx_from(groups: Seq<GroupV>, sn: Seq<char>, yy: Seq<char>, j: int)
    requires
        0 <= j,
    ensures
        find_group_idx(groups, sn, yy, j) >= 0 ==> {
            let g = find_group_idx(groups, sn, yy, j);
            j <= g < groups.len() && groups[g].surname == sn && groups[g].year == yy
        },
    decreases groups.len() - j,
{
    if j < groups.len() && !(groups[j].surname == sn && groups[j].year == yy) {
        lemma_find_group_idx_from(groups, sn, yy, j + 1);
    }
}

/// Build the candidate groups from the record list.
pub fn build_groups(entries: &Vec<BibRecord>) -> (groups: Vec<Group>)
    ensures
        groups.deep_view() == groups_upto(entries.deep_view(), entries.len() as int),
{
    let ghost ev = entries.deep_view();
    let mut groups: Vec<Group> = Vec::new();
    let mut i: usize = 0;
    while i < entries.len()
        invariant
            i <= entries.len(),
            ev == entries.deep_view(),
            groups.deep_view() =~~= groups_upto(ev, i as int),
        decreases entries.len() - i,
    {
        proof {
            assert(ev[i as int] == entries[i as int]@);
        }
        let sn_opt = get_first_author_last_name(&entries[i]);
        let yy_opt = get_year_yy(&entries[i]);
        if let (Some(sn), Some(yy)) = (sn_opt, yy_opt) {
            assert(group_key_of(ev[i as int]) == Some((sn@, yy@)));
            // find the group with this key
            let mut g: usize = 0;
            let mut found: bool = false;
            while g < groups.len()
                invariant
                    g <= groups.len(),
                    !found,
                    find_group_idx(groups.deep_view(), sn@, yy@, 0) == find_group_idx(
                        groups.deep_view(),
                        sn@,
                        yy@,
                        g as int,
                    ),
                decreases groups.len() - g,
            {
                if crate::chars::vec_eq(&groups[g].surname, &sn) && crate::chars::vec_eq(
                    &groups[g].year,
                    &yy,
                ) {
                    found = true;
                    break ;
                }
                g = g + 1;
            }
            proof {
                if found {
                    assert(find_group_idx(groups.deep_view(), sn@, yy@, 0) == g as int);
                } else {
                    assert(find_group_idx(groups.deep_view(), sn@, yy@, 0) == -1);
                }
            }
            if found {
                proof {
                    lemma_groups_upto_bounds(ev, i as int);
                    lemma_find_group_idx(groups.deep_view(), sn@, yy@);
                }
                let tnew = get_entry_title_for_sort(&entries[i]);
                let ghost pre = groups.deep_view();
                let mut grp = groups.remove(g);
                let ghost oldmembers = grp.members@;
                proof {
                    assert(grp@ == groups_upto(ev, i as int)[g as int]);
                    assert forall|j: int| 0 <= j < oldmembers.len() implies (#[trigger] oldmembers[j])
                        < i by {
                        assert(groups_upto(ev, i as int)[g as int].members[j] < i);
                    }
                }
                let mut pos: usize = 0;
                while pos < grp.members.len()
                    invariant
                        pos <= grp.members.len(),
                        grp.members@ == oldmembers,
                        forall|j: int|
                            0 <= j < pos ==> !(title_order(ev)(
                                i,
                                #[trigger] oldmembers[j],
                            )),
                        forall|j: int|
                            0 <= j < oldmembers.len() ==> (#[trigger] oldmembers[j]) < i
                                <= ev.len(),
                    decreases grp.members.len() - pos,
                {
                    let m = grp.members[pos];
                    let tm = get_entry_title_for_sort(&entries[m]);
                    proof {
                        assert(ev[m as int] == entries[m as int]@);
                    }
                    if lex_lt_exec(&tnew, &tm) {
                        break ;
                    }
                    pos = pos + 1;
                }
                grp.members.insert(pos, i);
                proof {
                    let lt = title_order(ev);
                    lemma_insert_by_at(oldmembers, i, lt, pos as int);
                    assert(grp.members@ =~= insert_by(oldmembers, i, lt));
                }
                groups.insert(g, grp);
                proof {
                    assert(groups.deep_view() =~~= groups_upto(ev, i + 1));
                }
            } else {
                let mut members: Vec<usize> = Vec::new();
                members.push(i);
                groups.push(Group { surname: sn, year: yy, members });
                proof {
                    assert(groups.deep_view() =~~= groups_upto(ev, i + 1));
                }
            }
        } else {
            assert(group_key_of(ev[i as int]) is None);
            assert(groups.deep_view() =~~= groups_upto(ev, i + 1));
        }
        i = i + 1;
    }
    groups
}

/// For an asymmetric, negatively transitive order, the insertion sort
/// leaves no element strictly preceding an earlier one.
pub proof fn lemma_sort_upto_sorted<T>(s: Seq<T>, n: int, lt: spec_fn(T, T) -> bool)
    requires
        forall|a: T, b: T| #[trigger] lt(a, b) ==> !lt(b, a),
        forall|a: T, b: T, c: T| !(#[trigger] lt(b, a)) && !(#[trigger] lt(c, b)) ==> !lt(c, a),
    ensures
        forall|i: int, j: int|
            0 <= i < j < sort_upto(s, n, lt).len() ==> !lt(
                #[trigger] sort_upto(s, n, lt)[j],
                #[trigger] sort_upto(s, n, lt)[i],
            ),
    decreases n,
{
    if n > 0 {
        lemma_sort_upto_sorted(s, n - 1, lt);
        let p = sort_upto(s, n - 1, lt);
        let le = |a: T, b: T| !lt(b, a);
        assert forall|i: int| 0 <= i < p.len() && lt(s[n - 1], #[trigger] p[i]) implies le(
            s[n - 1],
            p[i],
        ) by {}
        assert forall|i: int| 0 <= i < p.len() && !lt(s[n - 1], #[trigger] p[i]) implies le(
            p[i],
            s[n - 1],
        ) by {}
        assert forall|a: T, b: T, c: T| #[trigger] le(a, b) && #[trigger] le(b, c) implies le(
            a,
            c,
        ) by {}
        assert(forall|i: int, j: int| 0 <= i < j < p.len() ==> le(#[trigger] p[i], #[trigger] p[j]));
        lemma_insert_by_sorted(p, s[n - 1], lt, le);
    }
}

/// The stable title order group members stand in: ascending by lowercased
/// title, entries with equal titles in their original collection order.
pub open spec fn member_le(entries: Seq<RecordV>) -> spec_fn(usize, usize) -> bool {
    |a: usize, b: usize|
        lex_lt(title_sort(entries[a as int]), title_sort(entries[b as int])) || (title_sort(
            entries[a as int],
        ) == title_sort(entries[b as int]) && a <= b)
}

/// `member_le` is transitive.
pub proof fn lemma_member_le_trans(entries: Seq<RecordV>, a: usize, b: usize, c: usize)
    requires
        member_le(entries)(a, b),
        member_le(entries)(b, c),
    ensures
        member_le(entries)(a, c),
{
    let ta = title_sort(entries[a as int]);
    let tb = title_sort(entries[b as int]);
    let tc = title_sort(entries[c as int]);
    if lex_lt(ta, tb) && lex_lt(tb, tc) {
        crate::chars::lemma_lex_le_trans(ta, tb, tc);
        if ta == tc {
            crate::chars::lemma_lex_le_antisym(ta, tb);
        }
    }
}

/// In every candidate group the members are sorted ascending by lowercased
/// title, and entries with equal titles keep their original collection
/// order.
pub proof fn lemma_groups_members_sorted(entries: Seq<RecordV>, n: int)
    requires
        n <= usize::MAX,
    ensures
        forall|g: int, i: int, j: int|
            0 <= g < groups_upto(entries, n).len() && 0 <= i < j < groups_upto(
                entries,
                n,
            )[g].members.len() ==> member_le(entries)(
                #[trigger] groups_upto(entries, n)[g].members[i],
                #[trigger] groups_upto(entries, n)[g].members[j],
            ),
    decreases n,
{
    if n > 0 {
        lemma_groups_members_sorted(entries, n - 1);
        lemma_groups_upto_bounds(entries, n - 1);
        let p = groups_upto(entries, n - 1);
        let q = groups_upto(entries, n);
        let le = member_le(entries);
        let lt = title_order(entries);
        match group_key_of(entries[n - 1]) {
            Some(k) => {
                let g = find_group_idx(p, k.0, k.1, 0);
                lemma_find_group_idx(p, k.0, k.1);
                if g >= 0 {
                    let s = p[g].members;
                    let x = (n - 1) as usize;
                    assert(x as int == n - 1);
                    let tx = title_sort(entries[n - 1]);
                    assert forall|i: int| 0 <= i < s.len() && lt(x, #[trigger] s[i]) implies le(
                        x,
                        s[i],
                    ) by {}
                    assert forall|i: int| 0 <= i < s.len() && !lt(x, #[trigger] s[i]) implies le(
                        s[i],
                        x,
                    ) by {
                        let tm = title_sort(entries[s[i] as int]);
                        if tm != tx {
                            crate::chars::lemma_lex_le_total(tx, tm);
                        }
                        assert(s[i] < n - 1);
                    }
                    assert forall|a: usize, b: usize, c: usize| #[trigger]
                        le(a, b) && #[trigger] le(b, c) implies le(a, c) by {
                        lemma_member_le_trans(entries, a, b, c);
                    }
                    lemma_insert_by_sorted(s, x, lt, le);
                } else {
                }
            },
            None => {
            },
        }
    }
}

/// The least of three naturals.
pub open spec fn min3(a: nat, b: nat, c: nat) -> nat {
    if a <= b && a <= c {
        a
    } else if b <= c {
        b
    } else {
        c
    }
}

/// The Levenshtein edit distance between two character sequences: the least
/// number of single-character insertions, deletions and substitutions that
/// turns one into the other, by the standard recurrence.
pub open spec fn lev_dist(a: Seq<char>, b: Seq<char>) -> nat
    decreases a.len() + b.len(),
{
    if a.len() == 0 {
        b.len()
    } else if b.len() == 0 {
        a.len()
    } else {
        min3(
            lev_dist(a.drop_last(), b.drop_last()) + if a.last() == b.last() {
                0nat
            } else {
                1nat
            },
            lev_dist(a.drop_last(), b) + 1,
            lev_dist(a, b.drop_last()) + 1,
        )
    }
}

/// One step of the fuzzy scan over the groups from position `j`, carrying
/// the best group so far (`best`, `-1` for none) and its distance. A group
/// is a candidate when its year token matches exactly and the author
/// distance is within the threshold; only a strictly smaller distance
/// replaces the best, so the first group at the least distance wins.
pub open spec fn fuzzy_from(
    groups: Seq<GroupV>,
    author_lc: Seq<char>,
    yy: Seq<char>,
    thr: nat,
    j: int,
    best: int,
    bestd: nat,
) -> int
    decreases groups.len() - j,
    when 0 <= j
{
    if j >= groups.len() {
        best
    } else {
        let d = lev_dist(author_lc, groups[j].surname);
        if groups[j].year == yy && d <= thr && (best < 0 || d < bestd) {
            fuzzy_from(groups, author_lc, yy, thr, j + 1, j, d)
        } else {
            fuzzy_from(groups, author_lc, yy, thr, j + 1, best, bestd)
        }
    }
}

/// The fuzzy choice over all groups.
pub open spec fn fuzzy_best(groups: Seq<GroupV>, author_lc: Seq<char>, yy: Seq<char>, thr: nat) -> int {
    fuzzy_from(groups, author_lc, yy, thr, 0, -1, 0)
}

/// Select the member of a group chosen by the suffix token; an index at or
/// beyond the group's size selects nothing.
pub open spec fn select_in_group(g: GroupV, suffix: Seq<char>) -> Option<usize> {
    if suffix_index(suffix) < g.members.len() {
        Some(g.members[suffix_index(suffix) as int])
    } else {
        None
    }
}

/// Resolve one citation key against the candidate groups: exact lookup of
/// (lowercased author token, year token) first; only when no such group
/// exists, the fuzzy scan over groups with the same year token; in either
/// case the suffix token selects the title-ordered member.
pub open spec fn resolve_key_spec(groups: Seq<GroupV>, k: KeyV, thr: nat) -> Option<usize> {
    let g = find_group_idx(groups, lower_seq(k.author), k.year, 0);
    if g >= 0 {
        select_in_group(groups[g], k.suffix)
    } else {
        let f = fuzzy_best(groups, lower_seq(k.author), k.year, thr);
        if f >= 0 {
            select_in_group(groups[f], k.suffix)
        } else {
            None
        }
    }
}

/// Whatever the fuzzy scan picks is a real group whose year token matches
/// the key's exactly and whose author distance is within the threshold.
pub proof fn lemma_fuzzy_from_props(
    groups: Seq<GroupV>,
    author_lc: Seq<char>,
    yy: Seq<char>,
    thr: nat,
    j: int,
    best: int,
    bestd: nat,
)
    requires
        0 <= j,
        best >= 0 ==> best < groups.len() && groups[best].year == yy && lev_dist(
            author_lc,
            groups[best].surname,
        ) == bestd && bestd <= thr,
    ensures
        ({
            let f = fuzzy_from(groups, author_lc, yy, thr, j, best, bestd);
            f >= 0 ==> f < groups.len() && groups[f].year == yy && lev_dist(
                author_lc,
                groups[f].surname,
            ) <= thr
        }),
    decreases groups.len() - j,
{
    if j < groups.len() {
        let d = lev_dist(author_lc, groups[j].surname);
        if groups[j].year == yy && d <= thr && (best < 0 || d < bestd) {
            lemma_fuzzy_from_props(groups, author_lc, yy, thr, j + 1, j, d);
        } else {
            lemma_fuzzy_from_props(groups, author_lc, yy, thr, j + 1, best, bestd);
        }
    }
}

/// When an exact (surname, year) group exists, resolution is its
/// suffix-selected member, whatever the fuzzy threshold: fuzzy matching is
/// never attempted on an exact hit.
pub proof fn lemma_exact_match_wins(groups: Seq<GroupV>, k: KeyV, thr1: nat, thr2: nat)
    requires
        find_group_idx(groups, lower_seq(k.author), k.year, 0) >= 0,
    ensures
        resolve_key_spec(groups, k, thr1) == select_in_group(
            groups[find_group_idx(groups, lower_seq(k.author), k.year, 0)],
            k.suffix,
        ),
        resolve_key_spec(groups, k, thr1) == resolve_key_spec(groups, k, thr2),
{
}

/// When no exact group exists, a resolution can only come from the fuzzy
/// scan, and then only from a group whose year token equals the key's.
pub proof fn lemma_fuzzy_only_on_exact_miss(groups: Seq<GroupV>, k: KeyV, thr: nat)
    requires
        find_group_idx(groups, lower_seq(k.author), k.year, 0) < 0,
        resolve_key_spec(groups, k, thr) is Some,
    ensures
        ({
            let f = fuzzy_best(groups, lower_seq(k.author), k.year, thr);
            &&& f >= 0
            &&& f < groups.len()
            &&& groups[f].year == k.year
            &&& lev_dist(lower_seq(k.author), groups[f].surname) <= thr
            &&& resolve_key_spec(groups, k, thr) == select_in_group(groups[f], k.suffix)
        }),
{
    lemma_fuzzy_from_props(groups, lower_seq(k.author), k.year, thr, 0, -1, 0);
}

/// A suffix index at or beyond the candidate group's size yields
/// "unresolved", never a selection out of range.
pub proof fn lemma_out_of_range_unresolved(groups: Seq<GroupV>, k: KeyV, thr: nat)
    requires
        ({
            let g = find_group_idx(groups, lower_seq(k.author), k.year, 0);
            g >= 0 && suffix_index(k.suffix) >= groups[g].members.len()
        }),
    ensures
        resolve_key_spec(groups, k, thr) is None,
{
}

/// A resolution against the groups built from `n` records always selects a
/// record index below `n`.
pub proof fn lemma_resolve_in_range(entries: Seq<RecordV>, n: int, k: KeyV, thr: nat)
    requires
        resolve_key_spec(groups_upto(entries, n), k, thr) is Some,
    ensures
        resolve_key_spec(groups_upto(entries, n), k, thr)->Some_0 < n,
{
    let groups = groups_upto(entries, n);
    lemma_groups_upto_bounds(entries, n);
    let g = find_group_idx(groups, lower_seq(k.author), k.year, 0);
    if g >= 0 {
        lemma_find_group_idx(groups, lower_seq(k.author), k.year);
    } else {
        lemma_fuzzy_from_props(groups, lower_seq(k.author), k.year, thr, 0, -1, 0);
    }
}

/// Resolve one key against the groups, with the given fuzzy threshold.
pub fn resolve_key(groups: &Vec<Group>, k: &CitationKey, thr: usize) -> (r: Option<usize>)
    ensures
        r == resolve_key_spec(groups.deep_view(), k@, thr as nat),
{
    let ghost dv = groups.deep_view();
    let author_lc = lower_vec(&k.author);
    let mut g: usize = 0;
    let mut found: bool = false;
    while g < groups.len()
        invariant
            g <= groups.len(),
            !found,
            author_lc@ == lower_seq(k@.author),
            find_group_idx(dv, lower_seq(k@.author), k@.year, 0) == find_group_idx(
                dv,
                lower_seq(k@.author),
                k@.year,
                g as int,
            ),
        decreases groups.len() - g,
    {
        if crate::chars::vec_eq(&groups[g].surname, &author_lc) && crate::chars::vec_eq(
            &groups[g].year,
            &k.year,
        ) {
            found = true;
            break ;
        }
        g = g + 1;
    }
    if found {
        assert(find_group_idx(dv, lower_seq(k@.author), k@.year, 0) == g as int);
        let idx = suffix_vec_to_index(&k.suffix);
        if idx < groups[g].members.len() {
            return Some(groups[g].members[idx]);
        } else {
            return None;
        }
    }
    assert(find_group_idx(dv, lower_seq(k@.author), k@.year, 0) == -1);
    // fuzzy scan: first group at the least distance within the threshold
    let mut j: usize = 0;
    let mut best: usize = 0;
    let mut has_best: bool = false;
    let mut bestd: usize = 0;
    while j < groups.len()
        invariant
            j <= groups.len(),
            author_lc@ == lower_seq(k@.author),
            has_best ==> best < groups.len() && dv[best as int].year == k@.year && lev_dist(
                author_lc@,
                dv[best as int].surname,
            ) == bestd && bestd <= thr,
            fuzzy_best(dv, lower_seq(k@.author), k@.year, thr as nat) == fuzzy_from(
                dv,
                lower_seq(k@.author),
                k@.year,
                thr as nat,
                j as int,
                if has_best {
                    best as int
                } else {
                    -1
                },
                bestd as nat,
            ),
        decreases groups.len() - j,
    {
        if crate::chars::vec_eq(&groups[j].year, &k.year) {
            let d = crate::outside::edit_distance(&author_lc, &groups[j].surname);
            if d <= thr && (!has_best || d < bestd) {
                best = j;
                bestd = d;
                has_best = true;
            }
        }
        j = j + 1;
    }
    if has_best {
        assert(fuzzy_best(dv, lower_seq(k@.author), k@.year, thr as nat) == best as int);
        let idx = suffix_vec_to_index(&k.suffix);
        if idx < groups[best].members.len() {
            return Some(groups[best].members[idx]);
        } else {
            return None;
        }
    }
    assert(fuzzy_best(dv, lower_seq(k@.author), k@.year, thr as nat) < 0);
    None
}

} // verus!
