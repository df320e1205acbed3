//! Bibliography assembly and link rewriting: deduplication of unique
//! citation keys, the deterministic representative ordering, one
//! bibliography item per entry identity, the final bibliography order, the
//! anchor algorithm shared by headings and links, and the single-pass
//! rewrite of markers into links.
use vstd::prelude::*;

use crate::chars::{lower_seq, lower_vec};
use crate::citation::{
    KeyV, CitationKey, suffix_index, suffix_vec_to_index, marker_match_at, try_marker_at,
};
use crate::resolve::{
    RecordV, BibRecord, lex_lt, lex_lt_exec, insert_by, sort_upto, lemma_insert_by_at,
    lemma_insert_by_bound, surname_lc, year_str, title_sort,
};

verus! {

/// The unique citation keys among the scanned markers, first seen first.
pub open spec fn uniq_keys_upto(ms: Seq<KeyV>, n: int) -> Seq<KeyV>
    decreases n,
{
    if n <= 0 {
        Seq::empty()
    } else {
        let p = uniq_keys_upto(ms, n - 1);
        if p.contains(ms[n - 1]) {
            p
        } else {
            p.push(ms[n - 1])
        }
    }
}

/// Decide equality of two keys.
pub fn key_eq(a: &CitationKey, b: &CitationKey) -> (r: bool)
    ensures
        r == (a@ == b@),
{
    let r = crate::chars::vec_eq(&a.author, &b.author) && crate::chars::vec_eq(&a.year, &b.year)
        && crate::chars::vec_eq(&a.suffix, &b.suffix);
    proof {
        if r {
            assert(a@ =~= b@);
        }
    }
    r
}

/// Deduplicate the scanned markers into the unique key set, preserving the
/// first-seen order.
pub fn unique_keys(keys: &Vec<CitationKey>) -> (u: Vec<CitationKey>)
    ensures
        u.deep_view() == uniq_keys_upto(keys.deep_view(), keys.len() as int),
{
    let ghost ms = keys.deep_view();
    let mut u: Vec<CitationKey> = Vec::new();
    let mut i: usize = 0;
    while i < keys.len()
        invariant
            i <= keys.len(),
            ms == keys.deep_view(),
            u.deep_view() =~= uniq_keys_upto(ms, i as int),
        decreases keys.len() - i,
    {
        let mut j: usize = 0;
        let mut present = false;
        while j < u.len()
            invariant
                j <= u.len(),
                !present,
                forall|m: int| 0 <= m < j ==> u.deep_view()[m] != ms[i as int],
            decreases u.len() - j,
        {
            if key_eq(&u[j], &keys[i]) {
                present = true;
                break ;
            }
            j = j + 1;
        }
        proof {
            assert(ms[i as int] == keys[i as int]@);
            if present {
                assert(u.deep_view().contains(ms[i as int])) by {
                    assert(u.deep_view()[j as int] == ms[i as int]);
                }
            } else {
                if u.deep_view().contains(ms[i as int]) {
                    let w = choose|w: int|
                        0 <= w < u.deep_view().len() && u.deep_view()[w] == ms[i as int];
                }
            }
        }
        if !present {
            let ghost prev = u.deep_view();
            u.push(keys[i].clone());
            proof {
                assert(u.deep_view() =~= prev.push(ms[i as int]));
            }
        }
        proof {
            assert(u.deep_view() =~= uniq_keys_upto(ms, i + 1));
        }
        i = i + 1;
    }
    u
}

/// The representative order on unique keys: author token case-insensitive,
/// then year token, then suffix index, then the suffix itself; remaining
/// ties keep the first-seen order of the keys.
pub open spec fn key_rep_lt(k1: KeyV, k2: KeyV) -> bool {
    let a1 = lower_seq(k1.author);
    let a2 = lower_seq(k2.author);
    if a1 != a2 {
        lex_lt(a1, a2)
    } else if k1.year != k2.year {
        lex_lt(k1.year, k2.year)
    } else if suffix_index(k1.suffix) != suffix_index(k2.suffix) {
        suffix_index(k1.suffix) < suffix_index(k2.suffix)
    } else if k1.suffix != k2.suffix {
        lex_lt(k1.suffix, k2.suffix)
    } else {
        false
    }
}

/// The representative order lifted to positions in the unique key list,
/// with the position as the final tie-break.
pub open spec fn rep_order(u: Seq<KeyV>) -> spec_fn(usize, usize) -> bool {
    |i1: usize, i2: usize|
        key_rep_lt(u[i1 as int], u[i2 as int]) || (!key_rep_lt(u[i1 as int], u[i2 as int])
            && !key_rep_lt(u[i2 as int], u[i1 as int]) && i1 < i2)
}

/// The positions `0..n` in order.
pub open spec fn idx_seq(n: int) -> Seq<usize> {
    Seq::new(n as nat, |i: int| i as usize)
}

/// Decide `key_rep_lt`.
pub fn key_rep_lt_exec(k1: &CitationKey, k2: &CitationKey) -> (r: bool)
    ensures
        r == key_rep_lt(k1@, k2@),
{
    let a1 = lower_vec(&k1.author);
    let a2 = lower_vec(&k2.author);
    if !crate::chars::vec_eq(&a1, &a2) {
        return lex_lt_exec(&a1, &a2);
    }
    if !crate::chars::vec_eq(&k1.year, &k2.year) {
        return lex_lt_exec(&k1.year, &k2.year);
    }
    let s1 = suffix_vec_to_index(&k1.suffix);
    let s2 = suffix_vec_to_index(&k2.suffix);
    if s1 != s2 {
        return s1 < s2;
    }
    if !crate::chars::vec_eq(&k1.suffix, &k2.suffix) {
        return lex_lt_exec(&k1.suffix, &k2.suffix);
    }
    false
}

/// Sort the positions of the unique keys into representative order with a
/// stable insertion sort.
pub fn rep_sorted_positions(u: &Vec<CitationKey>) -> (order: Vec<usize>)
    ensures
        order@ == sort_upto(idx_seq(u.len() as int), u.len() as int, rep_order(u.deep_view())),
        forall|j: int| 0 <= j < order@.len() ==> (#[trigger] order@[j]) < u.len(),
{
    let ghost uv = u.deep_view();
    let ghost lt = rep_order(uv);
    let mut order: Vec<usize> = Vec::new();
    let mut i: usize = 0;
    while i < u.len()
        invariant
            i <= u.len(),
            uv == u.deep_view(),
            order@ =~= sort_upto(idx_seq(u.len() as int), i as int, lt),
            forall|j: int| 0 <= j < order@.len() ==> (#[trigger] order@[j]) < i,
        decreases u.len() - i,
    {
        let ghost prev = order@;
        let mut pos: usize = 0;
        while pos < order.len()
            invariant
                pos <= order.len(),
                order@ == prev,
                forall|j: int| 0 <= j < pos ==> !lt(i, #[trigger] prev[j]),
                forall|j: int| 0 <= j < prev.len() ==> (#[trigger] prev[j]) < i,
            decreases order.len() - pos,
        {
            let o = order[pos];
            let is_lt = key_rep_lt_exec(&u[i], &u[o]);
            proof {
                assert(uv[i as int] == u[i as int]@);
                assert(uv[o as int] == u[o as int]@);
                if is_lt {
                    assert(lt(i, prev[pos as int]));
                } else {
                    assert(key_rep_lt(uv[i as int], uv[o as int]) == false);
                    assert(!lt(i, prev[pos as int])) by {
                        assert(!(i < prev[pos as int]));
                    }
                }
            }
            if is_lt {
                break ;
            }
            pos = pos + 1;
        }
        order.insert(pos, i);
        proof {
            lemma_insert_by_at(prev, i, lt, pos as int);
            assert(order@ =~= insert_by(prev, i, lt));
            assert(idx_seq(u.len() as int)[i as int] == i as usize);
            assert(order@ =~= sort_upto(idx_seq(u.len() as int), i + 1, lt));
            lemma_insert_by_bound(prev, i, lt, i + 1);
        }
        i = i + 1;
    }
    order
}

/// The mathematical value of a bibliography item.
#[verifier::ext_equal]
pub ghost struct ItemV {
    pub entry: usize,
    pub anchor: Seq<char>,
}

/// One bibliography item: a resolved entry (as an index into the record
/// list) and the anchor taken from the representative citation key that
/// first produced the entry.
pub struct BibItem {
    pub entry: usize,
    pub anchor: Vec<char>,
}

impl View for BibItem {
    type V = ItemV;

    open spec fn view(&self) -> ItemV {
        ItemV { entry: self.entry, anchor: self.anchor@ }
    }
}

impl DeepView for BibItem {
    type V = ItemV;

    open spec fn deep_view(&self) -> ItemV {
        self.view()
    }
}

/// The anchor of a citation key: the lowercased marker text without the
/// leading `@`. The identical algorithm serves bibliography headings and
/// links, so the two agree exactly.
pub open spec fn anchor_of(k: KeyV) -> Seq<char> {
    lower_seq(k.author + k.year + k.suffix)
}

/// Compute the anchor of a key.
pub fn anchor_of_key(k: &CitationKey) -> (r: Vec<char>)
    ensures
        r@ == anchor_of(k@),
{
    let mut raw: Vec<char> = Vec::new();
    let mut i: usize = 0;
    while i < k.author.len()
        invariant
            i <= k.author.len(),
            raw@ =~= k.author@.take(i as int),
        decreases k.author.len() - i,
    {
        raw.push(k.author[i]);
        assert(raw@ =~= k.author@.take(i + 1));
        i = i + 1;
    }
    assert(raw@ =~= k.author@);
    let mut j: usize = 0;
    while j < k.year.len()
        invariant
            j <= k.year.len(),
            raw@ =~= k.author@ + k.year@.take(j as int),
        decreases k.year.len() - j,
    {
        raw.push(k.year[j]);
        assert(raw@ =~= k.author@ + k.year@.take(j + 1));
        j = j + 1;
    }
    let mut m: usize = 0;
    while m < k.suffix.len()
        invariant
            m <= k.suffix.len(),
            raw@ =~= k.author@ + k.year@ + k.suffix@.take(m as int),
        decreases k.suffix.len() - m,
    {
        raw.push(k.suffix[m]);
        assert(raw@ =~= k.author@ + k.year@ + k.suffix@.take(m + 1));
        m = m + 1;
    }
    assert(raw@ =~= k.author@ + k.year@ + k.suffix@);
    lower_vec(&raw)
}

/// Has an item with this entry key string already been produced?
pub open spec fn entry_key_seen(items: Seq<ItemV>, entries: Seq<RecordV>, keystr: Seq<char>) -> bool {
    exists|m: int| 0 <= m < items.len() && entries[items[m].entry as int].key == keystr
}

/// The bibliography items produced by walking the first `n` positions of
/// the representative order: one item per entry identity, anchored by the
/// first key (in representative order) that resolved to it.
pub open spec fn items_upto(
    order: Seq<usize>,
    u: Seq<KeyV>,
    res: Seq<Option<usize>>,
    entries: Seq<RecordV>,
    n: int,
) -> Seq<ItemV>
    decreases n,
{
    if n <= 0 {
        Seq::empty()
    } else {
        let p = items_upto(order, u, res, entries, n - 1);
        let ki = order[n - 1];
        match res[ki as int] {
            Some(e) => {
                if entry_key_seen(p, entries, entries[e as int].key) {
                    p
                } else {
                    p.push(ItemV { entry: e, anchor: anchor_of(u[ki as int]) })
                }
            },
            None => p,
        }
    }
}

/// Build the deduplicated bibliography items in representative order.
pub fn build_items(
    order: &Vec<usize>,
    u: &Vec<CitationKey>,
    res: &Vec<Option<usize>>,
    entries: &Vec<BibRecord>,
) -> (items: Vec<BibItem>)
    requires
        res.len() == u.len(),
        forall|j: int| 0 <= j < order@.len() ==> (#[trigger] order@[j]) < u.len(),
        forall|j: int|
            0 <= j < res.len() && res@[j] is Some ==> (#[trigger] res@[j])->Some_0 < entries.len(),
    ensures
        items.deep_view() == items_upto(
            order@,
            u.deep_view(),
            res@,
            entries.deep_view(),
            order.len() as int,
        ),
        forall|j: int|
            0 <= j < items.deep_view().len() ==> (#[trigger] items.deep_view()[j].entry)
                < entries.len(),
{
    let ghost uv = u.deep_view();
    let ghost ev = entries.deep_view();
    let mut items: Vec<BibItem> = Vec::new();
    let mut n: usize = 0;
    while n < order.len()
        invariant
            n <= order.len(),
            uv == u.deep_view(),
            ev == entries.deep_view(),
            items.deep_view() =~= items_upto(order@, uv, res@, ev, n as int),
            forall|j: int|
                0 <= j < items.len() ==> (#[trigger] items.deep_view()[j].entry) < entries.len(),
        decreases order.len() - n,
    {
        let ki = order[n];
        if let Some(e) = res[ki] {
            let mut m: usize = 0;
            let mut seen = false;
            while m < items.len()
                invariant
                    m <= items.len(),
                    !seen,
                    e < entries.len(),
                    forall|w: int|
                        0 <= w < m ==> ev[items.deep_view()[w].entry as int].key != ev[e as int].key,
                    forall|j: int|
                        0 <= j < items.len() ==> (#[trigger] items.deep_view()[j].entry)
                            < entries.len(),
                decreases items.len() - m,
            {
                let it_entry = items[m].entry;
                proof {
                    assert(items.deep_view()[m as int] == items[m as int]@);
                    assert(it_entry < entries.len());
                    assert(ev[it_entry as int] == entries[it_entry as int]@);
                    assert(ev[e as int] == entries[e as int]@);
                }
                if crate::chars::vec_eq(&entries[it_entry].key, &entries[e].key) {
                    seen = true;
                    break ;
                }
                m = m + 1;
            }
            proof {
                if seen {
                    assert(entry_key_seen(items.deep_view(), ev, ev[e as int].key)) by {
                        assert(ev[items.deep_view()[m as int].entry as int].key == ev[e as int].key);
                    }
                } else {
                    if entry_key_seen(items.deep_view(), ev, ev[e as int].key) {
                        let w = choose|w: int|
                            0 <= w < items.deep_view().len() && ev[items.deep_view()[w].entry as int].key
                                == ev[e as int].key;
                    }
                }
            }
            if !seen {
                let ghost prev = items.deep_view();
                let anchor = anchor_of_key(&u[ki]);
                proof {
                    assert(uv[ki as int] == u[ki as int]@);
                }
                items.push(BibItem { entry: e, anchor });
                proof {
                    assert(items.deep_view() =~= prev.push(
                        ItemV { entry: e, anchor: anchor_of(uv[ki as int]) },
                    ));
                }
            }
        }
        proof {
            assert(items.deep_view() =~= items_upto(order@, uv, res@, ev, n + 1));
        }
        n = n + 1;
    }
    items
}

/// The final bibliography order on items: first-author surname, year
/// string, then lowercased title, each compared lexicographically;
/// remaining ties keep the representative order.
pub open spec fn item_order(entries: Seq<RecordV>) -> spec_fn(ItemV, ItemV) -> bool {
    |x: ItemV, y: ItemV|
        {
            let rx = entries[x.entry as int];
            let ry = entries[y.entry as int];
            let sx = match surname_lc(rx) {
                Some(s) => s,
                None => Seq::empty(),
            };
            let sy = match surname_lc(ry) {
                Some(s) => s,
                None => Seq::empty(),
            };
            if sx != sy {
                lex_lt(sx, sy)
            } else if year_str(rx) != year_str(ry) {
                lex_lt(year_str(rx), year_str(ry))
            } else if title_sort(rx) != title_sort(ry) {
                lex_lt(title_sort(rx), title_sort(ry))
            } else {
                false
            }
        }
}

/// Decide the final bibliography order.
fn item_lt_exec(entries: &Vec<BibRecord>, x: &BibItem, y: &BibItem) -> (r: bool)
    requires
        x.entry < entries.len(),
        y.entry < entries.len(),
    ensures
        r == item_order(entries.deep_view())(x@, y@),
{
    proof {
        assert(entries.deep_view()[x.entry as int] == entries[x.entry as int]@);
        assert(entries.deep_view()[y.entry as int] == entries[y.entry as int]@);
    }
    let sx = match crate::resolve::get_first_author_last_name(&entries[x.entry]) {
        Some(s) => s,
        None => Vec::new(),
    };
    let sy = match crate::resolve::get_first_author_last_name(&entries[y.entry]) {
        Some(s) => s,
        None => Vec::new(),
    };
    if !crate::chars::vec_eq(&sx, &sy) {
        return lex_lt_exec(&sx, &sy);
    }
    let yx = crate::resolve::get_year_str(&entries[x.entry]);
    let yy = crate::resolve::get_year_str(&entries[y.entry]);
    if !crate::chars::vec_eq(&yx, &yy) {
        return lex_lt_exec(&yx, &yy);
    }
    let tx = crate::resolve::get_entry_title_for_sort(&entries[x.entry]);
    let ty = crate::resolve::get_entry_title_for_sort(&entries[y.entry]);
    if !crate::chars::vec_eq(&tx, &ty) {
        return lex_lt_exec(&tx, &ty);
    }
    false
}

/// Sort the bibliography items into their final order with a stable
/// insertion sort.
pub fn sort_items(entries: &Vec<BibRecord>, items: Vec<BibItem>) -> (sorted: Vec<BibItem>)
    requires
        forall|j: int|
            0 <= j < items.deep_view().len() ==> (#[trigger] items.deep_view()[j].entry)
                < entries.len(),
    ensures
        sorted.deep_view() == sort_upto(
            items.deep_view(),
            items.len() as int,
            item_order(entries.deep_view()),
        ),
        forall|j: int|
            0 <= j < sorted.deep_view().len() ==> (#[trigger] sorted.deep_view()[j].entry)
                < entries.len(),
{
    let ghost src = items.deep_view();
    let ghost lt = item_order(entries.deep_view());
    let mut sorted: Vec<BibItem> = Vec::new();
    let mut i: usize = 0;
    while i < items.len()
        invariant
            i <= items.len(),
            src == items.deep_view(),
            sorted.deep_view() =~= sort_upto(src, i as int, lt),
            forall|j: int|
                0 <= j < sorted.deep_view().len() ==> (#[trigger] sorted.deep_view()[j].entry)
                    < entries.len(),
        decreases items.len() - i,
    {
        let ghost prev = sorted.deep_view();
        let mut pos: usize = 0;
        while pos < sorted.len()
            invariant
                pos <= sorted.len(),
                sorted.deep_view() == prev,
                i < items.len(),
                forall|j: int| 0 <= j < pos ==> !lt(src[i as int], #[trigger] prev[j]),
                forall|j: int|
                    0 <= j < prev.len() ==> (#[trigger] prev[j].entry) < entries.len(),
            decreases sorted.len() - pos,
        {
            proof {
                assert(src[i as int] == items[i as int]@);
                assert(prev[pos as int] == sorted[pos as int]@);
                assert(items.deep_view()[i as int].entry < entries.len());
                assert(prev[pos as int].entry < entries.len());
            }
            let is_lt = item_lt_exec(entries, &items[i], &sorted[pos]);
            if is_lt {
                break ;
            }
            pos = pos + 1;
        }
        let it = BibItem { entry: items[i].entry, anchor: clone_vec_char(&items[i].anchor) };
        proof {
            assert(it@ == src[i as int]);
        }
        sorted.insert(pos, it);
        proof {
            lemma_insert_by_at(prev, src[i as int], lt, pos as int);
            assert(sorted.deep_view() =~= insert_by(prev, src[i as int], lt));
            assert(sorted.deep_view() =~= sort_upto(src, i + 1, lt));
        }
        i = i + 1;
    }
    sorted
}

/// The sort triple of a bibliography item's record.
pub open spec fn item_triple(entries: Seq<RecordV>, x: ItemV) -> (Seq<char>, Seq<char>, Seq<char>) {
    let rx = entries[x.entry as int];
    (
        match surname_lc(rx) {
            Some(s) => s,
            None => Seq::empty(),
        },
        year_str(rx),
        title_sort(rx),
    )
}

/// The final order compares only the triples: equal triples are tied.
pub proof fn lemma_item_order_trichotomy(entries: Seq<RecordV>, x: ItemV, y: ItemV)
    ensures
        item_order(entries)(x, y) || item_order(entries)(y, x) || item_triple(entries, x)
            == item_triple(entries, y),
{
    let tx = item_triple(entries, x);
    let ty = item_triple(entries, y);
    if tx.0 != ty.0 {
        crate::chars::lemma_lex_le_total(tx.0, ty.0);
    } else if tx.1 != ty.1 {
        crate::chars::lemma_lex_le_total(tx.1, ty.1);
    } else if tx.2 != ty.2 {
        crate::chars::lemma_lex_le_total(tx.2, ty.2);
    }
}

/// The final order is asymmetric.
pub proof fn lemma_item_order_asym(entries: Seq<RecordV>, x: ItemV, y: ItemV)
    requires
        item_order(entries)(x, y),
    ensures
        !item_order(entries)(y, x),
{
    let tx = item_triple(entries, x);
    let ty = item_triple(entries, y);
    if item_order(entries)(y, x) {
        if tx.0 != ty.0 {
            crate::chars::lemma_lex_le_antisym(tx.0, ty.0);
        } else if tx.1 != ty.1 {
            crate::chars::lemma_lex_le_antisym(tx.1, ty.1);
        } else if tx.2 != ty.2 {
            crate::chars::lemma_lex_le_antisym(tx.2, ty.2);
        }
    }
}

/// The final order is transitive.
pub proof fn lemma_item_order_trans(entries: Seq<RecordV>, x: ItemV, y: ItemV, z: ItemV)
    requires
        item_order(entries)(x, y),
        item_order(entries)(y, z),
    ensures
        item_order(entries)(x, z),
{
    let tx = item_triple(entries, x);
    let ty = item_triple(entries, y);
    let tz = item_triple(entries, z);
    crate::chars::lemma_lex_le_total(tx.0, ty.0);
    crate::chars::lemma_lex_le_total(ty.0, tz.0);
    crate::chars::lemma_lex_le_total(tx.1, ty.1);
    crate::chars::lemma_lex_le_total(ty.1, tz.1);
    crate::chars::lemma_lex_le_total(tx.2, ty.2);
    crate::chars::lemma_lex_le_total(ty.2, tz.2);
    if tx.0 != ty.0 || ty.0 != tz.0 {
        crate::chars::lemma_lex_le_trans(tx.0, ty.0, tz.0);
        if tx.0 == tz.0 {
            crate::chars::lemma_lex_le_antisym(tx.0, ty.0);
            crate::chars::lemma_lex_le_antisym(ty.0, tz.0);
        }
    } else if tx.1 != ty.1 || ty.1 != tz.1 {
        crate::chars::lemma_lex_le_trans(tx.1, ty.1, tz.1);
        if tx.1 == tz.1 {
            crate::chars::lemma_lex_le_antisym(tx.1, ty.1);
            crate::chars::lemma_lex_le_antisym(ty.1, tz.1);
        }
    } else if tx.2 != ty.2 || ty.2 != tz.2 {
        crate::chars::lemma_lex_le_trans(tx.2, ty.2, tz.2);
        if tx.2 == tz.2 {
            crate::chars::lemma_lex_le_antisym(tx.2, ty.2);
            crate::chars::lemma_lex_le_antisym(ty.2, tz.2);
        }
    }
}

/// The final bibliography list is sorted: no item strictly precedes an
/// earlier one under the (surname, year, title) order, and items tied on
/// the whole triple keep the representative order.
pub proof fn lemma_items_final_sorted(entries: Seq<RecordV>, s: Seq<ItemV>, n: int)
    ensures
        forall|i: int, j: int|
            0 <= i < j < sort_upto(s, n, item_order(entries)).len() ==> !item_order(entries)(
                #[trigger] sort_upto(s, n, item_order(entries))[j],
                #[trigger] sort_upto(s, n, item_order(entries))[i],
            ),
{
    let lt = item_order(entries);
    assert forall|a: ItemV, b: ItemV| #[trigger] lt(a, b) implies !lt(b, a) by {
        lemma_item_order_asym(entries, a, b);
    }
    assert forall|a: ItemV, b: ItemV, c: ItemV|
        !(#[trigger] lt(b, a)) && !(#[trigger] lt(c, b)) implies !lt(c, a) by {
        if lt(c, a) {
            lemma_item_order_trichotomy(entries, a, b);
            lemma_item_order_trichotomy(entries, b, c);
            if lt(a, b) && lt(b, c) {
                lemma_item_order_trans(entries, a, b, c);
                lemma_item_order_asym(entries, a, c);
            }
        }
    }
    crate::resolve::lemma_sort_upto_sorted(s, n, lt);
}

/// First position of key `k` in the unique key list, or `-1`.
pub open spec fn index_of_key(u: Seq<KeyV>, k: KeyV, j: int) -> int
    decreases u.len() - j,
    when 0 <= j
{
    if j >= u.len() {
        -1
    } else if u[j] == k {
        j
    } else {
        index_of_key(u, k, j + 1)
    }
}

/// The anchor of the first item whose entry has the given key string.
pub open spec fn item_anchor_for(
    items: Seq<ItemV>,
    entries: Seq<RecordV>,
    keystr: Seq<char>,
    j: int,
) -> Option<Seq<char>>
    decreases items.len() - j,
    when 0 <= j
{
    if j >= items.len() {
        None
    } else if entries[items[j].entry as int].key == keystr {
        Some(items[j].anchor)
    } else {
        item_anchor_for(items, entries, keystr, j + 1)
    }
}

/// The anchor each citation key links to: the anchor of the bibliography
/// item holding the entry identity the key resolved to, or nothing when
/// the key is unresolved.
pub open spec fn anchor_map(
    u: Seq<KeyV>,
    res: Seq<Option<usize>>,
    entries: Seq<RecordV>,
    items: Seq<ItemV>,
) -> spec_fn(KeyV) -> Option<Seq<char>> {
    |k: KeyV|
        {
            let ki = index_of_key(u, k, 0);
            if ki < 0 {
                None
            } else {
                match res[ki] {
                    Some(e) => item_anchor_for(items, entries, entries[e as int].key, 0),
                    None => None,
                }
            }
        }
}

/// The visible text of a rendered citation: the marker text without the
/// leading `@`.
pub open spec fn link_text(k: KeyV) -> Seq<char> {
    k.author + k.year + k.suffix
}

/// The annotation appended to a marker whose key did not resolve.
pub open spec fn not_found_note() -> Seq<char> {
    " [Reference Not Found]"@
}

/// What one marker becomes: a markdown link to its item's anchor when the
/// key resolved, the original marker plus the not-found annotation when it
/// did not.
pub open spec fn replacement(k: KeyV, aopt: Option<Seq<char>>, prefix: Seq<char>) -> Seq<char> {
    match aopt {
        Some(a) => seq!['['] + link_text(k) + seq![']', '('] + prefix + seq!['#'] + a + seq![')'],
        None => seq!['@'] + link_text(k) + not_found_note(),
    }
}

/// The document after the single-pass substitution of every marker
/// occurrence from position `i` on.
pub open spec fn rewrite_from(
    s: Seq<char>,
    i: int,
    amap: spec_fn(KeyV) -> Option<Seq<char>>,
    prefix: Seq<char>,
) -> Seq<char>
    decreases s.len() - i,
    when 0 <= i
{
    if i >= s.len() {
        Seq::empty()
    } else if s[i] == '@' && marker_match_at(s, i) is Some {
        let ke = marker_match_at(s, i)->Some_0;
        replacement(ke.0, amap(ke.0), prefix) + rewrite_from(
            s,
            if ke.1 > i {
                ke.1
            } else {
                i + 1
            },
            amap,
            prefix,
        )
    } else {
        seq![s[i]] + rewrite_from(s, i + 1, amap, prefix)
    }
}

/// Append the characters of `w` to `v`.
fn push_all(v: &mut Vec<char>, w: &Vec<char>)
    ensures
        final(v)@ == old(v)@ + w@,
{
    let mut i: usize = 0;
    while i < w.len()
        invariant
            i <= w.len(),
            v@ =~= old(v)@ + w@.take(i as int),
        decreases w.len() - i,
    {
        v.push(w[i]);
        assert(v@ =~= old(v)@ + w@.take(i + 1));
        i = i + 1;
    }
    assert(v@ =~= old(v)@ + w@);
}

/// Find the position of a key in the unique key list.
fn exec_index_of_key(u: &Vec<CitationKey>, k: &CitationKey) -> (r: Option<usize>)
    ensures
        match r {
            Some(ki) => ki < u.len() && index_of_key(u.deep_view(), k@, 0) == ki as int,
            None => index_of_key(u.deep_view(), k@, 0) == -1,
        },
{
    let ghost uv = u.deep_view();
    let mut j: usize = 0;
    while j < u.len()
        invariant
            j <= u.len(),
            index_of_key(uv, k@, 0) == index_of_key(uv, k@, j as int),
        decreases u.len() - j,
    {
        proof {
            assert(uv[j as int] == u[j as int]@);
        }
        if key_eq(&u[j], k) {
            return Some(j);
        }
        j = j + 1;
    }
    None
}

/// Find the anchor of the item holding the given entry key string.
fn exec_item_anchor_for(
    items: &Vec<BibItem>,
    entries: &Vec<BibRecord>,
    keystr: &Vec<char>,
) -> (r: Option<Vec<char>>)
    requires
        forall|j: int|
            0 <= j < items.deep_view().len() ==> (#[trigger] items.deep_view()[j].entry)
                < entries.len(),
    ensures
        match r {
            Some(a) => item_anchor_for(items.deep_view(), entries.deep_view(), keystr@, 0)
                == Some(a@),
            None => item_anchor_for(items.deep_view(), entries.deep_view(), keystr@, 0) is None,
        },
{
    let ghost iv = items.deep_view();
    let ghost ev = entries.deep_view();
    let mut j: usize = 0;
    while j < items.len()
        invariant
            j <= items.len(),
            item_anchor_for(iv, ev, keystr@, 0) == item_anchor_for(iv, ev, keystr@, j as int),
        decreases items.len() - j,
    {
        proof {
            assert(iv[j as int] == items[j as int]@);
            assert(iv[j as int].entry < entries.len());
            assert(ev[items[j as int].entry as int] == entries[items[j as int].entry as int]@);
        }
        let e = items[j].entry;
        if crate::chars::vec_eq(&entries[e].key, keystr) {
            return Some(clone_vec_char(&items[j].anchor));
        }
        j = j + 1;
    }
    None
}

/// Rewrite every marker occurrence of the document: resolved keys become
/// markdown links whose visible text is the marker without its `@` and
/// whose target is the link prefix plus the item's anchor; unresolved keys
/// keep the marker text followed by the not-found annotation.
pub fn rewrite_document(
    doc: &Vec<char>,
    u: &Vec<CitationKey>,
    res: &Vec<Option<usize>>,
    entries: &Vec<BibRecord>,
    items: &Vec<BibItem>,
    prefix: &Vec<char>,
) -> (out: Vec<char>)
    requires
        res.len() == u.len(),
        forall|j: int|
            0 <= j < res.len() && res@[j] is Some ==> (#[trigger] res@[j])->Some_0 < entries.len(),
        forall|j: int|
            0 <= j < items.deep_view().len() ==> (#[trigger] items.deep_view()[j].entry)
                < entries.len(),
    ensures
        out@ == rewrite_from(
            doc@,
            0,
            anchor_map(u.deep_view(), res@, entries.deep_view(), items.deep_view()),
            prefix@,
        ),
{
    let ghost amap = anchor_map(u.deep_view(), res@, entries.deep_view(), items.deep_view());
    let ghost ev = entries.deep_view();
    let mut out: Vec<char> = Vec::new();
    let mut i: usize = 0;
    while i < doc.len()
        invariant
            i <= doc.len(),
            res.len() == u.len(),
            rewrite_from(doc@, 0, amap, prefix@) =~= out@ + rewrite_from(
                doc@,
                i as int,
                amap,
                prefix@,
            ),
        decreases doc.len() - i,
    {
        let mut stepped = false;
        if doc[i] == '@' {
            if let Some((k, e_pos)) = try_marker_at(doc, i) {
                let ghost kv = k@;
                let ghost before = out@;
                // the anchor this key links to, if it resolved
                let mut aopt: Option<Vec<char>> = None;
                if let Some(ki) = exec_index_of_key(u, &k) {
                    if let Some(eidx) = res[ki] {
                        proof {
                            assert(res@[ki as int] is Some);
                            assert(eidx < entries.len());
                            assert(ev[eidx as int] == entries[eidx as int]@);
                        }
                        aopt = exec_item_anchor_for(items, entries, &entries[eidx].key);
                    }
                }
                proof {
                    assert(match aopt {
                        Some(a) => amap(kv) == Some(a@),
                        None => amap(kv) is None,
                    });
                }
                match aopt {
                    Some(a) => {
                        out.push('[');
                        push_all(&mut out, &k.author);
                        push_all(&mut out, &k.year);
                        push_all(&mut out, &k.suffix);
                        out.push(']');
                        out.push('(');
                        push_all(&mut out, prefix);
                        out.push('#');
                        push_all(&mut out, &a);
                        out.push(')');
                        proof {
                            assert(out@ =~= before + replacement(kv, amap(kv), prefix@));
                        }
                    },
                    None => {
                        out.push('@');
                        push_all(&mut out, &k.author);
                        push_all(&mut out, &k.year);
                        push_all(&mut out, &k.suffix);
                        let note = crate::chars::chars_of(" [Reference Not Found]");
                        push_all(&mut out, &note);
                        proof {
                            assert(out@ =~= before + replacement(kv, amap(kv), prefix@));
                        }
                    },
                }
                proof {
                    assert(rewrite_from(doc@, 0, amap, prefix@) =~= out@ + rewrite_from(
                        doc@,
                        e_pos as int,
                        amap,
                        prefix@,
                    ));
                }
                i = e_pos;
                stepped = true;
            }
        }
        if !stepped {
            let ghost before = out@;
            out.push(doc[i]);
            proof {
                assert(out@ =~= before + seq![doc@[i as int]]);
                assert(rewrite_from(doc@, 0, amap, prefix@) =~= out@ + rewrite_from(
                    doc@,
                    i + 1,
                    amap,
                    prefix@,
                ));
            }
            i = i + 1;
        }
    }
    out
}

/// A document without citation markers passes through the rewrite
/// unchanged, whatever the anchor map.
pub proof fn lemma_rewrite_no_markers(
    s: Seq<char>,
    i: int,
    amap: spec_fn(KeyV) -> Option<Seq<char>>,
    prefix: Seq<char>,
)
    requires
        0 <= i <= s.len(),
        crate::citation::scan_markers(s, i).len() == 0,
    ensures
        rewrite_from(s, i, amap, prefix) =~= s.skip(i),
    decreases s.len() - i,
{
    if i < s.len() {
        if s[i] == '@' && marker_match_at(s, i) is Some {
            assert(crate::citation::scan_markers(s, i).len() >= 1);
        } else {
            lemma_rewrite_no_markers(s, i + 1, amap, prefix);
            assert(rewrite_from(s, i, amap, prefix) =~= seq![s[i]] + s.skip(i + 1));
            assert(seq![s[i]] + s.skip(i + 1) =~= s.skip(i));
        }
    }
}

/// One bibliography heading line: a level-two heading carrying the item's
/// anchor as an in-document target, followed by the formatted entry text.
pub open spec fn heading_line(anchor: Seq<char>, formatted: Seq<char>) -> Seq<char> {
    "## <a name=\""@ + anchor + "\"></a>"@ + formatted
}

/// The item lines, each preceded by a newline.
pub open spec fn bib_lines(items: Seq<ItemV>, fmt: Seq<Seq<char>>, n: int) -> Seq<char>
    decreases n,
{
    if n <= 0 {
        Seq::empty()
    } else {
        bib_lines(items, fmt, n - 1) + seq!['\n'] + heading_line(items[n - 1].anchor, fmt[n - 1])
    }
}

/// The placeholder shown when the document held no citation keys at all.
pub open spec fn no_keys_note() -> Seq<char> {
    "*(No citation keys found in Markdown input)*"@
}

/// The placeholder shown when keys existed but none resolved to an entry.
pub open spec fn no_match_note() -> Seq<char> {
    "*(No BibTeX entries found matching any citation keys)*"@
}

/// The full bibliography text: the heading, then the item lines; when no
/// item exists, a placeholder that distinguishes a document without
/// citation keys from one whose keys all failed to resolve.
pub open spec fn bib_text(items: Seq<ItemV>, fmt: Seq<Seq<char>>, had_keys: bool) -> Seq<char> {
    if items.len() == 0 {
        "# Bibliography\n\n"@ + (if had_keys {
            no_match_note()
        } else {
            no_keys_note()
        })
    } else {
        "# Bibliography\n"@ + bib_lines(items, fmt, items.len() as int)
    }
}

/// Render the bibliography text from the sorted items and their formatted
/// display texts.
pub fn render_bibliography(items: &Vec<BibItem>, formatted: &Vec<String>, had_keys: bool) -> (r:
    String)
    requires
        formatted.len() == items.len(),
    ensures
        r@ == bib_text(items.deep_view(), formatted.deep_view(), had_keys),
{
    let ghost iv = items.deep_view();
    let ghost fv = formatted.deep_view();
    let mut out: Vec<char> = Vec::new();
    if items.len() == 0 {
        let head = crate::chars::chars_of("# Bibliography\n\n");
        push_all(&mut out, &head);
        if had_keys {
            let note = crate::chars::chars_of("*(No BibTeX entries found matching any citation keys)*");
            push_all(&mut out, &note);
        } else {
            let note = crate::chars::chars_of("*(No citation keys found in Markdown input)*");
            push_all(&mut out, &note);
        }
        assert(out@ =~= bib_text(iv, fv, had_keys));
        return crate::chars::string_of(&out);
    }
    let head = crate::chars::chars_of("# Bibliography\n");
    push_all(&mut out, &head);
    let open_tag = crate::chars::chars_of("## <a name=\"");
    let close_tag = crate::chars::chars_of("\"></a>");
    let mut j: usize = 0;
    while j < items.len()
        invariant
            j <= items.len(),
            formatted.len() == items.len(),
            iv == items.deep_view(),
            fv == formatted.deep_view(),
            open_tag@ == "## <a name=\""@,
            close_tag@ == "\"></a>"@,
            out@ =~= "# Bibliography\n"@ + bib_lines(iv, fv, j as int),
        decreases items.len() - j,
    {
        out.push('\n');
        push_all(&mut out, &open_tag);
        push_all(&mut out, &items[j].anchor);
        push_all(&mut out, &close_tag);
        let fchars = crate::chars::chars_of(formatted[j].as_str());
        push_all(&mut out, &fchars);
        proof {
            assert(iv[j as int] == items[j as int]@);
            assert(fv[j as int] == formatted[j as int]@);
            assert(out@ =~= "# Bibliography\n"@ + bib_lines(iv, fv, j + 1));
        }
        j = j + 1;
    }
    assert(out@ =~= bib_text(iv, fv, had_keys));
    crate::chars::string_of(&out)
}

/// The unique key list holds no key twice.
pub proof fn lemma_uniq_distinct(ms: Seq<KeyV>, n: int)
    ensures
        forall|i1: int, i2: int|
            0 <= i1 < i2 < uniq_keys_upto(ms, n).len() ==> uniq_keys_upto(ms, n)[i1]
                != uniq_keys_upto(ms, n)[i2],
    decreases n,
{
    if n > 0 {
        lemma_uniq_distinct(ms, n - 1);
        let p = uniq_keys_upto(ms, n - 1);
        let q = uniq_keys_upto(ms, n);
        if !p.contains(ms[n - 1]) {
            assert forall|i1: int, i2: int| 0 <= i1 < i2 < q.len() implies q[i1] != q[i2] by {
                if i2 == p.len() {
                    if q[i1] == q[i2] {
                        assert(p.contains(ms[n - 1])) by {
                            assert(p[i1] == ms[n - 1]);
                        }
                    }
                }
            }
        }
    }
}

/// On a duplicate-free key list, looking a key up finds its own position.
pub proof fn lemma_index_of_key_self(u: Seq<KeyV>, ki: int, j: int)
    requires
        0 <= j <= ki < u.len(),
        forall|m: int| j <= m < ki ==> u[m] != u[ki],
    ensures
        index_of_key(u, u[ki], j) == ki,
    decreases ki - j,
{
    if j < ki {
        lemma_index_of_key_self(u, ki, j + 1);
    }
}

/// An item anchor is found exactly when some item carries the key string.
pub proof fn lemma_anchor_for_seen(items: Seq<ItemV>, entries: Seq<RecordV>, ks: Seq<char>, j: int)
    requires
        0 <= j,
    ensures
        (item_anchor_for(items, entries, ks, j) is Some) <==> exists|m: int|
            j <= m < items.len() && entries[items[m].entry as int].key == ks,
    decreases items.len() - j,
{
    if j < items.len() {
        lemma_anchor_for_seen(items, entries, ks, j + 1);
        if entries[items[j].entry as int].key == ks {
            assert(exists|m: int| j <= m < items.len() && entries[items[m].entry as int].key == ks)
                by {
                assert(entries[items[j].entry as int].key == ks);
            }
        }
    }
}

/// Appending an item does not change an anchor already found.
pub proof fn lemma_anchor_for_push(
    items: Seq<ItemV>,
    entries: Seq<RecordV>,
    ks: Seq<char>,
    x: ItemV,
    j: int,
)
    requires
        0 <= j,
        item_anchor_for(items, entries, ks, j) is Some,
    ensures
        item_anchor_for(items.push(x), entries, ks, j) == item_anchor_for(items, entries, ks, j),
    decreases items.len() - j,
{
    if j < items.len() {
        assert(items.push(x)[j] == items[j]);
        if entries[items[j].entry as int].key != ks {
            lemma_anchor_for_push(items, entries, ks, x, j + 1);
        }
    }
}

/// Deduplication works: no two bibliography items share an entry identity.
pub proof fn lemma_items_distinct(
    order: Seq<usize>,
    u: Seq<KeyV>,
    res: Seq<Option<usize>>,
    entries: Seq<RecordV>,
    n: int,
)
    ensures
        forall|m1: int, m2: int|
            0 <= m1 < m2 < items_upto(order, u, res, entries, n).len() ==> entries[items_upto(
                order,
                u,
                res,
                entries,
                n,
            )[m1].entry as int].key != entries[items_upto(order, u, res, entries, n)[m2].entry as int].key,
    decreases n,
{
    if n > 0 {
        lemma_items_distinct(order, u, res, entries, n - 1);
        let p = items_upto(order, u, res, entries, n - 1);
        let q = items_upto(order, u, res, entries, n);
        if q.len() == p.len() + 1 {
            assert forall|m1: int, m2: int|
                0 <= m1 < m2 < q.len() implies entries[q[m1].entry as int].key != entries[q[m2].entry as int].key by {
                if m2 == p.len() {
                    assert(!entry_key_seen(p, entries, entries[q[m2].entry as int].key));
                    assert(q[m1] == p[m1]);
                }
            }
        }
    }
}

/// Every key that resolved finds a bibliography item carrying its entry's
/// identity, once its position in the representative order was processed.
pub proof fn lemma_resolved_has_item(
    order: Seq<usize>,
    u: Seq<KeyV>,
    res: Seq<Option<usize>>,
    entries: Seq<RecordV>,
    n: int,
    j: int,
)
    requires
        0 <= j < n <= order.len(),
        0 <= order[j] < res.len(),
        res[order[j] as int] is Some,
    ensures
        item_anchor_for(
            items_upto(order, u, res, entries, n),
            entries,
            entries[res[order[j] as int]->Some_0 as int].key,
            0,
        ) is Some,
    decreases n,
{
    let ks = entries[res[order[j] as int]->Some_0 as int].key;
    let p = items_upto(order, u, res, entries, n - 1);
    let q = items_upto(order, u, res, entries, n);
    if j == n - 1 {
        let e = res[order[j] as int]->Some_0;
        if entry_key_seen(p, entries, ks) {
            lemma_anchor_for_seen(p, entries, ks, 0);
            assert(q == p);
        } else {
            lemma_anchor_for_seen(q, entries, ks, 0);
            assert(entries[q[p.len() as int].entry as int].key == ks);
        }
    } else {
        lemma_resolved_has_item(order, u, res, entries, n - 1, j);
        if q.len() == p.len() + 1 {
            lemma_anchor_for_push(p, entries, ks, q[p.len() as int], 0);
            assert(q =~= p.push(q[p.len() as int]));
        } else {
            assert(q == p);
        }
    }
}

/// Two distinct markdown keys that resolve to the same entry identity
/// produce exactly one bibliography item between them, and the anchor map
/// sends both keys to that item's single anchor, so both markers in the
/// body link to the same target.
pub proof fn lemma_same_entry_single_anchor(
    order: Seq<usize>,
    u: Seq<KeyV>,
    res: Seq<Option<usize>>,
    entries: Seq<RecordV>,
    ki1: usize,
    ki2: usize,
    j1: int,
    j2: int,
)
    requires
        res.len() == u.len(),
        forall|i1: int, i2: int| 0 <= i1 < i2 < u.len() ==> u[i1] != u[i2],
        ki1 < u.len(),
        ki2 < u.len(),
        0 <= j1 < order.len() && order[j1] == ki1,
        0 <= j2 < order.len() && order[j2] == ki2,
        res[ki1 as int] is Some,
        res[ki2 as int] is Some,
        entries[res[ki1 as int]->Some_0 as int].key == entries[res[ki2 as int]->Some_0 as int].key,
    ensures
        ({
            let pre = items_upto(order, u, res, entries, order.len() as int);
            let fin = sort_upto(pre, pre.len() as int, item_order(entries));
            let amap = anchor_map(u, res, entries, fin);
            &&& amap(u[ki1 as int]) is Some
            &&& amap(u[ki1 as int]) == amap(u[ki2 as int])
            &&& forall|m1: int, m2: int|
                0 <= m1 < m2 < fin.len() ==> entries[fin[m1].entry as int].key != entries[fin[m2].entry as int].key
        }),
{
    let pre = items_upto(order, u, res, entries, order.len() as int);
    let lt = item_order(entries);
    let fin = sort_upto(pre, pre.len() as int, lt);
    let ks = entries[res[ki1 as int]->Some_0 as int].key;
    lemma_items_distinct(order, u, res, entries, order.len() as int);
    // the pre-sort items are distinct as values, so the sorted list is too
    assert forall|i: int, j: int| 0 <= i < j < pre.len() implies pre[i] != pre[j] by {
        assert(entries[pre[i].entry as int].key != entries[pre[j].entry as int].key);
    }
    crate::resolve::lemma_sort_upto_distinct(pre, pre.len() as int, lt);
    // sorting permutes the items, so each sorted item is some pre-sort item
    assert forall|m1: int, m2: int|
        0 <= m1 < m2 < fin.len() implies entries[fin[m1].entry as int].key != entries[fin[m2].entry as int].key by {
        if entries[fin[m1].entry as int].key == entries[fin[m2].entry as int].key {
            assert(fin[m1] != fin[m2]);
            crate::resolve::lemma_sort_upto_contains(pre, pre.len() as int, lt, fin[m1]);
            crate::resolve::lemma_sort_upto_contains(pre, pre.len() as int, lt, fin[m2]);
            assert(fin.contains(fin[m1]));
            assert(fin.contains(fin[m2]));
            let i1 = choose|i: int| 0 <= i < pre.len() && #[trigger] pre[i] == fin[m1];
            let i2 = choose|i: int| 0 <= i < pre.len() && #[trigger] pre[i] == fin[m2];
            assert(entries[pre[i1].entry as int].key != entries[pre[i2].entry as int].key);
        }
    }
    // the item holding the shared identity survives the sort
    lemma_resolved_has_item(order, u, res, entries, order.len() as int, j1);
    lemma_anchor_for_seen(pre, entries, ks, 0);
    let w = choose|w: int| 0 <= w < pre.len() && entries[#[trigger] pre[w].entry as int].key == ks;
    crate::resolve::lemma_sort_upto_contains(pre, pre.len() as int, lt, pre[w]);
    assert(exists|i: int| 0 <= i < pre.len() && #[trigger] pre[i] == pre[w]) by {
        assert(pre[w] == pre[w]);
    }
    assert(fin.contains(pre[w]));
    let v = choose|v: int| 0 <= v < fin.len() && #[trigger] fin[v] == pre[w];
    lemma_anchor_for_seen(fin, entries, ks, 0);
    assert(exists|m: int| 0 <= m < fin.len() && entries[#[trigger] fin[m].entry as int].key == ks)
        by {
        assert(entries[fin[v].entry as int].key == ks);
    }
    lemma_index_of_key_self(u, ki1 as int, 0);
    lemma_index_of_key_self(u, ki2 as int, 0);
}

/// For every well-formed marker whose suffix is not `'a'`, the visible
/// link text of a resolved citation is the marker text without the leading
/// `@`: the author token followed by the year token when the suffix is
/// empty, and author, year and suffix otherwise.
pub proof fn lemma_visible_link_text(k: KeyV, a: Seq<char>, prefix: Seq<char>)
    requires
        k.suffix != seq!['a'],
    ensures
        k.suffix.len() == 0 ==> replacement(k, Some(a), prefix) =~= seq!['['] + k.author + k.year
            + seq![']', '('] + prefix + seq!['#'] + a + seq![')'],
        k.suffix.len() != 0 ==> replacement(k, Some(a), prefix) =~= seq!['['] + k.author + k.year
            + k.suffix + seq![']', '('] + prefix + seq!['#'] + a + seq![')'],
{
}

/// Copy a character vector.
fn clone_vec_char(v: &Vec<char>) -> (r: Vec<char>)
    ensures
        r@ == v@,
{
    let mut out: Vec<char> = Vec::new();
    let mut i: usize = 0;
    while i < v.len()
        invariant
            i <= v.len(),
            out@ =~= v@.take(i as int),
        decreases v.len() - i,
    {
        out.push(v[i]);
        assert(out@ =~= v@.take(i + 1));
        i = i + 1;
    }
    assert(out@ =~= v@);
    out
}

} // verus!
