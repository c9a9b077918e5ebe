//! What an editor of the associations lists: the mime types to choose from, and the
//! applications, ordered by name.

use vstd::prelude::*;
use core::cmp::Ordering;
use crate::association_store::{in_some_scope, MimeTypeAssociationStore};
use crate::desktop_entry::{mime_views, sort_name, spec_to_lowercase, DesktopEntry, DesktopEntryView};
use crate::desktop_entry_store::{effective_entries, entries_supporting, ids_increasing, ref_views, DesktopEntryStore};
use crate::mime_type::MimeType;
use crate::text::{compare_str, lemma_lex_compare_antisym, lemma_lex_compare_equal, lemma_lex_compare_trans, lex_compare, strictly_sorted, texts};

verus! {

/// The text an entry is ordered by: its name (its id where it has none), lower cased.
pub open spec fn name_key(e: DesktopEntryView) -> Seq<char> {
    spec_to_lowercase(sort_name(e))
}

/// `a` comes before `b`: its name, ignoring case, is less, or the names are the same and its
/// id is less.
pub open spec fn precedes_by_name(a: DesktopEntryView, b: DesktopEntryView) -> bool {
    ||| lex_compare(name_key(a), name_key(b)) < 0
    ||| (lex_compare(name_key(a), name_key(b)) == 0 && lex_compare(a.id, b.id) < 0)
}

/// `true` when each entry of `s` comes before the entries after it.
pub open spec fn sorted_by_name(s: Seq<DesktopEntryView>) -> bool {
    forall|i: int, j: int| 0 <= i < j < s.len() ==> precedes_by_name(#[trigger] s[i], #[trigger] s[j])
}

/// `true` when some of `entries` declares `m`.
pub open spec fn declared_by_some(entries: Seq<DesktopEntryView>, m: Seq<char>) -> bool {
    entries_supporting(entries, m).len() > 0
}

proof fn lemma_precedes_trans(a: DesktopEntryView, b: DesktopEntryView, c: DesktopEntryView)
    requires
        precedes_by_name(a, b),
        precedes_by_name(b, c),
    ensures
        precedes_by_name(a, c),
{
    lemma_lex_compare_trans(name_key(a), name_key(b), name_key(c));
    if lex_compare(name_key(a), name_key(c)) == 0 {
        lemma_lex_compare_trans(a.id, b.id, c.id);
    }
}

proof fn lemma_precedes_total(a: DesktopEntryView, b: DesktopEntryView)
    requires
        a.id != b.id,
    ensures
        precedes_by_name(a, b) || precedes_by_name(b, a),
{
    lemma_lex_compare_antisym(name_key(a), name_key(b));
    lemma_lex_compare_antisym(a.id, b.id);
    lemma_lex_compare_equal(a.id, b.id);
}

proof fn lemma_precedes_irreflexive(a: DesktopEntryView)
    ensures
        !precedes_by_name(a, a),
{
    lemma_lex_compare_equal(name_key(a), name_key(a));
    lemma_lex_compare_equal(a.id, a.id);
}

/// Two arrangements ordered by name of the same entries are the same.
pub proof fn lemma_sorted_by_name_unique(a: Seq<DesktopEntryView>, b: Seq<DesktopEntryView>)
    requires
        sorted_by_name(a),
        sorted_by_name(b),
        forall|e: DesktopEntryView| a.contains(e) <==> b.contains(e),
    ensures
        a == b,
    decreases a.len(),
{
    if a.len() == 0 {
        if b.len() > 0 {
            assert(b.contains(b[0]));
        }
        assert(b =~= a);
    } else {
        let a0 = a[0];
        assert(a.contains(a0));
        let j = choose|j: int| 0 <= j < b.len() && b[j] == a0;
        let b0 = b[0];
        assert(b.contains(b0));
        let k = choose|k: int| 0 <= k < a.len() && a[k] == b0;
        if j > 0 && k > 0 {
            assert(precedes_by_name(a[0], a[k]));
            assert(precedes_by_name(b[0], b[j]));
            lemma_precedes_trans(a0, b0, a0);
            lemma_precedes_irreflexive(a0);
        }
        assert(a0 == b0);
        let ta = a.drop_first();
        let tb = b.drop_first();
        assert forall|e: DesktopEntryView| ta.contains(e) <==> tb.contains(e) by {
            if ta.contains(e) {
                let q = choose|q: int| 0 <= q < ta.len() && ta[q] == e;
                assert(a[q + 1] == e);
                assert(precedes_by_name(a[0], a[q + 1]));
                lemma_precedes_irreflexive(a0);
                assert(a.contains(e));
                let w = choose|w: int| 0 <= w < b.len() && b[w] == e;
                assert(w != 0);
                assert(tb[w - 1] == e);
            }
            if tb.contains(e) {
                let q = choose|q: int| 0 <= q < tb.len() && tb[q] == e;
                assert(b[q + 1] == e);
                assert(precedes_by_name(b[0], b[q + 1]));
                lemma_precedes_irreflexive(b0);
                assert(b.contains(e));
                let w = choose|w: int| 0 <= w < a.len() && a[w] == e;
                assert(w != 0);
                assert(ta[w - 1] == e);
            }
        }
        assert forall|x: int, y: int| 0 <= x < y < ta.len() implies precedes_by_name(#[trigger] ta[x], #[trigger] ta[y]) by {
            assert(ta[x] == a[x + 1] && ta[y] == a[y + 1]);
        }
        assert forall|x: int, y: int| 0 <= x < y < tb.len() implies precedes_by_name(#[trigger] tb[x], #[trigger] tb[y]) by {
            assert(tb[x] == b[x + 1] && tb[y] == b[y + 1]);
        }
        lemma_sorted_by_name_unique(ta, tb);
        assert(a =~= seq![a0] + ta);
        assert(b =~= seq![b0] + tb);
    }
}

/// Whether `a` comes before `b`.
fn entry_precedes(a: &DesktopEntry, b: &DesktopEntry) -> (r: bool)
    ensures
        r == precedes_by_name(a@, b@),
{
    match a.cmp_by_name_alpha_inensitive(b) {
        Ordering::Less => true,
        Ordering::Greater => false,
        Ordering::Equal => compare_str(a.id().id(), b.id().id()) < 0,
    }
}

/// Where `x` goes among the sorted `r`: after the entries that come before it.
fn insertion_point(r: &Vec<&DesktopEntry>, x: &DesktopEntry) -> (p: usize)
    requires
        sorted_by_name(ref_views(r@)),
        forall|k: int| 0 <= k < r@.len() ==> (#[trigger] r@[k])@.id != x@.id,
    ensures
        p <= r@.len(),
        forall|k: int| 0 <= k < p ==> precedes_by_name((#[trigger] r@[k])@, x@),
        forall|k: int| p <= k < r@.len() ==> precedes_by_name(x@, (#[trigger] r@[k])@),
{
    let mut i: usize = 0;
    while i < r.len()
        invariant
            i <= r@.len(),
            sorted_by_name(ref_views(r@)),
            forall|k: int| 0 <= k < r@.len() ==> (#[trigger] r@[k])@.id != x@.id,
            forall|k: int| 0 <= k < i ==> precedes_by_name((#[trigger] r@[k])@, x@),
        decreases r@.len() - i,
    {
        if entry_precedes(x, r[i]) {
            proof {
                assert forall|k: int| i <= k < r@.len() implies precedes_by_name(x@, (#[trigger] r@[k])@) by {
                    if k > i {
                        assert(ref_views(r@)[i as int] == r@[i as int]@ && ref_views(r@)[k] == r@[k]@);
                        lemma_precedes_trans(x@, r@[i as int]@, r@[k]@);
                    }
                }
            }
            return i;
        }
        proof {
            lemma_precedes_total(x@, r@[i as int]@);
        }
        i = i + 1;
    }
    i
}

/// The entries of `v`, ordered by name.
fn sort_by_name<'a>(v: Vec<&'a DesktopEntry>) -> (r: Vec<&'a DesktopEntry>)
    requires
        ids_increasing(ref_views(v@)),
    ensures
        sorted_by_name(ref_views(r@)),
        r@.len() == v@.len(),
        forall|e: DesktopEntryView| ref_views(r@).contains(e) <==> ref_views(v@).contains(e),
{
    let ghost vs = ref_views(v@);
    let mut r: Vec<&'a DesktopEntry> = Vec::new();
    let mut i: usize = 0;
    while i < v.len()
        invariant
            i <= v@.len(),
            vs == ref_views(v@),
            ids_increasing(vs),
            r@.len() == i,
            sorted_by_name(ref_views(r@)),
            forall|e: DesktopEntryView| ref_views(r@).contains(e) <==> vs.take(i as int).contains(e),
            forall|k: int, j: int| 0 <= k < r@.len() && i <= j < vs.len() ==> lex_compare((#[trigger] r@[k])@.id, #[trigger] vs[j].id) < 0,
        decreases v@.len() - i,
    {
        let x = v[i];
        assert(vs[i as int] == x@);
        proof {
            assert forall|k: int| 0 <= k < r@.len() implies (#[trigger] r@[k])@.id != x@.id by {
                assert(lex_compare(r@[k]@.id, vs[i as int].id) < 0);
                lemma_lex_compare_equal(r@[k]@.id, x@.id);
            }
        }
        let p = insertion_point(&r, x);
        let ghost old_r = r@;
        r.insert(p, x);
        proof {
            old_r.insert_ensures(p as int, x);
            assert(r@ == old_r.insert(p as int, x));
            assert forall|a: int, b: int| 0 <= a < b < ref_views(r@).len() implies precedes_by_name(#[trigger] ref_views(r@)[a], #[trigger] ref_views(r@)[b]) by {
                let ra = if a < p { a } else { a - 1 };
                let rb = if b < p { b } else { b - 1 };
                if a == p {
                    assert(r@[b] == old_r[rb]);
                } else if b == p {
                    assert(r@[a] == old_r[ra]);
                } else {
                    assert(r@[a] == old_r[ra] && r@[b] == old_r[rb]);
                    assert(ref_views(old_r)[ra] == old_r[ra]@ && ref_views(old_r)[rb] == old_r[rb]@);
                }
            }
            assert forall|e: DesktopEntryView| ref_views(r@).contains(e) <==> vs.take(i + 1).contains(e) by {
                let t0 = vs.take(i as int);
                let t1 = vs.take(i + 1);
                if ref_views(r@).contains(e) {
                    let q = choose|q: int| 0 <= q < ref_views(r@).len() && ref_views(r@)[q] == e;
                    if q != p {
                        let rq = if q < p { q } else { q - 1 };
                        assert(r@[q] == old_r[rq]);
                        assert(ref_views(old_r)[rq] == e);
                        assert(ref_views(old_r).contains(e));
                        assert(t0.contains(e));
                        let w = choose|w: int| 0 <= w < t0.len() && t0[w] == e;
                        assert(t1[w] == e);
                    } else {
                        assert(t1[i as int] == e);
                    }
                }
                if t1.contains(e) {
                    let q = choose|q: int| 0 <= q < t1.len() && t1[q] == e;
                    if q < i {
                        assert(t0[q] == e);
                        assert(t0.contains(e));
                        assert(ref_views(old_r).contains(e));
                        let w = choose|w: int| 0 <= w < ref_views(old_r).len() && ref_views(old_r)[w] == e;
                        let nw = if w < p { w } else { w + 1 };
                        assert(r@[nw] == old_r[w]);
                        assert(ref_views(r@)[nw] == e);
                    } else {
                        assert(e == x@);
                        assert(ref_views(r@)[p as int] == e);
                    }
                }
            }
            assert forall|k: int, j: int| 0 <= k < r@.len() && i + 1 <= j < vs.len() implies lex_compare((#[trigger] r@[k])@.id, #[trigger] vs[j].id) < 0 by {
                if k == p {
                    assert(r@[k] == x);
                } else {
                    let rk = if k < p { k } else { k - 1 };
                    assert(r@[k] == old_r[rk]);
                }
            }
        }
        i = i + 1;
    }
    assert(vs.take(i as int) =~= vs);
    r
}

/// The applications an editor lists: those in effect that declare some mime type, ordered by
/// name ignoring case (by id where the names are the same).
pub fn applications_to_list(store: &DesktopEntryStore) -> (r: Vec<&DesktopEntry>)
    ensures
        sorted_by_name(ref_views(r@)),
        forall|e: DesktopEntryView| ref_views(r@).contains(e) <==> (effective_entries(store@).contains(e) && e.mime_types.len() > 0),
{
    let all = store.desktop_entries();
    let ghost avs = ref_views(all@);
    let mut kept: Vec<&DesktopEntry> = Vec::new();
    let mut i: usize = 0;
    while i < all.len()
        invariant
            i <= all@.len(),
            avs == ref_views(all@),
            avs == effective_entries(store@),
            ids_increasing(avs),
            ids_increasing(ref_views(kept@)),
            forall|e: DesktopEntryView| ref_views(kept@).contains(e) <==> (avs.take(i as int).contains(e) && e.mime_types.len() > 0),
            forall|k: int, j: int| 0 <= k < kept@.len() && i <= j < avs.len() ==> lex_compare((#[trigger] kept@[k])@.id, #[trigger] avs[j].id) < 0,
        decreases all@.len() - i,
    {
        let ghost before = kept@;
        assert(avs[i as int] == all@[i as int]@);
        assert(avs.take(i + 1) =~= avs.take(i as int).push(all@[i as int]@));
        let declared = all[i].mime_types();
        assert(mime_views(declared@).len() == declared@.len());
        if declared.len() > 0 {
            kept.push(all[i]);
            proof {
                assert(ref_views(kept@) =~= ref_views(before).push(all@[i as int]@));
                assert forall|a: int, b: int| 0 <= a < b < ref_views(kept@).len() implies lex_compare((#[trigger] ref_views(kept@)[a]).id, (#[trigger] ref_views(kept@)[b]).id) < 0 by {
                    if b == before.len() {
                        assert(kept@[a] == before[a]);
                    } else {
                        assert(ref_views(kept@)[a] == ref_views(before)[a] && ref_views(kept@)[b] == ref_views(before)[b]);
                    }
                }
                assert forall|k: int, j: int| 0 <= k < kept@.len() && i + 1 <= j < avs.len() implies lex_compare((#[trigger] kept@[k])@.id, #[trigger] avs[j].id) < 0 by {
                    if k < before.len() {
                        assert(kept@[k] == before[k]);
                    }
                }
                assert forall|e: DesktopEntryView| ref_views(kept@).contains(e) <==> (avs.take(i + 1).contains(e) && e.mime_types.len() > 0) by {
                    let bv = ref_views(before);
                    if ref_views(kept@).contains(e) {
                        let q = choose|q: int| 0 <= q < ref_views(kept@).len() && ref_views(kept@)[q] == e;
                        if q < bv.len() {
                            assert(bv[q] == e);
                            assert(bv.contains(e));
                        } else {
                            assert(e == all@[i as int]@);
                            assert(avs.take(i + 1)[i as int] == e);
                        }
                    }
                    if avs.take(i + 1).contains(e) && e.mime_types.len() > 0 {
                        let t1 = avs.take(i + 1);
                        let q = choose|q: int| 0 <= q < t1.len() && t1[q] == e;
                        if q < i {
                            assert(avs.take(i as int)[q] == e);
                            assert(bv.contains(e));
                            let w = choose|w: int| 0 <= w < bv.len() && bv[w] == e;
                            assert(ref_views(kept@)[w] == e);
                        } else {
                            assert(ref_views(kept@)[bv.len() as int] == e);
                        }
                    }
                }
            }
        } else {
            proof {
                assert forall|e: DesktopEntryView| ref_views(kept@).contains(e) <==> (avs.take(i + 1).contains(e) && e.mime_types.len() > 0) by {
                    if avs.take(i + 1).contains(e) && e.mime_types.len() > 0 {
                        let t1 = avs.take(i + 1);
                        let q = choose|q: int| 0 <= q < t1.len() && t1[q] == e;
                        if q == i {
                            assert(e == all@[i as int]@);
                        } else {
                            assert(avs.take(i as int)[q] == e);
                        }
                    }
                    if ref_views(kept@).contains(e) {
                        assert(avs.take(i as int).contains(e));
                        let q = choose|q: int| 0 <= q < avs.take(i as int).len() && avs.take(i as int)[q] == e;
                        assert(avs.take(i + 1)[q] == e);
                    }
                }
            }
        }
        i = i + 1;
    }
    assert(avs.take(i as int) =~= avs);
    sort_by_name(kept)
}

/// The applications in effect that declare `mime_type`, ordered by name ignoring case (by id
/// where the names are the same).
pub fn applications_supporting_by_name<'a>(store: &'a DesktopEntryStore, mime_type: &MimeType) -> (r: Vec<&'a DesktopEntry>)
    ensures
        sorted_by_name(ref_views(r@)),
        forall|e: DesktopEntryView| ref_views(r@).contains(e) <==> entries_supporting(effective_entries(store@), mime_type@).contains(e),
{
    sort_by_name(store.get_desktop_entries_for_mimetype(mime_type))
}

/// The mime types an editor lists: those the associations name that some application in
/// effect declares, each once, in order.
pub fn mime_types_to_list<'a>(associations: &'a MimeTypeAssociationStore, entries: &DesktopEntryStore) -> (r: Vec<&'a MimeType>)
    ensures
        strictly_sorted(texts(r@)),
        forall|k: Seq<char>| texts(r@).contains(k) <==> (in_some_scope(associations@.scopes, k) && declared_by_some(effective_entries(entries@), k)),
{
    let all = associations.mime_types();
    let ghost ts = texts(all@);
    let mut kept: Vec<&'a MimeType> = Vec::new();
    let mut i: usize = 0;
    while i < all.len()
        invariant
            i <= all@.len(),
            ts == texts(all@),
            strictly_sorted(ts),
            forall|k: Seq<char>| #[trigger] ts.contains(k) <==> in_some_scope(associations@.scopes, k),
            strictly_sorted(texts(kept@)),
            forall|k: Seq<char>| texts(kept@).contains(k) <==> (ts.take(i as int).contains(k) && declared_by_some(effective_entries(entries@), k)),
            forall|a: int, j: int| 0 <= a < kept@.len() && i <= j < ts.len() ==> lex_compare(#[trigger] texts(kept@)[a], #[trigger] ts[j]) < 0,
        decreases all@.len() - i,
    {
        let ghost before = kept@;
        assert(ts[i as int] == all@[i as int]@);
        assert(ts.take(i + 1) =~= ts.take(i as int).push(ts[i as int]));
        let supporting = entries.get_desktop_entries_for_mimetype(all[i]);
        if supporting.len() > 0 {
            kept.push(all[i]);
            proof {
                assert(texts(kept@) =~= texts(before).push(ts[i as int]));
                assert forall|a: int, b: int| 0 <= a < b < texts(kept@).len() implies lex_compare(#[trigger] texts(kept@)[a], #[trigger] texts(kept@)[b]) < 0 by {
                    if b < before.len() {
                        assert(texts(kept@)[a] == texts(before)[a] && texts(kept@)[b] == texts(before)[b]);
                    } else {
                        assert(texts(kept@)[a] == texts(before)[a]);
                    }
                }
                assert forall|a: int, j: int| 0 <= a < kept@.len() && i + 1 <= j < ts.len() implies lex_compare(#[trigger] texts(kept@)[a], #[trigger] ts[j]) < 0 by {
                    if a < before.len() {
                        assert(texts(kept@)[a] == texts(before)[a]);
                    }
                }
                assert(declared_by_some(effective_entries(entries@), ts[i as int]));
                assert forall|k: Seq<char>| texts(kept@).contains(k) <==> (ts.take(i + 1).contains(k) && declared_by_some(effective_entries(entries@), k)) by {
                    let tb = texts(before);
                    if texts(kept@).contains(k) {
                        let q = choose|q: int| 0 <= q < texts(kept@).len() && texts(kept@)[q] == k;
                        if q < tb.len() {
                            assert(tb[q] == k);
                            assert(tb.contains(k));
                        } else {
                            assert(ts.take(i + 1)[i as int] == k);
                        }
                    }
                    if ts.take(i + 1).contains(k) && declared_by_some(effective_entries(entries@), k) {
                        let t1 = ts.take(i + 1);
                        let q = choose|q: int| 0 <= q < t1.len() && t1[q] == k;
                        if q < i {
                            assert(ts.take(i as int)[q] == k);
                            assert(tb.contains(k));
                            let w = choose|w: int| 0 <= w < tb.len() && tb[w] == k;
                            assert(texts(kept@)[w] == k);
                        } else {
                            assert(texts(kept@)[tb.len() as int] == k);
                        }
                    }
                }
            }
        } else {
            proof {
                assert(!declared_by_some(effective_entries(entries@), ts[i as int]));
                assert forall|k: Seq<char>| texts(kept@).contains(k) <==> (ts.take(i + 1).contains(k) && declared_by_some(effective_entries(entries@), k)) by {
                    if ts.take(i + 1).contains(k) && declared_by_some(effective_entries(entries@), k) {
                        let t1 = ts.take(i + 1);
                        let q = choose|q: int| 0 <= q < t1.len() && t1[q] == k;
                        if q < i {
                            assert(ts.take(i as int)[q] == k);
                        }
                    }
                    if texts(kept@).contains(k) {
                        assert(ts.take(i as int).contains(k));
                        let q = choose|q: int| 0 <= q < ts.take(i as int).len() && ts.take(i as int)[q] == k;
                        assert(ts.take(i + 1)[q] == k);
                    }
                }
            }
        }
        i = i + 1;
    }
    proof {
        assert(ts.take(i as int) =~= ts);
    }
    kept
}

} // verus!
