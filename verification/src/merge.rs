//! The multi-point merge engine: reconciles two renumbered object tables
//! into one, with first-wins tie-breaks for colliding root objects, and
//! fixes the merged page order.

use vstd::prelude::*;

use crate::document::{
    lemma_tbl_view, tbl_get, tbl_view, tv_get, DocView, PdfDocument,
};
use crate::names::{
    key_count, key_kids, key_outlines, key_pages, key_parent, tag_catalog, tag_outline, tag_page,
};
use crate::object::{
    arr_view, dv_get, dv_remove, dv_set, dv_union_first, lemma_arr_view, obj_view, type_tag_v,
    ObjView, PdfDict, PdfObj,
};
use crate::order::{interleave, pts_within};
use crate::renumber::{renum_pairs, renum_table, rv_obj};

verus! {

/// The running state of the object classification: the first catalog and
/// its identifier, the first page-tree root's identifier with the folded
/// union of every page-tree dictionary, and all ordinary objects in order.
pub struct ClassState {
    pub catalog: Option<(u64, ObjView)>,
    pub pages: Option<(u64, Seq<(Seq<u8>, ObjView)>)>,
    pub others: Seq<(u64, ObjView)>,
}

/// One classification step. The first catalog encountered is kept whole;
/// later ones are discarded. Page-tree dictionaries fold by first-wins
/// union under the first one's identifier. Leaf pages are deferred and
/// outline objects dropped. Everything else is kept in order.
pub open spec fn classify_step(st: ClassState, e: (u64, ObjView)) -> ClassState {
    let t = type_tag_v(e.1);
    if t == Some(tag_catalog()) {
        if st.catalog is None {
            ClassState { catalog: Some(e), pages: st.pages, others: st.others }
        } else {
            st
        }
    } else if t == Some(key_pages()) {
        match e.1 {
            ObjView::Dict(es) => ClassState {
                catalog: st.catalog,
                pages: match st.pages {
                    None => Some((e.0, es)),
                    Some((pid, acc)) => Some((pid, dv_union_first(acc, es))),
                },
                others: st.others,
            },
            _ => st,
        }
    } else if t == Some(tag_page()) {
        st
    } else if t == Some(key_outlines()) || t == Some(tag_outline()) {
        st
    } else {
        ClassState { catalog: st.catalog, pages: st.pages, others: st.others.push(e) }
    }
}

/// The classification of a whole table, in order.
pub open spec fn classify(s: Seq<(u64, ObjView)>) -> ClassState
    decreases s.len(),
{
    if s.len() == 0 {
        ClassState { catalog: None, pages: None, others: Seq::empty() }
    } else {
        classify_step(classify(s.drop_last()), s.last())
    }
}

/// A table holds an object declared "Catalog".
pub open spec fn has_catalog(s: Seq<(u64, ObjView)>) -> bool {
    exists|i: int|
        0 <= i < s.len() && type_tag_v((#[trigger] s[i]).1) == Some(tag_catalog())
}

/// A table holds a dictionary declared "Pages".
pub open spec fn has_pages_root(s: Seq<(u64, ObjView)>) -> bool {
    exists|i: int|
        0 <= i < s.len() && (#[trigger] s[i]).1 is Dict && type_tag_v(s[i].1) == Some(key_pages())
}

/// Classification finds a catalog exactly when one is there, and a
/// page-tree root exactly when a "Pages" dictionary is there.
pub proof fn lemma_classify_found(s: Seq<(u64, ObjView)>)
    ensures
        classify(s).catalog is Some <==> has_catalog(s),
        classify(s).pages is Some <==> has_pages_root(s),
    decreases s.len(),
{
    if s.len() == 0 {
    } else {
        lemma_classify_found(s.drop_last());
        let pre = s.drop_last();
        let e = s.last();
        assert(forall|i: int| 0 <= i < pre.len() ==> pre[i] == s[i]);
        if has_catalog(pre) {
            let i = choose|i: int|
                0 <= i < pre.len() && type_tag_v((#[trigger] pre[i]).1) == Some(tag_catalog());
            assert(type_tag_v(s[i].1) == Some(tag_catalog()));
        }
        if has_pages_root(pre) {
            let i = choose|i: int|
                0 <= i < pre.len() && (#[trigger] pre[i]).1 is Dict && type_tag_v(pre[i].1)
                    == Some(key_pages());
            assert(s[i].1 is Dict && type_tag_v(s[i].1) == Some(key_pages()));
        }
        if type_tag_v(e.1) == Some(tag_catalog()) {
            assert(s[s.len() - 1] == e);
        }
        if e.1 is Dict && type_tag_v(e.1) == Some(key_pages()) {
            assert(s[s.len() - 1] == e);
        }
        if has_catalog(s) && !has_catalog(pre) {
            let i = choose|i: int|
                0 <= i < s.len() && type_tag_v((#[trigger] s[i]).1) == Some(tag_catalog());
            if i < s.len() - 1 {
                assert(type_tag_v(pre[i].1) == Some(tag_catalog()));
            }
        }
        if has_pages_root(s) && !has_pages_root(pre) {
            let i = choose|i: int|
                0 <= i < s.len() && (#[trigger] s[i]).1 is Dict && type_tag_v(s[i].1) == Some(
                    key_pages(),
                );
            if i < s.len() - 1 {
                assert(pre[i].1 is Dict && type_tag_v(pre[i].1) == Some(key_pages()));
            }
        }
    }
}

/// Every ordinary object the classification keeps has a type other than
/// the dropped and deferred ones; in particular no outline survives.
pub proof fn lemma_classify_others_tags(s: Seq<(u64, ObjView)>)
    ensures
        forall|i: int|
            0 <= i < classify(s).others.len() ==> {
                let t = type_tag_v((#[trigger] classify(s).others[i]).1);
                t != Some(key_outlines()) && t != Some(tag_outline()) && t != Some(tag_catalog())
                    && t != Some(key_pages())
            },
    decreases s.len(),
{
    if s.len() > 0 {
        lemma_classify_others_tags(s.drop_last());
    }
}

/// The first catalog the classification keeps is declared "Catalog".
pub proof fn lemma_classify_catalog_tag(s: Seq<(u64, ObjView)>)
    ensures
        match classify(s).catalog {
            Some(c) => type_tag_v(c.1) == Some(tag_catalog()),
            None => true,
        },
    decreases s.len(),
{
    if s.len() > 0 {
        lemma_classify_catalog_tag(s.drop_last());
    }
}

/// The folded page-tree root the classification keeps is declared "Pages".
pub proof fn lemma_classify_pages_tag(s: Seq<(u64, ObjView)>)
    ensures
        match classify(s).pages {
            Some(p) => type_tag_v(ObjView::Dict(p.1)) == Some(key_pages()),
            None => true,
        },
    decreases s.len(),
{
    if s.len() > 0 {
        lemma_classify_pages_tag(s.drop_last());
        let st = classify(s.drop_last());
        let e = s.last();
        let t = type_tag_v(e.1);
        if t == Some(key_pages()) && e.1 is Dict && st.pages is Some {
            let acc = st.pages->Some_0.1;
            let es = e.1->Dict_0;
            crate::object::lemma_dv_get_union_first(acc, es, crate::names::key_type());
        }
    }
}

/// The number of pages the merged document will have.
pub open spec fn merged_total(d: DocView, pts: Seq<u32>, s: DocView) -> int {
    d.pages.len() + pts.len() * s.pages.len() as int
}

/// The translation list the destination's table is renumbered with: its
/// objects take the identifiers just above the reserved page range.
pub open spec fn dst_pairs(d: DocView, pts: Seq<u32>, s: DocView) -> Seq<(u64, u64)> {
    renum_pairs(d.objects, merged_total(d, pts, s) + 1)
}

/// The translation list the source's table is renumbered with: its objects
/// take the identifiers just above the destination's renumbered range.
pub open spec fn src_pairs(d: DocView, pts: Seq<u32>, s: DocView) -> Seq<(u64, u64)> {
    renum_pairs(s.objects, merged_total(d, pts, s) + 1 + d.objects.len())
}

/// Both tables after renumbering, destination first: the table the
/// classification walks, in ascending identifier order.
pub open spec fn combined_tables(d: DocView, pts: Seq<u32>, s: DocView) -> Seq<(u64, ObjView)> {
    renum_table(d.objects, merged_total(d, pts, s) + 1, dst_pairs(d, pts, s)) + renum_table(
        s.objects,
        merged_total(d, pts, s) + 1 + d.objects.len(),
        src_pairs(d, pts, s),
    )
}

/// A document's page objects in page order, renumbered by `m`.
pub open spec fn page_objs(doc: DocView, m: Seq<(u64, u64)>) -> Seq<ObjView> {
    Seq::new(doc.pages.len(), |i: int| rv_obj(tv_get(doc.objects, doc.pages[i])->Some_0, m))
}

/// The merged page order: the destination's renumbered pages with a full
/// copy of the source's renumbered pages after each insertion point.
pub open spec fn merged_order(d: DocView, pts: Seq<u32>, s: DocView) -> Seq<ObjView> {
    interleave(page_objs(d, dst_pairs(d, pts, s)), page_objs(s, src_pairs(d, pts, s)), pts, 0)
}

/// A page re-parented: its "Parent" entry is bound to the surviving
/// page-tree root.
pub open spec fn reparent_v(o: ObjView, pid: u64) -> ObjView {
    match o {
        ObjView::Dict(es) => ObjView::Dict(dv_set(es, key_parent(), ObjView::Ref(pid))),
        _ => o,
    }
}

/// The merged pages keyed by final position: the page at order index `p`
/// takes identifier `p + 1`.
pub open spec fn pages_part(ord: Seq<ObjView>, pid: u64) -> Seq<(u64, ObjView)> {
    Seq::new(ord.len(), |p: int| ((p + 1) as u64, reparent_v(ord[p], pid)))
}

/// The references the rebuilt "Kids" array holds: positions 1 through the
/// merged page count, in order.
pub open spec fn kids_refs(total: int) -> Seq<ObjView> {
    Seq::new(total as nat, |p: int| ObjView::Ref((p + 1) as u64))
}

/// The rebuilt page-tree root: the folded union with "Count" set to the
/// merged page count and "Kids" set to the final page references.
pub open spec fn rebuilt_pages_root(acc: Seq<(Seq<u8>, ObjView)>, total: int) -> ObjView {
    ObjView::Dict(
        dv_set(
            dv_set(acc, key_count(), ObjView::Int(total as i64)),
            key_kids(),
            ObjView::Arr(kids_refs(total)),
        ),
    )
}

/// The rebuilt catalog's table entry: its "Pages" entry points at the
/// surviving page-tree root and any "Outlines" entry is removed. A catalog
/// that is no dictionary yields no entry.
pub open spec fn catalog_part(cid: u64, cobj: ObjView, pid: u64) -> Seq<(u64, ObjView)> {
    match cobj {
        ObjView::Dict(es) => seq![
            (
                cid,
                ObjView::Dict(
                    dv_remove(dv_set(es, key_pages(), ObjView::Ref(pid)), key_outlines()),
                ),
            ),
        ],
        _ => Seq::empty(),
    }
}


/// The merged page-count law: for a destination with `d` pages, a source
/// with `s` pages and `k` insertion points, the merged page order holds
/// exactly `d + k * s` pages.
pub proof fn lemma_merge_page_count_law(d: DocView, pts: Seq<u32>, s: DocView)
    requires
        forall|i: int| 0 <= i < pts.len() ==> (#[trigger] pts[i]) <= d.pages.len(),
        forall|i: int, j: int| 0 <= i < j < pts.len() ==> pts[i] <= pts[j],
    ensures
        merged_order(d, pts, s).len() == merged_total(d, pts, s),
        merged_total(d, pts, s) == d.pages.len() + pts.len() * s.pages.len(),
{
    let dpv = page_objs(d, dst_pairs(d, pts, s));
    let spv = page_objs(s, src_pairs(d, pts, s));
    crate::order::lemma_interleave_len(dpv, spv, pts, 0);
}

/// Re-parenting keeps an object's declared type.
pub proof fn lemma_reparent_tag(o: ObjView, pid: u64)
    ensures
        type_tag_v(reparent_v(o, pid)) == type_tag_v(o),
{
    match o {
        ObjView::Dict(es) => {
            assert(key_parent() != crate::names::key_type());
            crate::object::lemma_dv_get_set(
                es,
                key_parent(),
                ObjView::Ref(pid),
                crate::names::key_type(),
            );
        },
        _ => {},
    }
}

/// Every element of a spliced sequence comes from one of the two inputs,
/// so a property of all their elements holds of all its elements.
pub proof fn lemma_interleave_all<T>(
    dst: Seq<T>,
    src: Seq<T>,
    pts: Seq<u32>,
    start: int,
    p: spec_fn(T) -> bool,
)
    requires
        0 <= start <= dst.len(),
        pts_within(pts, start, dst),
        forall|i: int| 0 <= i < dst.len() ==> p(#[trigger] dst[i]),
        forall|i: int| 0 <= i < src.len() ==> p(#[trigger] src[i]),
    ensures
        forall|i: int|
            0 <= i < interleave(dst, src, pts, start).len() ==> p(
                #[trigger] interleave(dst, src, pts, start)[i],
            ),
    decreases pts.len(),
{
    if pts.len() == 0 {
    } else {
        assert(forall|i: int|
            0 <= i < pts.drop_first().len() ==> pts[0] <= #[trigger] pts.drop_first()[i]
                <= dst.len());
        lemma_interleave_all(dst, src, pts.drop_first(), pts[0] as int, p);
        let pre = dst.subrange(start, pts[0] as int);
        let rest = interleave(dst, src, pts.drop_first(), pts[0] as int);
        let whole = interleave(dst, src, pts, start);
        assert(whole == pre + src + rest);
        assert forall|i: int| 0 <= i < whole.len() implies p(#[trigger] whole[i]) by {
            if i < pre.len() {
                assert(whole[i] == pre[i]);
                assert(pre[i] == dst[start + i]);
            } else if i < pre.len() + src.len() {
                assert(whole[i] == src[i - pre.len()]);
            } else {
                assert(whole[i] == rest[i - pre.len() - src.len()]);
            }
        }
    }
}

/// The combined renumbered table holds a catalog, or a page-tree root,
/// exactly when one of the inputs does.
pub proof fn lemma_combined_has(d: DocView, pts: Seq<u32>, s: DocView)
    ensures
        has_catalog(combined_tables(d, pts, s)) <==> has_catalog(d.objects) || has_catalog(
            s.objects,
        ),
        has_pages_root(combined_tables(d, pts, s)) <==> has_pages_root(d.objects)
            || has_pages_root(s.objects),
{
    let total = merged_total(d, pts, s);
    let a = renum_table(d.objects, total + 1, dst_pairs(d, pts, s));
    let b = renum_table(s.objects, total + 1 + d.objects.len(), src_pairs(d, pts, s));
    let comb = a + b;
    let na = d.objects.len() as int;
    let nb = s.objects.len() as int;
    assert forall|i: int| 0 <= i < na implies type_tag_v((#[trigger] comb[i]).1) == type_tag_v(
        d.objects[i].1,
    ) && (comb[i].1 is Dict <==> d.objects[i].1 is Dict) by {
        assert(comb[i] == a[i]);
        crate::renumber::lemma_rv_type_tag(d.objects[i].1, dst_pairs(d, pts, s));
        crate::renumber::lemma_rv_dictness(d.objects[i].1, dst_pairs(d, pts, s));
    }
    assert forall|i: int| 0 <= i < nb implies type_tag_v((#[trigger] comb[na + i]).1)
        == type_tag_v(s.objects[i].1) && (comb[na + i].1 is Dict <==> s.objects[i].1 is Dict) by {
        assert(comb[na + i] == b[i]);
        crate::renumber::lemma_rv_type_tag(s.objects[i].1, src_pairs(d, pts, s));
        crate::renumber::lemma_rv_dictness(s.objects[i].1, src_pairs(d, pts, s));
    }
    if has_catalog(comb) {
        let i = choose|i: int|
            0 <= i < comb.len() && type_tag_v((#[trigger] comb[i]).1) == Some(tag_catalog());
        if i < na {
            assert(type_tag_v(d.objects[i].1) == Some(tag_catalog()));
        } else {
            let q = i - na;
            assert(comb[na + q] == comb[i]);
            assert(type_tag_v(s.objects[q].1) == Some(tag_catalog()));
        }
    }
    if has_catalog(d.objects) {
        let i = choose|i: int|
            0 <= i < d.objects.len() && type_tag_v((#[trigger] d.objects[i]).1) == Some(
                tag_catalog(),
            );
        assert(type_tag_v(comb[i].1) == Some(tag_catalog()));
    }
    if has_catalog(s.objects) {
        let i = choose|i: int|
            0 <= i < s.objects.len() && type_tag_v((#[trigger] s.objects[i]).1) == Some(
                tag_catalog(),
            );
        assert(type_tag_v(comb[na + i].1) == Some(tag_catalog()));
    }
    if has_pages_root(comb) {
        let i = choose|i: int|
            0 <= i < comb.len() && (#[trigger] comb[i]).1 is Dict && type_tag_v(comb[i].1) == Some(
                key_pages(),
            );
        if i < na {
            assert(d.objects[i].1 is Dict && type_tag_v(d.objects[i].1) == Some(key_pages()));
        } else {
            let q = i - na;
            assert(comb[na + q] == comb[i]);
            assert(s.objects[q].1 is Dict && type_tag_v(s.objects[q].1) == Some(key_pages()));
        }
    }
    if has_pages_root(d.objects) {
        let i = choose|i: int|
            0 <= i < d.objects.len() && (#[trigger] d.objects[i]).1 is Dict && type_tag_v(
                d.objects[i].1,
            ) == Some(key_pages());
        assert(comb[i].1 is Dict && type_tag_v(comb[i].1) == Some(key_pages()));
    }
    if has_pages_root(s.objects) {
        let i = choose|i: int|
            0 <= i < s.objects.len() && (#[trigger] s.objects[i]).1 is Dict && type_tag_v(
                s.objects[i].1,
            ) == Some(key_pages());
        assert(comb[na + i].1 is Dict && type_tag_v(comb[na + i].1) == Some(key_pages()));
    }
}


/// Every identifier the classification keeps comes from the table it
/// walked: an ordinary object is one of its entries, the first catalog is
/// one of its entries, and the page-tree root's identifier is that of a
/// "Pages" dictionary entry.
pub proof fn lemma_classify_ids_in(s: Seq<(u64, ObjView)>)
    ensures
        forall|i: int|
            0 <= i < classify(s).others.len() ==> exists|j: int|
                0 <= j < s.len() && #[trigger] classify(s).others[i] == s[j],
        match classify(s).catalog {
            Some(c) => exists|j: int| 0 <= j < s.len() && c == #[trigger] s[j],
            None => true,
        },
        match classify(s).pages {
            Some(p) => exists|j: int|
                0 <= j < s.len() && p.0 == (#[trigger] s[j]).0 && s[j].1 is Dict && type_tag_v(
                    s[j].1,
                ) == Some(key_pages()),
            None => true,
        },
    decreases s.len(),
{
    if s.len() > 0 {
        lemma_classify_ids_in(s.drop_last());
        let pre = s.drop_last();
        let prev = classify(pre);
        let cs = classify(s);
        assert(forall|i: int| 0 <= i < pre.len() ==> pre[i] == s[i]);
        assert(s[s.len() - 1] == s.last());
        assert forall|i: int| 0 <= i < cs.others.len() implies exists|j: int|
            0 <= j < s.len() && #[trigger] cs.others[i] == s[j] by {
            if i < prev.others.len() {
                assert(cs.others[i] == prev.others[i]);
                let j = choose|j: int| 0 <= j < pre.len() && prev.others[i] == pre[j];
                assert(cs.others[i] == s[j]);
            } else {
                assert(cs.others[i] == s[s.len() - 1]);
            }
        }
        match cs.catalog {
            Some(c) => {
                if prev.catalog is Some {
                    let j = choose|j: int| 0 <= j < pre.len() && prev.catalog->Some_0 == pre[j];
                    assert(c == s[j]);
                } else {
                    assert(c == s[s.len() - 1]);
                }
            },
            None => {},
        }
        match cs.pages {
            Some(p) => {
                if prev.pages is Some {
                    let j = choose|j: int|
                        0 <= j < pre.len() && prev.pages->Some_0.0 == (#[trigger] pre[j]).0
                            && pre[j].1 is Dict && type_tag_v(pre[j].1) == Some(key_pages());
                    assert(p.0 == s[j].0 && s[j].1 is Dict && type_tag_v(s[j].1) == Some(
                        key_pages(),
                    ));
                } else {
                    assert(p.0 == s[s.len() - 1].0);
                }
            },
            None => {},
        }
    }
}

/// Where the table's identifiers are pairwise distinct, so are those of
/// the ordinary objects the classification keeps.
pub proof fn lemma_classify_others_distinct(s: Seq<(u64, ObjView)>)
    requires
        forall|i: int, j: int| 0 <= i < j < s.len() ==> (#[trigger] s[i]).0 != (#[trigger] s[j]).0,
    ensures
        forall|i1: int, i2: int|
            0 <= i1 < i2 < classify(s).others.len() ==> (#[trigger] classify(s).others[i1]).0 != (
            #[trigger] classify(s).others[i2]).0,
    decreases s.len(),
{
    if s.len() > 0 {
        let pre = s.drop_last();
        let prev = classify(pre);
        let cs = classify(s);
        assert(forall|i: int| 0 <= i < pre.len() ==> pre[i] == s[i]);
        assert(forall|i: int, j: int|
            0 <= i < j < pre.len() ==> (#[trigger] pre[i]).0 != (#[trigger] pre[j]).0);
        lemma_classify_others_distinct(pre);
        lemma_classify_ids_in(pre);
        assert forall|i1: int, i2: int|
            0 <= i1 < i2 < cs.others.len() implies (#[trigger] cs.others[i1]).0 != (
        #[trigger] cs.others[i2]).0 by {
            if i2 < prev.others.len() {
                assert(cs.others[i1] == prev.others[i1]);
                assert(cs.others[i2] == prev.others[i2]);
            } else {
                assert(cs.others[i2] == s.last());
                assert(cs.others[i1] == prev.others[i1]);
                let j = choose|j: int| 0 <= j < pre.len() && prev.others[i1] == pre[j];
                assert(s[j].0 != s[s.len() - 1].0);
            }
        }
    }
}

/// Classifies a table: the first catalog, the folded page-tree root, and
/// the ordinary objects, exactly as `classify` describes.
pub fn classify_table(combined: &Vec<(u64, PdfObj)>) -> (r: (
    Option<(u64, PdfObj)>,
    Option<(u64, PdfDict)>,
    Vec<(u64, PdfObj)>,
))
    ensures
        ({
            let cs = classify(tbl_view(combined@));
            &&& match r.0 {
                Some(c) => cs.catalog == Some((c.0, c.1@)),
                None => cs.catalog is None,
            }
            &&& match r.1 {
                Some(p) => cs.pages == Some((p.0, p.1@)),
                None => cs.pages is None,
            }
            &&& tbl_view(r.2@) == cs.others
        }),
{
    let ghost full = tbl_view(combined@);
    let tag_cat = crate::names::make_tag_catalog();
    let tag_pgs = crate::names::make_key_pages();
    let tag_pg = crate::names::make_tag_page();
    let tag_outls = crate::names::make_key_outlines();
    let tag_outl = crate::names::make_tag_outline();
    let n = combined.len();
    let mut cat: Option<(u64, PdfObj)> = None;
    let mut pag: Option<(u64, PdfDict)> = None;
    let mut others: Vec<(u64, PdfObj)> = Vec::new();
    let mut i: usize = 0;
    proof {
        lemma_tbl_view(combined@);
        assert(full.take(0) =~= Seq::<(u64, ObjView)>::empty());
        assert(tbl_view(others@) =~= Seq::<(u64, ObjView)>::empty());
    }
    while i < n
        invariant
            n == combined.len(),
            full == tbl_view(combined@),
            full.len() == n,
            i <= n,
            tag_cat@ == tag_catalog(),
            tag_pgs@ == key_pages(),
            tag_pg@ == tag_page(),
            tag_outls@ == key_outlines(),
            tag_outl@ == tag_outline(),
            forall|j: int|
                0 <= j < combined@.len() ==> full[j] == (
                combined@[j].0,
                obj_view(combined@[j].1),
                ),
            match cat {
                Some(c) => classify(full.take(i as int)).catalog == Some((c.0, c.1@)),
                None => classify(full.take(i as int)).catalog is None,
            },
            match pag {
                Some(p) => classify(full.take(i as int)).pages == Some((p.0, p.1@)),
                None => classify(full.take(i as int)).pages is None,
            },
            tbl_view(others@) == classify(full.take(i as int)).others,
        decreases n - i,
    {
        let ghost pre = classify(full.take(i as int));
        proof {
            assert(full.take(i + 1).drop_last() =~= full.take(i as int));
            assert(full.take(i + 1).last() == full[i as int]);
        }
        let id = combined[i].0;
        let obj = &combined[i].1;
        let tag = crate::object::type_tag(obj);
        match tag {
            Some(nm) => {
                if crate::object::bytes_eq(nm, &tag_cat) {
                    if matches!(cat, None) {
                        cat = Some((id, crate::object::copy_obj(obj)));
                    }
                } else if crate::object::bytes_eq(nm, &tag_pgs) {
                    match crate::object::obj_as_dict(obj) {
                        Some(dd) => {
                            pag = match pag {
                                None => Some((id, crate::object::copy_dict(dd))),
                                Some(p) => Some(
                                    (p.0, crate::object::dict_union_first(p.1, dd)),
                                ),
                            };
                        },
                        None => {},
                    }
                } else if crate::object::bytes_eq(nm, &tag_pg) {
                } else if crate::object::bytes_eq(nm, &tag_outls) {
                } else if crate::object::bytes_eq(nm, &tag_outl) {
                } else {
                    let ghost before = others@;
                    others.push((id, crate::object::copy_obj(obj)));
                    proof {
                        crate::document::lemma_tbl_view_push(before, others@.last());
                    }
                }
            },
            None => {
                let ghost before = others@;
                others.push((id, crate::object::copy_obj(obj)));
                proof {
                    crate::document::lemma_tbl_view_push(before, others@.last());
                }
            },
        }
        i += 1;
    }
    proof {
        assert(full.take(n as int) =~= full);
    }
    (cat, pag, others)
}

/// Merges the source document's pages into the destination after each
/// insertion point, building a fresh document: the destination's pages in
/// order with a full copy of the source's pages spliced in at every point,
/// one surviving catalog and page-tree root chosen first-wins, every other
/// object carried over under fresh identifiers, and all outline objects
/// dropped. Returns nothing — and builds nothing — when no catalog or no
/// page-tree root can be found in either input; the destination is never
/// touched.
#[verifier::rlimit(50)]
pub fn merge_documents(dst: &PdfDocument, points: &Vec<u32>, src: &PdfDocument) -> (r: Option<
    PdfDocument,
>)
    requires
        dst@.well_formed(),
        src@.well_formed(),
        forall|i: int, j: int| 0 <= i < j < points@.len() ==> points@[i] < points@[j],
        forall|i: int| 0 <= i < points@.len() ==> (#[trigger] points@[i]) < dst@.pages.len(),
        merged_total(dst@, points@, src@) + 1 + dst@.objects.len() + src@.objects.len()
            <= 0xFFFF_FFFF,
    ensures
        (r is Some) <==> ((has_catalog(dst@.objects) || has_catalog(src@.objects)) && (
        has_pages_root(dst@.objects) || has_pages_root(src@.objects))),
        match r {
            Some(m) => {
                let cs = classify(combined_tables(dst@, points@, src@));
                let total = merged_total(dst@, points@, src@);
                let ord = merged_order(dst@, points@, src@);
                let pid = cs.pages->Some_0.0;
                let acc = cs.pages->Some_0.1;
                let cid = cs.catalog->Some_0.0;
                let cobj = cs.catalog->Some_0.1;
                &&& m@.pages.len() == total
                &&& m@.pages == Seq::new(total as nat, |i: int| (i + 1) as u64)
                &&& m@.root == cid
                &&& m@.objects == cs.others + pages_part(ord, pid) + seq![
                    (pid, rebuilt_pages_root(acc, total)),
                ] + catalog_part(cid, cobj, pid)
                &&& forall|i: int|
                    0 <= i < m@.objects.len() ==> {
                        let t = type_tag_v((#[trigger] m@.objects[i]).1);
                        t != Some(key_outlines()) && t != Some(tag_outline())
                    }
                &&& forall|i: int|
                    0 <= i < m@.objects.len() ==> (#[trigger] m@.objects[i]).0 as int <= total
                        + dst@.objects.len() + src@.objects.len()
                &&& m@.well_formed()
            },
            None => true,
        },
{
    let ghost gtotal = merged_total(dst@, points@, src@);
    let d = dst.pages.len();
    let s = src.pages.len();
    let k = points.len();
    let total = d + k * s;
    let n_dst = dst.objects.len();
    let n_src = src.objects.len();
    proof {
        lemma_tbl_view(dst.objects@);
        lemma_tbl_view(src.objects@);
        assert(total as int == gtotal);
        assert(n_dst as int == dst@.objects.len());
        assert(n_src as int == src@.objects.len());
    }
    let start_dst: u64 = (total as u64) + 1;
    let start_src: u64 = start_dst + (n_dst as u64);
    let dmap = crate::renumber::build_renum_pairs(&dst.objects, start_dst);
    let smap = crate::renumber::build_renum_pairs(&src.objects, start_src);
    proof {
        assert(dmap@ == dst_pairs(dst@, points@, src@));
        assert(smap@ == src_pairs(dst@, points@, src@));
    }
    let mut combined = crate::renumber::renumber_table(&dst.objects, start_dst, &dmap);
    let mut src_ren = crate::renumber::renumber_table(&src.objects, start_src, &smap);
    let ghost part_a = combined@;
    let ghost part_b = src_ren@;
    combined.append(&mut src_ren);
    let ghost comb_v = tbl_view(combined@);
    proof {
        crate::document::lemma_tbl_view_add(part_a, part_b);
        assert(comb_v == combined_tables(dst@, points@, src@));
        lemma_classify_found(comb_v);
        lemma_combined_has(dst@, points@, src@);
    }
    let ghost cs = classify(comb_v);
    let (cat_opt, pag_opt, others) = classify_table(&combined);
    let pag = match pag_opt {
        Some(x) => x,
        None => {
            return None;
        },
    };
    let cat = match cat_opt {
        Some(x) => x,
        None => {
            return None;
        },
    };
    let pid = pag.0;
    let cid = cat.0;

    // The renumbered page objects of both inputs, in page order.
    let mut dpo: Vec<PdfObj> = Vec::new();
    let mut i: usize = 0;
    while i < d
        invariant
            d == dst.pages.len(),
            dst@.well_formed(),
            i <= d,
            dpo@.len() == i,
            forall|j: int|
                0 <= j < i ==> obj_view(#[trigger] dpo@[j]) == page_objs(dst@, dmap@)[j],
        decreases d - i,
    {
        let id = dst.pages[i];
        proof {
            assert(dst@.pages[i as int] == id);
        }
        let ocur = match tbl_get(&dst.objects, id) {
            Some(o) => o,
            None => {
                proof {
                    assert(false);
                }
                vstd::pervasive::unreached()
            },
        };
        dpo.push(crate::renumber::renumber_obj(ocur, &dmap));
        i += 1;
    }
    let mut spo: Vec<PdfObj> = Vec::new();
    let mut i2: usize = 0;
    while i2 < s
        invariant
            s == src.pages.len(),
            src@.well_formed(),
            i2 <= s,
            spo@.len() == i2,
            forall|j: int|
                0 <= j < i2 ==> obj_view(#[trigger] spo@[j]) == page_objs(src@, smap@)[j],
        decreases s - i2,
    {
        let id = src.pages[i2];
        proof {
            assert(src@.pages[i2 as int] == id);
        }
        let ocur = match tbl_get(&src.objects, id) {
            Some(o) => o,
            None => {
                proof {
                    assert(false);
                }
                vstd::pervasive::unreached()
            },
        };
        spo.push(crate::renumber::renumber_obj(ocur, &smap));
        i2 += 1;
    }
    proof {
        lemma_arr_view(dpo@);
        lemma_arr_view(spo@);
        assert(arr_view(dpo@) =~= page_objs(dst@, dmap@));
        assert(arr_view(spo@) =~= page_objs(src@, smap@));
    }

    // The merged page order.
    let ghost ordv = merged_order(dst@, points@, src@);
    let order = crate::order::build_order(&dpo, &spo, points);
    proof {
        assert(arr_view(order@) == ordv);
        crate::order::lemma_interleave_len(arr_view(dpo@), arr_view(spo@), points@, 0);
        lemma_arr_view(order@);
        assert(order@.len() == gtotal);
    }

    // Assemble the merged table: the ordinary objects, then the pages under
    // their final positions, then the rebuilt page-tree root and catalog.
    let mut out = others;
    let parent_key = crate::names::make_key_parent();
    let ghost pp = pages_part(ordv, pid);
    proof {
        assert(cs.others + pp.take(0) =~= cs.others);
    }
    let mut p: usize = 0;
    while p < total
        invariant
            total == order.len(),
            total as int == gtotal,
            p <= total,
            parent_key@ == key_parent(),
            pp == pages_part(ordv, pid),
            ordv == arr_view(order@),
            ordv.len() == gtotal,
            forall|j: int| 0 <= j < gtotal ==> ordv[j] == obj_view(order@[j]),
            tbl_view(out@) == cs.others + pp.take(p as int),
        decreases total - p,
    {
        let newobj = match crate::object::obj_as_dict(&order[p]) {
            Some(dd) => PdfObj::Dict(
                crate::object::dict_set(dd, &parent_key, PdfObj::Reference(pid)),
            ),
            None => crate::object::copy_obj(&order[p]),
        };
        proof {
            assert(obj_view(newobj) == reparent_v(ordv[p as int], pid));
        }
        let ghost before = out@;
        out.push(((p as u64) + 1, newobj));
        proof {
            crate::document::lemma_tbl_view_push(before, out@.last());
            assert(cs.others + pp.take(p as int + 1) =~= (cs.others + pp.take(p as int)).push(
                pp[p as int],
            ));
        }
        p += 1;
    }
    proof {
        assert(pp.take(gtotal) =~= pp);
    }

    // The rebuilt page-tree root: the folded union with the final count and
    // the final page references.
    let mut kids: Vec<PdfObj> = Vec::new();
    let mut q: usize = 0;
    while q < total
        invariant
            q <= total,
            total as int == gtotal,
            kids@.len() == q,
            forall|j: int|
                0 <= j < q ==> obj_view(#[trigger] kids@[j]) == ObjView::Ref((j + 1) as u64),
        decreases total - q,
    {
        kids.push(PdfObj::Reference((q as u64) + 1));
        q += 1;
    }
    proof {
        lemma_arr_view(kids@);
        assert(arr_view(kids@) =~= kids_refs(gtotal));
    }
    let count_key = crate::names::make_key_count();
    let kids_key = crate::names::make_key_kids();
    let with_count = crate::object::dict_set(&pag.1, &count_key, PdfObj::Integer(total as i64));
    let with_kids = crate::object::dict_set(&with_count, &kids_key, PdfObj::Array(kids));
    let ghost before_root = out@;
    out.push((pid, PdfObj::Dict(with_kids)));
    proof {
        crate::document::lemma_tbl_view_push(before_root, out@.last());
        assert(obj_view(PdfObj::Dict(with_kids)) == rebuilt_pages_root(cs.pages->Some_0.1, gtotal));
        assert(tbl_view(out@) =~= cs.others + pp + seq![
            (pid, rebuilt_pages_root(cs.pages->Some_0.1, gtotal)),
        ]);
    }

    // The rebuilt catalog: its "Pages" entry points at the surviving root
    // and any "Outlines" entry is removed.
    match crate::object::obj_as_dict(&cat.1) {
        Some(cd) => {
            let pages_key = crate::names::make_key_pages();
            let outlines_key = crate::names::make_key_outlines();
            let c1 = crate::object::dict_set(cd, &pages_key, PdfObj::Reference(pid));
            let c2 = crate::object::dict_remove_all(&c1, &outlines_key);
            let ghost before_cat = out@;
            out.push((cid, PdfObj::Dict(c2)));
            proof {
                crate::document::lemma_tbl_view_push(before_cat, out@.last());
                assert(tbl_view(out@) =~= cs.others + pp + seq![
                    (pid, rebuilt_pages_root(cs.pages->Some_0.1, gtotal)),
                ] + catalog_part(cid, cs.catalog->Some_0.1, pid));
            }
        },
        None => {
            proof {
                assert(catalog_part(cid, cs.catalog->Some_0.1, pid)
                    =~= Seq::<(u64, ObjView)>::empty());
                assert(tbl_view(out@) =~= cs.others + pp + seq![
                    (pid, rebuilt_pages_root(cs.pages->Some_0.1, gtotal)),
                ] + catalog_part(cid, cs.catalog->Some_0.1, pid));
            }
        },
    }

    // The final page identifiers: positions 1 through the merged count.
    let mut plist: Vec<u64> = Vec::new();
    let mut w: usize = 0;
    while w < total
        invariant
            w <= total,
            plist@.len() == w,
            forall|j: int| 0 <= j < w ==> plist@[j] == (j + 1) as u64,
        decreases total - w,
    {
        plist.push((w as u64) + 1);
        w += 1;
    }
    proof {
        assert(plist@ =~= Seq::new(gtotal as nat, |i: int| (i + 1) as u64));
    }

    // No outline object survives anywhere in the merged table, every
    // identifier stays within the fresh range, and the result is a
    // well-formed document.
    proof {
        lemma_classify_others_tags(comb_v);
        lemma_classify_catalog_tag(comb_v);
        lemma_classify_pages_tag(comb_v);
        lemma_classify_ids_in(comb_v);

        // The final page objects all are leaf pages.
        let dpv = page_objs(dst@, dmap@);
        let spv = page_objs(src@, smap@);
        let leaf = |o: ObjView| crate::document::is_page_view(o);
        assert forall|j: int| 0 <= j < dpv.len() implies leaf(#[trigger] dpv[j]) by {
            assert(dst@.pages[j] == dst@.pages[j]);
            let po = tv_get(dst@.objects, dst@.pages[j])->Some_0;
            crate::renumber::lemma_rv_type_tag(po, dmap@);
            crate::renumber::lemma_rv_dictness(po, dmap@);
        }
        assert forall|j: int| 0 <= j < spv.len() implies leaf(#[trigger] spv[j]) by {
            assert(src@.pages[j] == src@.pages[j]);
            let po = tv_get(src@.objects, src@.pages[j])->Some_0;
            crate::renumber::lemma_rv_type_tag(po, smap@);
            crate::renumber::lemma_rv_dictness(po, smap@);
        }
        lemma_interleave_all(dpv, spv, points@, 0, leaf);

        // The tags of the dropped kinds differ from all surviving ones.
        assert(tag_page() != key_outlines());
        assert(tag_page() != tag_outline());
        assert(key_pages() != key_outlines());
        assert(key_pages() != tag_outline());
        assert(key_pages() != tag_catalog());
        assert(tag_catalog()[0] != tag_outline()[0]);
        assert(tag_catalog() != tag_outline());
        assert(tag_catalog() != key_outlines());

        // The rebuilt page-tree root keeps its "Pages" tag.
        let acc = cs.pages->Some_0.1;
        assert(key_count() != crate::names::key_type());
        assert(key_kids()[0] != crate::names::key_type()[0]);
        assert(key_kids() != crate::names::key_type());
        crate::object::lemma_dv_get_set(
            acc,
            key_count(),
            ObjView::Int(gtotal as i64),
            crate::names::key_type(),
        );
        crate::object::lemma_dv_get_set(
            dv_set(acc, key_count(), ObjView::Int(gtotal as i64)),
            key_kids(),
            ObjView::Arr(kids_refs(gtotal)),
            crate::names::key_type(),
        );
        assert(type_tag_v(rebuilt_pages_root(acc, gtotal)) == Some(key_pages()));

        // The rebuilt catalog keeps its "Catalog" tag.
        let cobj = cs.catalog->Some_0.1;
        if cobj is Dict {
            let ces = cobj->Dict_0;
            assert(key_pages() != crate::names::key_type());
            assert(key_outlines() != crate::names::key_type());
            crate::object::lemma_dv_get_set(
                ces,
                key_pages(),
                ObjView::Ref(pid),
                crate::names::key_type(),
            );
            crate::object::lemma_dv_get_remove(
                dv_set(ces, key_pages(), ObjView::Ref(pid)),
                key_outlines(),
                crate::names::key_type(),
            );
            assert(type_tag_v(catalog_part(cid, cobj, pid)[0].1) == Some(tag_catalog()));
        }

        // The combined table's identifiers, exactly: the i-th renumbered
        // object carries the i-th identifier above the page range.
        let bound = gtotal + dst@.objects.len() + src@.objects.len();
        let part_da = renum_table(dst@.objects, gtotal + 1, dmap@);
        let part_sb = renum_table(src@.objects, gtotal + 1 + dst@.objects.len(), smap@);
        assert(comb_v == part_da + part_sb);
        let na = dst@.objects.len() as int;
        assert forall|j: int| 0 <= j < comb_v.len() implies (#[trigger] comb_v[j]).0 as int
            == gtotal + 1 + j by {
            if j < na {
                assert(comb_v[j] == part_da[j]);
            } else {
                assert(comb_v[j] == part_sb[j - na]);
            }
        }
        assert(forall|i: int, j: int|
            0 <= i < j < comb_v.len() ==> (#[trigger] comb_v[i]).0 != (#[trigger] comb_v[j]).0);
        lemma_classify_others_distinct(comb_v);

        // Ordinary objects keep identifiers above the page range.
        assert forall|q: int| 0 <= q < cs.others.len() implies gtotal < (
        #[trigger] cs.others[q]).0 as int <= bound by {
            let j = choose|j: int| 0 <= j < comb_v.len() && cs.others[q] == comb_v[j];
            assert(comb_v[j].0 as int == gtotal + 1 + j);
        }

        // The surviving root identifiers lie above the page range and
        // differ: the entries they come from carry different tags.
        assert(cs.pages->Some_0.0 == pid);
        assert(cs.catalog->Some_0 == (cid, cobj));
        let jp = choose|j: int|
            0 <= j < comb_v.len() && pid == (#[trigger] comb_v[j]).0 && comb_v[j].1 is Dict
                && type_tag_v(comb_v[j].1) == Some(key_pages());
        let jc = choose|j: int| 0 <= j < comb_v.len() && (cid, cobj) == #[trigger] comb_v[j];
        assert(gtotal < pid as int <= bound);
        assert(gtotal < cid as int <= bound);
        assert(pid != cid) by {
            if pid == cid {
                assert(comb_v[jp].0 == comb_v[jc].0);
                assert(jp == jc);
                assert(type_tag_v(cobj) == Some(tag_catalog()));
            }
        }
        assert forall|q: int| 0 <= q < cs.others.len() implies (#[trigger] cs.others[q]).0 != pid
            && cs.others[q].0 != cid by {
            let j = choose|j: int| 0 <= j < comb_v.len() && cs.others[q] == comb_v[j];
            if cs.others[q].0 == pid {
                assert(comb_v[j].0 == comb_v[jp].0);
                assert(j == jp);
                assert(type_tag_v(cs.others[q].1) == Some(key_pages()));
            }
            if cs.others[q].0 == cid {
                assert(comb_v[j].0 == comb_v[jc].0);
                assert(j == jc);
                assert(type_tag_v(cs.others[q].1) == Some(tag_catalog()));
            }
        }

        let whole = tbl_view(out@);
        let n0 = cs.others.len() as int;
        let n1 = n0 + pp.len();
        let n2 = n1 + 1;
        let root_entry = (pid, rebuilt_pages_root(acc, gtotal));
        let cat_entries = catalog_part(cid, cobj, pid);
        assert(whole == cs.others + pp + seq![root_entry] + cat_entries);
        assert forall|j: int| 0 <= j < whole.len() implies #[trigger] whole[j] == if j < n0 {
            cs.others[j]
        } else if j < n1 {
            pp[j - n0]
        } else if j < n2 {
            root_entry
        } else {
            cat_entries[j - n2]
        } by {}
        assert(forall|q: int| 0 <= q < pp.len() ==> (#[trigger] pp[q]).0 as int == q + 1);

        // No outline survives.
        assert forall|j: int| 0 <= j < whole.len() implies {
            let t = type_tag_v((#[trigger] whole[j]).1);
            t != Some(key_outlines()) && t != Some(tag_outline())
        } by {
            if n0 <= j < n1 {
                assert(pp[j - n0].1 == reparent_v(ordv[j - n0], pid));
                lemma_reparent_tag(ordv[j - n0], pid);
                assert(leaf(ordv[j - n0]));
            }
        }

        // Identifiers stay within the fresh range.
        assert forall|j: int| 0 <= j < whole.len() implies (#[trigger] whole[j]).0 as int
            <= bound by {}

        // Identifiers are pairwise distinct across the four segments.
        assert forall|j1: int, j2: int| 0 <= j1 < j2 < whole.len() implies (
        #[trigger] whole[j1]).0 != (#[trigger] whole[j2]).0 by {}

        // Each final position names its re-parented leaf page.
        let tail2 = seq![root_entry] + cat_entries;
        let tail1 = pp + tail2;
        assert(whole =~= cs.others + tail1);
        assert forall|i: int| 0 <= i < gtotal implies {
            &&& #[trigger] tv_get(whole, ((i + 1) as u64)) == Some(pp[i].1)
            &&& crate::document::is_page_view(pp[i].1)
        } by {
            let id = (i + 1) as u64;
            assert(forall|q: int| 0 <= q < cs.others.len() ==> (#[trigger] cs.others[q]).0 != id);
            crate::document::lemma_tv_get_absent(cs.others, id);
            crate::document::lemma_tv_get_add(cs.others, tail1, id);
            crate::document::lemma_tv_get_add(pp, tail2, id);
            crate::document::lemma_tv_get_at(pp, i);
            assert(pp[i].0 == id);
            assert(pp[i].1 == reparent_v(ordv[i], pid));
            lemma_reparent_tag(ordv[i], pid);
            assert(leaf(ordv[i]));
        }
    }
    proof {
        let mv = DocView { objects: tbl_view(out@), pages: plist@, root: cid };
        assert forall|i: int|
            0 <= i < mv.pages.len() implies match tv_get(mv.objects, #[trigger] mv.pages[i]) {
            Some(o) => crate::document::is_page_view(o),
            None => false,
        } by {
            assert(mv.pages[i] == (i + 1) as u64);
        }
        assert(mv.well_formed());
    }
    Some(PdfDocument { objects: out, pages: plist, root: cid })
}

} // verus!
