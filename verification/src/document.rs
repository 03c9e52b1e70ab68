//! A document: an object table keyed by identifier, the ordered list of
//! its leaf pages, and the identifier of its catalog.

use vstd::prelude::*;

use crate::object::{obj_view, type_tag_v, ObjView, PdfObj};
use crate::names::tag_page;

verus! {

/// A document of the model: an object table (each entry an identifier and
/// the object it names), the ordered identifiers of its leaf pages, and
/// the identifier of its catalog, as the trailer's root names it.
#[derive(Debug, PartialEq, Eq)]
pub struct PdfDocument {
    pub objects: Vec<(u64, PdfObj)>,
    pub pages: Vec<u64>,
    pub root: u64,
}

/// The mathematical value of a document.
pub struct DocView {
    pub objects: Seq<(u64, ObjView)>,
    pub pages: Seq<u64>,
    pub root: u64,
}

/// The views of a table's entries, in order.
pub open spec fn tbl_view(s: Seq<(u64, PdfObj)>) -> Seq<(u64, ObjView)>
    decreases s,
{
    if s.len() == 0 {
        Seq::empty()
    } else {
        seq![(s[0].0, obj_view(s[0].1))] + tbl_view(s.drop_first())
    }
}

/// A table's view is the elementwise view of its entries.
pub proof fn lemma_tbl_view(s: Seq<(u64, PdfObj)>)
    ensures
        tbl_view(s).len() == s.len(),
        forall|i: int| 0 <= i < s.len() ==> tbl_view(s)[i] == (s[i].0, obj_view(s[i].1)),
    decreases s.len(),
{
    if s.len() > 0 {
        lemma_tbl_view(s.drop_first());
    }
}

/// Pushing one entry extends a table's view by exactly its view.
pub proof fn lemma_tbl_view_push(s: Seq<(u64, PdfObj)>, e: (u64, PdfObj))
    ensures
        tbl_view(s.push(e)) == tbl_view(s).push((e.0, obj_view(e.1))),
{
    lemma_tbl_view(s.push(e));
    lemma_tbl_view(s);
    assert(tbl_view(s.push(e)) =~= tbl_view(s).push((e.0, obj_view(e.1))));
}

/// Concatenating tables concatenates their views.
pub proof fn lemma_tbl_view_add(a: Seq<(u64, PdfObj)>, b: Seq<(u64, PdfObj)>)
    ensures
        tbl_view(a + b) == tbl_view(a) + tbl_view(b),
{
    lemma_tbl_view(a + b);
    lemma_tbl_view(a);
    lemma_tbl_view(b);
    assert(tbl_view(a + b) =~= tbl_view(a) + tbl_view(b));
}

/// The object an identifier names: the value of its first entry.
pub open spec fn tv_get(t: Seq<(u64, ObjView)>, id: u64) -> Option<ObjView>
    decreases t.len(),
{
    if t.len() == 0 {
        None
    } else if t[0].0 == id {
        Some(t[0].1)
    } else {
        tv_get(t.drop_first(), id)
    }
}


/// A lookup in the concatenation of two tables falls through to the second
/// when the first lacks the identifier.
pub proof fn lemma_tv_get_add(a: Seq<(u64, ObjView)>, b: Seq<(u64, ObjView)>, id: u64)
    ensures
        tv_get(a + b, id) == if tv_get(a, id) is Some {
            tv_get(a, id)
        } else {
            tv_get(b, id)
        },
    decreases a.len(),
{
    if a.len() == 0 {
        assert(a + b =~= b);
    } else {
        assert((a + b)[0] == a[0]);
        assert((a + b).drop_first() =~= a.drop_first() + b);
        lemma_tv_get_add(a.drop_first(), b, id);
    }
}

/// A lookup of an identifier no entry carries finds nothing.
pub proof fn lemma_tv_get_absent(t: Seq<(u64, ObjView)>, id: u64)
    requires
        forall|i: int| 0 <= i < t.len() ==> (#[trigger] t[i]).0 != id,
    ensures
        tv_get(t, id) is None,
    decreases t.len(),
{
    if t.len() > 0 {
        lemma_tv_get_absent(t.drop_first(), id);
    }
}

/// In a table with pairwise distinct identifiers, a lookup finds exactly
/// the entry that carries the identifier.
pub proof fn lemma_tv_get_at(t: Seq<(u64, ObjView)>, f: int)
    requires
        forall|i: int, j: int|
            0 <= i < j < t.len() ==> (#[trigger] t[i]).0 != (#[trigger] t[j]).0,
        0 <= f < t.len(),
    ensures
        tv_get(t, t[f].0) == Some(t[f].1),
    decreases t.len(),
{
    if f == 0 {
    } else {
        assert(t[0].0 != t[f].0);
        assert(t.drop_first()[f - 1] == t[f]);
        lemma_tv_get_at(t.drop_first(), f - 1);
    }
}

/// A leaf page: a dictionary whose declared type is "Page".
pub open spec fn is_page_view(o: ObjView) -> bool {
    &&& o is Dict
    &&& type_tag_v(o) == Some(tag_page())
}

impl View for PdfDocument {
    type V = DocView;

    open spec fn view(&self) -> DocView {
        DocView {
            objects: tbl_view(self.objects@),
            pages: self.pages@,
            root: self.root,
        }
    }
}

impl DocView {
    /// Well-formedness: identifiers name at most one object, and every
    /// listed page identifier names a leaf page dictionary.
    pub open spec fn well_formed(self) -> bool {
        &&& forall|i: int, j: int|
            0 <= i < j < self.objects.len() ==> (#[trigger] self.objects[i]).0 != (
            #[trigger] self.objects[j]).0
        &&& forall|i: int|
            0 <= i < self.pages.len() ==> match tv_get(self.objects, #[trigger] self.pages[i]) {
                Some(o) => is_page_view(o),
                None => false,
            }
    }
}

/// Looks an identifier up in a table.
pub fn tbl_get<'a>(t: &'a Vec<(u64, PdfObj)>, id: u64) -> (r: Option<&'a PdfObj>)
    ensures
        match r {
            Some(o) => tv_get(tbl_view(t@), id) == Some(o@),
            None => tv_get(tbl_view(t@), id) is None,
        },
{
    let n = t.len();
    let mut i: usize = 0;
    proof {
        lemma_tbl_view(t@);
        assert(tbl_view(t@).skip(0) =~= tbl_view(t@));
    }
    while i < n
        invariant
            n == t.len(),
            tbl_view(t@).len() == n,
            i <= n,
            forall|j: int|
                0 <= j < t@.len() ==> tbl_view(t@)[j] == (t@[j].0, obj_view(t@[j].1)),
            tv_get(tbl_view(t@), id) == tv_get(tbl_view(t@).skip(i as int), id),
        decreases n - i,
    {
        proof {
            assert(tbl_view(t@).skip(i as int)[0] == tbl_view(t@)[i as int]);
        }
        if t[i].0 == id {
            return Some(&t[i].1);
        }
        proof {
            assert(tbl_view(t@).skip(i as int).drop_first() =~= tbl_view(t@).skip(i + 1));
        }
        i += 1;
    }
    proof {
        assert(tbl_view(t@).skip(n as int).len() == 0);
    }
    None
}


/// Rebinding an identifier: the first entry carrying it is replaced in
/// place; a table without it is unchanged.
pub open spec fn tbl_update(t: Seq<(u64, ObjView)>, id: u64, v: ObjView) -> Seq<(u64, ObjView)>
    decreases t.len(),
{
    if t.len() == 0 {
        Seq::empty()
    } else if t[0].0 == id {
        seq![(id, v)] + t.drop_first()
    } else {
        seq![t[0]] + tbl_update(t.drop_first(), id, v)
    }
}

/// Rebinds an identifier in a table, copying the rest.
pub fn table_set(t: &Vec<(u64, PdfObj)>, id: u64, val: PdfObj) -> (r: Vec<(u64, PdfObj)>)
    ensures
        tbl_view(r@) == tbl_update(tbl_view(t@), id, val@),
{
    let ghost tv = tbl_view(t@);
    let n = t.len();
    let mut out: Vec<(u64, PdfObj)> = Vec::new();
    let mut i: usize = 0;
    let mut put: bool = false;
    proof {
        lemma_tbl_view(t@);
        assert(tv.skip(0) =~= tv);
        assert(Seq::<(u64, ObjView)>::empty() + tbl_update(tv, id, val@) =~= tbl_update(
            tv,
            id,
            val@,
        ));
    }
    while i < n
        invariant
            n == t.len(),
            tv == tbl_view(t@),
            tv.len() == n,
            i <= n,
            forall|j: int| 0 <= j < t@.len() ==> tv[j] == (t@[j].0, obj_view(t@[j].1)),
            !put ==> tbl_update(tv, id, val@) == tbl_view(out@) + tbl_update(
                tv.skip(i as int),
                id,
                val@,
            ),
            put ==> tbl_update(tv, id, val@) == tbl_view(out@) + tv.skip(i as int),
        decreases n - i,
    {
        proof {
            assert(tv.skip(i as int)[0] == tv[i as int]);
            assert(tv.skip(i as int).drop_first() =~= tv.skip(i + 1));
        }
        let ghost out0 = out@;
        if !put && t[i].0 == id {
            let v2 = crate::object::copy_obj(&val);
            out.push((id, v2));
            put = true;
            proof {
                lemma_tbl_view_push(out0, (id, v2));
                assert(tbl_update(tv.skip(i as int), id, val@) == seq![(id, val@)] + tv.skip(
                    i + 1,
                ));
                assert(tbl_view(out@) + tv.skip(i + 1) =~= tbl_view(out0) + (seq![(id, val@)]
                    + tv.skip(i + 1)));
            }
        } else {
            let k2 = t[i].0;
            let v2 = crate::object::copy_obj(&t[i].1);
            out.push((k2, v2));
            proof {
                lemma_tbl_view_push(out0, (k2, v2));
                if put {
                    assert(tbl_view(out@) + tv.skip(i + 1) =~= tbl_view(out0) + tv.skip(
                        i as int,
                    ));
                } else {
                    assert(tbl_update(tv.skip(i as int), id, val@) == seq![tv[i as int]]
                        + tbl_update(tv.skip(i + 1), id, val@));
                    assert(tbl_view(out@) + tbl_update(tv.skip(i + 1), id, val@) =~= tbl_view(
                        out0,
                    ) + (seq![tv[i as int]] + tbl_update(tv.skip(i + 1), id, val@)));
                }
            }
        }
        i += 1;
    }
    proof {
        assert(tv.skip(n as int).len() == 0);
        if put {
            assert(tbl_view(out@) + tv.skip(n as int) =~= tbl_view(out@));
        } else {
            assert(tbl_view(out@) + tbl_update(tv.skip(n as int), id, val@) =~= tbl_view(out@));
        }
    }
    out
}

/// The number of leaf pages of a document.
pub fn page_count(doc: &PdfDocument) -> (n: usize)
    ensures
        n == doc@.pages.len(),
{
    doc.pages.len()
}

} // verus!
