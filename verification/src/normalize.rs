//! The page-count normalizer: appends one blank leaf page to a document
//! whose leaf-page count is odd, so that the count comes out even.

use vstd::prelude::*;

use crate::document::{
    lemma_tbl_view, lemma_tbl_view_push, table_set, tbl_get, tbl_update, tbl_view, tv_get, DocView,
    PdfDocument,
};
use crate::names::{key_count, key_kids, key_pages, key_parent, key_type, tag_page};
use crate::object::{
    arr_view, dv_get, dv_set, entries_view, lemma_arr_view, lemma_entries_view, obj_view, ObjView,
    PdfDict, PdfObj,
};

verus! {

/// Why a document's page tree could not be normalized: the expected root
/// objects or fields are absent or of the wrong kind.
#[derive(Debug, Clone, Copy, PartialEq, Eq, Structural)]
pub enum StructureError {
    /// The trailer's root names no dictionary.
    CatalogMissing,
    /// The catalog has no "Pages" entry, or it is no reference.
    PagesRefMissing,
    /// The "Pages" reference names no dictionary.
    PagesMissing,
    /// The page-tree root has no "Kids" entry, or it is no array.
    KidsMissing,
    /// The page-tree root has no "Count" entry, or it is no integer.
    CountMissing,
    /// The "Count" cannot be incremented without overflow.
    CountOverflow,
}

/// The greatest identifier a table binds, or zero for an empty table.
pub open spec fn tbl_max_id(t: Seq<(u64, ObjView)>) -> int
    decreases t.len(),
{
    if t.len() == 0 {
        0
    } else {
        let m = tbl_max_id(t.drop_first());
        if t[0].0 as int > m {
            t[0].0 as int
        } else {
            m
        }
    }
}

/// The identifier the new page takes: one above every identifier in use.
pub open spec fn fresh_id(dv: DocView) -> u64 {
    (tbl_max_id(dv.objects) + 1) as u64
}

/// The blank leaf page the normalizer creates, parented at `pid`.
pub open spec fn blank_page(pid: u64) -> ObjView {
    ObjView::Dict(
        seq![
            (key_type(), ObjView::Name(tag_page())),
            (key_parent(), ObjView::Ref(pid)),
        ],
    )
}

/// What normalizing a document with an odd page count yields: the page
/// tree is located from the root, a blank page is linked into its "Kids"
/// and counted, and the page list grows by the new page's identifier — or
/// the first structural fault found, left to right.
pub open spec fn normalize_view(dv: DocView) -> Result<DocView, StructureError> {
    match tv_get(dv.objects, dv.root) {
        Some(ObjView::Dict(ces)) => match dv_get(ces, key_pages()) {
            Some(ObjView::Ref(pid)) => match tv_get(dv.objects, pid) {
                Some(ObjView::Dict(pes)) => match dv_get(pes, key_kids()) {
                    Some(ObjView::Arr(kids)) => match dv_get(pes, key_count()) {
                        Some(ObjView::Int(c)) => if c == i64::MAX {
                            Err(StructureError::CountOverflow)
                        } else {
                            let fresh = fresh_id(dv);
                            let new_pes = dv_set(
                                dv_set(pes, key_kids(), ObjView::Arr(kids.push(ObjView::Ref(fresh)))),
                                key_count(),
                                ObjView::Int((c + 1) as i64),
                            );
                            Ok(
                                DocView {
                                    objects: tbl_update(dv.objects, pid, ObjView::Dict(new_pes)).push(
                                        (fresh, blank_page(pid)),
                                    ),
                                    pages: dv.pages.push(fresh),
                                    root: dv.root,
                                },
                            )
                        },
                        _ => Err(StructureError::CountMissing),
                    },
                    _ => Err(StructureError::KidsMissing),
                },
                _ => Err(StructureError::PagesMissing),
            },
            _ => Err(StructureError::PagesRefMissing),
        },
        _ => Err(StructureError::CatalogMissing),
    }
}

/// Normalizes a document's page count to an even number. A document with
/// an even leaf-page count is left alone: nothing is built and nothing
/// need be written. For an odd count, the result is the same document
/// with one blank leaf page appended, as `normalize_view` describes.
pub fn normalize_page_tree(doc: &PdfDocument) -> (r: Result<Option<PdfDocument>, StructureError>)
    requires
        forall|i: int| 0 <= i < doc@.objects.len() ==> (#[trigger] doc@.objects[i]).0 < u64::MAX,
    ensures
        doc@.pages.len() % 2 == 0 ==> (r matches Ok(opt) && opt is None),
        doc@.pages.len() % 2 != 0 ==> match (r, normalize_view(doc@)) {
            (Ok(Some(m)), Ok(mv)) => {
                &&& m@.objects == mv.objects
                &&& m@.pages == mv.pages
                &&& m@.root == mv.root
                &&& m@.pages.len() == doc@.pages.len() + 1
                &&& m@.pages.len() % 2 == 0
            },
            (Err(e1), Err(e2)) => e1 == e2,
            _ => false,
        },
{
    let ghost dv = doc@;
    if doc.pages.len() % 2 == 0 {
        return Ok(None);
    }
    proof {
        lemma_tbl_view(doc.objects@);
    }

    // A fresh identifier: one above every identifier in use.
    let n = doc.objects.len();
    let mut cur: u64 = 0;
    let mut i: usize = 0;
    proof {
        assert(dv.objects.skip(0) =~= dv.objects);
    }
    while i < n
        invariant
            n == doc.objects.len(),
            dv == doc@,
            dv.objects.len() == n,
            forall|j: int|
                0 <= j < doc.objects@.len() ==> dv.objects[j] == (
                doc.objects@[j].0,
                obj_view(doc.objects@[j].1),
                ),
            forall|j: int| 0 <= j < dv.objects.len() ==> (#[trigger] dv.objects[j]).0 < u64::MAX,
            i <= n,
            cur < u64::MAX,
            tbl_max_id(dv.objects) == if cur as int > tbl_max_id(dv.objects.skip(i as int)) {
                cur as int
            } else {
                tbl_max_id(dv.objects.skip(i as int))
            },
        decreases n - i,
    {
        proof {
            assert(dv.objects.skip(i as int)[0] == dv.objects[i as int]);
            assert(dv.objects.skip(i as int).drop_first() =~= dv.objects.skip(i + 1));
        }
        if doc.objects[i].0 > cur {
            cur = doc.objects[i].0;
        }
        i += 1;
    }
    proof {
        assert(tbl_max_id(dv.objects.skip(n as int)) == 0);
        assert(cur as int == tbl_max_id(dv.objects));
    }
    let fresh: u64 = cur + 1;

    // Locate the catalog, the page-tree root, its children and its count.
    let cd = match tbl_get(&doc.objects, doc.root) {
        Some(o) => match crate::object::obj_as_dict(o) {
            Some(cd) => cd,
            None => {
                return Err(StructureError::CatalogMissing);
            },
        },
        None => {
            return Err(StructureError::CatalogMissing);
        },
    };
    let pages_key = crate::names::make_key_pages();
    let pid = match cd.get(&pages_key) {
        Some(v) => match crate::object::obj_as_ref(v) {
            Some(pid) => pid,
            None => {
                return Err(StructureError::PagesRefMissing);
            },
        },
        None => {
            return Err(StructureError::PagesRefMissing);
        },
    };
    let pd = match tbl_get(&doc.objects, pid) {
        Some(o) => match crate::object::obj_as_dict(o) {
            Some(pd) => pd,
            None => {
                return Err(StructureError::PagesMissing);
            },
        },
        None => {
            return Err(StructureError::PagesMissing);
        },
    };
    let kids_key = crate::names::make_key_kids();
    let kids = match pd.get(&kids_key) {
        Some(v) => match crate::object::obj_as_array(v) {
            Some(kids) => kids,
            None => {
                return Err(StructureError::KidsMissing);
            },
        },
        None => {
            return Err(StructureError::KidsMissing);
        },
    };
    let count_key = crate::names::make_key_count();
    let c = match pd.get(&count_key) {
        Some(v) => match crate::object::obj_as_int(v) {
            Some(c) => c,
            None => {
                return Err(StructureError::CountMissing);
            },
        },
        None => {
            return Err(StructureError::CountMissing);
        },
    };
    if c == i64::MAX {
        return Err(StructureError::CountOverflow);
    }

    // Link one blank page in: extend "Kids", bump "Count", append the page.
    let ghost kv = arr_view(kids@);
    let nk_len = kids.len();
    let mut nk: Vec<PdfObj> = Vec::new();
    let mut j: usize = 0;
    proof {
        lemma_arr_view(kids@);
    }
    while j < nk_len
        invariant
            nk_len == kids.len(),
            kv == arr_view(kids@),
            kv.len() == nk_len,
            forall|q: int| 0 <= q < nk_len ==> kv[q] == obj_view(kids@[q]),
            j <= nk_len,
            nk@.len() == j,
            forall|q: int| 0 <= q < j ==> obj_view(#[trigger] nk@[q]) == kv[q],
        decreases nk_len - j,
    {
        nk.push(crate::object::copy_obj(&kids[j]));
        j += 1;
    }
    nk.push(PdfObj::Reference(fresh));
    proof {
        lemma_arr_view(nk@);
        assert(arr_view(nk@) =~= kv.push(ObjView::Ref(fresh)));
    }
    let new_pes = crate::object::dict_set(
        &crate::object::dict_set(pd, &kids_key, PdfObj::Array(nk)),
        &count_key,
        PdfObj::Integer(c + 1),
    );
    let mut page_entries: Vec<(Vec<u8>, PdfObj)> = Vec::new();
    page_entries.push((crate::names::make_key_type(), PdfObj::Name(crate::names::make_tag_page())));
    page_entries.push((crate::names::make_key_parent(), PdfObj::Reference(pid)));
    let new_page = PdfObj::Dict(PdfDict { entries: page_entries });
    proof {
        lemma_entries_view(new_page->Dict_0.entries@);
        assert(obj_view(new_page) == blank_page(pid)) by {
            assert(entries_view(new_page->Dict_0.entries@) =~= blank_page(pid)->Dict_0);
        }
    }
    let mut new_objects = table_set(&doc.objects, pid, PdfObj::Dict(new_pes));
    let ghost before_page = new_objects@;
    new_objects.push((fresh, new_page));
    proof {
        lemma_tbl_view_push(before_page, (fresh, new_page));
    }
    let mut new_pages: Vec<u64> = Vec::new();
    let np = doc.pages.len();
    let mut w: usize = 0;
    while w < np
        invariant
            np == doc.pages.len(),
            w <= np,
            new_pages@ == doc.pages@.take(w as int),
        decreases np - w,
    {
        new_pages.push(doc.pages[w]);
        proof {
            assert(doc.pages@.take(w as int).push(doc.pages@[w as int]) =~= doc.pages@.take(
                w + 1,
            ));
        }
        w += 1;
    }
    proof {
        assert(doc.pages@.take(np as int) =~= doc.pages@);
    }
    new_pages.push(fresh);
    let m = PdfDocument { objects: new_objects, pages: new_pages, root: doc.root };
    proof {
        assert(fresh == fresh_id(dv));
        assert(normalize_view(dv) is Ok);
        assert(m@.objects == normalize_view(dv)->Ok_0.objects);
        assert(m@.pages == normalize_view(dv)->Ok_0.pages);
    }
    Ok(Some(m))
}

} // verus!
