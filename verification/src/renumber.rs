//! Renumbering: rewriting the object identifiers of a document into a
//! fresh range through an explicit translation table, updating every
//! reference consistently.

use vstd::prelude::*;

use crate::object::{
    arr_view, dv_get, entries_view, lemma_arr_view, lemma_entries_view, obj_view, type_tag_v,
    ObjView, PdfDict, PdfObj,
};
use crate::document::{lemma_tbl_view, tbl_view};

verus! {

/// A translation table from old to new identifiers: a list of pairs, the
/// first pair carrying an identifier deciding it.
pub struct IdMap {
    pub pairs: Vec<(u64, u64)>,
}

/// The new identifier a translation list assigns, if any.
pub open spec fn pm_get(s: Seq<(u64, u64)>, id: u64) -> Option<u64>
    decreases s.len(),
{
    if s.len() == 0 {
        None
    } else if s[0].0 == id {
        Some(s[0].1)
    } else {
        pm_get(s.drop_first(), id)
    }
}

/// The identifier after translation: the assigned one, or the identifier
/// itself where the list is silent.
pub open spec fn map_id(s: Seq<(u64, u64)>, id: u64) -> u64 {
    match pm_get(s, id) {
        Some(n) => n,
        None => id,
    }
}

impl View for IdMap {
    type V = Seq<(u64, u64)>;

    open spec fn view(&self) -> Seq<(u64, u64)> {
        self.pairs@
    }
}

impl IdMap {
    /// Translates one identifier.
    pub fn translate(&self, id: u64) -> (r: u64)
        ensures
            r == map_id(self@, id),
    {
        let n = self.pairs.len();
        let mut i: usize = 0;
        proof {
            assert(self@.skip(0) =~= self@);
        }
        while i < n
            invariant
                n == self.pairs.len(),
                i <= n,
                pm_get(self@, id) == pm_get(self@.skip(i as int), id),
            decreases n - i,
        {
            proof {
                assert(self@.skip(i as int)[0] == self@[i as int]);
            }
            if self.pairs[i].0 == id {
                return self.pairs[i].1;
            }
            proof {
                assert(self@.skip(i as int).drop_first() =~= self@.skip(i + 1));
            }
            i += 1;
        }
        proof {
            assert(self@.skip(n as int).len() == 0);
        }
        id
    }
}

/// An object after renumbering: every reference's identifier is translated;
/// everything else is kept.
pub open spec fn rv_obj(o: ObjView, m: Seq<(u64, u64)>) -> ObjView
    decreases o,
{
    match o {
        ObjView::Ref(id) => ObjView::Ref(map_id(m, id)),
        ObjView::Arr(items) => ObjView::Arr(rv_arr(items, m)),
        ObjView::Dict(es) => ObjView::Dict(rv_entries(es, m)),
        ObjView::Stream(es, c, z) => ObjView::Stream(rv_entries(es, m), c, z),
        _ => o,
    }
}

/// An array's elements after renumbering, in order.
pub open spec fn rv_arr(s: Seq<ObjView>, m: Seq<(u64, u64)>) -> Seq<ObjView>
    decreases s,
{
    if s.len() == 0 {
        Seq::empty()
    } else {
        seq![rv_obj(s[0], m)] + rv_arr(s.drop_first(), m)
    }
}

/// A dictionary's entries after renumbering: keys kept, values renumbered.
pub open spec fn rv_entries(s: Seq<(Seq<u8>, ObjView)>, m: Seq<(u64, u64)>) -> Seq<
    (Seq<u8>, ObjView),
>
    decreases s,
{
    if s.len() == 0 {
        Seq::empty()
    } else {
        seq![(s[0].0, rv_obj(s[0].1, m))] + rv_entries(s.drop_first(), m)
    }
}

/// Renumbered arrays are elementwise renumberings.
pub proof fn lemma_rv_arr(s: Seq<ObjView>, m: Seq<(u64, u64)>)
    ensures
        rv_arr(s, m).len() == s.len(),
        forall|i: int| 0 <= i < s.len() ==> rv_arr(s, m)[i] == rv_obj(s[i], m),
    decreases s.len(),
{
    if s.len() > 0 {
        lemma_rv_arr(s.drop_first(), m);
    }
}

/// Renumbered entry lists are elementwise renumberings.
pub proof fn lemma_rv_entries(s: Seq<(Seq<u8>, ObjView)>, m: Seq<(u64, u64)>)
    ensures
        rv_entries(s, m).len() == s.len(),
        forall|i: int|
            0 <= i < s.len() ==> rv_entries(s, m)[i] == (s[i].0, rv_obj(s[i].1, m)),
    decreases s.len(),
{
    if s.len() > 0 {
        lemma_rv_entries(s.drop_first(), m);
    }
}

/// A lookup in a renumbered dictionary finds the renumbered value.
pub proof fn lemma_rv_entries_get(s: Seq<(Seq<u8>, ObjView)>, m: Seq<(u64, u64)>, key: Seq<u8>)
    ensures
        dv_get(rv_entries(s, m), key) == match dv_get(s, key) {
            Some(v) => Some(rv_obj(v, m)),
            None => None::<ObjView>,
        },
    decreases s.len(),
{
    if s.len() > 0 {
        assert(rv_entries(s, m)[0] == (s[0].0, rv_obj(s[0].1, m)));
        assert(rv_entries(s, m).drop_first() =~= rv_entries(s.drop_first(), m));
        lemma_rv_entries_get(s.drop_first(), m, key);
    }
}

/// Renumbering keeps an object's declared type.
pub proof fn lemma_rv_type_tag(o: ObjView, m: Seq<(u64, u64)>)
    ensures
        type_tag_v(rv_obj(o, m)) == type_tag_v(o),
{
    match o {
        ObjView::Dict(es) => {
            lemma_rv_entries_get(es, m, crate::names::key_type());
        },
        ObjView::Stream(es, c, z) => {
            lemma_rv_entries_get(es, m, crate::names::key_type());
        },
        _ => {},
    }
}

/// Renumbering keeps whether an object is a dictionary.
pub proof fn lemma_rv_dictness(o: ObjView, m: Seq<(u64, u64)>)
    ensures
        rv_obj(o, m) is Dict <==> o is Dict,
{
    match o {
        ObjView::Ref(_) => {},
        ObjView::Arr(_) => {},
        ObjView::Dict(_) => {},
        ObjView::Stream(_, _, _) => {},
        _ => {},
    }
}

/// Renumbers one object.
pub fn renumber_obj(o: &PdfObj, m: &IdMap) -> (r: PdfObj)
    ensures
        r@ == rv_obj(o@, m@),
    decreases *o,
{
    match o {
        PdfObj::Null => PdfObj::Null,
        PdfObj::Boolean(b) => PdfObj::Boolean(*b),
        PdfObj::Integer(i) => PdfObj::Integer(*i),
        PdfObj::RealBits(x) => PdfObj::RealBits(*x),
        PdfObj::LitString(s) => PdfObj::LitString(crate::object::copy_bytes(s)),
        PdfObj::HexString(s) => PdfObj::HexString(crate::object::copy_bytes(s)),
        PdfObj::Name(n) => PdfObj::Name(crate::object::copy_bytes(n)),
        PdfObj::Array(v) => {
            let n = v.len();
            let mut out: Vec<PdfObj> = Vec::new();
            let mut i: usize = 0;
            while i < n
                invariant
                    n == v.len(),
                    i <= n,
                    *o == PdfObj::Array(*v),
                    out@.len() == i,
                    forall|j: int|
                        0 <= j < i ==> obj_view(#[trigger] out@[j]) == rv_obj(obj_view(v@[j]), m@),
                decreases n - i,
            {
                proof {
                    assert(decreases_to!(*o => o->Array_0));
                    vstd::std_specs::vec::axiom_vec_index_decreases(*v, i as int);
                    assert(decreases_to!(*o => v@[i as int]));
                }
                out.push(renumber_obj(&v[i], m));
                i += 1;
            }
            proof {
                lemma_arr_view(out@);
                lemma_arr_view(v@);
                lemma_rv_arr(arr_view(v@), m@);
                assert(arr_view(out@) =~= rv_arr(arr_view(v@), m@));
            }
            PdfObj::Array(out)
        },
        PdfObj::Dict(d) => PdfObj::Dict(renumber_dict(d, m)),
        PdfObj::Stream(d, c, z) => PdfObj::Stream(
            renumber_dict(d, m),
            crate::object::copy_bytes(c),
            *z,
        ),
        PdfObj::Reference(id) => PdfObj::Reference(m.translate(*id)),
    }
}

/// Renumbers the values of a dictionary.
pub fn renumber_dict(d: &PdfDict, m: &IdMap) -> (r: PdfDict)
    ensures
        r@ == rv_entries(d@, m@),
    decreases *d,
{
    let n = d.entries.len();
    let mut out: Vec<(Vec<u8>, PdfObj)> = Vec::new();
    let mut i: usize = 0;
    while i < n
        invariant
            n == d.entries.len(),
            i <= n,
            out@.len() == i,
            forall|j: int|
                0 <= j < i ==> (#[trigger] out@[j]).0@ == d.entries@[j].0@ && obj_view(out@[j].1)
                    == rv_obj(obj_view(d.entries@[j].1), m@),
        decreases n - i,
    {
        let key = crate::object::copy_bytes(&d.entries[i].0);
        let val = renumber_obj(&d.entries[i].1, m);
        out.push((key, val));
        i += 1;
    }
    proof {
        lemma_entries_view(out@);
        lemma_entries_view(d.entries@);
        lemma_rv_entries(entries_view(d.entries@), m@);
        assert(entries_view(out@) =~= rv_entries(entries_view(d.entries@), m@));
    }
    PdfDict { entries: out }
}

/// A table renumbered from `start`: the i-th object gets identifier
/// `start + i`, and its references are translated by `m`.
pub open spec fn renum_table(t: Seq<(u64, ObjView)>, start: int, m: Seq<(u64, u64)>) -> Seq<
    (u64, ObjView),
> {
    Seq::new(t.len(), |i: int| (((start + i) as u64), rv_obj(t[i].1, m)))
}

/// The translation list a table renumbered from `start` is built with: the
/// i-th object's identifier goes to `start + i`.
pub open spec fn renum_pairs(t: Seq<(u64, ObjView)>, start: int) -> Seq<(u64, u64)> {
    Seq::new(t.len(), |i: int| (t[i].0, (start + i) as u64))
}

/// Builds the translation list for a table renumbered from `start`.
pub fn build_renum_pairs(t: &Vec<(u64, PdfObj)>, start: u64) -> (r: IdMap)
    requires
        start + t@.len() <= u64::MAX,
    ensures
        r@ == renum_pairs(tbl_view(t@), start as int),
{
    let n = t.len();
    let mut out: Vec<(u64, u64)> = Vec::new();
    let mut i: usize = 0;
    proof {
        lemma_tbl_view(t@);
    }
    while i < n
        invariant
            n == t.len(),
            tbl_view(t@).len() == n,
            start + n <= u64::MAX,
            i <= n,
            out@.len() == i,
            forall|j: int|
                0 <= j < t@.len() ==> tbl_view(t@)[j] == (t@[j].0, obj_view(t@[j].1)),
            forall|j: int|
                0 <= j < i ==> out@[j] == (t@[j].0, ((start + j) as u64)),
        decreases n - i,
    {
        out.push((t[i].0, start + (i as u64)));
        i += 1;
    }
    proof {
        assert(out@ =~= renum_pairs(tbl_view(t@), start as int));
    }
    IdMap { pairs: out }
}

/// Renumbers a whole table from `start` with the translation list `m`.
pub fn renumber_table(t: &Vec<(u64, PdfObj)>, start: u64, m: &IdMap) -> (r: Vec<(u64, PdfObj)>)
    requires
        start + t@.len() <= u64::MAX,
    ensures
        tbl_view(r@) == renum_table(tbl_view(t@), start as int, m@),
{
    let n = t.len();
    let mut out: Vec<(u64, PdfObj)> = Vec::new();
    let mut i: usize = 0;
    proof {
        lemma_tbl_view(t@);
    }
    while i < n
        invariant
            n == t.len(),
            tbl_view(t@).len() == n,
            start + n <= u64::MAX,
            i <= n,
            out@.len() == i,
            forall|j: int|
                0 <= j < t@.len() ==> tbl_view(t@)[j] == (t@[j].0, obj_view(t@[j].1)),
            forall|j: int|
                0 <= j < i ==> (#[trigger] out@[j]).0 == ((start + j) as u64) && obj_view(
                    out@[j].1,
                ) == rv_obj(obj_view(t@[j].1), m@),
        decreases n - i,
    {
        let val = renumber_obj(&t[i].1, m);
        out.push((start + (i as u64), val));
        i += 1;
    }
    proof {
        lemma_tbl_view(out@);
        assert(tbl_view(out@) =~= renum_table(tbl_view(t@), start as int, m@));
    }
    out
}

} // verus!
