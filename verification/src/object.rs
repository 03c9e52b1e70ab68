//! The object model: the tagged values that make up a document's object
//! graph, their mathematical views, and the dictionary operations the
//! engine needs.

use vstd::prelude::*;

verus! {

/// A tagged object of a document's object graph. Indirect objects refer to
/// one another through `Reference`, which carries the referee's identifier.
/// A real number is carried as the bit pattern of its 32-bit encoding, so
/// the model stays within plain integer values.
#[derive(Debug, PartialEq, Eq)]
pub enum PdfObj {
    Null,
    Boolean(bool),
    Integer(i64),
    RealBits(u32),
    LitString(Vec<u8>),
    HexString(Vec<u8>),
    Name(Vec<u8>),
    Array(Vec<PdfObj>),
    Dict(PdfDict),
    Stream(PdfDict, Vec<u8>, bool),
    Reference(u64),
}

/// A dictionary: a list of key/value entries in order. Keys are byte
/// strings; a well-formed dictionary holds each key at most once, and a
/// lookup takes the first occurrence.
#[derive(Debug, PartialEq, Eq)]
pub struct PdfDict {
    pub entries: Vec<(Vec<u8>, PdfObj)>,
}

/// The mathematical value of an object: the same tree, over `Seq` instead
/// of `Vec`, with dictionaries as sequences of key/value pairs.
pub enum ObjView {
    Null,
    Bool(bool),
    Int(i64),
    Real(u32),
    LitStr(Seq<u8>),
    HexStr(Seq<u8>),
    Name(Seq<u8>),
    Arr(Seq<ObjView>),
    Dict(Seq<(Seq<u8>, ObjView)>),
    Stream(Seq<(Seq<u8>, ObjView)>, Seq<u8>, bool),
    Ref(u64),
}

/// Compares two byte vectors for equality of their contents.
pub fn bytes_eq(a: &Vec<u8>, b: &Vec<u8>) -> (r: bool)
    ensures
        r <==> a@ == b@,
{
    if a.len() != b.len() {
        assert(a@ != b@) by {
            assert(a@.len() != b@.len());
        }
        return false;
    }
    let n = a.len();
    let mut i: usize = 0;
    while i < n
        invariant
            n == a.len() == b.len(),
            i <= n,
            forall|j: int| 0 <= j < i ==> a@[j] == b@[j],
        decreases n - i,
    {
        if a[i] != b[i] {
            return false;
        }
        i += 1;
    }
    assert(a@ =~= b@);
    true
}

/// The view of an object.
pub open spec fn obj_view(o: PdfObj) -> ObjView
    decreases o,
{
    match o {
        PdfObj::Null => ObjView::Null,
        PdfObj::Boolean(b) => ObjView::Bool(b),
        PdfObj::Integer(i) => ObjView::Int(i),
        PdfObj::RealBits(r) => ObjView::Real(r),
        PdfObj::LitString(s) => ObjView::LitStr(s@),
        PdfObj::HexString(s) => ObjView::HexStr(s@),
        PdfObj::Name(n) => ObjView::Name(n@),
        PdfObj::Array(v) => ObjView::Arr(arr_view(v@)),
        PdfObj::Dict(d) => ObjView::Dict(entries_view(d.entries@)),
        PdfObj::Stream(d, c, z) => ObjView::Stream(entries_view(d.entries@), c@, z),
        PdfObj::Reference(id) => ObjView::Ref(id),
    }
}

/// The views of the elements of an array, in order.
pub open spec fn arr_view(s: Seq<PdfObj>) -> Seq<ObjView>
    decreases s,
{
    if s.len() == 0 {
        Seq::empty()
    } else {
        seq![obj_view(s[0])] + arr_view(s.drop_first())
    }
}

/// The views of the entries of a dictionary, in order.
pub open spec fn entries_view(s: Seq<(Vec<u8>, PdfObj)>) -> Seq<(Seq<u8>, ObjView)>
    decreases s,
{
    if s.len() == 0 {
        Seq::empty()
    } else {
        seq![(s[0].0@, obj_view(s[0].1))] + entries_view(s.drop_first())
    }
}

impl View for PdfObj {
    type V = ObjView;

    open spec fn view(&self) -> ObjView {
        obj_view(*self)
    }
}

impl View for PdfDict {
    type V = Seq<(Seq<u8>, ObjView)>;

    open spec fn view(&self) -> Seq<(Seq<u8>, ObjView)> {
        entries_view(self.entries@)
    }
}

/// An array's view is the elementwise view of the array.
pub proof fn lemma_arr_view(s: Seq<PdfObj>)
    ensures
        arr_view(s).len() == s.len(),
        forall|i: int| 0 <= i < s.len() ==> arr_view(s)[i] == obj_view(s[i]),
    decreases s.len(),
{
    if s.len() > 0 {
        lemma_arr_view(s.drop_first());
    }
}

/// A dictionary's view is the elementwise view of its entry list.
pub proof fn lemma_entries_view(s: Seq<(Vec<u8>, PdfObj)>)
    ensures
        entries_view(s).len() == s.len(),
        forall|i: int| 0 <= i < s.len() ==> entries_view(s)[i] == (s[i].0@, obj_view(s[i].1)),
    decreases s.len(),
{
    if s.len() > 0 {
        lemma_entries_view(s.drop_first());
    }
}

/// The value bound to `key`: the value of the first entry carrying it.
pub open spec fn dv_get(dv: Seq<(Seq<u8>, ObjView)>, key: Seq<u8>) -> Option<ObjView>
    decreases dv.len(),
{
    if dv.len() == 0 {
        None
    } else if dv[0].0 == key {
        Some(dv[0].1)
    } else {
        dv_get(dv.drop_first(), key)
    }
}

/// Binding `key` to `val`: the first entry carrying `key` is replaced in
/// place; if none does, the entry is appended.
pub open spec fn dv_set(dv: Seq<(Seq<u8>, ObjView)>, key: Seq<u8>, val: ObjView) -> Seq<
    (Seq<u8>, ObjView),
>
    decreases dv.len(),
{
    if dv.len() == 0 {
        seq![(key, val)]
    } else if dv[0].0 == key {
        seq![(key, val)] + dv.drop_first()
    } else {
        seq![dv[0]] + dv_set(dv.drop_first(), key, val)
    }
}

/// All entries but those carrying `key`, in order.
pub open spec fn dv_remove(dv: Seq<(Seq<u8>, ObjView)>, key: Seq<u8>) -> Seq<(Seq<u8>, ObjView)>
    decreases dv.len(),
{
    if dv.len() == 0 {
        Seq::empty()
    } else if dv[0].0 == key {
        dv_remove(dv.drop_first(), key)
    } else {
        seq![dv[0]] + dv_remove(dv.drop_first(), key)
    }
}

/// The first-wins union: all of `a`, then those entries of `b` whose keys
/// appear neither in `a` nor earlier in `b`.
pub open spec fn dv_union_first(a: Seq<(Seq<u8>, ObjView)>, b: Seq<(Seq<u8>, ObjView)>) -> Seq<
    (Seq<u8>, ObjView),
>
    decreases b.len(),
{
    if b.len() == 0 {
        a
    } else if dv_get(a, b[0].0) is None {
        dv_union_first(a.push(b[0]), b.drop_first())
    } else {
        dv_union_first(a, b.drop_first())
    }
}

/// Appending an entry changes a lookup only for its key, and only when the
/// key was absent.
pub proof fn lemma_dv_get_push(dv: Seq<(Seq<u8>, ObjView)>, e: (Seq<u8>, ObjView), key: Seq<u8>)
    ensures
        dv_get(dv.push(e), key) == if dv_get(dv, key) is Some {
            dv_get(dv, key)
        } else if e.0 == key {
            Some(e.1)
        } else {
            None
        },
    decreases dv.len(),
{
    reveal_with_fuel(dv_get, 3);
    if dv.len() == 0 {
        assert(dv.push(e)[0] == e);
        assert(dv.push(e).drop_first() =~= Seq::<(Seq<u8>, ObjView)>::empty());
    } else {
        assert(dv.push(e)[0] == dv[0]);
        assert(dv.push(e).drop_first() =~= dv.drop_first().push(e));
        lemma_dv_get_push(dv.drop_first(), e, key);
    }
}

/// After binding a key, a lookup of that key finds the new value and a
/// lookup of any other key is unchanged.
pub proof fn lemma_dv_get_set(dv: Seq<(Seq<u8>, ObjView)>, key: Seq<u8>, val: ObjView, k2: Seq<u8>)
    ensures
        dv_get(dv_set(dv, key, val), k2) == if k2 == key {
            Some(val)
        } else {
            dv_get(dv, k2)
        },
    decreases dv.len(),
{
    reveal_with_fuel(dv_get, 3);
    if dv.len() == 0 {
        assert(dv_set(dv, key, val)[0] == (key, val));
        assert(dv_set(dv, key, val).drop_first() =~= Seq::<(Seq<u8>, ObjView)>::empty());
    } else if dv[0].0 == key {
        assert(dv_set(dv, key, val)[0] == (key, val));
        assert(dv_set(dv, key, val).drop_first() =~= dv.drop_first());
    } else {
        assert(dv_set(dv, key, val)[0] == dv[0]);
        assert(dv_set(dv, key, val).drop_first() =~= dv_set(dv.drop_first(), key, val));
        lemma_dv_get_set(dv.drop_first(), key, val, k2);
    }
}

/// After removing a key, a lookup of that key finds nothing and a lookup
/// of any other key is unchanged.
pub proof fn lemma_dv_get_remove(dv: Seq<(Seq<u8>, ObjView)>, key: Seq<u8>, k2: Seq<u8>)
    ensures
        dv_get(dv_remove(dv, key), k2) == if k2 == key {
            None
        } else {
            dv_get(dv, k2)
        },
    decreases dv.len(),
{
    reveal_with_fuel(dv_get, 3);
    if dv.len() == 0 {
    } else if dv[0].0 == key {
        lemma_dv_get_remove(dv.drop_first(), key, k2);
    } else {
        assert(dv_remove(dv, key)[0] == dv[0]);
        assert(dv_remove(dv, key).drop_first() =~= dv_remove(dv.drop_first(), key));
        lemma_dv_get_remove(dv.drop_first(), key, k2);
    }
}

/// A lookup in a first-wins union prefers the first dictionary and falls
/// through to the second.
pub proof fn lemma_dv_get_union_first(
    a: Seq<(Seq<u8>, ObjView)>,
    b: Seq<(Seq<u8>, ObjView)>,
    k2: Seq<u8>,
)
    ensures
        dv_get(dv_union_first(a, b), k2) == if dv_get(a, k2) is Some {
            dv_get(a, k2)
        } else {
            dv_get(b, k2)
        },
    decreases b.len(),
{
    if b.len() == 0 {
    } else if dv_get(a, b[0].0) is None {
        lemma_dv_get_push(a, b[0], k2);
        lemma_dv_get_union_first(a.push(b[0]), b.drop_first(), k2);
    } else {
        lemma_dv_get_union_first(a, b.drop_first(), k2);
    }
}

/// The declared type of an object: the name under "Type" of a dictionary
/// or of a stream's dictionary.
pub open spec fn type_tag_v(o: ObjView) -> Option<Seq<u8>> {
    match o {
        ObjView::Dict(es) => match dv_get(es, crate::names::key_type()) {
            Some(ObjView::Name(n)) => Some(n),
            _ => None,
        },
        ObjView::Stream(es, _, _) => match dv_get(es, crate::names::key_type()) {
            Some(ObjView::Name(n)) => Some(n),
            _ => None,
        },
        _ => None,
    }
}

impl PdfDict {
    /// Looks a key up, returning the value of its first entry.
    pub fn get(&self, key: &Vec<u8>) -> (r: Option<&PdfObj>)
        ensures
            match r {
                Some(o) => dv_get(self@, key@) == Some(o@),
                None => dv_get(self@, key@) is None,
            },
    {
        let n = self.entries.len();
        let mut i: usize = 0;
        proof {
            lemma_entries_view(self.entries@);
            assert(self@.skip(0) =~= self@);
        }
        while i < n
            invariant
                n == self.entries.len(),
                self@.len() == n,
                i <= n,
                forall|j: int|
                    0 <= j < self@.len() ==> self@[j] == (
                    self.entries@[j].0@,
                    obj_view(self.entries@[j].1),
                    ),
                dv_get(self@, key@) == dv_get(self@.skip(i as int), key@),
            decreases n - i,
        {
            proof {
                assert(self@.skip(i as int)[0] == self@[i as int]);
            }
            if bytes_eq(&self.entries[i].0, key) {
                return Some(&self.entries[i].1);
            }
            proof {
                assert(self@.skip(i as int).drop_first() =~= self@.skip(i + 1));
            }
            i += 1;
        }
        proof {
            assert(self@.skip(n as int).len() == 0);
        }
        None
    }
}

/// The reference an object is, if it is one.
pub fn obj_as_ref(o: &PdfObj) -> (r: Option<u64>)
    ensures
        match r {
            Some(id) => o@ == ObjView::Ref(id),
            None => !(o@ is Ref),
        },
{
    match o {
        PdfObj::Reference(id) => Some(*id),
        PdfObj::Null => None,
        PdfObj::Boolean(_) => None,
        PdfObj::Integer(_) => None,
        PdfObj::RealBits(_) => None,
        PdfObj::LitString(_) => None,
        PdfObj::HexString(_) => None,
        PdfObj::Name(_) => None,
        PdfObj::Array(_) => None,
        PdfObj::Dict(_) => None,
        PdfObj::Stream(_, _, _) => None,
    }
}

/// The array an object is, if it is one.
pub fn obj_as_array(o: &PdfObj) -> (r: Option<&Vec<PdfObj>>)
    ensures
        match r {
            Some(v) => o@ == ObjView::Arr(arr_view(v@)),
            None => !(o@ is Arr),
        },
{
    match o {
        PdfObj::Array(v) => Some(v),
        PdfObj::Null => None,
        PdfObj::Boolean(_) => None,
        PdfObj::Integer(_) => None,
        PdfObj::RealBits(_) => None,
        PdfObj::LitString(_) => None,
        PdfObj::HexString(_) => None,
        PdfObj::Name(_) => None,
        PdfObj::Dict(_) => None,
        PdfObj::Stream(_, _, _) => None,
        PdfObj::Reference(_) => None,
    }
}

/// The integer an object is, if it is one.
pub fn obj_as_int(o: &PdfObj) -> (r: Option<i64>)
    ensures
        match r {
            Some(c) => o@ == ObjView::Int(c),
            None => !(o@ is Int),
        },
{
    match o {
        PdfObj::Integer(c) => Some(*c),
        PdfObj::Null => None,
        PdfObj::Boolean(_) => None,
        PdfObj::RealBits(_) => None,
        PdfObj::LitString(_) => None,
        PdfObj::HexString(_) => None,
        PdfObj::Name(_) => None,
        PdfObj::Array(_) => None,
        PdfObj::Dict(_) => None,
        PdfObj::Stream(_, _, _) => None,
        PdfObj::Reference(_) => None,
    }
}

/// The name an object is, if it is a name.
pub fn obj_as_name(o: &PdfObj) -> (r: Option<&Vec<u8>>)
    ensures
        match r {
            Some(n) => o@ == ObjView::Name(n@),
            None => !(o@ is Name),
        },
{
    match o {
        PdfObj::Name(n) => Some(n),
        PdfObj::Null => None,
        PdfObj::Boolean(_) => None,
        PdfObj::Integer(_) => None,
        PdfObj::RealBits(_) => None,
        PdfObj::LitString(_) => None,
        PdfObj::HexString(_) => None,
        PdfObj::Array(_) => None,
        PdfObj::Dict(_) => None,
        PdfObj::Stream(_, _, _) => None,
        PdfObj::Reference(_) => None,
    }
}

/// The dictionary an object is, if it is one.
pub fn obj_as_dict(o: &PdfObj) -> (r: Option<&PdfDict>)
    ensures
        match r {
            Some(d) => o@ == ObjView::Dict(d@),
            None => !(o@ is Dict),
        },
{
    match o {
        PdfObj::Dict(d) => Some(d),
        PdfObj::Null => None,
        PdfObj::Boolean(_) => None,
        PdfObj::Integer(_) => None,
        PdfObj::RealBits(_) => None,
        PdfObj::LitString(_) => None,
        PdfObj::HexString(_) => None,
        PdfObj::Name(_) => None,
        PdfObj::Array(_) => None,
        PdfObj::Stream(_, _, _) => None,
        PdfObj::Reference(_) => None,
    }
}

/// The declared type of an object, as `type_tag_v` gives it.
pub fn type_tag(o: &PdfObj) -> (r: Option<&Vec<u8>>)
    ensures
        match r {
            Some(n) => type_tag_v(o@) == Some(n@),
            None => type_tag_v(o@) is None,
        },
{
    let key = crate::names::make_key_type();
    match o {
        PdfObj::Dict(d) => match d.get(&key) {
            Some(v) => obj_as_name(v),
            None => None,
        },
        PdfObj::Stream(d, _, _) => match d.get(&key) {
            Some(v) => obj_as_name(v),
            None => None,
        },
        PdfObj::Null => None,
        PdfObj::Boolean(_) => None,
        PdfObj::Integer(_) => None,
        PdfObj::RealBits(_) => None,
        PdfObj::LitString(_) => None,
        PdfObj::HexString(_) => None,
        PdfObj::Name(_) => None,
        PdfObj::Array(_) => None,
        PdfObj::Reference(_) => None,
    }
}

/// Copies a byte vector.
pub fn copy_bytes(v: &Vec<u8>) -> (r: Vec<u8>)
    ensures
        r@ == v@,
{
    let n = v.len();
    let mut r: Vec<u8> = Vec::new();
    let mut i: usize = 0;
    while i < n
        invariant
            n == v.len(),
            i <= n,
            r@ == v@.take(i as int),
        decreases n - i,
    {
        r.push(v[i]);
        proof {
            assert(v@.take(i as int).push(v@[i as int]) =~= v@.take(i + 1));
        }
        i += 1;
    }
    proof {
        assert(v@.take(n as int) =~= v@);
    }
    r
}

/// Copies an object; the copy has the same view.
pub fn copy_obj(o: &PdfObj) -> (r: PdfObj)
    ensures
        r@ == o@,
    decreases *o,
{
    match o {
        PdfObj::Null => PdfObj::Null,
        PdfObj::Boolean(b) => PdfObj::Boolean(*b),
        PdfObj::Integer(i) => PdfObj::Integer(*i),
        PdfObj::RealBits(x) => PdfObj::RealBits(*x),
        PdfObj::LitString(s) => PdfObj::LitString(copy_bytes(s)),
        PdfObj::HexString(s) => PdfObj::HexString(copy_bytes(s)),
        PdfObj::Name(n) => PdfObj::Name(copy_bytes(n)),
        PdfObj::Array(v) => {
            let n = v.len();
            let mut out: Vec<PdfObj> = Vec::new();
            let mut i: usize = 0;
            while i < n
                invariant
                    n == v.len(),
                    i <= n,
                    *o == PdfObj::Array(*v),
                    out@.len() == i,
                    forall|j: int| 0 <= j < i ==> obj_view(#[trigger] out@[j]) == obj_view(v@[j]),
                decreases n - i,
            {
                proof {
                    assert(decreases_to!(*o => o->Array_0));
                    vstd::std_specs::vec::axiom_vec_index_decreases(*v, i as int);
                    assert(decreases_to!(*o => v@[i as int]));
                }
                out.push(copy_obj(&v[i]));
                i += 1;
            }
            proof {
                lemma_arr_view(out@);
                lemma_arr_view(v@);
                assert(arr_view(out@) =~= arr_view(v@));
            }
            PdfObj::Array(out)
        },
        PdfObj::Dict(d) => PdfObj::Dict(copy_dict(d)),
        PdfObj::Stream(d, c, z) => PdfObj::Stream(copy_dict(d), copy_bytes(c), *z),
        PdfObj::Reference(id) => PdfObj::Reference(*id),
    }
}

/// Copies a dictionary; the copy has the same view.
pub fn copy_dict(d: &PdfDict) -> (r: PdfDict)
    ensures
        r@ == d@,
    decreases *d,
{
    let n = d.entries.len();
    let mut out: Vec<(Vec<u8>, PdfObj)> = Vec::new();
    let mut i: usize = 0;
    while i < n
        invariant
            n == d.entries.len(),
            i <= n,
            out@.len() == i,
            forall|j: int|
                0 <= j < i ==> (#[trigger] out@[j]).0@ == d.entries@[j].0@ && obj_view(out@[j].1)
                    == obj_view(d.entries@[j].1),
        decreases n - i,
    {
        let key = copy_bytes(&d.entries[i].0);
        let val = copy_obj(&d.entries[i].1);
        out.push((key, val));
        i += 1;
    }
    proof {
        lemma_entries_view(out@);
        lemma_entries_view(d.entries@);
        assert(entries_view(out@) =~= entries_view(d.entries@));
    }
    PdfDict { entries: out }
}

/// Binds `key` to `val` in `d`: replaces the first entry carrying the key,
/// or appends one.
pub fn dict_set(d: &PdfDict, key: &Vec<u8>, val: PdfObj) -> (r: PdfDict)
    ensures
        r@ == dv_set(d@, key@, val@),
{
    let n = d.entries.len();
    let mut out: Vec<(Vec<u8>, PdfObj)> = Vec::new();
    let mut i: usize = 0;
    proof {
        lemma_entries_view(d.entries@);
        assert(d@.skip(0) =~= d@);
        assert(Seq::<(Seq<u8>, ObjView)>::empty() + dv_set(d@, key@, val@) =~= dv_set(
            d@,
            key@,
            val@,
        ));
    }
    while i < n
        invariant
            n == d.entries.len(),
            d@.len() == n,
            i <= n,
            forall|j: int|
                0 <= j < d@.len() ==> d@[j] == (d.entries@[j].0@, obj_view(d.entries@[j].1)),
            dv_set(d@, key@, val@) == entries_view(out@) + dv_set(d@.skip(i as int), key@, val@),
        decreases n - i,
    {
        proof {
            assert(d@.skip(i as int)[0] == d@[i as int]);
            assert(d@.skip(i as int).drop_first() =~= d@.skip(i + 1));
        }
        let ghost out0 = out@;
        let ghost old_out = entries_view(out@);
        if bytes_eq(&d.entries[i].0, key) {
            let k2 = copy_bytes(key);
            out.push((k2, val));
            proof {
                lemma_entries_view_push(out0, (k2, val));
                assert(dv_set(d@.skip(i as int), key@, val@) == seq![(key@, val@)] + d@.skip(i + 1));
                assert(entries_view(out@) + d@.skip(i + 1) =~= old_out + (seq![(key@, val@)]
                    + d@.skip(i + 1)));
            }
            return finish_entries(d, out, i + 1, Ghost(dv_set(d@, key@, val@)));
        } else {
            let k2 = copy_bytes(&d.entries[i].0);
            let v2 = copy_obj(&d.entries[i].1);
            out.push((k2, v2));
            proof {
                lemma_entries_view_push(out0, (k2, v2));
                assert(dv_set(d@.skip(i as int), key@, val@) == seq![d@[i as int]] + dv_set(
                    d@.skip(i + 1),
                    key@,
                    val@,
                ));
                assert(entries_view(out@) + dv_set(d@.skip(i + 1), key@, val@) =~= old_out + (seq![
                    d@[i as int],
                ] + dv_set(d@.skip(i + 1), key@, val@)));
            }
        }
        i += 1;
    }
    let k2 = copy_bytes(key);
    let ghost out0 = out@;
    let ghost old_out = entries_view(out@);
    out.push((k2, val));
    proof {
        lemma_entries_view_push(out0, (k2, val));
        assert(d@.skip(n as int).len() == 0);
        assert(entries_view(out@) =~= old_out + dv_set(d@.skip(n as int), key@, val@));
    }
    PdfDict { entries: out }
}

/// Pushing one element extends an array's view by exactly its view.
pub proof fn lemma_arr_view_push(s: Seq<PdfObj>, e: PdfObj)
    ensures
        arr_view(s.push(e)) == arr_view(s).push(obj_view(e)),
{
    lemma_arr_view(s.push(e));
    lemma_arr_view(s);
    assert(arr_view(s.push(e)) =~= arr_view(s).push(obj_view(e)));
}

/// Pushing one entry extends the entry-list view by exactly its view.
proof fn lemma_entries_view_push(s: Seq<(Vec<u8>, PdfObj)>, e: (Vec<u8>, PdfObj))
    ensures
        entries_view(s.push(e)) == entries_view(s).push((e.0@, obj_view(e.1))),
{
    lemma_entries_view(s.push(e));
    lemma_entries_view(s);
    assert(entries_view(s.push(e)) =~= entries_view(s).push((e.0@, obj_view(e.1))));
}

/// Copies the tail of `d`'s entries, from `start` on, onto `out`, which
/// already holds the rewritten head; the whole then has the given view.
fn finish_entries(
    d: &PdfDict,
    out: Vec<(Vec<u8>, PdfObj)>,
    start: usize,
    Ghost(goal): Ghost<Seq<(Seq<u8>, ObjView)>>,
) -> (r: PdfDict)
    requires
        start <= d.entries@.len(),
        goal == entries_view(out@) + d@.skip(start as int),
    ensures
        r@ == goal,
{
    let n = d.entries.len();
    let mut out = out;
    let mut i: usize = start;
    proof {
        lemma_entries_view(d.entries@);
    }
    while i < n
        invariant
            n == d.entries.len(),
            d@.len() == n,
            start <= i <= n,
            forall|j: int|
                0 <= j < d@.len() ==> d@[j] == (d.entries@[j].0@, obj_view(d.entries@[j].1)),
            goal == entries_view(out@) + d@.skip(i as int),
        decreases n - i,
    {
        let k2 = copy_bytes(&d.entries[i].0);
        let v2 = copy_obj(&d.entries[i].1);
        let ghost out0 = out@;
        let ghost old_out = entries_view(out@);
        out.push((k2, v2));
        proof {
            lemma_entries_view_push(out0, (k2, v2));
            assert(d@.skip(i as int)[0] == d@[i as int]);
            assert(d@.skip(i as int).drop_first() =~= d@.skip(i + 1));
            assert(entries_view(out@) + d@.skip(i + 1) =~= old_out + d@.skip(i as int));
        }
        i += 1;
    }
    proof {
        assert(d@.skip(n as int).len() == 0);
        assert(entries_view(out@) + d@.skip(n as int) =~= entries_view(out@));
    }
    PdfDict { entries: out }
}

/// Removes every entry carrying `key` from `d`.
pub fn dict_remove_all(d: &PdfDict, key: &Vec<u8>) -> (r: PdfDict)
    ensures
        r@ == dv_remove(d@, key@),
{
    let n = d.entries.len();
    let mut out: Vec<(Vec<u8>, PdfObj)> = Vec::new();
    let mut i: usize = 0;
    proof {
        lemma_entries_view(d.entries@);
        assert(d@.skip(0) =~= d@);
        assert(Seq::<(Seq<u8>, ObjView)>::empty() + dv_remove(d@, key@) =~= dv_remove(d@, key@));
    }
    while i < n
        invariant
            n == d.entries.len(),
            d@.len() == n,
            i <= n,
            forall|j: int|
                0 <= j < d@.len() ==> d@[j] == (d.entries@[j].0@, obj_view(d.entries@[j].1)),
            dv_remove(d@, key@) == entries_view(out@) + dv_remove(d@.skip(i as int), key@),
        decreases n - i,
    {
        proof {
            assert(d@.skip(i as int)[0] == d@[i as int]);
            assert(d@.skip(i as int).drop_first() =~= d@.skip(i + 1));
        }
        if !bytes_eq(&d.entries[i].0, key) {
            let k2 = copy_bytes(&d.entries[i].0);
            let v2 = copy_obj(&d.entries[i].1);
            let ghost out0 = out@;
            let ghost old_out = entries_view(out@);
            out.push((k2, v2));
            proof {
                lemma_entries_view_push(out0, (k2, v2));
                assert(entries_view(out@) + dv_remove(d@.skip(i + 1), key@) =~= old_out + (seq![
                    d@[i as int],
                ] + dv_remove(d@.skip(i + 1), key@)));
            }
        }
        i += 1;
    }
    proof {
        assert(d@.skip(n as int).len() == 0);
        assert(entries_view(out@) + dv_remove(d@.skip(n as int), key@) =~= entries_view(out@));
    }
    PdfDict { entries: out }
}

/// The first-wins union of two dictionaries: `a`'s entries, then those of
/// `b` whose keys are new.
pub fn dict_union_first(a: PdfDict, b: &PdfDict) -> (r: PdfDict)
    ensures
        r@ == dv_union_first(a@, b@),
{
    let ghost a0 = a@;
    let n = b.entries.len();
    let mut cur = a;
    let mut i: usize = 0;
    proof {
        lemma_entries_view(b.entries@);
        assert(b@.skip(0) =~= b@);
    }
    while i < n
        invariant
            n == b.entries.len(),
            b@.len() == n,
            i <= n,
            forall|j: int|
                0 <= j < b@.len() ==> b@[j] == (b.entries@[j].0@, obj_view(b.entries@[j].1)),
            dv_union_first(a0, b@) == dv_union_first(cur@, b@.skip(i as int)),
        decreases n - i,
    {
        proof {
            assert(b@.skip(i as int)[0] == b@[i as int]);
            assert(b@.skip(i as int).drop_first() =~= b@.skip(i + 1));
        }
        let absent = match cur.get(&b.entries[i].0) {
            Some(_) => false,
            None => true,
        };
        if absent {
            let k2 = copy_bytes(&b.entries[i].0);
            let v2 = copy_obj(&b.entries[i].1);
            let ghost cur0 = cur.entries@;
            let ghost old_cur = cur@;
            cur.entries.push((k2, v2));
            proof {
                lemma_entries_view_push(cur0, (k2, v2));
                assert(cur@ == old_cur.push(b@[i as int]));
            }
        }
        i += 1;
    }
    proof {
        assert(b@.skip(n as int).len() == 0);
    }
    cur
}

} // verus!
