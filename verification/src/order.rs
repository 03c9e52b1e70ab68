//! The merged page order: the destination's pages with a full copy of the
//! source's pages spliced in at every insertion point.

use vstd::prelude::*;

use crate::object::{
    arr_view, lemma_arr_view, lemma_arr_view_push, obj_view, ObjView, PdfObj,
};

verus! {

/// The spliced sequence, from destination position `start` on: for
/// insertion points `p1 <= p2 <= ...`, it is `dst[start..p1]`, then all of
/// `src`, then `dst[p1..p2]`, then all of `src`, and so on, ending with
/// the destination's tail.
pub open spec fn interleave<T>(dst: Seq<T>, src: Seq<T>, pts: Seq<u32>, start: int) -> Seq<T>
    decreases pts.len(),
{
    if pts.len() == 0 {
        dst.subrange(start, dst.len() as int)
    } else {
        dst.subrange(start, pts[0] as int) + src + interleave(
            dst,
            src,
            pts.drop_first(),
            pts[0] as int,
        )
    }
}

/// The insertion points lie in `[lo, len(dst)]`, in nondecreasing order.
pub open spec fn pts_within<T>(pts: Seq<u32>, lo: int, dst: Seq<T>) -> bool {
    &&& forall|i: int| 0 <= i < pts.len() ==> lo <= #[trigger] pts[i] <= dst.len()
    &&& forall|i: int, j: int| 0 <= i < j < pts.len() ==> pts[i] <= pts[j]
}

/// The law of the merged page count: splicing `src` in at `k` insertion
/// points yields `(d - start) + k * s` pages.
pub proof fn lemma_interleave_len<T>(dst: Seq<T>, src: Seq<T>, pts: Seq<u32>, start: int)
    requires
        0 <= start <= dst.len(),
        pts_within(pts, start, dst),
    ensures
        interleave(dst, src, pts, start).len() == (dst.len() - start) + pts.len() * src.len(),
    decreases pts.len(),
{
    if pts.len() == 0 {
    } else {
        assert(forall|i: int|
            0 <= i < pts.drop_first().len() ==> pts[0] <= #[trigger] pts.drop_first()[i]
                <= dst.len());
        lemma_interleave_len(dst, src, pts.drop_first(), pts[0] as int);
        assert((pts.len() - 1) * src.len() + src.len() == pts.len() * src.len()) by (
        nonlinear_arith);
    }
}

/// Builds the spliced sequence of page objects: copies of the destination
/// pages with a full copy of the source pages after each insertion point.
pub fn build_order(dpo: &Vec<PdfObj>, spo: &Vec<PdfObj>, pts: &Vec<u32>) -> (r: Vec<PdfObj>)
    requires
        pts_within(pts@, 0, arr_view(dpo@)),
    ensures
        arr_view(r@) == interleave(arr_view(dpo@), arr_view(spo@), pts@, 0),
{
    let ghost dv = arr_view(dpo@);
    let ghost sv = arr_view(spo@);
    let ghost goal = interleave(dv, sv, pts@, 0);
    let d = dpo.len();
    let s = spo.len();
    let k = pts.len();
    let mut out: Vec<PdfObj> = Vec::new();
    let mut prev: usize = 0;
    let mut t: usize = 0;
    proof {
        lemma_arr_view(dpo@);
        lemma_arr_view(spo@);
        assert(pts@.skip(0) =~= pts@);
        assert(Seq::<ObjView>::empty() + interleave(dv, sv, pts@, 0) =~= goal);
    }
    while t < k
        invariant
            d == dpo.len(),
            s == spo.len(),
            k == pts.len(),
            dv == arr_view(dpo@),
            sv == arr_view(spo@),
            goal == interleave(dv, sv, pts@, 0),
            dv.len() == d,
            sv.len() == s,
            forall|j: int| 0 <= j < d ==> dv[j] == obj_view(dpo@[j]),
            forall|j: int| 0 <= j < s ==> sv[j] == obj_view(spo@[j]),
            pts_within(pts@, 0, dv),
            t <= k,
            prev <= d,
            forall|j: int| t <= j < k ==> prev <= #[trigger] pts@[j],
            goal == arr_view(out@) + interleave(dv, sv, pts@.skip(t as int), prev as int),
        decreases k - t,
    {
        let p = pts[t] as usize;
        proof {
            assert(pts@.skip(t as int)[0] == pts@[t as int]);
            assert(pts@.skip(t as int).drop_first() =~= pts@.skip(t + 1));
        }
        let ghost out0 = arr_view(out@);
        proof {
            assert(out0 + dv.subrange(prev as int, prev as int) =~= out0);
        }
        let mut j: usize = prev;
        while j < p
            invariant
                d == dpo.len(),
                dv == arr_view(dpo@),
                dv.len() == d,
                forall|jj: int| 0 <= jj < d ==> dv[jj] == obj_view(dpo@[jj]),
                prev <= j <= p,
                p <= d,
                arr_view(out@) == out0 + dv.subrange(prev as int, j as int),
            decreases p - j,
        {
            let ghost before = out@;
            out.push(crate::object::copy_obj(&dpo[j]));
            proof {
                lemma_arr_view_push(before, out@.last());
                assert(out@.drop_last() =~= before);
                assert(out0 + dv.subrange(prev as int, j as int + 1) =~= (out0 + dv.subrange(
                    prev as int,
                    j as int,
                )).push(dv[j as int]));
            }
            j += 1;
        }
        let ghost out1 = arr_view(out@);
        proof {
            assert(out1 + sv.take(0) =~= out1);
        }
        let mut j2: usize = 0;
        while j2 < s
            invariant
                s == spo.len(),
                sv == arr_view(spo@),
                sv.len() == s,
                forall|jj: int| 0 <= jj < s ==> sv[jj] == obj_view(spo@[jj]),
                j2 <= s,
                arr_view(out@) == out1 + sv.take(j2 as int),
            decreases s - j2,
        {
            let ghost before = out@;
            out.push(crate::object::copy_obj(&spo[j2]));
            proof {
                lemma_arr_view_push(before, out@.last());
                assert(out@.drop_last() =~= before);
                assert(out1 + sv.take(j2 as int + 1) =~= (out1 + sv.take(j2 as int)).push(
                    sv[j2 as int],
                ));
            }
            j2 += 1;
        }
        proof {
            assert(sv.take(s as int) =~= sv);
            assert(arr_view(out@) + interleave(dv, sv, pts@.skip(t + 1), p as int) =~= out0 + (
            dv.subrange(prev as int, p as int) + sv + interleave(
                dv,
                sv,
                pts@.skip(t + 1),
                p as int,
            )));
        }
        prev = p;
        t += 1;
    }
    proof {
        assert(pts@.skip(k as int).len() == 0);
    }
    let ghost out2 = arr_view(out@);
    proof {
        assert(out2 + dv.subrange(prev as int, prev as int) =~= out2);
    }
    let mut j3: usize = prev;
    while j3 < d
        invariant
            d == dpo.len(),
            dv == arr_view(dpo@),
            dv.len() == d,
            forall|jj: int| 0 <= jj < d ==> dv[jj] == obj_view(dpo@[jj]),
            prev <= j3 <= d,
            arr_view(out@) == out2 + dv.subrange(prev as int, j3 as int),
        decreases d - j3,
    {
        let ghost before = out@;
        out.push(crate::object::copy_obj(&dpo[j3]));
        proof {
            lemma_arr_view_push(before, out@.last());
            assert(out@.drop_last() =~= before);
            assert(out2 + dv.subrange(prev as int, j3 as int + 1) =~= (out2 + dv.subrange(
                prev as int,
                j3 as int,
            )).push(dv[j3 as int]));
        }
        j3 += 1;
    }
    out
}

} // verus!
