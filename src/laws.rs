use vstd::prelude::*;
use crate::lemmas::{lemma_boundary_index, lemma_tokens_sorted};
use crate::model::{
    boundaries, count_up_to, escape_position, escape_tokens, escapes_at, gap_end, gap_start,
    highlighted, inserted_at, kept_at, layout, layout_upto, markers_at, segment, spans_ok,
    strip_prefix, stripped,
};

verus! {

/// Byte spans of the output that hold inserted material: for each visible
/// position `p` (and the end), the markers and kept escapes placed there.
pub open spec fn inserted_spans(v: Seq<u8>, b: Seq<usize>, toks: Seq<(int, Seq<u8>)>) -> Seq<
    (usize, usize),
> {
    Seq::new(
        v.len() + 1,
        |p: int|
            (
                layout_upto(v, b, toks, p).len() as usize,
                (layout_upto(v, b, toks, p).len() + inserted_at(b, toks, p).len()) as usize,
            ),
    )
}

proof fn lemma_layout_prefix(v: Seq<u8>, b: Seq<usize>, toks: Seq<(int, Seq<u8>)>, q: int, r: int)
    requires
        0 <= q <= r,
    ensures
        layout_upto(v, b, toks, q).len() <= layout_upto(v, b, toks, r).len(),
        layout_upto(v, b, toks, r).subrange(0, layout_upto(v, b, toks, q).len() as int)
            == layout_upto(v, b, toks, q),
    decreases r,
{
    if q < r {
        lemma_layout_prefix(v, b, toks, q, r - 1);
        let lr = layout_upto(v, b, toks, r - 1);
        assert(layout_upto(v, b, toks, r) == lr + segment(v, b, toks, r - 1));
        let n = layout_upto(v, b, toks, q).len() as int;
        assert(layout_upto(v, b, toks, r).subrange(0, n) == lr.subrange(0, n));
    } else {
        assert(layout_upto(v, b, toks, r).subrange(0, layout_upto(v, b, toks, r).len() as int)
            == layout_upto(v, b, toks, r));
    }
}

/// The output between the start of position `q` and the start of `q + 1`
/// is the segment of `q`.
pub(crate) proof fn lemma_layout_segment(v: Seq<u8>, b: Seq<usize>, toks: Seq<(int, Seq<u8>)>, q: int)
    requires
        0 <= q <= v.len(),
    ensures
        layout_upto(v, b, toks, q + 1).len() <= layout(v, b, toks).len(),
        layout(v, b, toks).subrange(
            layout_upto(v, b, toks, q).len() as int,
            layout_upto(v, b, toks, q + 1).len() as int,
        ) == segment(v, b, toks, q),
{
    let out = layout(v, b, toks);
    lemma_layout_prefix(v, b, toks, q + 1, v.len() as int + 1);
    let l0 = layout_upto(v, b, toks, q);
    let l1 = layout_upto(v, b, toks, q + 1);
    assert(l1 == l0 + segment(v, b, toks, q));
    assert(out.subrange(l0.len() as int, l1.len() as int) == l1.subrange(
        l0.len() as int,
        l1.len() as int,
    ));
}

/// Where the inserted span of position `p` sits in the output, and what
/// surrounds it.
proof fn lemma_span_facts(v: Seq<u8>, b: Seq<usize>, toks: Seq<(int, Seq<u8>)>, p: int)
    requires
        layout(v, b, toks).len() <= usize::MAX,
        0 <= p <= v.len(),
    ensures
        layout_upto(v, b, toks, p).len() + inserted_at(b, toks, p).len() + (if p < v.len() {
            1int
        } else {
            0int
        }) == layout_upto(v, b, toks, p + 1).len(),
        layout_upto(v, b, toks, p + 1).len() <= layout(v, b, toks).len(),
        inserted_spans(v, b, toks)[p].0 == layout_upto(v, b, toks, p).len(),
        inserted_spans(v, b, toks)[p].1 == layout_upto(v, b, toks, p).len() + inserted_at(
            b,
            toks,
            p,
        ).len(),
        layout(v, b, toks).subrange(
            inserted_spans(v, b, toks)[p].0 as int,
            inserted_spans(v, b, toks)[p].1 as int,
        ) == inserted_at(b, toks, p),
        p < v.len() ==> layout(v, b, toks)[inserted_spans(v, b, toks)[p].1 as int] == v[p],
{
    let out = layout(v, b, toks);
    lemma_layout_segment(v, b, toks, p);
    let l0 = layout_upto(v, b, toks, p).len() as int;
    let l1 = layout_upto(v, b, toks, p + 1).len() as int;
    let seg = segment(v, b, toks, p);
    let ins = inserted_at(b, toks, p);
    assert(layout_upto(v, b, toks, p + 1) == layout_upto(v, b, toks, p) + seg);
    assert(out.subrange(l0, l0 + ins.len()) == out.subrange(l0, l1).subrange(0, ins.len() as int));
    assert(seg.subrange(0, ins.len() as int) == ins);
    if p < v.len() {
        assert(out[l0 + ins.len()] == out.subrange(l0, l1)[ins.len() as int]);
    }
}

proof fn lemma_strip_step(v: Seq<u8>, b: Seq<usize>, toks: Seq<(int, Seq<u8>)>, k: int)
    requires
        layout(v, b, toks).len() <= usize::MAX,
        0 <= k <= v.len(),
    ensures
        strip_prefix(layout(v, b, toks), inserted_spans(v, b, toks), k + 1) == v.subrange(0, k),
    decreases k,
{
    let out = layout(v, b, toks);
    let s = inserted_spans(v, b, toks);
    let g = out.subrange(gap_start(s, k), gap_end(s, out.len() as int, k));
    lemma_span_facts(v, b, toks, k);
    assert(strip_prefix(out, s, k + 1) == strip_prefix(out, s, k) + g);
    if k == 0 {
        assert(layout_upto(v, b, toks, 0).len() == 0);
        assert(g =~= seq![]);
        assert(strip_prefix(out, s, 1) =~= v.subrange(0, 0));
    } else {
        lemma_strip_step(v, b, toks, k - 1);
        lemma_span_facts(v, b, toks, k - 1);
        assert(g =~= seq![v[k - 1]]);
        assert(v.subrange(0, k) =~= v.subrange(0, k - 1) + seq![v[k - 1]]);
    }
}

/// Stripping the inserted markers and escapes from a layout gives back the
/// visible text; the stripped spans hold exactly what was inserted.
pub proof fn lemma_layout_strips_to_visible(v: Seq<u8>, b: Seq<usize>, toks: Seq<(int, Seq<u8>)>)
    requires
        layout(v, b, toks).len() <= usize::MAX,
    ensures
        spans_ok(inserted_spans(v, b, toks), layout(v, b, toks).len() as int),
        forall|p: int|
            0 <= p <= v.len() ==> layout(v, b, toks).subrange(
                #[trigger] inserted_spans(v, b, toks)[p].0 as int,
                inserted_spans(v, b, toks)[p].1 as int,
            ) == inserted_at(b, toks, p),
        stripped(layout(v, b, toks), inserted_spans(v, b, toks)) == v,
{
    let out = layout(v, b, toks);
    let s = inserted_spans(v, b, toks);
    let n = v.len() as int;
    assert forall|p: int| 0 <= p <= n implies out.subrange(
        #[trigger] s[p].0 as int,
        s[p].1 as int,
    ) == inserted_at(b, toks, p) && s[p].0 <= s[p].1 && s[p].1 <= out.len() by {
        lemma_span_facts(v, b, toks, p);
    }
    assert forall|i: int, j: int| 0 <= i < j < s.len() implies s[i].1 <= s[j].0 by {
        lemma_span_facts(v, b, toks, i);
        lemma_span_facts(v, b, toks, j);
        lemma_layout_prefix(v, b, toks, i + 1, j);
    }
    assert(spans_ok(s, out.len() as int));
    lemma_strip_step(v, b, toks, n);
    lemma_span_facts(v, b, toks, n);
    assert(stripped(out, s) == strip_prefix(out, s, n + 1) + out.subrange(
        gap_start(s, n + 1),
        gap_end(s, out.len() as int, n + 1),
    ));
    assert(out.subrange(s[n].1 as int, out.len() as int) =~= seq![]);
    assert(v.subrange(0, n) == v);
}

/// Highlighting keeps the visible text: the output, with its markers and
/// escapes stripped (the spans `inserted_spans` when something matched, the
/// input's own escape spans when nothing did), is the input with its escapes
/// stripped.
pub proof fn law_visible_text_conserved(t: Seq<u8>, e: Seq<(usize, usize)>, m: Seq<(usize, usize)>)
    requires
        spans_ok(e, t.len() as int),
        highlighted(t, e, m).len() <= usize::MAX,
    ensures
        m.len() == 0 ==> stripped(highlighted(t, e, m), e) == stripped(t, e),
        m.len() > 0 ==> stripped(
            highlighted(t, e, m),
            inserted_spans(
                stripped(t, e),
                boundaries(m),
                escape_tokens(t, e),
            ),
        ) == stripped(t, e),
{
    if m.len() > 0 {
        lemma_layout_strips_to_visible(
            stripped(t, e),
            boundaries(m),
            escape_tokens(t, e),
        );
    }
}

/// When the pattern matches nothing in the visible text, the text comes back
/// unchanged, escapes and all.
pub proof fn law_no_match_identity(t: Seq<u8>, e: Seq<(usize, usize)>, m: Seq<(usize, usize)>)
    requires
        m.len() == 0,
    ensures
        highlighted(t, e, m) == t,
{
}

/// A position outside every match span has an even number of boundaries at
/// or before it.
proof fn lemma_outside_is_kept(m: Seq<(usize, usize)>, p: int, n: int)
    requires
        0 <= n <= m.len(),
        forall|i: int| 0 <= i < m.len() ==> m[i].0 <= m[i].1,
        forall|i: int| 0 <= i < m.len() ==> p < m[i].0 || m[i].1 <= p,
    ensures
        count_up_to(boundaries(m), p, 2 * n) % 2 == 0,
    decreases n,
{
    if n > 0 {
        lemma_outside_is_kept(m, p, n - 1);
        lemma_boundary_index(m, n - 1);
        let b = boundaries(m);
        assert(b[2 * n - 2] == m[n - 1].0 && b[2 * n - 1] == m[n - 1].1);
        assert(m[n - 1].0 <= m[n - 1].1);
        let c0 = count_up_to(b, p, 2 * n - 2);
        let c1 = count_up_to(b, p, 2 * n - 1);
        let c2 = count_up_to(b, p, 2 * n);
        assert(c1 == c0 + if b[2 * n - 2] <= p {
            1nat
        } else {
            0nat
        });
        assert(c2 == c1 + if b[2 * n - 1] <= p {
            1nat
        } else {
            0nat
        });
    }
}

pub(crate) proof fn lemma_escapes_prefix(toks: Seq<(int, Seq<u8>)>, p: int, j: int, n: int)
    requires
        0 <= j <= n,
    ensures
        escapes_at(toks, p, j).len() <= escapes_at(toks, p, n).len(),
        escapes_at(toks, p, n).subrange(0, escapes_at(toks, p, j).len() as int) == escapes_at(
            toks,
            p,
            j,
        ),
    decreases n,
{
    if j < n {
        lemma_escapes_prefix(toks, p, j, n - 1);
        let a = escapes_at(toks, p, n - 1);
        let len = escapes_at(toks, p, j).len() as int;
        assert(escapes_at(toks, p, n).subrange(0, len) == a.subrange(0, len));
    } else {
        assert(escapes_at(toks, p, n).subrange(0, escapes_at(toks, p, n).len() as int)
            == escapes_at(toks, p, n));
    }
}

/// An escape of the input that lies outside every match span (before the
/// start of each match, or at or after its end) appears byte for byte in the
/// output, inside the inserted span of its visible position: between the same
/// two visible bytes that surrounded it in the input.
pub proof fn law_escape_kept_outside_highlights(
    t: Seq<u8>,
    e: Seq<(usize, usize)>,
    m: Seq<(usize, usize)>,
    k: int,
)
    requires
        spans_ok(e, t.len() as int),
        spans_ok(m, stripped(t, e).len() as int),
        m.len() > 0,
        highlighted(t, e, m).len() <= usize::MAX,
        0 <= k < e.len(),
        forall|i: int|
            0 <= i < m.len() ==> escape_position(e, k) < m[i].0 || m[i].1 <= escape_position(e, k),
    ensures
        ({
            let p = escape_position(e, k);
            let s = inserted_spans(stripped(t, e), boundaries(m), escape_tokens(t, e));
            let lit = t.subrange(e[k].0 as int, e[k].1 as int);
            exists|o: int|
                s[p].0 <= o && o + lit.len() <= s[p].1 && #[trigger] highlighted(t, e, m).subrange(
                    o,
                    o + lit.len(),
                ) == lit
        }),
{
    let v = stripped(t, e);
    let b = boundaries(m);
    let toks = escape_tokens(t, e);
    let p = escape_position(e, k);
    let s = inserted_spans(v, b, toks);
    let out = highlighted(t, e, m);
    let lit = t.subrange(e[k].0 as int, e[k].1 as int);
    lemma_tokens_sorted(t, e);
    assert(0 <= toks[k].0 <= v.len());
    assert(0 <= p <= v.len());
    lemma_outside_is_kept(m, p, m.len() as int);
    assert(kept_at(b, p));
    lemma_layout_strips_to_visible(v, b, toks);
    let ins = inserted_at(b, toks, p);
    assert(out.subrange(s[p].0 as int, s[p].1 as int) == ins);
    let mk = markers_at(b, p, b.len() as int);
    let before = escapes_at(toks, p, k);
    lemma_escapes_prefix(toks, p, k + 1, toks.len() as int);
    assert(escapes_at(toks, p, k + 1) == before + lit);
    let all = escapes_at(toks, p, toks.len() as int);
    assert(ins == mk + all);
    let bl = before.len() as int;
    let ll = lit.len() as int;
    let ml = mk.len() as int;
    let o = s[p].0 + ml + bl;
    assert(all.subrange(bl, bl + ll) == lit) by {
        assert(all.subrange(0, bl + ll) == before + lit);
        assert((before + lit).subrange(bl, bl + ll) == lit);
        assert(all.subrange(bl, bl + ll) == all.subrange(0, bl + ll).subrange(bl, bl + ll));
    }
    assert(out.subrange(o, o + ll) == ins.subrange(ml + bl, ml + bl + ll));
    assert(ins.subrange(ml + bl, ml + bl + ll) == all.subrange(bl, bl + ll));
    assert(out.subrange(o, o + ll) == lit);
}

} // verus!
