use vstd::prelude::*;
use crate::lemmas::{lemma_boundaries_sorted, lemma_tokens_sorted, sorted_bounds, sorted_tokens};
use crate::model::{
    boundaries, count_up_to, escape_position, escape_tokens, escapes_at, highlighted,
    invert_marker, kept_at, layout, layout_upto, marker, markers_at, normal_marker, segment,
    spans_ok, stripped,
};

verus! {

/// Total length of the literals of the kept tokens among the first `n`.
pub open spec fn kept_len_before(b: Seq<usize>, toks: Seq<(int, Seq<u8>)>, n: int) -> int
    decreases n,
{
    if n <= 0 {
        0
    } else {
        kept_len_before(b, toks, n - 1) + if kept_at(b, toks[n - 1].0) {
            toks[n - 1].1.len() as int
        } else {
            0int
        }
    }
}

/// Where the re-splicer puts token `k`: its visible position, plus the
/// literals already put back, plus one invert marker per match start and one
/// normal marker per match end at or before that position.
pub open spec fn splice_offset(b: Seq<usize>, toks: Seq<(int, Seq<u8>)>, k: int) -> int {
    let c = count_up_to(b, toks[k].0, b.len() as int) as int;
    toks[k].0 + kept_len_before(b, toks, k) + (c / 2) * invert_marker().len() + (c - c / 2)
        * normal_marker().len()
}

/// Marker bytes placed before visible position `p`.
spec fn markers_below(b: Seq<usize>, p: int) -> int
    decreases p,
{
    if p <= 0 {
        0
    } else {
        markers_below(b, p - 1) + markers_at(b, p - 1, b.len() as int).len()
    }
}

/// Escape bytes placed before visible position `p`.
spec fn escapes_below(b: Seq<usize>, toks: Seq<(int, Seq<u8>)>, p: int) -> int
    decreases p,
{
    if p <= 0 {
        0
    } else {
        escapes_below(b, toks, p - 1) + if kept_at(b, p - 1) {
            escapes_at(toks, p - 1, toks.len() as int).len() as int
        } else {
            0int
        }
    }
}

/// Marker bytes of the first `n` boundaries that lie below `p`.
spec fn markers_idx(b: Seq<usize>, p: int, n: int) -> int
    decreases n,
{
    if n <= 0 {
        0
    } else {
        markers_idx(b, p, n - 1) + if b[n - 1] < p {
            marker(n - 1).len() as int
        } else {
            0int
        }
    }
}

/// Literal bytes of the first `n` tokens that lie below `p` and are kept.
spec fn escapes_idx(b: Seq<usize>, toks: Seq<(int, Seq<u8>)>, p: int, n: int) -> int
    decreases n,
{
    if n <= 0 {
        0
    } else {
        escapes_idx(b, toks, p, n - 1) + if toks[n - 1].0 < p && kept_at(b, toks[n - 1].0) {
            toks[n - 1].1.len() as int
        } else {
            0int
        }
    }
}

/// Marker bytes of the first `c` boundaries.
spec fn markers_prefix(c: int) -> int
    decreases c,
{
    if c <= 0 {
        0
    } else {
        markers_prefix(c - 1) + marker(c - 1).len()
    }
}

proof fn lemma_layout_len(v: Seq<u8>, b: Seq<usize>, toks: Seq<(int, Seq<u8>)>, p: int)
    requires
        0 <= p <= v.len(),
    ensures
        layout_upto(v, b, toks, p).len() == p + markers_below(b, p) + escapes_below(b, toks, p),
    decreases p,
{
    if p > 0 {
        lemma_layout_len(v, b, toks, p - 1);
        assert(layout_upto(v, b, toks, p) == layout_upto(v, b, toks, p - 1) + segment(
            v,
            b,
            toks,
            p - 1,
        ));
    }
}

proof fn lemma_markers_idx_step(b: Seq<usize>, p: int, n: int)
    requires
        0 <= n <= b.len(),
    ensures
        markers_idx(b, p + 1, n) == markers_idx(b, p, n) + markers_at(b, p, n).len(),
    decreases n,
{
    if n > 0 {
        lemma_markers_idx_step(b, p, n - 1);
    }
}

proof fn lemma_markers_below_idx(b: Seq<usize>, p: int)
    requires
        0 <= p,
        forall|j: int| 0 <= j < b.len() ==> b[j] >= 0,
    ensures
        markers_below(b, p) == markers_idx(b, p, b.len() as int),
    decreases p,
{
    if p > 0 {
        lemma_markers_below_idx(b, p - 1);
        lemma_markers_idx_step(b, p - 1, b.len() as int);
    } else {
        lemma_markers_idx_zero(b, b.len() as int);
    }
}

proof fn lemma_markers_idx_zero(b: Seq<usize>, n: int)
    requires
        0 <= n <= b.len(),
    ensures
        markers_idx(b, 0, n) == 0,
    decreases n,
{
    if n > 0 {
        lemma_markers_idx_zero(b, n - 1);
    }
}

proof fn lemma_markers_idx_split(b: Seq<usize>, p: int, c: int, n: int)
    requires
        0 <= c <= n <= b.len(),
        forall|j: int| 0 <= j < c ==> b[j] < p,
        forall|j: int| c <= j < n ==> b[j] >= p,
    ensures
        markers_idx(b, p, n) == markers_prefix(c),
    decreases n,
{
    if n > c {
        lemma_markers_idx_split(b, p, c, n - 1);
    } else if n > 0 {
        lemma_markers_idx_split(b, p, n - 1, n - 1);
    }
}

proof fn lemma_markers_prefix_even(h: int)
    requires
        0 <= h,
    ensures
        markers_prefix(2 * h) == h * invert_marker().len() + h * normal_marker().len(),
    decreases h,
{
    if h > 0 {
        lemma_markers_prefix_even(h - 1);
        assert((2 * h - 2) % 2 == 0 && (2 * h - 1) % 2 == 1) by (nonlinear_arith)
            requires
                h > 0,
        ;
        assert(markers_prefix(2 * h - 1) == markers_prefix(2 * h - 2) + marker(2 * h - 2).len());
        assert(markers_prefix(2 * h) == markers_prefix(2 * h - 1) + marker(2 * h - 1).len());
        assert(marker(2 * h - 2) == invert_marker());
        assert(marker(2 * h - 1) == normal_marker());
        assert(h * 6 == (h - 1) * 6 + 6 && h * 5 == (h - 1) * 5 + 5) by (nonlinear_arith);
    }
}

proof fn lemma_escapes_idx_step(b: Seq<usize>, toks: Seq<(int, Seq<u8>)>, p: int, n: int)
    requires
        0 <= n <= toks.len(),
    ensures
        escapes_idx(b, toks, p + 1, n) == escapes_idx(b, toks, p, n) + if kept_at(b, p) {
            escapes_at(toks, p, n).len() as int
        } else {
            0int
        },
    decreases n,
{
    if n > 0 {
        lemma_escapes_idx_step(b, toks, p, n - 1);
    }
}

proof fn lemma_escapes_idx_zero(b: Seq<usize>, toks: Seq<(int, Seq<u8>)>, n: int)
    requires
        0 <= n <= toks.len(),
        forall|j: int| 0 <= j < toks.len() ==> toks[j].0 >= 0,
    ensures
        escapes_idx(b, toks, 0, n) == 0,
    decreases n,
{
    if n > 0 {
        lemma_escapes_idx_zero(b, toks, n - 1);
    }
}

proof fn lemma_escapes_below_idx(b: Seq<usize>, toks: Seq<(int, Seq<u8>)>, p: int)
    requires
        0 <= p,
        forall|j: int| 0 <= j < toks.len() ==> toks[j].0 >= 0,
    ensures
        escapes_below(b, toks, p) == escapes_idx(b, toks, p, toks.len() as int),
    decreases p,
{
    if p > 0 {
        lemma_escapes_below_idx(b, toks, p - 1);
        lemma_escapes_idx_step(b, toks, p - 1, toks.len() as int);
    } else {
        lemma_escapes_idx_zero(b, toks, toks.len() as int);
    }
}

proof fn lemma_escapes_idx_tail(b: Seq<usize>, toks: Seq<(int, Seq<u8>)>, p: int, k: int, n: int)
    requires
        0 <= k <= n <= toks.len(),
        forall|j: int| k <= j < n ==> toks[j].0 >= p,
    ensures
        escapes_idx(b, toks, p, n) == escapes_idx(b, toks, p, k),
    decreases n,
{
    if n > k {
        lemma_escapes_idx_tail(b, toks, p, k, n - 1);
    }
}

proof fn lemma_kept_before(b: Seq<usize>, toks: Seq<(int, Seq<u8>)>, p: int, n: int)
    requires
        0 <= n <= toks.len(),
        kept_at(b, p),
        forall|j: int| 0 <= j < n ==> toks[j].0 <= p,
    ensures
        escapes_idx(b, toks, p, n) + escapes_at(toks, p, n).len() == kept_len_before(b, toks, n),
    decreases n,
{
    if n > 0 {
        lemma_kept_before(b, toks, p, n - 1);
    }
}

/// Each escape kept by the re-splicer stands in the output at the offset
/// that the re-splicer computes for it: its visible position, plus the
/// literals put back before it, plus the markers at or before its position.
pub proof fn law_splice_offset(v: Seq<u8>, b: Seq<usize>, toks: Seq<(int, Seq<u8>)>, k: int)
    requires
        sorted_bounds(b),
        sorted_tokens(toks),
        forall|j: int| 0 <= j < toks.len() ==> 0 <= #[trigger] toks[j].0 <= v.len(),
        0 <= k < toks.len(),
        kept_at(b, toks[k].0),
    ensures
        splice_offset(b, toks, k) + toks[k].1.len() <= layout(v, b, toks).len(),
        layout(v, b, toks).subrange(
            splice_offset(b, toks, k),
            splice_offset(b, toks, k) + toks[k].1.len(),
        ) == toks[k].1,
{
    let p = toks[k].0;
    let lit = toks[k].1;
    let out = layout(v, b, toks);
    let nb = b.len() as int;
    let nt = toks.len() as int;
    // where the segment of `p` starts, and what it holds
    lemma_layout_len(v, b, toks, p);
    crate::laws::lemma_layout_segment(v, b, toks, p);
    let l0 = layout_upto(v, b, toks, p).len() as int;
    let seg = segment(v, b, toks, p);
    let mk = markers_at(b, p, nb);
    let all = escapes_at(toks, p, nt);
    let before = escapes_at(toks, p, k);
    assert(seg == mk + all + if p < v.len() {
        seq![v[p]]
    } else {
        seq![]
    });
    crate::laws::lemma_escapes_prefix(toks, p, k + 1, nt);
    assert(escapes_at(toks, p, k + 1) == before + lit);
    let bl = before.len() as int;
    let ll = lit.len() as int;
    let ml = mk.len() as int;
    assert(all.subrange(bl, bl + ll) == lit) by {
        assert(all.subrange(0, bl + ll) == before + lit);
        assert(all.subrange(bl, bl + ll) == all.subrange(0, bl + ll).subrange(bl, bl + ll));
    }
    assert(out.subrange(l0 + ml + bl, l0 + ml + bl + ll) == seg.subrange(ml + bl, ml + bl + ll));
    assert(seg.subrange(ml + bl, ml + bl + ll) == all.subrange(bl, bl + ll));
    // the marker bytes before the escape
    let c = count_up_to(b, p, nb) as int;
    lemma_markers_below_idx(b, p + 1);
    assert(markers_below(b, p + 1) == markers_below(b, p) + ml);
    lemma_count_is_split(b, p, nb);
    lemma_markers_idx_split(b, p + 1, c, nb);
    assert(c == 2 * (c / 2)) by (nonlinear_arith)
        requires
            c % 2 == 0,
    ;
    lemma_markers_prefix_even(c / 2);
    assert(c - c / 2 == c / 2);
    // the escape bytes before it
    lemma_escapes_below_idx(b, toks, p);
    assert forall|j: int| k <= j < nt implies toks[j].0 >= p by {
        if j > k {
            assert(toks[k].0 <= toks[j].0);
        }
    }
    lemma_escapes_idx_tail(b, toks, p, k, nt);
    assert forall|j: int| 0 <= j < k implies toks[j].0 <= p by {
        assert(toks[j].0 <= toks[k].0);
    }
    lemma_kept_before(b, toks, p, k);
}

/// In non-decreasing boundaries, those at or before `p` come first.
proof fn lemma_count_is_split(b: Seq<usize>, p: int, n: int)
    requires
        sorted_bounds(b),
        0 <= n <= b.len(),
    ensures
        count_up_to(b, p, n) <= n,
        forall|j: int| 0 <= j < count_up_to(b, p, n) ==> b[j] <= p,
        forall|j: int| count_up_to(b, p, n) <= j < n ==> b[j] > p,
    decreases n,
{
    if n > 0 {
        lemma_count_is_split(b, p, n - 1);
        let c0 = count_up_to(b, p, n - 1) as int;
        if b[n - 1] <= p {
            if c0 < n - 1 {
                assert(b[c0] <= b[n - 1]);
            }
            assert forall|j: int| 0 <= j < n implies b[j] <= p by {
                if j < n - 1 {
                    assert(b[j] <= b[n - 1]);
                }
            }
        }
    }
}

/// The same for highlighting: an escape of the input whose position is not
/// inside a highlight stands in the output at the re-splicer's offset.
pub proof fn law_highlight_splice_offset(
    t: Seq<u8>,
    e: Seq<(usize, usize)>,
    m: Seq<(usize, usize)>,
    k: int,
)
    requires
        spans_ok(e, t.len() as int),
        spans_ok(m, stripped(t, e).len() as int),
        m.len() > 0,
        0 <= k < e.len(),
        kept_at(boundaries(m), escape_position(e, k)),
    ensures
        ({
            let off = splice_offset(boundaries(m), escape_tokens(t, e), k);
            let lit = t.subrange(e[k].0 as int, e[k].1 as int);
            off + lit.len() <= highlighted(t, e, m).len() && highlighted(t, e, m).subrange(
                off,
                off + lit.len(),
            ) == lit
        }),
{
    lemma_boundaries_sorted(m, stripped(t, e).len() as int);
    lemma_tokens_sorted(t, e);
    let toks = escape_tokens(t, e);
    assert forall|j: int| 0 <= j < toks.len() implies 0 <= #[trigger] toks[j].0 <= stripped(
        t,
        e,
    ).len() by {
        assert(0 <= escape_tokens(t, e)[j].0 <= stripped(t, e).len());
    }
    law_splice_offset(stripped(t, e), boundaries(m), toks, k);
}

} // verus!
