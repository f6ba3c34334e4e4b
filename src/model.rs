use vstd::prelude::*;

verus! {

/// The marker written before each match: `ESC [ 0 ; 7 m`.
pub open spec fn invert_marker() -> Seq<u8> {
    seq![27u8, 91u8, 48u8, 59u8, 55u8, 109u8]
}

/// The marker written after each match: `ESC [ 2 7 m`.
pub open spec fn normal_marker() -> Seq<u8> {
    seq![27u8, 91u8, 50u8, 55u8, 109u8]
}

/// Byte ranges `[start, end)` inside a text of length `len`, in ascending
/// order and pairwise disjoint.
pub open spec fn spans_ok(spans: Seq<(usize, usize)>, len: int) -> bool {
    &&& forall|i: int| 0 <= i < spans.len() ==> spans[i].0 <= spans[i].1 && spans[i].1 <= len
    &&& forall|i: int, j: int| 0 <= i < j < spans.len() ==> spans[i].1 <= spans[j].0
}

/// Start of the `k`-th run of text between escapes.
pub open spec fn gap_start(spans: Seq<(usize, usize)>, k: int) -> int {
    if k == 0 {
        0
    } else {
        spans[k - 1].1 as int
    }
}

/// End of the `k`-th run of text between escapes.
pub open spec fn gap_end(spans: Seq<(usize, usize)>, len: int, k: int) -> int {
    if k == spans.len() {
        len
    } else {
        spans[k].0 as int
    }
}

/// The first `k` runs of visible text, escapes removed.
pub open spec fn strip_prefix(t: Seq<u8>, spans: Seq<(usize, usize)>, k: int) -> Seq<u8>
    decreases k,
{
    if k <= 0 {
        seq![]
    } else {
        strip_prefix(t, spans, k - 1) + t.subrange(
            gap_start(spans, k - 1),
            gap_end(spans, t.len() as int, k - 1),
        )
    }
}

/// The visible text: `t` with every escape span removed.
pub open spec fn stripped(t: Seq<u8>, spans: Seq<(usize, usize)>) -> Seq<u8> {
    strip_prefix(t, spans, spans.len() as int + 1)
}

/// Total length of the first `k` spans.
pub open spec fn width_before(spans: Seq<(usize, usize)>, k: int) -> int
    decreases k,
{
    if k <= 0 {
        0
    } else {
        width_before(spans, k - 1) + (spans[k - 1].1 - spans[k - 1].0)
    }
}

/// Where the `k`-th escape stands once all escapes before it are removed.
pub open spec fn escape_position(spans: Seq<(usize, usize)>, k: int) -> int {
    spans[k].0 - width_before(spans, k)
}

/// The escape tokens of `t`: visible-text position and literal bytes.
pub open spec fn escape_tokens(t: Seq<u8>, spans: Seq<(usize, usize)>) -> Seq<(int, Seq<u8>)> {
    Seq::new(
        spans.len(),
        |k: int| (escape_position(spans, k), t.subrange(spans[k].0 as int, spans[k].1 as int)),
    )
}

/// Match boundaries flattened: `[start0, end0, start1, end1, ...]`.
pub open spec fn boundaries(m: Seq<(usize, usize)>) -> Seq<usize> {
    Seq::new(2 * m.len(), |i: int| if i % 2 == 0 { m[i / 2].0 } else { m[i / 2].1 })
}

/// The marker that belongs to the `i`-th boundary.
pub open spec fn marker(i: int) -> Seq<u8> {
    if i % 2 == 0 {
        invert_marker()
    } else {
        normal_marker()
    }
}

/// Markers of the first `n` boundaries that lie at visible position `p`, in order.
pub open spec fn markers_at(bounds: Seq<usize>, p: int, n: int) -> Seq<u8>
    decreases n,
{
    if n <= 0 {
        seq![]
    } else {
        markers_at(bounds, p, n - 1) + if bounds[n - 1] == p {
            marker(n - 1)
        } else {
            seq![]
        }
    }
}

/// Literals of the first `n` tokens that lie at visible position `p`, in order.
pub open spec fn escapes_at(toks: Seq<(int, Seq<u8>)>, p: int, n: int) -> Seq<u8>
    decreases n,
{
    if n <= 0 {
        seq![]
    } else {
        escapes_at(toks, p, n - 1) + if toks[n - 1].0 == p {
            toks[n - 1].1
        } else {
            seq![]
        }
    }
}

/// How many of the first `n` boundaries are at or before `p`.
pub open spec fn count_up_to(bounds: Seq<usize>, p: int, n: int) -> nat
    decreases n,
{
    if n <= 0 {
        0
    } else {
        count_up_to(bounds, p, n - 1) + if bounds[n - 1] <= p {
            1nat
        } else {
            0nat
        }
    }
}

/// An escape at `p` is kept unless `p` lies inside a highlight, that is
/// unless an odd number of boundaries are at or before `p`.
pub open spec fn kept_at(bounds: Seq<usize>, p: int) -> bool {
    count_up_to(bounds, p, bounds.len() as int) % 2 == 0
}

/// What is inserted before the visible byte at `p`: the markers at `p`, then
/// the kept escapes at `p`.
pub open spec fn inserted_at(bounds: Seq<usize>, toks: Seq<(int, Seq<u8>)>, p: int) -> Seq<u8> {
    markers_at(bounds, p, bounds.len() as int) + if kept_at(bounds, p) {
        escapes_at(toks, p, toks.len() as int)
    } else {
        seq![]
    }
}

/// What the output holds at visible position `p`: what is inserted there,
/// then the visible byte at `p` (if any).
pub open spec fn segment(v: Seq<u8>, bounds: Seq<usize>, toks: Seq<(int, Seq<u8>)>, p: int) -> Seq<
    u8,
> {
    inserted_at(bounds, toks, p) + if p < v.len() {
        seq![v[p]]
    } else {
        seq![]
    }
}

/// The segments of positions `0 .. p`.
pub open spec fn layout_upto(v: Seq<u8>, bounds: Seq<usize>, toks: Seq<(int, Seq<u8>)>, p: int) -> Seq<
    u8,
>
    decreases p,
{
    if p <= 0 {
        seq![]
    } else {
        layout_upto(v, bounds, toks, p - 1) + segment(v, bounds, toks, p - 1)
    }
}

/// Visible text `v` with markers at `bounds` and kept escape tokens woven in.
pub open spec fn layout(v: Seq<u8>, bounds: Seq<usize>, toks: Seq<(int, Seq<u8>)>) -> Seq<u8> {
    layout_upto(v, bounds, toks, v.len() as int + 1)
}

/// The result of highlighting the matches `m` (spans of the visible text) in
/// a text `t` whose escapes are the spans `e`: the text itself when nothing
/// matched.
pub open spec fn highlighted(t: Seq<u8>, e: Seq<(usize, usize)>, m: Seq<(usize, usize)>) -> Seq<u8> {
    if m.len() == 0 {
        t
    } else {
        layout(stripped(t, e), boundaries(m), escape_tokens(t, e))
    }
}

} // verus!
