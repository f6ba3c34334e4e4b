use vstd::prelude::*;
use crate::lemmas::{
    lemma_boundaries_sorted, lemma_boundary_index, lemma_count_split, lemma_escapes_none,
    lemma_markers_none, lemma_strip_prefix_len, lemma_tokens_sorted, lemma_width_le, sorted_bounds,
    sorted_tokens,
};
use crate::model::{
    boundaries, escape_tokens, escapes_at, gap_end, gap_start, highlighted, invert_marker, kept_at,
    layout, layout_upto, marker, markers_at, normal_marker, segment, spans_ok, strip_prefix,
    stripped, width_before,
};

verus! {

/// An escape sequence of the input: where it stands in the visible text, and
/// its bytes.
pub struct EscapeToken {
    pub position: usize,
    pub literal: Vec<u8>,
}

impl View for EscapeToken {
    type V = (int, Seq<u8>);

    open spec fn view(&self) -> (int, Seq<u8>) {
        (self.position as int, self.literal@)
    }
}

pub open spec fn token_views(toks: Seq<EscapeToken>) -> Seq<(int, Seq<u8>)> {
    toks.map_values(|t: EscapeToken| t@)
}

/// Appends `src[start..end]` to `out`.
pub(crate) fn append_range(out: &mut Vec<u8>, src: &[u8], start: usize, end: usize)
    requires
        start <= end <= src@.len(),
    ensures
        final(out)@ == old(out)@ + src@.subrange(start as int, end as int),
{
    let mut i: usize = start;
    while i < end
        invariant
            start <= i <= end <= src@.len(),
            out@ == old(out)@ + src@.subrange(start as int, i as int),
        decreases end - i,
    {
        out.push(src[i]);
        i += 1;
        assert(src@.subrange(start as int, i as int) == src@.subrange(start as int, i - 1) + seq![
            src@[i - 1],
        ]);
    }
}

/// The bytes of the marker placed before a match.
pub(crate) fn invert_bytes() -> (r: Vec<u8>)
    ensures
        r@ == invert_marker(),
{
    let r = vec![27u8, 91u8, 48u8, 59u8, 55u8, 109u8];
    assert(r@ == invert_marker());
    r
}

/// The bytes of the marker placed after a match.
pub(crate) fn normal_bytes() -> (r: Vec<u8>)
    ensures
        r@ == normal_marker(),
{
    let r = vec![27u8, 91u8, 50u8, 55u8, 109u8];
    assert(r@ == normal_marker());
    r
}

/// Escape locator: turns the escape spans of `text` into tokens, each with
/// its position in the escape-free text and its literal bytes.
pub fn locate_escapes(text: &[u8], spans: &Vec<(usize, usize)>) -> (r: Vec<EscapeToken>)
    requires
        spans_ok(spans@, text@.len() as int),
    ensures
        token_views(r@) == escape_tokens(text@, spans@),
{
    let mut r: Vec<EscapeToken> = Vec::new();
    let mut sum_width: usize = 0;
    let mut k: usize = 0;
    while k < spans.len()
        invariant
            spans_ok(spans@, text@.len() as int),
            0 <= k <= spans@.len(),
            sum_width == width_before(spans@, k as int),
            r@.len() == k,
            forall|i: int| 0 <= i < k ==> #[trigger] r@[i]@ == escape_tokens(text@, spans@)[i],
        decreases spans@.len() - k,
    {
        proof {
            lemma_width_le(spans@, text@.len() as int, k as int);
            if k > 0 {
                assert(spans@[k - 1].1 <= spans@[k as int].0);
            }
        }
        let (start, end) = spans[k];
        assert(start <= end <= text@.len());
        let mut literal: Vec<u8> = Vec::new();
        append_range(&mut literal, text, start, end);
        r.push(EscapeToken { position: start - sum_width, literal });
        sum_width = sum_width + (end - start);
        k += 1;
    }
    assert(token_views(r@) == escape_tokens(text@, spans@));
    r
}

/// Removes every escape span from `text`, giving the visible text.
pub fn strip_escapes(text: &[u8], spans: &Vec<(usize, usize)>) -> (r: Vec<u8>)
    requires
        spans_ok(spans@, text@.len() as int),
    ensures
        r@ == stripped(text@, spans@),
{
    let mut r: Vec<u8> = Vec::new();
    let mut k: usize = 0;
    let ghost len = text@.len() as int;
    while k < spans.len()
        invariant
            spans_ok(spans@, len),
            len == text@.len(),
            0 <= k <= spans@.len(),
            r@ == strip_prefix(text@, spans@, k as int),
        decreases spans@.len() - k,
    {
        let gs = if k == 0 {
            0
        } else {
            spans[k - 1].1
        };
        let ge = spans[k].0;
        proof {
            assert(spans@[k as int].0 <= spans@[k as int].1);
            if k > 0 {
                assert(spans@[k - 1].1 <= spans@[k as int].0);
            }
        }
        append_range(&mut r, text, gs, ge);
        k += 1;
    }
    let gs = if k == 0 {
        0
    } else {
        spans[k - 1].1
    };
    proof {
        if k > 0 {
            assert(spans@[k - 1].0 <= spans@[k - 1].1);
        }
    }
    append_range(&mut r, text, gs, text.len());
    r
}

/// Index of the boundary that a cursor `(mi, at_end)` over the match spans
/// points at: the start of match `mi`, or its end.
pub open spec fn cursor_index(mi: usize, at_end: bool) -> int {
    2 * mi + if at_end {
        1int
    } else {
        0int
    }
}

/// Every boundary before the cursor is below `p`, every one from it on is at
/// least `p`.
pub open spec fn bounds_split(b: Seq<usize>, bi: int, p: int) -> bool {
    &&& forall|j: int| 0 <= j < bi ==> b[j] < p
    &&& forall|j: int| bi <= j < b.len() ==> b[j] >= p
}

/// Every token before `ti` lies below `p`, every one from it on at `p` or after.
pub open spec fn tokens_split(t: Seq<(int, Seq<u8>)>, ti: int, p: int) -> bool {
    &&& forall|j: int| 0 <= j < ti ==> t[j].0 < p
    &&& forall|j: int| ti <= j < t.len() ==> t[j].0 >= p
}

fn boundary_at(m: &Vec<(usize, usize)>, mi: usize, at_end: bool) -> (r: usize)
    requires
        mi < m@.len(),
    ensures
        r == boundaries(m@)[cursor_index(mi, at_end)],
{
    proof {
        lemma_boundary_index(m@, mi as int);
    }
    if at_end {
        m[mi].1
    } else {
        m[mi].0
    }
}

/// Appends to `out` the segment of visible position `p`, moving both
/// cursors past everything that lies at `p`.
fn emit_segment(
    out: &mut Vec<u8>,
    v: &[u8],
    m: &Vec<(usize, usize)>,
    toks: &Vec<EscapeToken>,
    p: usize,
    mi: usize,
    at_end: bool,
    ti: usize,
) -> (r: (usize, bool, usize))
    requires
        spans_ok(m@, v@.len() as int),
        sorted_tokens(token_views(toks@)),
        p <= v@.len(),
        mi <= m@.len(),
        at_end ==> mi < m@.len(),
        ti <= toks@.len(),
        bounds_split(boundaries(m@), cursor_index(mi, at_end), p as int),
        tokens_split(token_views(toks@), ti as int, p as int),
    ensures
        final(out)@ == old(out)@ + segment(
            v@,
            boundaries(m@),
            token_views(toks@),
            p as int,
        ),
        r.0 <= m@.len(),
        r.1 ==> r.0 < m@.len(),
        r.2 <= toks@.len(),
        bounds_split(boundaries(m@), cursor_index(r.0, r.1), p + 1),
        tokens_split(token_views(toks@), r.2 as int, p + 1),
{
    let ghost b = boundaries(m@);
    let ghost tv = token_views(toks@);
    let ghost out0 = out@;
    proof {
        lemma_boundaries_sorted(m@, v@.len() as int);
        lemma_markers_none(b, p as int, 0, cursor_index(mi, at_end));
        lemma_escapes_none(tv, p as int, 0, ti as int);
    }
    let mut mi = mi;
    let mut at_end = at_end;
    let mut ti = ti;
    while mi < m.len() && boundary_at(m, mi, at_end) == p
        invariant
            spans_ok(m@, v@.len() as int),
            sorted_bounds(b),
            b == boundaries(m@),
            b.len() == 2 * m@.len(),
            mi <= m@.len(),
            at_end ==> mi < m@.len(),
            forall|j: int| 0 <= j < cursor_index(mi, at_end) ==> b[j] <= p,
            forall|j: int| cursor_index(mi, at_end) <= j < b.len() ==> b[j] >= p,
            out@ == out0 + markers_at(b, p as int, cursor_index(mi, at_end)),
        decreases 2 * m@.len() - cursor_index(mi, at_end),
    {
        let ghost bi = cursor_index(mi, at_end);
        assert(bi % 2 == if at_end { 1int } else { 0int }) by (nonlinear_arith)
            requires
                bi == 2 * mi + if at_end { 1int } else { 0int },
        ;
        let mk = if at_end {
            normal_bytes()
        } else {
            invert_bytes()
        };
        assert(mk@ == marker(bi));
        append_range(out, mk.as_slice(), 0, mk.len());
        assert(mk@.subrange(0, mk@.len() as int) == mk@);
        if at_end {
            mi = mi + 1;
            at_end = false;
        } else {
            at_end = true;
        }
        assert(markers_at(b, p as int, bi + 1) == markers_at(b, p as int, bi) + marker(bi));
    }
    proof {
        let bi = cursor_index(mi, at_end);
        if bi < b.len() {
            assert(b[bi] > p);
        }
        lemma_markers_none(b, p as int, bi, b.len() as int);
        lemma_count_split(b, p as int, bi, b.len() as int);
        assert(bi % 2 == if at_end { 1int } else { 0int }) by (nonlinear_arith)
            requires
                bi == 2 * mi + if at_end { 1int } else { 0int },
        ;
        assert(kept_at(b, p as int) == !at_end);
    }
    let ghost out1 = out@;
    while ti < toks.len() && toks[ti].position == p
        invariant
            sorted_tokens(tv),
            tv == token_views(toks@),
            tv.len() == toks@.len(),
            ti <= toks@.len(),
            forall|j: int| 0 <= j < ti ==> tv[j].0 <= p,
            forall|j: int| ti <= j < tv.len() ==> tv[j].0 >= p,
            out@ == out1 + if !at_end {
                escapes_at(tv, p as int, ti as int)
            } else {
                seq![]
            },
        decreases toks@.len() - ti,
    {
        assert(tv[ti as int] == toks@[ti as int]@);
        if !at_end {
            append_range(out, toks[ti].literal.as_slice(), 0, toks[ti].literal.len());
            assert(toks@[ti as int].literal@.subrange(0, toks@[ti as int].literal@.len() as int)
                == toks@[ti as int].literal@);
        }
        assert(escapes_at(tv, p as int, ti + 1) == escapes_at(tv, p as int, ti as int) + tv[ti as int].1);
        ti += 1;
    }
    proof {
        if ti < tv.len() {
            assert(tv[ti as int] == toks@[ti as int]@);
            assert(tv[ti as int].0 > p);
        }
        lemma_escapes_none(tv, p as int, ti as int, tv.len() as int);
    }
    if p < v.len() {
        out.push(v[p]);
    }
    (mi, at_end, ti)
}

/// Escape re-splicer: the visible text `v` with each match of `m` wrapped in
/// the invert/normal markers, and each token put back before the visible
/// byte at its position, after the markers there; a token that falls inside a
/// highlight (at a match start or strictly within it) is dropped.
pub fn splice(v: &[u8], m: &Vec<(usize, usize)>, toks: &Vec<EscapeToken>) -> (r: Vec<u8>)
    requires
        spans_ok(m@, v@.len() as int),
        sorted_tokens(token_views(toks@)),
        forall|k: int|
            0 <= k < toks@.len() ==> 0 <= #[trigger] token_views(toks@)[k].0 <= v@.len(),
    ensures
        r@ == layout(v@, boundaries(m@), token_views(toks@)),
{
    let ghost b = boundaries(m@);
    let ghost tv = token_views(toks@);
    let mut out: Vec<u8> = Vec::new();
    let mut mi: usize = 0;
    let mut at_end = false;
    let mut ti: usize = 0;
    let mut p: usize = 0;
    while p < v.len()
        invariant
            spans_ok(m@, v@.len() as int),
            sorted_tokens(tv),
            b == boundaries(m@),
            tv == token_views(toks@),
            p <= v@.len(),
            mi <= m@.len(),
            at_end ==> mi < m@.len(),
            ti <= toks@.len(),
            bounds_split(b, cursor_index(mi, at_end), p as int),
            tokens_split(tv, ti as int, p as int),
            out@ == layout_upto(v@, b, tv, p as int),
        decreases v@.len() - p,
    {
        let r = emit_segment(&mut out, v, m, toks, p, mi, at_end, ti);
        mi = r.0;
        at_end = r.1;
        ti = r.2;
        p += 1;
    }
    let _ = emit_segment(&mut out, v, m, toks, p, mi, at_end, ti);
    out
}

/// Marker injector: the visible text `v` with each match of `m` wrapped in
/// the invert/normal markers and nothing else inserted.
pub fn mark_matches(v: &[u8], m: &Vec<(usize, usize)>) -> (r: Vec<u8>)
    requires
        spans_ok(m@, v@.len() as int),
    ensures
        r@ == layout(v@, boundaries(m@), seq![]),
{
    let none: Vec<EscapeToken> = Vec::new();
    assert(token_views(none@) =~= Seq::<(int, Seq<u8>)>::empty());
    splice(v, m, &none)
}

} // verus!
