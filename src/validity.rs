use vstd::prelude::*;
use vstd::utf8::{
    is_char_boundary, is_char_boundary_iff_not_is_continuation_byte,
    is_char_boundary_start_end_of_seq, is_continuation_byte, valid_utf8, valid_utf8_concat,
    valid_utf8_split,
};
use crate::lemmas::lemma_strip_prefix_len;
use crate::model::{
    escape_position, escape_tokens, escapes_at, gap_end, gap_start, inserted_at, invert_marker,
    layout, layout_upto, marker, markers_at, normal_marker, spans_ok, strip_prefix, stripped,
};

verus! {

/// `i` starts a character of `bytes`, or is its end.
pub open spec fn at_boundary(bytes: Seq<u8>, i: int) -> bool {
    i == bytes.len() || (0 <= i < bytes.len() && !is_continuation_byte(bytes[i]))
}

pub proof fn lemma_boundary_local(bytes: Seq<u8>, i: int)
    requires
        valid_utf8(bytes),
        0 <= i <= bytes.len(),
    ensures
        is_char_boundary(bytes, i) <==> at_boundary(bytes, i),
{
    is_char_boundary_start_end_of_seq(bytes);
    if i < bytes.len() {
        is_char_boundary_iff_not_is_continuation_byte(bytes, i);
    }
}

proof fn lemma_valid_slice(t: Seq<u8>, a: int, b: int)
    requires
        valid_utf8(t),
        0 <= a <= b <= t.len(),
        at_boundary(t, a),
        at_boundary(t, b),
    ensures
        valid_utf8(t.subrange(a, b)),
{
    lemma_boundary_local(t, a);
    valid_utf8_split(t, a);
    let s = t.subrange(a, t.len() as int);
    assert(at_boundary(s, b - a));
    lemma_boundary_local(s, b - a);
    valid_utf8_split(s, b - a);
    assert(s.subrange(0, b - a) == t.subrange(a, b));
}

/// A valid non-empty sequence starts with a character.
proof fn lemma_valid_starts_at_boundary(r: Seq<u8>)
    requires
        valid_utf8(r),
    ensures
        at_boundary(r, 0),
{
    is_char_boundary_start_end_of_seq(r);
    lemma_boundary_local(r, 0);
}

proof fn lemma_ascii_byte_valid(x: u8)
    requires
        x <= 0x7f,
    ensures
        valid_utf8(seq![x]),
{
    let s = seq![x];
    assert(vstd::utf8::pop_first_scalar(s) =~= Seq::<u8>::empty());
    assert(valid_utf8(Seq::<u8>::empty()));
}

proof fn lemma_ascii_valid(s: Seq<u8>)
    requires
        forall|i: int| 0 <= i < s.len() ==> s[i] <= 0x7f,
    ensures
        valid_utf8(s),
    decreases s.len(),
{
    if s.len() > 0 {
        let init = s.drop_last();
        lemma_ascii_valid(init);
        lemma_ascii_byte_valid(s.last());
        valid_utf8_concat(init, seq![s.last()]);
        assert(init + seq![s.last()] =~= s);
    }
}

proof fn lemma_markers_valid()
    ensures
        valid_utf8(invert_marker()),
        valid_utf8(normal_marker()),
{
    lemma_ascii_valid(invert_marker());
    lemma_ascii_valid(normal_marker());
}

proof fn lemma_markers_at_valid(b: Seq<usize>, p: int, n: int)
    requires
        n <= b.len(),
    ensures
        valid_utf8(markers_at(b, p, n)),
    decreases n,
{
    if n > 0 {
        lemma_markers_at_valid(b, p, n - 1);
        lemma_markers_valid();
        assert(valid_utf8(marker(n - 1)));
        assert(valid_utf8(Seq::<u8>::empty()));
        valid_utf8_concat(markers_at(b, p, n - 1), if b[n - 1] == p {
            marker(n - 1)
        } else {
            seq![]
        });
    }
}

proof fn lemma_escapes_at_valid(toks: Seq<(int, Seq<u8>)>, p: int, n: int)
    requires
        n <= toks.len(),
        forall|j: int| 0 <= j < toks.len() ==> valid_utf8(#[trigger] toks[j].1),
    ensures
        valid_utf8(escapes_at(toks, p, n)),
    decreases n,
{
    if n > 0 {
        lemma_escapes_at_valid(toks, p, n - 1);
        assert(valid_utf8(toks[n - 1].1));
        assert(valid_utf8(Seq::<u8>::empty()));
        valid_utf8_concat(escapes_at(toks, p, n - 1), if toks[n - 1].0 == p {
            toks[n - 1].1
        } else {
            seq![]
        });
    }
}

proof fn lemma_inserted_valid(b: Seq<usize>, toks: Seq<(int, Seq<u8>)>, p: int)
    requires
        forall|j: int| 0 <= j < toks.len() ==> valid_utf8(#[trigger] toks[j].1),
    ensures
        valid_utf8(inserted_at(b, toks, p)),
{
    lemma_markers_at_valid(b, p, b.len() as int);
    lemma_escapes_at_valid(toks, p, toks.len() as int);
    assert(valid_utf8(Seq::<u8>::empty()));
    valid_utf8_concat(markers_at(b, p, b.len() as int), if crate::model::kept_at(b, p) {
        escapes_at(toks, p, toks.len() as int)
    } else {
        seq![]
    });
}

proof fn lemma_layout_prefix_valid(v: Seq<u8>, b: Seq<usize>, toks: Seq<(int, Seq<u8>)>, p: int)
    requires
        valid_utf8(v),
        forall|j: int| 0 <= j < b.len() ==> at_boundary(v, #[trigger] b[j] as int),
        forall|j: int| 0 <= j < toks.len() ==> at_boundary(v, #[trigger] toks[j].0),
        forall|j: int| 0 <= j < toks.len() ==> valid_utf8(#[trigger] toks[j].1),
        0 <= p <= v.len(),
    ensures
        valid_utf8(layout_upto(v, b, toks, p) + v.subrange(p, v.len() as int)),
    decreases p,
{
    if p == 0 {
        assert(layout_upto(v, b, toks, 0) + v.subrange(0, v.len() as int) =~= v);
    } else {
        let q = p - 1;
        lemma_layout_prefix_valid(v, b, toks, q);
        let l = layout_upto(v, b, toks, q);
        let rest = v.subrange(q, v.len() as int);
        let w = l + rest;
        let ins = inserted_at(b, toks, q);
        assert(layout_upto(v, b, toks, p) + v.subrange(p, v.len() as int) =~= l + ins + rest);
        if at_boundary(v, q) {
            assert(w[l.len() as int] == v[q]);
            assert(at_boundary(w, l.len() as int));
            lemma_boundary_local(w, l.len() as int);
            valid_utf8_split(w, l.len() as int);
            assert(w.subrange(0, l.len() as int) =~= l);
            assert(w.subrange(l.len() as int, w.len() as int) =~= rest);
            lemma_inserted_valid(b, toks, q);
            valid_utf8_concat(l, ins);
            valid_utf8_concat(l + ins, rest);
        } else {
            assert forall|j: int| 0 <= j < b.len() implies b[j] != q by {
                assert(at_boundary(v, b[j] as int));
            }
            assert forall|j: int| 0 <= j < toks.len() implies toks[j].0 != q by {
                assert(at_boundary(v, toks[j].0));
            }
            crate::lemmas::lemma_markers_none(b, q, 0, b.len() as int);
            crate::lemmas::lemma_escapes_none(toks, q, 0, toks.len() as int);
            assert(ins =~= Seq::<u8>::empty());
            assert(l + ins + rest =~= w);
        }
    }
}

/// A layout of valid text, with markers and escapes placed at character
/// starts and escapes that are valid themselves, is valid.
pub proof fn lemma_layout_valid(v: Seq<u8>, b: Seq<usize>, toks: Seq<(int, Seq<u8>)>)
    requires
        valid_utf8(v),
        forall|j: int| 0 <= j < b.len() ==> at_boundary(v, #[trigger] b[j] as int),
        forall|j: int| 0 <= j < toks.len() ==> at_boundary(v, #[trigger] toks[j].0),
        forall|j: int| 0 <= j < toks.len() ==> valid_utf8(#[trigger] toks[j].1),
    ensures
        valid_utf8(layout(v, b, toks)),
{
    let n = v.len() as int;
    lemma_layout_prefix_valid(v, b, toks, n);
    let l = layout_upto(v, b, toks, n);
    assert(l + v.subrange(n, n) =~= l);
    lemma_inserted_valid(b, toks, n);
    assert(layout(v, b, toks) =~= l + inserted_at(b, toks, n));
    valid_utf8_concat(l, inserted_at(b, toks, n));
}

/// Every span starts and ends at a character start (or the end) of `t`.
pub open spec fn spans_on_boundaries(spans: Seq<(usize, usize)>, t: Seq<u8>) -> bool {
    forall|k: int|
        0 <= k < spans.len() ==> at_boundary(t, #[trigger] spans[k].0 as int) && at_boundary(
            t,
            spans[k].1 as int,
        )
}

proof fn lemma_gap_valid(t: Seq<u8>, e: Seq<(usize, usize)>, k: int)
    requires
        valid_utf8(t),
        spans_ok(e, t.len() as int),
        spans_on_boundaries(e, t),
        0 <= k <= e.len(),
    ensures
        valid_utf8(t.subrange(gap_start(e, k), gap_end(e, t.len() as int, k))),
{
    let len = t.len() as int;
    lemma_valid_starts_at_boundary(t);
    if k < e.len() {
        assert(e[k].0 <= e[k].1);
        assert(at_boundary(t, e[k].0 as int));
    }
    if k > 0 {
        assert(e[k - 1].0 <= e[k - 1].1);
        assert(at_boundary(t, e[k - 1].1 as int));
        if k < e.len() {
            assert(e[k - 1].1 <= e[k].0);
        }
    }
    lemma_valid_slice(t, gap_start(e, k), gap_end(e, len, k));
}

proof fn lemma_strip_suffix_valid(t: Seq<u8>, e: Seq<(usize, usize)>, k: int, j: int)
    requires
        valid_utf8(t),
        spans_ok(e, t.len() as int),
        spans_on_boundaries(e, t),
        0 <= k <= j <= e.len() + 1,
    ensures
        strip_prefix(t, e, k).len() <= strip_prefix(t, e, j).len(),
        strip_prefix(t, e, j).subrange(0, strip_prefix(t, e, k).len() as int) == strip_prefix(
            t,
            e,
            k,
        ),
        valid_utf8(
            strip_prefix(t, e, j).subrange(
                strip_prefix(t, e, k).len() as int,
                strip_prefix(t, e, j).len() as int,
            ),
        ),
    decreases j,
{
    let a = strip_prefix(t, e, k);
    if j == k {
        assert(a.subrange(0, a.len() as int) == a);
        assert(a.subrange(a.len() as int, a.len() as int) =~= Seq::<u8>::empty());
    } else {
        lemma_strip_suffix_valid(t, e, k, j - 1);
        lemma_gap_valid(t, e, j - 1);
        let prev = strip_prefix(t, e, j - 1);
        let g = t.subrange(gap_start(e, j - 1), gap_end(e, t.len() as int, j - 1));
        let cur = strip_prefix(t, e, j);
        assert(cur == prev + g);
        assert(cur.subrange(0, a.len() as int) == prev.subrange(0, a.len() as int));
        let r0 = prev.subrange(a.len() as int, prev.len() as int);
        valid_utf8_concat(r0, g);
        assert(cur.subrange(a.len() as int, cur.len() as int) =~= r0 + g);
    }
}

/// Removing escapes that sit at character starts from valid text leaves
/// valid text; each escape lands at a character start of it, and each
/// escape's bytes are valid.
pub proof fn lemma_stripped_valid(t: Seq<u8>, e: Seq<(usize, usize)>)
    requires
        valid_utf8(t),
        spans_ok(e, t.len() as int),
        spans_on_boundaries(e, t),
    ensures
        valid_utf8(stripped(t, e)),
        forall|k: int|
            0 <= k < e.len() ==> at_boundary(stripped(t, e), #[trigger] escape_position(e, k)),
        forall|k: int| 0 <= k < e.len() ==> valid_utf8(#[trigger] escape_tokens(t, e)[k].1),
{
    let n = e.len() as int;
    let v = stripped(t, e);
    lemma_strip_suffix_valid(t, e, 0, n + 1);
    assert(v.subrange(0, v.len() as int) == v);
    assert forall|k: int| 0 <= k < e.len() implies at_boundary(v, #[trigger] escape_position(e, k))
        && valid_utf8(escape_tokens(t, e)[k].1) by {
        lemma_strip_suffix_valid(t, e, k + 1, n + 1);
        lemma_strip_prefix_len(t, e, k);
        let pos = strip_prefix(t, e, k + 1).len() as int;
        assert(pos == escape_position(e, k));
        let r = v.subrange(pos, v.len() as int);
        if r.len() > 0 {
            lemma_valid_starts_at_boundary(r);
            assert(r[0] == v[pos]);
        }
        assert(e[k].0 <= e[k].1);
        lemma_valid_slice(t, e[k].0 as int, e[k].1 as int);
    }
}

} // verus!
