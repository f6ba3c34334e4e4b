use vstd::prelude::*;
use crate::model::{
    boundaries, count_up_to, escape_position, escape_tokens, escapes_at, gap_end, gap_start,
    markers_at, spans_ok, strip_prefix, stripped, width_before,
};

verus! {

/// Non-decreasing sequence of boundaries.
pub open spec fn sorted_bounds(b: Seq<usize>) -> bool {
    forall|i: int, j: int| 0 <= i < j < b.len() ==> b[i] <= b[j]
}

/// Tokens in non-decreasing order of position.
pub open spec fn sorted_tokens(toks: Seq<(int, Seq<u8>)>) -> bool {
    forall|i: int, j: int| 0 <= i < j < toks.len() ==> toks[i].0 <= toks[j].0
}

pub proof fn lemma_boundary_index(m: Seq<(usize, usize)>, k: int)
    requires
        0 <= k < m.len(),
    ensures
        boundaries(m)[2 * k] == m[k].0,
        boundaries(m)[2 * k + 1] == m[k].1,
        boundaries(m).len() == 2 * m.len(),
{
    assert((2 * k) % 2 == 0 && (2 * k) / 2 == k) by (nonlinear_arith);
    assert((2 * k + 1) % 2 == 1 && (2 * k + 1) / 2 == k) by (nonlinear_arith);
}

pub proof fn lemma_boundaries_sorted(m: Seq<(usize, usize)>, len: int)
    requires
        spans_ok(m, len),
    ensures
        sorted_bounds(boundaries(m)),
        forall|i: int| 0 <= i < boundaries(m).len() ==> boundaries(m)[i] <= len,
{
    let b = boundaries(m);
    assert forall|i: int, j: int| 0 <= i < j < b.len() implies b[i] <= b[j] by {
        let a = i / 2;
        let c = j / 2;
        assert(a <= c && 0 <= a && c < m.len()) by (nonlinear_arith)
            requires
                0 <= i < j < 2 * m.len(),
                a == i / 2,
                c == j / 2,
        ;
        assert(i == 2 * a + i % 2 && j == 2 * c + j % 2) by (nonlinear_arith)
            requires
                a == i / 2,
                c == j / 2,
        ;
        if a < c {
            assert(m[a].1 <= m[c].0);
        } else {
            assert(i % 2 == 0 && j % 2 == 1);
        }
    }
    assert forall|i: int| 0 <= i < b.len() implies b[i] <= len by {
        assert(0 <= i / 2 < m.len()) by (nonlinear_arith)
            requires
                0 <= i < 2 * m.len(),
        ;
    }
}

pub proof fn lemma_markers_none(b: Seq<usize>, p: int, k: int, n: int)
    requires
        0 <= k <= n <= b.len(),
        forall|j: int| k <= j < n ==> b[j] != p,
    ensures
        markers_at(b, p, n) == markers_at(b, p, k),
    decreases n,
{
    if n > k {
        lemma_markers_none(b, p, k, n - 1);
    }
}

pub proof fn lemma_escapes_none(t: Seq<(int, Seq<u8>)>, p: int, k: int, n: int)
    requires
        0 <= k <= n <= t.len(),
        forall|j: int| k <= j < n ==> t[j].0 != p,
    ensures
        escapes_at(t, p, n) == escapes_at(t, p, k),
    decreases n,
{
    if n > k {
        lemma_escapes_none(t, p, k, n - 1);
    }
}

pub proof fn lemma_count_split(b: Seq<usize>, p: int, k: int, n: int)
    requires
        0 <= k <= n <= b.len(),
        forall|j: int| 0 <= j < k ==> b[j] <= p,
        forall|j: int| k <= j < n ==> b[j] > p,
    ensures
        count_up_to(b, p, n) == k,
    decreases n,
{
    if n > k {
        lemma_count_split(b, p, k, n - 1);
    } else if n > 0 {
        lemma_count_split(b, p, n - 1, n - 1);
    }
}

pub proof fn lemma_width_le(e: Seq<(usize, usize)>, len: int, k: int)
    requires
        spans_ok(e, len),
        0 <= k <= e.len(),
    ensures
        0 <= width_before(e, k) <= gap_start(e, k),
    decreases k,
{
    if k > 0 {
        lemma_width_le(e, len, k - 1);
        assert(e[k - 1].0 <= e[k - 1].1);
        if k > 1 {
            assert(e[k - 2].1 <= e[k - 1].0);
        }
    }
}

pub proof fn lemma_strip_prefix_len(t: Seq<u8>, e: Seq<(usize, usize)>, k: int)
    requires
        spans_ok(e, t.len() as int),
        0 <= k <= e.len(),
    ensures
        strip_prefix(t, e, k + 1).len() == gap_end(e, t.len() as int, k) - width_before(e, k),
    decreases k,
{
    let len = t.len() as int;
    if k < e.len() {
        assert(e[k].0 <= e[k].1);
    }
    if k > 0 {
        lemma_strip_prefix_len(t, e, k - 1);
        assert(e[k - 1].0 <= e[k - 1].1);
        if k < e.len() {
            assert(e[k - 1].1 <= e[k].0);
        }
    }
    assert(0 <= gap_start(e, k) <= gap_end(e, len, k) <= len);
    assert(strip_prefix(t, e, k + 1) == strip_prefix(t, e, k) + t.subrange(
        gap_start(e, k),
        gap_end(e, len, k),
    ));
}

pub proof fn lemma_positions_sorted(e: Seq<(usize, usize)>, len: int, i: int, j: int)
    requires
        spans_ok(e, len),
        0 <= i <= j < e.len(),
    ensures
        escape_position(e, i) <= escape_position(e, j),
    decreases j - i,
{
    if i < j {
        lemma_positions_sorted(e, len, i, j - 1);
        assert(e[j - 1].1 <= e[j].0);
    }
}

pub proof fn lemma_position_bound(t: Seq<u8>, e: Seq<(usize, usize)>, k: int)
    requires
        spans_ok(e, t.len() as int),
        0 <= k < e.len(),
    ensures
        0 <= escape_position(e, k) <= stripped(t, e).len(),
{
    let n = e.len() as int;
    lemma_strip_prefix_len(t, e, n);
    lemma_positions_sorted(e, t.len() as int, k, n - 1);
    assert(e[n - 1].0 <= e[n - 1].1);
    lemma_width_le(e, t.len() as int, k);
    if k > 0 {
        assert(e[k - 1].1 <= e[k].0);
    }
}

pub proof fn lemma_tokens_sorted(t: Seq<u8>, e: Seq<(usize, usize)>)
    requires
        spans_ok(e, t.len() as int),
    ensures
        sorted_tokens(escape_tokens(t, e)),
        forall|k: int|
            0 <= k < e.len() ==> 0 <= #[trigger] escape_tokens(t, e)[k].0 <= stripped(t, e).len(),
{
    let toks = escape_tokens(t, e);
    assert forall|i: int, j: int| 0 <= i < j < toks.len() implies toks[i].0 <= toks[j].0 by {
        lemma_positions_sorted(e, t.len() as int, i, j);
    }
    assert forall|k: int| 0 <= k < e.len() implies 0 <= #[trigger] toks[k].0 <= stripped(t, e).len() by {
        lemma_position_bound(t, e, k);
    }
}

} // verus!
