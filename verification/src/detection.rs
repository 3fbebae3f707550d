//! Decoding of face-detector outputs: the anchor grid and non-maximum
//! suppression. Scores and box overlaps are real-valued and are compared by
//! the caller; this module decides from the outcomes.
use vstd::prelude::*;
use crate::tracking::indices_where;

verus! {

/// Side of the square detector input, in pixels.
pub const DETECTOR_INPUT: usize = 640;

/// The pixel center of anchor `index` on the grid of stride `stride`: two
/// anchors share each grid cell, cells run row by row, `640 / stride` cells
/// to a row.
pub open spec fn spec_anchor_center(index: nat, stride: nat) -> (nat, nat) {
    let m = 640nat / stride;
    let cell = index / 2;
    (((cell * stride) % 640nat) as nat, (((cell / m) * stride) % 640nat) as nat)
}

/// The pixel center of anchor `index` for stride `stride`.
pub fn anchor_center(index: usize, stride: usize) -> (r: (usize, usize))
    requires
        0 < stride <= DETECTOR_INPUT,
        (index / 2) * stride <= usize::MAX,
    ensures
        r.0 == spec_anchor_center(index as nat, stride as nat).0,
        r.1 == spec_anchor_center(index as nat, stride as nat).1,
        r.0 < DETECTOR_INPUT && r.1 < DETECTOR_INPUT,
{
    let m = DETECTOR_INPUT / stride;
    let cell = index / 2;
    let cx = (cell * stride) % DETECTOR_INPUT;
    proof {
        assert(m >= 1) by (nonlinear_arith)
            requires
                0 < stride <= 640,
                m == 640usize / stride,
        ;
        assert((cell / m) * stride <= cell * stride) by (nonlinear_arith)
            requires
                m >= 1,
                stride > 0,
        ;
    }
    let cy = ((cell / m) * stride) % DETECTOR_INPUT;
    (cx, cy)
}

/// The anchor grid: the two anchors `2k` and `2k + 1` share grid cell `k`,
/// so they have one center, whatever the stride. When the stride divides the
/// input side, the grid has `m = 640 / stride` cells to a row, and cell `k`
/// of the grid (`k < m * m`) is centered at column `k mod m` and row
/// `k div m`, each times the stride.
pub proof fn lemma_anchor_grid(k: nat, stride: nat)
    requires
        stride > 0,
    ensures
        spec_anchor_center(2 * k, stride) == spec_anchor_center(2 * k + 1, stride),
        640nat % stride == 0 && k < (640nat / stride) * (640nat / stride) ==> spec_anchor_center(2 * k, stride) == (
            ((k % (640nat / stride)) * stride) as nat,
            ((k / (640nat / stride)) * stride) as nat,
        ),
{
    assert((2 * k) / 2 == k);
    assert((2 * k + 1) / 2 == k);
    let m = 640nat / stride;
    if 640nat % stride == 0 && k < m * m {
        vstd::arithmetic::div_mod::lemma_fundamental_div_mod(640, stride as int);
        assert(m * stride == 640) by (nonlinear_arith)
            requires
                640int == stride * (640int / stride as int) + 640int % stride as int,
                640int % stride as int == 0,
                m == 640nat / stride,
        ;
        assert(m > 0) by (nonlinear_arith)
            requires
                m * stride == 640,
        ;
        let q = k / m;
        let r = k % m;
        vstd::arithmetic::div_mod::lemma_fundamental_div_mod(k as int, m as int);
        assert(k * stride == 640 * q + r * stride) by (nonlinear_arith)
            requires
                k == m * q + r,
                m * stride == 640,
        ;
        assert(r * stride < 640) by (nonlinear_arith)
            requires
                r < m,
                m * stride == 640,
                stride > 0,
        ;
        vstd::arithmetic::div_mod::lemma_mod_multiples_vanish(q as int, (r * stride) as int, 640);
        vstd::arithmetic::div_mod::lemma_small_mod((r * stride) as nat, 640);
        assert(q < m) by (nonlinear_arith)
            requires
                k < m * m,
                k == m * q + r,
                r >= 0,
                m > 0,
        ;
        assert(q * stride < 640) by (nonlinear_arith)
            requires
                q < m,
                m * stride == 640,
                stride > 0,
        ;
        vstd::arithmetic::div_mod::lemma_small_mod((q * stride) as nat, 640);
    }
}

/// Which of the first `n` candidates (by rank) survive suppression: a
/// candidate survives unless an earlier survivor overlaps it, `over(j, i)`
/// saying that candidate `j` overlaps candidate `i` beyond the threshold.
pub open spec fn kept_upto(n: nat, over: spec_fn(int, int) -> bool) -> Seq<bool>
    decreases n,
{
    if n == 0 {
        Seq::empty()
    } else {
        let prev = kept_upto((n - 1) as nat, over);
        prev.push(!exists|j: int| 0 <= j < n - 1 && prev[j] && #[trigger] over(j, n - 1))
    }
}

/// The overlap relation given as a row-major `n` by `n` table.
pub open spec fn table_rel(t: Seq<bool>, n: nat) -> spec_fn(int, int) -> bool {
    |j: int, i: int| t[j * n + i]
}

proof fn lemma_kept_upto_len(n: nat, over: spec_fn(int, int) -> bool)
    ensures
        kept_upto(n, over).len() == n,
    decreases n,
{
    if n > 0 {
        lemma_kept_upto_len((n - 1) as nat, over);
    }
}


/// Later candidates do not change the fate of earlier ones.
proof fn lemma_kept_upto_prefix(m: nat, n: nat, over: spec_fn(int, int) -> bool)
    requires
        m <= n,
    ensures
        kept_upto(n, over).take(m as int) == kept_upto(m, over),
    decreases n,
{
    lemma_kept_upto_len(n, over);
    lemma_kept_upto_len(m, over);
    if m < n {
        lemma_kept_upto_prefix(m, (n - 1) as nat, over);
        lemma_kept_upto_len((n - 1) as nat, over);
        assert(kept_upto(n, over).take(m as int) =~= kept_upto((n - 1) as nat, over).take(m as int));
    } else {
        assert(kept_upto(n, over).take(m as int) =~= kept_upto(n, over));
    }
}

/// Suppression keeps the best-ranked candidate, keeps no candidate that an
/// earlier kept one overlaps, and drops a candidate only when an earlier
/// kept one overlaps it.
pub proof fn lemma_nms_properties(n: nat, over: spec_fn(int, int) -> bool)
    ensures
        n > 0 ==> kept_upto(n, over)[0],
        forall|j: int, i: int| 0 <= j < i < n && #[trigger] kept_upto(n, over)[j] && #[trigger] kept_upto(n, over)[i]
            ==> !over(j, i),
        forall|i: int| 0 <= i < n && !#[trigger] kept_upto(n, over)[i] ==> exists|j: int|
            0 <= j < i && kept_upto(n, over)[j] && over(j, i),
{
    lemma_kept_upto_len(n, over);
    let k = kept_upto(n, over);
    assert forall|i: int| 0 <= i < n implies (#[trigger] k[i] <==> !exists|j: int| 0 <= j < i && k[j] && over(j, i)) by {
        lemma_kept_upto_prefix((i + 1) as nat, n, over);
        lemma_kept_upto_prefix(i as nat, n, over);
        lemma_kept_upto_len(i as nat, over);
        let prev = kept_upto(i as nat, over);
        assert(kept_upto((i + 1) as nat, over) == prev.push(!exists|j: int| 0 <= j < i && prev[j] && #[trigger] over(j, i)));
        assert(k[i] == k.take(i + 1)[i]);
        assert forall|j: int| 0 <= j < i implies prev[j] == k[j] by {
            assert(k.take(i)[j] == k[j]);
        }
    }
    if n > 0 {
        assert(k[0] <==> !exists|j: int| 0 <= j < 0 && k[j] && over(j, 0));
    }
    assert forall|j: int, i: int| 0 <= j < i < n && #[trigger] k[j] && #[trigger] k[i] implies !over(j, i) by {
        assert(k[i] <==> !exists|j2: int| 0 <= j2 < i && k[j2] && over(j2, i));
    }
}

/// Greedy non-maximum suppression over candidates ranked by decreasing
/// score: a candidate is kept unless an earlier kept candidate overlaps it.
/// `overlaps[j * n + i]` tells whether candidate `j` overlaps candidate `i`
/// beyond the threshold. Returns the ranks of the kept candidates, in
/// order.
pub fn nms_keep(n: usize, overlaps: &[bool]) -> (r: Vec<usize>)
    requires
        overlaps@.len() == n * n,
    ensures
        r@ == indices_where(n as nat, |x: int| kept_upto(n as nat, table_rel(overlaps@, n as nat))[x]),
{
    let ghost over = table_rel(overlaps@, n as nat);
    let total: usize = overlaps.len();
    let mut kept: Vec<bool> = Vec::new();
    let mut i: usize = 0;
    while i < n
        invariant
            i <= n,
            overlaps@.len() == n * n,
            total == overlaps@.len(),
            over == table_rel(overlaps@, n as nat),
            kept@ == kept_upto(i as nat, over),
        decreases n - i,
    {
        proof {
            lemma_kept_upto_len(i as nat, over);
        }
        let mut suppressed = false;
        let mut j: usize = 0;
        while j < i
            invariant
                j <= i < n,
                overlaps@.len() == n * n,
                total == overlaps@.len(),
                over == table_rel(overlaps@, n as nat),
                kept@ == kept_upto(i as nat, over),
                kept@.len() == i,
                suppressed <==> exists|k: int| 0 <= k < j && kept@[k] && #[trigger] over(k, i as int),
            decreases i - j,
        {
            proof {
                assert(j * n + i < n * n) by (nonlinear_arith)
                    requires
                        j < n,
                        i < n,
                ;
                assert(overlaps@.len() <= usize::MAX);
            }
            if kept[j] && overlaps[j * n + i] {
                suppressed = true;
            }
            proof {
                if kept@[j as int] && over(j as int, i as int) {
                    assert(exists|k: int| 0 <= k < j + 1 && kept@[k] && #[trigger] over(k, i as int));
                }
                if suppressed && !(kept@[j as int] && over(j as int, i as int)) {
                    let k = choose|k: int| 0 <= k < j && kept@[k] && #[trigger] over(k, i as int);
                }
                if exists|k: int| 0 <= k < j + 1 && kept@[k] && #[trigger] over(k, i as int) {
                    let k = choose|k: int| 0 <= k < j + 1 && kept@[k] && #[trigger] over(k, i as int);
                    if k < j {
                        assert(suppressed);
                    }
                }
            }
            j = j + 1;
        }
        kept.push(!suppressed);
        i = i + 1;
        assert(kept@ =~= kept_upto(i as nat, over));
    }
    proof {
        lemma_kept_upto_len(n as nat, over);
    }
    let ghost p = |x: int| kept_upto(n as nat, table_rel(overlaps@, n as nat))[x];
    let mut r: Vec<usize> = Vec::new();
    let mut i: usize = 0;
    while i < n
        invariant
            i <= n,
            kept@ == kept_upto(n as nat, over),
            kept@.len() == n,
            over == table_rel(overlaps@, n as nat),
            p == (|x: int| kept_upto(n as nat, table_rel(overlaps@, n as nat))[x]),
            r@ == indices_where(i as nat, p),
        decreases n - i,
    {
        if kept[i] {
            r.push(i);
        }
        i = i + 1;
    }
    r
}

} // verus!
