//! Connected components of the occupied cells of a grid, under 8-adjacency.
//!
//! The search is a flood fill from each unvisited occupied cell in index
//! order, with an explicit stack. Each component comes back as the list of
//! its cells in the order they were reached; the first is the seed, which is
//! the smallest cell of the component.
use vstd::prelude::*;

verus! {

/// Cells `c` and `d` of a grid `gw` cells wide touch, sides or corners (or
/// are the same cell).
pub open spec fn grid_adjacent(gw: int, c: int, d: int) -> bool {
    &&& -1 <= c % gw - d % gw <= 1
    &&& -1 <= c / gw - d / gw <= 1
}

/// `comps` are the connected components of the occupied cells `occ` of a
/// grid `gw` cells wide, ordered by their smallest cell, each listing its
/// smallest cell first and every later cell next to one listed before it.
pub open spec fn components_of(occ: Seq<bool>, gw: int, comps: Seq<Vec<u32>>) -> bool {
    &&& forall|k: int|
        0 <= k < comps.len() ==> (#[trigger] comps[k])@.len() > 0 && comps[k]@.no_duplicates()
    &&& forall|k: int, j: int|
        0 <= k < comps.len() && 0 <= j < comps[k]@.len() ==> {
            let c = #[trigger] comps[k]@[j];
            &&& c < occ.len()
            &&& occ[c as int]
            &&& comps[k]@[0] <= c
        }
    &&& forall|k1: int, k2: int|
        0 <= k1 < k2 < comps.len() ==> (#[trigger] comps[k1])@[0] < (#[trigger] comps[k2])@[0]
    &&& forall|k1: int, j1: int, k2: int, j2: int|
        0 <= k1 < comps.len() && 0 <= k2 < comps.len() && 0 <= j1 < comps[k1]@.len() && 0 <= j2
            < comps[k2]@.len() && #[trigger] comps[k1]@[j1] == #[trigger] comps[k2]@[j2] ==> k1
            == k2
    &&& forall|c: int|
        0 <= c < occ.len() && occ[c] ==> exists|k: int|
            0 <= k < comps.len() && (#[trigger] comps[k])@.contains(c as u32)
    &&& forall|k: int, j: int, d: int|
        #![trigger comps[k]@[j], occ[d]]
        0 <= k < comps.len() && 0 <= j < comps[k]@.len() && 0 <= d < occ.len() && occ[d]
            && grid_adjacent(gw, comps[k]@[j] as int, d) ==> comps[k]@.contains(d as u32)
    &&& forall|k: int, j: int|
        0 <= k < comps.len() && 0 < j < comps[k]@.len() ==> exists|i: int|
            0 <= i < j && grid_adjacent(gw, comps[k]@[i] as int, #[trigger] comps[k]@[j] as int)
}

/// Activity flags agree with labels: a cell is active exactly when it is
/// occupied and not yet labelled; labels are `-1` or below `kmax`, and only
/// occupied cells carry one.
spec fn labels_ok(occ: Seq<bool>, active: Seq<bool>, label: Seq<int>, kmax: int) -> bool {
    &&& active.len() == occ.len()
    &&& label.len() == occ.len()
    &&& forall|c: int| 0 <= c < occ.len() ==> #[trigger] active[c] == (occ[c] && label[c] == -1)
    &&& forall|c: int| 0 <= c < occ.len() ==> -1 <= #[trigger] label[c] < kmax
    &&& forall|c: int| 0 <= c < occ.len() && #[trigger] label[c] >= 0 ==> occ[c]
}

/// Every labelled cell below `k` has all its occupied neighbours in its own component.
spec fn closed_below(occ: Seq<bool>, gw: int, label: Seq<int>, k: int) -> bool {
    forall|c: int, d: int|
        0 <= c < occ.len() && 0 <= d < occ.len() && 0 <= #[trigger] label[c] < k && occ[d]
            && grid_adjacent(gw, c, d) ==> #[trigger] label[d] == label[c]
}

/// `list` holds exactly the cells labelled `k`, once each.
spec fn listed(label: Seq<int>, list: Seq<u32>, k: int) -> bool {
    &&& forall|j: int|
        0 <= j < list.len() ==> (#[trigger] list[j]) < label.len() && label[list[j] as int] == k
    &&& forall|c: int| 0 <= c < label.len() && #[trigger] label[c] == k ==> list.contains(c as u32)
    &&& list.no_duplicates()
}

/// Every cell of `list` after the first touches an earlier one.
spec fn connected_list(gw: int, list: Seq<u32>) -> bool {
    forall|j: int|
        0 < j < list.len() ==> exists|i: int|
            0 <= i < j && grid_adjacent(gw, list[i] as int, #[trigger] list[j] as int)
}

/// Cells still waiting on the stack, all labelled `k`.
spec fn stacked(label: Seq<int>, stack: Seq<u32>, k: int) -> bool {
    forall|j: int|
        0 <= j < stack.len() ==> (#[trigger] stack[j]) < label.len() && label[stack[j] as int] == k
}

/// Every cell labelled `k` that is off the stack has its occupied neighbours labelled `k`.
spec fn expanded(occ: Seq<bool>, gw: int, label: Seq<int>, stack: Seq<u32>, k: int) -> bool {
    forall|c: int, d: int|
        0 <= c < occ.len() && 0 <= d < occ.len() && #[trigger] label[c] == k && !stack.contains(
            c as u32,
        ) && occ[d] && grid_adjacent(gw, c, d) ==> #[trigger] label[d] == k
}

/// Labels only go from unlabelled to `k`.
spec fn grows(old_label: Seq<int>, label: Seq<int>, k: int) -> bool {
    &&& label.len() == old_label.len()
    &&& forall|c: int|
        0 <= c < label.len() ==> (#[trigger] label[c] == old_label[c] || (old_label[c] == -1
            && label[c] == k))
}

/// How many cells below `n` are unlabelled.
spec fn unlabelled(label: Seq<int>, n: nat) -> nat
    decreases n,
{
    if n == 0 {
        0
    } else {
        unlabelled(label, (n - 1) as nat) + if label[n - 1] == -1 {
            1nat
        } else {
            0nat
        }
    }
}

proof fn lemma_unlabelled_mark(label: Seq<int>, n: nat, d: int, v: int)
    requires
        0 <= d < n <= label.len(),
        label[d] == -1,
        v != -1,
    ensures
        unlabelled(label.update(d, v), n) + 1 == unlabelled(label, n),
    decreases n,
{
    if n - 1 > d {
        lemma_unlabelled_mark(label, (n - 1) as nat, d, v);
    } else {
        assert(n - 1 == d);
        assert forall|c: int| 0 <= c < n - 1 implies label.update(d, v)[c] == label[c] by {}
        lemma_unlabelled_same(label, label.update(d, v), (n - 1) as nat);
    }
}

proof fn lemma_unlabelled_same(a: Seq<int>, b: Seq<int>, n: nat)
    requires
        n <= a.len(),
        n <= b.len(),
        forall|c: int| 0 <= c < n ==> a[c] == b[c],
    ensures
        unlabelled(a, n) == unlabelled(b, n),
    decreases n,
{
    if n > 0 {
        lemma_unlabelled_same(a, b, (n - 1) as nat);
    }
}

proof fn lemma_cell_coords(p: int, gw: int, x: int, y: int)
    requires
        gw > 0,
        0 <= x < gw,
        y >= 0,
        p == y * gw + x,
    ensures
        p % gw == x,
        p / gw == y,
{
    vstd::arithmetic::div_mod::lemma_fundamental_div_mod_converse(p, gw, y, x);
}

proof fn lemma_cell_in_grid(d: int, gw: int, gh: int)
    requires
        gw > 0,
        gh >= 0,
        0 <= d < gw * gh,
    ensures
        0 <= d % gw < gw,
        0 <= d / gw < gh,
        d == (d / gw) * gw + d % gw,
{
    vstd::arithmetic::div_mod::lemma_fundamental_div_mod(d, gw);
    vstd::arithmetic::div_mod::lemma_mod_pos_bound(d, gw);
    assert(gw * (d / gw) == (d / gw) * gw) by (nonlinear_arith);
    vstd::arithmetic::div_mod::lemma_div_pos_is_pos(d, gw);
    if d / gw >= gh {
        assert((d / gw) * gw >= gh * gw) by (nonlinear_arith)
            requires
                d / gw >= gh,
                gw > 0,
        ;
        assert(gh * gw == gw * gh) by (nonlinear_arith);
    }
}

proof fn lemma_same_cell(d: int, e: int, gw: int, gh: int)
    requires
        gw > 0,
        gh >= 0,
        0 <= d < gw * gh,
        0 <= e < gw * gh,
        d % gw == e % gw,
        d / gw == e / gw,
    ensures
        d == e,
{
    lemma_cell_in_grid(d, gw, gh);
    lemma_cell_in_grid(e, gw, gh);
}

/// Which neighbour offsets `(dy, dx)` of `c` the 3 by 3 walk has already
/// seen, in row order.
spec fn seen(gw: int, c: int, d: int, oy: int, ox: int) -> bool {
    let dy = d / gw - c / gw;
    let dx = d % gw - c % gw;
    dy < oy || (dy == oy && dx < ox)
}

/// Visits the eight neighbours of `c` (and `c` itself): every active one is
/// labelled `k`, pushed, and appended to `cur`.
#[verifier::rlimit(30)]
fn visit_neighbours(
    occ: &Vec<bool>,
    gw: u32,
    gh: u32,
    c: u32,
    k: usize,
    active: &mut Vec<bool>,
    stack: &mut Vec<u32>,
    cur: &mut Vec<u32>,
    Ghost(label0): Ghost<Seq<int>>,
) -> (res: Ghost<Seq<int>>)
    requires
        gw >= 1,
        occ.len() == gw * gh,
        gw * gh <= u32::MAX,
        k < usize::MAX,
        c < occ.len(),
        label0[c as int] == k,
        labels_ok(occ@, old(active)@, label0, k + 1),
        closed_below(occ@, gw as int, label0, k as int),
        listed(label0, old(cur)@, k as int),
        connected_list(gw as int, old(cur)@),
        stacked(label0, old(stack)@, k as int),
    ensures
        ({
            let label = res@;
            &&& labels_ok(occ@, final(active)@, label, k + 1)
            &&& closed_below(occ@, gw as int, label, k as int)
            &&& listed(label, final(cur)@, k as int)
            &&& connected_list(gw as int, final(cur)@)
            &&& stacked(label, final(stack)@, k as int)
            &&& grows(label0, label, k as int)
            &&& final(stack)@.len() >= old(stack)@.len()
            &&& final(stack)@.subrange(0, old(stack)@.len() as int) == old(stack)@
            &&& final(cur)@.len() >= old(cur)@.len()
            &&& final(cur)@.subrange(0, old(cur)@.len() as int) == old(cur)@
            &&& unlabelled(label, occ@.len()) + (final(stack)@.len() - old(stack)@.len())
                == unlabelled(label0, occ@.len())
            &&& forall|d: int|
                0 <= d < occ.len() && occ[d] && grid_adjacent(gw as int, c as int, d) ==> #[trigger] label[d] == k
            &&& forall|d: int| 0 <= d < occ.len() && #[trigger] label[d] != label0[d] ==> old(active)[d]
            &&& forall|d: int| 0 <= d < occ.len() && #[trigger] label[d] != label0[d] ==> final(stack)@.contains(d as u32)
        }),
{
    let ghost mut label = label0;
    let ghost n = occ@.len() as int;
    let ghost gwi = gw as int;
    let ghost stack0 = stack@;
    let ghost cur0 = cur@;
    let ghost active0 = active@;
    proof {
        lemma_cell_in_grid(c as int, gwi, gh as int);
    }
    let cx = (c % gw) as i64;
    let cy = (c / gw) as i64;
    let mut oy: i64 = -1;
    while oy <= 1
        invariant
            -1 <= oy <= 2,
            n == occ@.len(),
            n == gw * gh,
            gw * gh <= u32::MAX,
            gw >= 1,
            k < usize::MAX,
            gwi == gw as int,
            cx == c as int % gwi,
            cy == c as int / gwi,
            0 <= cx < gw,
            0 <= cy < gh,
            c < n,
            labels_ok(occ@, active0, label0, k + 1),
            cur@.len() >= cur0.len(),
            label[c as int] == k,
            labels_ok(occ@, active@, label, k + 1),
            closed_below(occ@, gwi, label, k as int),
            listed(label, cur@, k as int),
            connected_list(gwi, cur@),
            stacked(label, stack@, k as int),
            grows(label0, label, k as int),
            stack@.len() >= stack0.len(),
            stack@.subrange(0, stack0.len() as int) == stack0,
            cur@.subrange(0, cur0.len() as int) == cur0,
            unlabelled(label, n as nat) + (stack@.len() - stack0.len()) == unlabelled(label0, n as nat),
            forall|d: int|
                0 <= d < n && occ[d] && grid_adjacent(gwi, c as int, d) && seen(gwi, c as int, d, oy as int, -1)
                    ==> #[trigger] label[d] == k,
            forall|d: int| 0 <= d < n && #[trigger] label[d] != label0[d] ==> active0[d],
            forall|d: int| 0 <= d < n && #[trigger] label[d] != label0[d] ==> stack@.contains(d as u32),
        decreases 2 - oy,
    {
        let mut ox: i64 = -1;
        while ox <= 1
            invariant
                -1 <= oy <= 1,
                -1 <= ox <= 2,
                n == occ@.len(),
                n == gw * gh,
                gw * gh <= u32::MAX,
                gw >= 1,
                k < usize::MAX,
            gw * gh <= u32::MAX,
            gw >= 1,
            k < usize::MAX,
                gwi == gw as int,
                cx == c as int % gwi,
                cy == c as int / gwi,
                0 <= cx < gw,
                0 <= cy < gh,
                c < n,
                labels_ok(occ@, active0, label0, k + 1),
                cur@.len() >= cur0.len(),
            0 <= cx < gw,
            0 <= cy < gh,
            c < n,
            labels_ok(occ@, active0, label0, k + 1),
            cur@.len() >= cur0.len(),
                label[c as int] == k,
                labels_ok(occ@, active@, label, k + 1),
                closed_below(occ@, gwi, label, k as int),
                listed(label, cur@, k as int),
                connected_list(gwi, cur@),
                stacked(label, stack@, k as int),
                grows(label0, label, k as int),
                stack@.len() >= stack0.len(),
                stack@.subrange(0, stack0.len() as int) == stack0,
                cur@.subrange(0, cur0.len() as int) == cur0,
                unlabelled(label, n as nat) + (stack@.len() - stack0.len()) == unlabelled(label0, n as nat),
                forall|d: int|
                    0 <= d < n && occ[d] && grid_adjacent(gwi, c as int, d) && seen(gwi, c as int, d, oy as int, ox as int)
                        ==> #[trigger] label[d] == k,
                forall|d: int| 0 <= d < n && #[trigger] label[d] != label0[d] ==> active0[d],
                forall|d: int| 0 <= d < n && #[trigger] label[d] != label0[d] ==> stack@.contains(d as u32),
            forall|d: int| 0 <= d < n && #[trigger] label[d] != label0[d] ==> stack@.contains(d as u32),
            decreases 2 - ox,
        {
            let nx = cx + ox;
            let ny = cy + oy;
            let in_grid = nx >= 0 && ny >= 0 && nx < gw as i64 && ny < gh as i64;
            if in_grid {
                let nyu = ny as u64;
                let nxu = nx as u64;
                assert(nyu * gw + nxu < gw * gh) by (nonlinear_arith)
                    requires
                        nxu < gw,
                        nyu < gh,
                ;
                let next64: u64 = nyu * (gw as u64) + nxu;
                assert(next64 < gw * gh);
                let next = next64 as usize;
                assert(next as int == ny * gw + nx);
                let ghost ni = next as int;
                proof {
                    lemma_cell_coords(ni, gwi, nx as int, ny as int);
                }
                if active[next] {
                    let ghost old_label = label;
                    let ghost old_stack = stack@;
                    let ghost old_cur = cur@;
                    active.set(next, false);
                    stack.push(next as u32);
                    cur.push(next as u32);
                    proof {
                        label = label.update(ni, k as int);
                        lemma_unlabelled_mark(old_label, n as nat, ni, k as int);
                        assert(grid_adjacent(gwi, c as int, ni));
                        // the new cell touches c, which is already listed
                        assert(old_cur.contains(c));
                        let ic = choose|i: int| 0 <= i < old_cur.len() && old_cur[i] == c;
                        assert(cur@[ic] == c);
                        assert forall|j: int| 0 < j < cur@.len() implies exists|i: int|
                            0 <= i < j && grid_adjacent(gwi, cur@[i] as int, #[trigger] cur@[j] as int) by {
                            if j < old_cur.len() {
                                let i0 = choose|i: int| 0 <= i < j && grid_adjacent(gwi, old_cur[i] as int, old_cur[j] as int);
                                assert(cur@[i0] == old_cur[i0]);
                            } else {
                                assert(j == old_cur.len());
                                assert(grid_adjacent(gwi, cur@[ic] as int, cur@[j] as int));
                            }
                        }
                        assert forall|cc: int| 0 <= cc < n && #[trigger] label[cc] == k implies cur@.contains(cc as u32) by {
                            if cc == ni {
                                assert(cur@[old_cur.len() as int] == cc as u32);
                            } else {
                                assert(old_label[cc] == k);
                                assert(old_cur.contains(cc as u32));
                                let jj = choose|jj: int| 0 <= jj < old_cur.len() && old_cur[jj] == cc as u32;
                                assert(cur@[jj] == cc as u32);
                            }
                        }
                        assert(!old_cur.contains(next as u32)) by {
                            if old_cur.contains(next as u32) {
                                let jj = choose|jj: int| 0 <= jj < old_cur.len() && old_cur[jj] == next as u32;
                                assert(old_label[old_cur[jj] as int] == k);
                            }
                        }
                        assert(cur@ == old_cur.push(next as u32));
                        assert(cur@.no_duplicates()) by {
                            assert forall|i: int, j: int| 0 <= i < j < cur@.len() implies cur@[i] != cur@[j] by {
                                if j == old_cur.len() {
                                    assert(old_cur[i] == cur@[i]);
                                }
                            }
                        }
                        assert forall|d: int| 0 <= d < n && #[trigger] label[d] != label0[d] implies stack@.contains(d as u32) by {
                            if d == ni {
                                assert(stack@[old_stack.len() as int] == d as u32);
                            } else {
                                assert(old_label[d] != label0[d]);
                                let jj = choose|jj: int| 0 <= jj < old_stack.len() && old_stack[jj] == d as u32;
                                assert(stack@[jj] == d as u32);
                            }
                        }
                        assert(stack@.subrange(0, stack0.len() as int) =~= stack0) by {
                            assert(stack@ == old_stack.push(next as u32));
                            assert(old_stack.subrange(0, stack0.len() as int) == stack0);
                        }
                        assert(cur@.subrange(0, cur0.len() as int) =~= cur0) by {
                            assert(old_cur.subrange(0, cur0.len() as int) == cur0);
                        }
                        assert forall|d: int|
                            0 <= d < n && occ[d] && grid_adjacent(gwi, c as int, d) && seen(gwi, c as int, d, oy as int, ox + 1)
                                implies #[trigger] label[d] == k by {
                            if !seen(gwi, c as int, d, oy as int, ox as int) {
                                lemma_same_cell(d, ni, gwi, gh as int);
                            }
                        }
                    }
                } else {
                    proof {
                        assert forall|d: int|
                            0 <= d < n && occ[d] && grid_adjacent(gwi, c as int, d) && seen(gwi, c as int, d, oy as int, ox + 1)
                                implies #[trigger] label[d] == k by {
                            if !seen(gwi, c as int, d, oy as int, ox as int) {
                                lemma_same_cell(d, ni, gwi, gh as int);
                                // d is occupied and inactive, so labelled; a finished
                                // component would have pulled c in, so it is this one
                                assert(label[d] != -1);
                                if label[d] < k {
                                    assert(grid_adjacent(gwi, d, c as int));
                                    assert(label[c as int] == label[d]);
                                }
                            }
                        }
                    }
                }
            } else {
                proof {
                    assert forall|d: int|
                        0 <= d < n && occ[d] && grid_adjacent(gwi, c as int, d) && seen(gwi, c as int, d, oy as int, ox + 1)
                            implies #[trigger] label[d] == k by {
                        if !seen(gwi, c as int, d, oy as int, ox as int) {
                            lemma_cell_in_grid(d, gwi, gh as int);
                        }
                    }
                }
            }
            ox += 1;
        }
        proof {
            assert forall|d: int|
                0 <= d < n && occ[d] && grid_adjacent(gwi, c as int, d) && seen(gwi, c as int, d, oy + 1, -1)
                    implies #[trigger] label[d] == k by {
                assert(seen(gwi, c as int, d, oy as int, 2));
            }
        }
        oy += 1;
    }
    proof {
        assert forall|d: int|
            0 <= d < n && occ[d] && grid_adjacent(gwi, c as int, d) implies #[trigger] label[d] == k by {
            assert(seen(gwi, c as int, d, 2, -1));
        }
    }
    Ghost(label)
}

/// Floods the component of `seed` from an explicit stack, labelling it `k`.
/// Returns its cells in the order they were reached.
fn flood_component(
    occ: &Vec<bool>,
    gw: u32,
    gh: u32,
    seed: u32,
    k: usize,
    active: &mut Vec<bool>,
    Ghost(label0): Ghost<Seq<int>>,
) -> (res: (Vec<u32>, Ghost<Seq<int>>))
    requires
        gw >= 1,
        occ.len() == gw * gh,
        gw * gh <= u32::MAX,
        k < usize::MAX,
        seed < occ.len(),
        old(active)[seed as int],
        labels_ok(occ@, old(active)@, label0, k as int),
        closed_below(occ@, gw as int, label0, k as int),
    ensures
        ({
            let cur = res.0@;
            let label = res.1@;
            &&& labels_ok(occ@, final(active)@, label, k + 1)
            &&& closed_below(occ@, gw as int, label, k + 1)
            &&& listed(label, cur, k as int)
            &&& connected_list(gw as int, cur)
            &&& cur.len() > 0
            &&& cur[0] == seed
            &&& grows(label0, label, k as int)
            &&& forall|d: int| 0 <= d < occ.len() && #[trigger] label[d] != label0[d] ==> old(active)[d]
        }),
{
    let ghost n = occ@.len() as int;
    let ghost gwi = gw as int;
    let ghost active0 = active@;
    let ghost mut label = label0.update(seed as int, k as int);
    active.set(seed as usize, false);
    let mut stack: Vec<u32> = Vec::new();
    stack.push(seed);
    let mut cur: Vec<u32> = Vec::new();
    cur.push(seed);
    proof {
        assert forall|c: int| 0 <= c < n && #[trigger] label[c] == k implies cur@.contains(c as u32) by {
            assert(c == seed);
            assert(cur@[0] == seed);
        }
        assert forall|d: int| 0 <= d < n && #[trigger] label[d] != label0[d] implies stack@.contains(d as u32) by {
            assert(d == seed);
            assert(stack@[0] == seed);
        }
    }
    while stack.len() > 0
        invariant
            gw >= 1,
            n == occ@.len(),
            n == gw * gh,
            gw * gh <= u32::MAX,
            gwi == gw as int,
            k < usize::MAX,
            seed < n,
            labels_ok(occ@, active0, label0, k as int),
            labels_ok(occ@, active@, label, k + 1),
            closed_below(occ@, gwi, label, k as int),
            listed(label, cur@, k as int),
            connected_list(gwi, cur@),
            stacked(label, stack@, k as int),
            expanded(occ@, gwi, label, stack@, k as int),
            grows(label0, label, k as int),
            cur@.len() > 0,
            cur@[0] == seed,
            forall|d: int| 0 <= d < n && #[trigger] label[d] != label0[d] ==> active0[d],
            forall|d: int| 0 <= d < n && #[trigger] label[d] != label0[d] && label[d] == k ==> label0[d] == -1,
        decreases unlabelled(label, n as nat), stack@.len(),
    {
        let ghost before = stack@;
        let ghost label_before = label;
        let ghost cur_before = cur@;
        let c = stack.pop().unwrap();
        let ghost popped = stack@;
        assert(before == popped.push(c));
        let Ghost(next_label) = visit_neighbours(occ, gw, gh, c, k, active, &mut stack, &mut cur, Ghost(label));
        proof {
            label = next_label;
            assert(cur@.subrange(0, cur_before.len() as int) == cur_before);
            assert(cur@.subrange(0, cur_before.len() as int)[0] == cur@[0]);
            assert(cur@[0] == cur_before[0]);
            assert forall|x: int, d: int|
                0 <= x < n && 0 <= d < n && #[trigger] label[x] == k && !stack@.contains(x as u32) && occ[d]
                    && grid_adjacent(gwi, x, d) implies #[trigger] label[d] == k by {
                if x != c {
                    if label_before[x] != label[x] {
                        assert(stack@.contains(x as u32));
                    }
                    assert(label_before[x] == k);
                    if stack@.len() > 0 && popped.contains(x as u32) {
                        let jj = choose|jj: int| 0 <= jj < popped.len() && popped[jj] == x as u32;
                        assert(stack@.subrange(0, popped.len() as int)[jj] == x as u32);
                        assert(stack@[jj] == x as u32);
                    }
                    assert(!popped.contains(x as u32));
                    assert(!before.contains(x as u32));
                    assert(label_before[d] == k);
                }
            }
            assert forall|d: int| 0 <= d < n && #[trigger] label[d] != label0[d] implies active0[d] by {
                if label_before[d] == label0[d] {
                    assert(label[d] != label_before[d]);
                }
            }
            assert forall|d: int| 0 <= d < n && #[trigger] label[d] != label0[d] && label[d] == k implies label0[d] == -1 by {
                if label_before[d] == label0[d] {
                    assert(label[d] != label_before[d]);
                }
            }
        }
    }
    proof {
        assert forall|x: int, d: int|
            0 <= x < n && 0 <= d < n && 0 <= #[trigger] label[x] < k + 1 && occ[d] && grid_adjacent(gwi, x, d)
                implies #[trigger] label[d] == label[x] by {
            if label[x] == k {
                assert(!stack@.contains(x as u32));
            }
        }
    }
    (cur, Ghost(label))
}

/// The connected components of the occupied cells of a `gw` by `gh` grid
/// (cell `c` at column `c % gw`, row `c / gw`), joined through their eight
/// neighbours. Seeds are tried in index order, so the components come out
/// ordered by their smallest cell.
pub fn cell_components(occ: &Vec<bool>, gw: u32, gh: u32) -> (comps: Vec<Vec<u32>>)
    requires
        occ.len() == gw * gh,
        gw * gh <= u32::MAX,
    ensures
        components_of(occ@, gw as int, comps@),
{
    let n = occ.len();
    let mut comps: Vec<Vec<u32>> = Vec::new();
    if gw == 0 {
        return comps;
    }
    let ghost gwi = gw as int;
    let mut active: Vec<bool> = Vec::new();
    let mut i: usize = 0;
    while i < n
        invariant
            n == occ@.len(),
            i <= n,
            active@.len() == i,
            forall|c: int| 0 <= c < i ==> active@[c] == occ@[c],
        decreases n - i,
    {
        active.push(occ[i]);
        i += 1;
    }
    let ghost mut label: Seq<int> = Seq::new(n as nat, |c: int| -1int);
    let mut seed: usize = 0;
    while seed < n
        invariant
            gw >= 1,
            n == occ@.len(),
            n == gw * gh,
            gw * gh <= u32::MAX,
            gwi == gw as int,
            seed <= n,
            comps@.len() <= seed,
            labels_ok(occ@, active@, label, comps@.len() as int),
            closed_below(occ@, gwi, label, comps@.len() as int),
            forall|c: int| 0 <= c < seed ==> !#[trigger] active@[c],
            forall|k: int|
                0 <= k < comps@.len() ==> listed(label, (#[trigger] comps@[k])@, k) && connected_list(
                    gwi,
                    comps@[k]@,
                ) && comps@[k]@.len() > 0 && comps@[k]@[0] < seed,
            forall|k: int, j: int|
                0 <= k < comps@.len() && 0 <= j < comps@[k]@.len() ==> comps@[k]@[0] <= #[trigger] comps@[k]@[j],
            forall|k1: int, k2: int|
                0 <= k1 < k2 < comps@.len() ==> (#[trigger] comps@[k1])@[0] < (#[trigger] comps@[k2])@[0],
        decreases n - seed,
    {
        if active[seed] {
            let k = comps.len();
            let ghost label_before = label;
            let ghost active_before = active@;
            let ghost comps_before = comps@;
            let (cur, Ghost(next_label)) = flood_component(occ, gw, gh, seed as u32, k, &mut active, Ghost(label));
            comps.push(cur);
            proof {
                label = next_label;
                assert(comps@[k as int] == cur);
                assert forall|kk: int| 0 <= kk < comps@.len() implies listed(label, (#[trigger] comps@[kk])@, kk)
                    && connected_list(gwi, comps@[kk]@) && comps@[kk]@.len() > 0 && comps@[kk]@[0] < seed + 1 by {
                    if kk < k {
                        assert(comps@[kk] == comps_before[kk]);
                        let l = comps@[kk]@;
                        assert(listed(label_before, l, kk));
                        assert forall|j: int| 0 <= j < l.len() implies (#[trigger] l[j]) < label.len() && label[l[j] as int] == kk by {
                            assert(label_before[l[j] as int] == kk);
                        }
                        assert forall|c: int| 0 <= c < label.len() && #[trigger] label[c] == kk implies l.contains(c as u32) by {
                            assert(label_before[c] == kk);
                        }
                    }
                }
                assert forall|kk: int, j: int|
                    0 <= kk < comps@.len() && 0 <= j < comps@[kk]@.len() implies comps@[kk]@[0] <= #[trigger] comps@[kk]@[j] by {
                    if kk == k {
                        let x = comps@[kk]@[j] as int;
                        assert(label[x] == k);
                        assert(label_before[x] != k);
                        assert(active_before[x]);
                    } else {
                        assert(comps@[kk] == comps_before[kk]);
                    }
                }
                assert forall|k1: int, k2: int|
                    0 <= k1 < k2 < comps@.len() implies (#[trigger] comps@[k1])@[0] < (#[trigger] comps@[k2])@[0] by {
                    assert(comps@[k1] == comps_before[k1]);
                    if k2 < k {
                        assert(comps@[k2] == comps_before[k2]);
                    }
                }
                assert forall|c: int| 0 <= c < seed + 1 implies !#[trigger] active@[c] by {
                    if c < seed {
                        assert(!active_before[c]);
                    }
                }
            }
        }
        seed += 1;
    }
    proof {
        let cs = comps@;
        assert forall|c: int| 0 <= c < occ@.len() && occ@[c] implies exists|k: int|
            0 <= k < cs.len() && (#[trigger] cs[k])@.contains(c as u32) by {
            assert(!active@[c]);
            let k = label[c];
            assert(listed(label, cs[k]@, k));
        }
        assert forall|k: int, j: int, d: int|
            #![trigger cs[k]@[j], occ@[d]]
            0 <= k < cs.len() && 0 <= j < cs[k]@.len() && 0 <= d < occ@.len() && occ@[d]
                && grid_adjacent(gwi, cs[k]@[j] as int, d) implies cs[k]@.contains(d as u32) by {
            assert(listed(label, cs[k]@, k));
            assert(label[cs[k]@[j] as int] == k);
        }
        assert forall|k1: int, j1: int, k2: int, j2: int|
            0 <= k1 < cs.len() && 0 <= k2 < cs.len() && 0 <= j1 < cs[k1]@.len() && 0 <= j2
                < cs[k2]@.len() && #[trigger] cs[k1]@[j1] == #[trigger] cs[k2]@[j2] implies k1 == k2 by {
            assert(listed(label, cs[k1]@, k1));
            assert(listed(label, cs[k2]@, k2));
        }
        assert forall|k: int, j: int|
            0 <= k < cs.len() && 0 <= j < cs[k]@.len() implies {
                let c = #[trigger] cs[k]@[j];
                &&& c < occ@.len()
                &&& occ@[c as int]
                &&& cs[k]@[0] <= c
            } by {
            assert(listed(label, cs[k]@, k));
        }
        assert forall|k: int| 0 <= k < cs.len() implies (#[trigger] cs[k])@.len() > 0 && cs[k]@.no_duplicates() by {
            assert(listed(label, cs[k]@, k));
        }
        assert forall|k: int, j: int|
            0 <= k < cs.len() && 0 < j < cs[k]@.len() implies exists|i: int|
                0 <= i < j && grid_adjacent(gwi, cs[k]@[i] as int, #[trigger] cs[k]@[j] as int) by {
            assert(connected_list(gwi, cs[k]@));
        }
    }
    comps
}

} // verus!
