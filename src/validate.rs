//! Connectivity check of a finished grid.

use vstd::prelude::*;
use vstd::set_lib::{lemma_int_range, lemma_len_subset, set_int_range};
use crate::cell::Direction;
use crate::grid::{lemma_index_in_range, lemma_index_injective, Coords, Grid, GridView};
use crate::rng::{any_rng, random_directions};

verus! {

/// No open passage leads out of `s`.
pub open spec fn closed_under_passages(g: GridView, s: Set<Coords>) -> bool {
    forall|c: Coords, d: Direction|
        #![trigger s.contains(c), g.carved(c, d)]
        s.contains(c) && g.in_bounds(c) && g.carved(c, d) ==> match g.neighbor(c, d) {
            Some(n) => s.contains(n),
            None => true,
        }
}

/// `to` can be reached from `from` through open passages: it lies in every set
/// that holds `from` and that no open passage leads out of.
pub open spec fn reachable(g: GridView, from: Coords, to: Coords) -> bool {
    forall|s: Set<Coords>| #[trigger] closed_under_passages(g, s) && s.contains(from) ==> s.contains(to)
}

/// The grid has cells, and every one of them can be reached from `(0, 0)`.
pub open spec fn fully_connected(g: GridView) -> bool {
    &&& g.width * g.height > 0
    &&& forall|c: Coords| g.in_bounds(c) ==> #[trigger] reachable(g, (0, 0), c)
}

/// The cells whose flag in `seen` is set.
pub open spec fn seen_set(g: GridView, seen: Seq<bool>) -> Set<Coords> {
    Set::new(|c: Coords| g.in_bounds(c) && seen[g.index_of(c)])
}

/// The positions whose flag in `seen` is set.
spec fn seen_positions(seen: Seq<bool>) -> Set<int> {
    Set::new(|i: int| 0 <= i < seen.len() && seen[i])
}

/// Every cell reaches itself.
pub proof fn lemma_reachable_refl(g: GridView, a: Coords)
    ensures
        reachable(g, a, a),
{
}

/// Reachability composes.
pub proof fn lemma_reachable_trans(g: GridView, a: Coords, b: Coords, c: Coords)
    requires
        reachable(g, a, b),
        reachable(g, b, c),
    ensures
        reachable(g, a, c),
{
    assert forall|s: Set<Coords>| #[trigger] closed_under_passages(g, s) && s.contains(a) implies s.contains(c) by {
        assert(s.contains(b));
    }
}

/// On a symmetric grid, reachability goes both ways.
pub proof fn lemma_reachable_symmetric(g: GridView, a: Coords, b: Coords)
    requires
        g.wf(),
        g.symmetric(),
        reachable(g, a, b),
    ensures
        reachable(g, b, a),
{
    assert forall|s: Set<Coords>| #[trigger] closed_under_passages(g, s) && s.contains(b) implies s.contains(a) by {
        let t = Set::new(|x: Coords| !s.contains(x));
        assert(closed_under_passages(g, t)) by {
            assert forall|c: Coords, d: Direction| #![trigger t.contains(c), g.carved(c, d)]
                t.contains(c) && g.in_bounds(c) && g.carved(c, d) implies match g.neighbor(c, d) {
                    Some(n) => t.contains(n),
                    None => true,
                } by {
                crate::grid::lemma_neighbor_in_bounds(g, c, d);
                if let Some(n) = g.neighbor(c, d) {
                    if s.contains(n) {
                        assert(g.carved(n, crate::cell::opposite_of(d)));
                        assert(s.contains(c));
                    }
                }
            }
        }
        if !s.contains(a) {
            assert(t.contains(a));
            assert(t.contains(b));
        }
    }
}

pub proof fn lemma_step_reachable(g: GridView, from: Coords, c: Coords, d: Direction, n: Coords)
    requires
        reachable(g, from, c),
        g.in_bounds(c),
        g.carved(c, d),
        g.neighbor(c, d) == Some(n),
    ensures
        reachable(g, from, n),
{
    assert forall|s: Set<Coords>| #[trigger] closed_under_passages(g, s) && s.contains(from) implies s.contains(n) by {
        assert(s.contains(c));
    }
}

/// Returns `true` iff the grid has cells and every cell can be reached from
/// `(0, 0)` through open passages.
pub fn validate(grid: &Grid) -> (r: bool)
    requires
        grid.wf(),
    ensures
        r == fully_connected(grid@),
{
    let ghost g = grid@;
    let w = grid.width();
    let h = grid.height();
    let n = w * h;
    if n == 0 {
        return false;
    }
    proof {
        assert(w > 0 && h > 0) by (nonlinear_arith)
            requires
                n == w * h,
                n != 0,
        ;
        lemma_int_range(0, n as int);
    }
    let mut rng = any_rng();
    let mut seen: Vec<bool> = Vec::new();
    let mut i: usize = 0;
    while i < n
        invariant
            i <= n,
            seen@ == Seq::new(i as nat, |k: int| k == 0),
        decreases n - i,
    {
        seen.push(i == 0);
        i = i + 1;
        assert(seen@ =~= Seq::new(i as nat, |k: int| k == 0));
    }
    let origin: Coords = (0, 0);
    let mut stack: Vec<Coords> = Vec::new();
    stack.push(origin);
    proof {
        assert(origin.1 == 0 && origin.0 == 0);
        assert(g.index_of(origin) == 0) by (nonlinear_arith)
            requires
                origin.1 == 0 && origin.0 == 0,
        ;
        assert(seen_positions(seen@) =~= set![0int]);
        assert(stack@[0] == origin);
        assert forall|s: Set<Coords>| #[trigger] closed_under_passages(g, s) && s.contains(origin) implies s.contains(
            origin,
        ) by {}
        assert forall|c: Coords| g.in_bounds(c) && seen@[g.index_of(c)] implies reachable(g, origin, c) by {
            lemma_index_in_range(g.width, g.height, c);
            if g.index_of(c) == g.index_of(origin) {
                lemma_index_injective(g.width, c, origin);
            }
        }
        assert forall|c: Coords, d: Direction|
            #![trigger seen@[g.index_of(c)], g.carved(c, d)]
            g.in_bounds(c) && seen@[g.index_of(c)] && !stack@.contains(c) && g.carved(c, d) implies match g.neighbor(c, d) {
                Some(m) => seen@[g.index_of(m)],
                None => true,
            } by {
            lemma_index_in_range(g.width, g.height, c);
            if g.index_of(c) == g.index_of(origin) {
                lemma_index_injective(g.width, c, origin);
            }
        }
    }
    while stack.len() > 0
        invariant
            grid.wf(),
            g == grid@,
            n == g.cells.len(),
            n == g.width * g.height,
            n > 0,
            w == g.width,
            g.width > 0,
            seen@.len() == n,
            set_int_range(0, n as int).finite(),
            set_int_range(0, n as int).len() == n,
            seen@[0],
            forall|k: int| 0 <= k < stack@.len() ==> g.in_bounds(#[trigger] stack@[k]) && seen@[g.index_of(stack@[k])],
            forall|c: Coords| g.in_bounds(c) && #[trigger] seen@[g.index_of(c)] ==> reachable(g, origin, c),
            forall|c: Coords, d: Direction|
                #![trigger seen@[g.index_of(c)], g.carved(c, d)]
                g.in_bounds(c) && seen@[g.index_of(c)] && !stack@.contains(c) && g.carved(c, d) ==> match g.neighbor(c, d) {
                    Some(m) => seen@[g.index_of(m)],
                    None => true,
                },
        decreases n - seen_positions(seen@).len() + stack@.len(),
    {
        proof {
            assert(seen_positions(seen@).subset_of(set_int_range(0, n as int)));
            lemma_len_subset(seen_positions(seen@), set_int_range(0, n as int));
        }
        let ghost seen0 = seen@;
        let ghost stack0 = stack@;
        let c = stack.pop().unwrap();
        let ghost base = stack@;
        proof {
            assert(stack0 =~= base.push(c));
        }
        let dirs = random_directions(&mut rng);
        let mut k: usize = 0;
        while k < 4
            invariant
                grid.wf(),
                g == grid@,
                n == g.cells.len(),
                n == g.width * g.height,
                g.width > 0,
                seen@.len() == n,
                seen0.len() == n,
                g.in_bounds(c),
                seen0[g.index_of(c)],
                k <= 4,
                stack@.len() >= base.len(),
                forall|j: int| 0 <= j < base.len() ==> #[trigger] stack@[j] == base[j],
                forall|i: int| 0 <= i < n && #[trigger] seen0[i] ==> seen@[i],
                seen_positions(seen0).finite(),
                seen_positions(seen@).finite(),
                seen_positions(seen@).len() == seen_positions(seen0).len() + stack@.len() - base.len(),
                forall|j: int| 0 <= j < stack@.len() ==> g.in_bounds(#[trigger] stack@[j]) && seen@[g.index_of(stack@[j])],
                forall|c2: Coords| g.in_bounds(c2) && #[trigger] seen@[g.index_of(c2)] ==> reachable(g, origin, c2),
                forall|c2: Coords| g.in_bounds(c2) && #[trigger] seen@[g.index_of(c2)] && !seen0[g.index_of(c2)] ==> stack@.contains(c2),
                forall|j: int| 0 <= j < k ==> g.carved(c, #[trigger] dirs@[j]) ==> match g.neighbor(c, dirs@[j]) {
                    Some(m) => seen@[g.index_of(m)],
                    None => true,
                },
            decreases 4 - k,
        {
            let d = dirs[k];
            let ghost seen_k = seen@;
            proof {
                lemma_index_in_range(g.width, g.height, c);
                assert(seen0[g.index_of(c)]);
                assert(seen@[g.index_of(c)]);
            }
            if let Ok(next) = grid.get_next_cell_coords(c, d) {
                proof {
                    crate::grid::lemma_neighbor_in_bounds(g, c, d);
                    lemma_index_in_range(g.width, g.height, next);
                }
                let idx = grid.get_index(next);
                if grid.is_carved(c, d) && !seen[idx] {
                    let ghost before = seen@;
                    let ghost stack_before = stack@;
                    seen.set(idx, true);
                    stack.push(next);
                    proof {
                        lemma_step_reachable(g, origin, c, d, next);
                        assert(seen_positions(seen@) =~= seen_positions(before).insert(idx as int));
                        assert(!seen_positions(before).contains(idx as int));
                        assert(stack@[stack@.len() - 1] == next);
                        assert forall|c2: Coords| g.in_bounds(c2) && #[trigger] seen@[g.index_of(c2)] implies reachable(g, origin, c2) by {
                            lemma_index_in_range(g.width, g.height, c2);
                            if g.index_of(c2) == idx {
                                lemma_index_injective(g.width, c2, next);
                            }
                        }
                        assert forall|c2: Coords| g.in_bounds(c2) && #[trigger] seen@[g.index_of(c2)] && !seen0[g.index_of(c2)] implies stack@.contains(c2) by {
                            lemma_index_in_range(g.width, g.height, c2);
                            if g.index_of(c2) == idx {
                                lemma_index_injective(g.width, c2, next);
                            } else {
                                assert(stack_before.contains(c2));
                                let j = choose|j: int| 0 <= j < stack_before.len() && stack_before[j] == c2;
                                assert(stack@[j] == c2);
                            }
                        }
                        assert forall|j: int| 0 <= j < stack@.len() implies g.in_bounds(#[trigger] stack@[j]) && seen@[g.index_of(stack@[j])] by {
                            if j < stack_before.len() {
                                assert(stack@[j] == stack_before[j]);
                                lemma_index_in_range(g.width, g.height, stack@[j]);
                            }
                        }
                    }
                }
            }
            proof {
                assert forall|i: int| 0 <= i < n && #[trigger] seen_k[i] implies seen@[i] by {}
                assert forall|j: int| 0 <= j < k + 1 implies g.carved(c, #[trigger] dirs@[j]) ==> match g.neighbor(c, dirs@[j]) {
                    Some(m) => seen@[g.index_of(m)],
                    None => true,
                } by {
                    if let Some(m) = g.neighbor(c, dirs@[j]) {
                        crate::grid::lemma_neighbor_in_bounds(g, c, dirs@[j]);
                        lemma_index_in_range(g.width, g.height, m);
                        if j < k {
                            if g.carved(c, dirs@[j]) {
                                assert(seen_k[g.index_of(m)]);
                            }
                        }
                    }
                }
            }
            k = k + 1;
        }
        proof {
            assert(seen0[0]);
            assert forall|c2: Coords, d: Direction|
                #![trigger seen@[g.index_of(c2)], g.carved(c2, d)]
                g.in_bounds(c2) && seen@[g.index_of(c2)] && !stack@.contains(c2) && g.carved(c2, d) implies match g.neighbor(c2, d) {
                    Some(m) => seen@[g.index_of(m)],
                    None => true,
                } by {
                lemma_index_in_range(g.width, g.height, c2);
                if c2 == c {
                    assert(dirs@.contains(d));
                    let j = choose|j: int| 0 <= j < 4 && dirs@[j] == d;
                    assert(g.carved(c, dirs@[j]));
                } else {
                    assert(seen0[g.index_of(c2)]);
                    assert(!stack0.contains(c2)) by {
                        if stack0.contains(c2) {
                            let j = choose|j: int| 0 <= j < stack0.len() && stack0[j] == c2;
                            assert(j < base.len());
                            assert(stack@[j] == c2);
                        }
                    }
                    if let Some(m) = g.neighbor(c2, d) {
                        crate::grid::lemma_neighbor_in_bounds(g, c2, d);
                        lemma_index_in_range(g.width, g.height, m);
                        assert(seen0[g.index_of(m)]);
                    }
                }
            }
            assert(seen_positions(seen@).subset_of(set_int_range(0, n as int)));
            lemma_len_subset(seen_positions(seen@), set_int_range(0, n as int));
        }
    }
    proof {
        let all = seen_set(g, seen@);
        assert(closed_under_passages(g, all)) by {
            assert forall|c: Coords, d: Direction| #![trigger all.contains(c), g.carved(c, d)]
                all.contains(c) && g.in_bounds(c) && g.carved(c, d) implies match g.neighbor(c, d) {
                    Some(m) => all.contains(m),
                    None => true,
                } by {
                assert(seen@[g.index_of(c)]);
                if let Some(m) = g.neighbor(c, d) {
                    crate::grid::lemma_neighbor_in_bounds(g, c, d);
                }
            }
        }
        assert(all.contains(origin));
    }
    let mut j: usize = 0;
    while j < n
        invariant
            grid.wf(),
            g == grid@,
            w == g.width,
            origin == (0usize, 0usize),
            j <= n,
            n == seen@.len(),
            n == g.width * g.height,
            g.width > 0,
            forall|k: int| 0 <= k < j ==> seen@[k],
            forall|c: Coords| g.in_bounds(c) && #[trigger] seen@[g.index_of(c)] ==> reachable(g, origin, c),
            forall|c: Coords| g.in_bounds(c) && #[trigger] reachable(g, origin, c) ==> seen@[g.index_of(c)],
        decreases n - j,
    {
        if !seen[j] {
            proof {
                let c: Coords = ((j % w) as usize, (j / w) as usize);
                crate::maze::lemma_entries_row_major(g, j as int);
                assert(crate::maze::entries(g)[j as int].0 == c);
                assert(!reachable(g, origin, c));
                assert(origin == (0usize, 0usize));
                assert(g.in_bounds(c) && !reachable(g, (0, 0), c));
            }
            return false;
        }
        j = j + 1;
    }
    proof {
        assert forall|c: Coords| g.in_bounds(c) implies #[trigger] reachable(g, (0, 0), c) by {
            lemma_index_in_range(g.width, g.height, c);
            assert(seen@[g.index_of(c)]);
            assert(origin == (0usize, 0usize));
        }
    }
    true
}

} // verus!
