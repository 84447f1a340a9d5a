//! Connected-component labelling of live cells (8-neighbourhood, no wrap),
//! with the per-component cell count and coordinate sums.

use vstd::prelude::*;

use crate::grid::{lemma_index_bounds, lemma_index_split, valid_dims, Grid, GridModel};

verus! {

/// Size and coordinate sums of one connected group of live cells.
pub struct ComponentInfo {
    pub sum_x: u64,
    pub sum_y: u64,
    pub count: u32,
}

/// Whether index `i` is a live cell of `g`.
pub open spec fn live(g: GridModel, i: int) -> bool {
    0 <= i < g.width * g.height && g.cells[i]
}

/// Two distinct in-range cells touching by an edge or a corner (screen
/// adjacency: the grid does not wrap here).
pub open spec fn adjacent(g: GridModel, i: int, j: int) -> bool {
    let w = g.width as int;
    &&& 0 <= i < g.width * g.height
    &&& 0 <= j < g.width * g.height
    &&& i != j
    &&& -1 <= i % w - j % w <= 1
    &&& -1 <= i / w - j / w <= 1
}

/// A non-empty walk through live cells, each step to an adjacent cell.
pub open spec fn is_path(g: GridModel, p: Seq<int>) -> bool {
    &&& p.len() > 0
    &&& forall|t: int| 0 <= t < p.len() ==> live(g, #[trigger] p[t])
    &&& forall|t: int| 0 <= t < p.len() - 1 ==> adjacent(g, #[trigger] p[t], p[t + 1])
}

/// Live cells `a` and `b` belong to the same connected group.
pub open spec fn connected(g: GridModel, a: int, b: int) -> bool {
    exists|p: Seq<int>| #[trigger] is_path(g, p) && p[0] == a && p.last() == b
}

/// Number of entries of `s` equal to `k`.
pub open spec fn count_label(s: Seq<u32>, k: u32) -> nat
    decreases s.len(),
{
    if s.len() == 0 {
        0
    } else {
        count_label(s.drop_last(), k) + if s.last() == k {
            1nat
        } else {
            0nat
        }
    }
}

/// Sum of `f(i)` over the indices `i` of `s` holding `k`.
pub open spec fn sum_label(s: Seq<u32>, k: u32, f: spec_fn(int) -> nat) -> nat
    decreases s.len(),
{
    if s.len() == 0 {
        0
    } else {
        sum_label(s.drop_last(), k, f) + if s.last() == k {
            f(s.len() - 1)
        } else {
            0nat
        }
    }
}

pub open spec fn column_of(w: nat) -> spec_fn(int) -> nat {
    |i: int| (i % (w as int)) as nat
}

pub open spec fn row_of(w: nat) -> spec_fn(int) -> nat {
    |i: int| (i / (w as int)) as nat
}

/// What `label_components` promises of its result.
pub open spec fn is_component_labeling(g: GridModel, labels: Seq<u32>, infos: Seq<ComponentInfo>) -> bool {
    let n = g.width * g.height;
    &&& labels.len() == n
    &&& forall|i: int| 0 <= i < n ==> (#[trigger] labels[i] == 0 <==> !g.cells[i])
    &&& forall|i: int| 0 <= i < n ==> #[trigger] labels[i] <= infos.len()
    &&& forall|i: int, j: int|
        live(g, i) && live(g, j) ==> (#[trigger] labels[i] == #[trigger] labels[j] <==> connected(
            g,
            i,
            j,
        ))
    &&& forall|i: int|
        0 <= i < n && #[trigger] labels[i] > 0 ==> exists|j: int|
            0 <= j <= i && #[trigger] labels[j] == labels[i] && forall|m: int|
                0 <= m < j ==> #[trigger] labels[m] < labels[i]
    &&& forall|k: int|
        0 <= k < infos.len() ==> {
            &&& #[trigger] infos[k].count == count_label(labels, (k + 1) as u32)
            &&& infos[k].count > 0
            &&& infos[k].sum_x == sum_label(labels, (k + 1) as u32, column_of(g.width))
            &&& infos[k].sum_y == sum_label(labels, (k + 1) as u32, row_of(g.width))
        }
}

// ---------------------------------------------------------------------------
// Lemmas on counts and sums
// ---------------------------------------------------------------------------

pub proof fn lemma_count_le_len(s: Seq<u32>, k: u32)
    ensures
        count_label(s, k) <= s.len(),
    decreases s.len(),
{
    if s.len() > 0 {
        lemma_count_le_len(s.drop_last(), k);
    }
}

pub proof fn lemma_count_update(s: Seq<u32>, i: int, v: u32, k: u32)
    requires
        0 <= i < s.len(),
    ensures
        count_label(s.update(i, v), k) + (if s[i] == k {
            1nat
        } else {
            0nat
        }) == count_label(s, k) + (if v == k {
            1nat
        } else {
            0nat
        }),
    decreases s.len(),
{
    let t = s.update(i, v);
    if i < s.len() - 1 {
        assert(t.drop_last() =~= s.drop_last().update(i, v));
        lemma_count_update(s.drop_last(), i, v, k);
    } else {
        assert(t.drop_last() =~= s.drop_last());
    }
}

pub proof fn lemma_sum_update(s: Seq<u32>, i: int, v: u32, k: u32, f: spec_fn(int) -> nat)
    requires
        0 <= i < s.len(),
    ensures
        sum_label(s.update(i, v), k, f) + (if s[i] == k {
            f(i)
        } else {
            0nat
        }) == sum_label(s, k, f) + (if v == k {
            f(i)
        } else {
            0nat
        }),
    decreases s.len(),
{
    let t = s.update(i, v);
    if i < s.len() - 1 {
        assert(t.drop_last() =~= s.drop_last().update(i, v));
        lemma_sum_update(s.drop_last(), i, v, k, f);
    } else {
        assert(t.drop_last() =~= s.drop_last());
    }
}

pub proof fn lemma_count_zero_absent(s: Seq<u32>, k: u32)
    requires
        forall|i: int| 0 <= i < s.len() ==> s[i] != k,
    ensures
        count_label(s, k) == 0,
        forall|f: spec_fn(int) -> nat| #[trigger] sum_label(s, k, f) == 0,
    decreases s.len(),
{
    if s.len() > 0 {
        lemma_count_zero_absent(s.drop_last(), k);
        assert forall|f: spec_fn(int) -> nat| #[trigger] sum_label(s, k, f) == 0 by {
            assert(sum_label(s.drop_last(), k, f) == 0);
        }
    }
}

// ---------------------------------------------------------------------------
// Lemmas on paths
// ---------------------------------------------------------------------------

pub proof fn lemma_adjacent_symmetric(g: GridModel, i: int, j: int)
    requires
        adjacent(g, i, j),
    ensures
        adjacent(g, j, i),
{
}

pub proof fn lemma_path_single(g: GridModel, a: int)
    requires
        live(g, a),
    ensures
        connected(g, a, a),
{
    let p = seq![a];
    assert(is_path(g, p));
}

pub proof fn lemma_path_extend(g: GridModel, a: int, b: int, c: int)
    requires
        connected(g, a, b),
        adjacent(g, b, c),
        live(g, c),
    ensures
        connected(g, a, c),
{
    let p = choose|p: Seq<int>| #[trigger] is_path(g, p) && p[0] == a && p.last() == b;
    let q = p.push(c);
    assert forall|t: int| 0 <= t < q.len() - 1 implies adjacent(g, #[trigger] q[t], q[t + 1]) by {
        if t < p.len() - 1 {
            assert(q[t] == p[t] && q[t + 1] == p[t + 1]);
        }
    }
    assert forall|t: int| 0 <= t < q.len() implies live(g, #[trigger] q[t]) by {
        if t < p.len() {
            assert(q[t] == p[t]);
        }
    }
    assert(is_path(g, q));
}

pub proof fn lemma_path_reverse(g: GridModel, a: int, b: int)
    requires
        connected(g, a, b),
    ensures
        connected(g, b, a),
{
    let p = choose|p: Seq<int>| #[trigger] is_path(g, p) && p[0] == a && p.last() == b;
    let q = p.reverse();
    assert forall|t: int| 0 <= t < q.len() - 1 implies adjacent(g, #[trigger] q[t], q[t + 1]) by {
        let u = p.len() - 2 - t;
        assert(q[t] == p[u + 1]);
        assert(q[t + 1] == p[u]);
        assert(adjacent(g, p[u], p[u + 1]));
    }
    assert forall|t: int| 0 <= t < q.len() implies live(g, #[trigger] q[t]) by {
        assert(q[t] == p[p.len() - 1 - t]);
    }
    assert(is_path(g, q));
}

pub proof fn lemma_path_join(g: GridModel, a: int, b: int, c: int)
    requires
        connected(g, a, b),
        connected(g, b, c),
    ensures
        connected(g, a, c),
{
    let p = choose|p: Seq<int>| #[trigger] is_path(g, p) && p[0] == a && p.last() == b;
    let r = choose|r: Seq<int>| #[trigger] is_path(g, r) && r[0] == b && r.last() == c;
    let q = p + r.drop_first();
    assert forall|t: int| 0 <= t < q.len() implies live(g, #[trigger] q[t]) by {
        if t >= p.len() {
            assert(q[t] == r[t - p.len() + 1]);
        }
    }
    assert forall|t: int| 0 <= t < q.len() - 1 implies adjacent(g, #[trigger] q[t], q[t + 1]) by {
        if t < p.len() - 1 {
        } else if t == p.len() - 1 {
            assert(q[t] == r[0]);
            assert(q[t + 1] == r[1]);
        } else {
            assert(q[t] == r[t - p.len() + 1]);
            assert(q[t + 1] == r[t - p.len() + 2]);
        }
    }
    if r.len() == 1 {
        assert(q =~= p);
    } else {
        assert(q.last() == r.last());
    }
    assert(is_path(g, q));
}

/// Along any path, a labelling closed under adjacency is constant.
pub proof fn lemma_closed_constant_on_path(g: GridModel, labels: Seq<u32>, p: Seq<int>, t: int)
    requires
        is_path(g, p),
        0 <= t < p.len(),
        labels.len() == g.width * g.height,
        forall|i: int, j: int|
            live(g, i) && #[trigger] adjacent(g, i, j) && live(g, j) ==> labels[j] == labels[i],
    ensures
        labels[p[t]] == labels[p[0]],
    decreases t,
{
    if t > 0 {
        lemma_closed_constant_on_path(g, labels, p, t - 1);
        assert(adjacent(g, p[t - 1], p[t]));
    }
}


// ---------------------------------------------------------------------------
// Invariants of the labelling scan
// ---------------------------------------------------------------------------

/// Facts that hold of the labels after `seeds.len()` groups have been started.
pub open spec fn labels_inv(g: GridModel, labels: Seq<u32>, seeds: Seq<int>) -> bool {
    let n = g.width * g.height;
    let cur = seeds.len();
    &&& labels.len() == n
    &&& forall|i: int| 0 <= i < n ==> #[trigger] labels[i] <= cur
    &&& forall|i: int| 0 <= i < n && #[trigger] labels[i] != 0 ==> g.cells[i]
    &&& forall|k: int|
        0 <= k < cur ==> 0 <= #[trigger] seeds[k] < n && k <= seeds[k] && labels[seeds[k]] == k
            + 1
    &&& forall|k1: int, k2: int| 0 <= k1 < k2 < cur ==> #[trigger] seeds[k1] < #[trigger] seeds[k2]
    &&& forall|i: int|
        0 <= i < n && #[trigger] labels[i] != 0 ==> seeds[labels[i] - 1] <= i && connected(
            g,
            seeds[labels[i] - 1],
            i,
        )
}

/// Every labelled cell's live neighbours carry the same label.
pub open spec fn closed(g: GridModel, labels: Seq<u32>) -> bool {
    forall|i: int, j: int|
        0 <= i < g.width * g.height && labels[i] != 0 && #[trigger] adjacent(g, i, j) && live(g, j)
            ==> labels[j] == labels[i]
}

/// All live cells before `pos` are labelled.
pub open spec fn scanned(g: GridModel, labels: Seq<u32>, pos: int) -> bool {
    forall|i: int| 0 <= i < pos && live(g, i) ==> #[trigger] labels[i] != 0
}

/// The recorded infos describe labels `1..=infos.len()`.
pub open spec fn infos_match(g: GridModel, labels: Seq<u32>, infos: Seq<ComponentInfo>) -> bool {
    forall|k: int|
        0 <= k < infos.len() ==> {
            &&& #[trigger] infos[k].count == count_label(labels, (k + 1) as u32)
            &&& infos[k].count > 0
            &&& infos[k].sum_x == sum_label(labels, (k + 1) as u32, column_of(g.width))
            &&& infos[k].sum_y == sum_label(labels, (k + 1) as u32, row_of(g.width))
        }
}

/// While flooding group `cur`, a labelled cell's live neighbour is labelled
/// alike, or the cell belongs to `cur` and the neighbour waits on the stack.
pub open spec fn flood_closed(g: GridModel, labels: Seq<u32>, cur: int, stack: Seq<usize>) -> bool {
    forall|i: int, j: int|
        0 <= i < g.width * g.height && labels[i] != 0 && #[trigger] adjacent(g, i, j) && live(g, j)
            ==> labels[j] == labels[i] || (labels[i] == cur && stack.contains(j as usize))
}

pub open spec fn stack_inv(g: GridModel, labels: Seq<u32>, cur: int, seed: int, stack: Seq<usize>) -> bool {
    forall|t: int|
        0 <= t < stack.len() ==> {
            &&& live(g, #[trigger] stack[t] as int)
            &&& (labels[stack[t] as int] != 0 ==> labels[stack[t] as int] == cur)
            &&& connected(g, seed, stack[t] as int)
        }
}

/// Pushes cell `(nx, ny)` when it is on the grid, live and unlabelled.
fn push_if_unlabeled(grid: &Grid, labels: &Vec<u32>, stack: &mut Vec<usize>, nx: i32, ny: i32)
    requires
        labels@.len() == grid@.width * grid@.height,
        valid_dims(grid@.width as int, grid@.height as int),
        grid@.cells.len() == grid@.width * grid@.height,
    ensures
        ({
            let w = grid@.width as int;
            let h = grid@.height as int;
            let j = ny * w + nx;
            if 0 <= nx < w && 0 <= ny < h && labels@[j] == 0 && grid@.cells[j] {
                final(stack)@ == old(stack)@.push(j as usize)
            } else {
                final(stack)@ == old(stack)@
            }
        }),
{
    let w = grid.width();
    let h = grid.height();
    if nx >= 0 && nx < w as i32 && ny >= 0 && ny < h as i32 {
        proof {
            lemma_index_bounds(nx as int, ny as int, w as int, h as int);
        }
        let ni = ny as usize * w + nx as usize;
        if labels[ni] == 0 && grid.alive(nx as usize, ny as usize) {
            stack.push(ni);
        }
    }
}

pub proof fn lemma_count_pos(s: Seq<u32>, i: int, k: u32)
    requires
        0 <= i < s.len(),
        s[i] == k,
    ensures
        count_label(s, k) > 0,
    decreases s.len(),
{
    if i < s.len() - 1 {
        lemma_count_pos(s.drop_last(), i, k);
    }
}

/// The neighbour of `ci` at offset `(dx, dy)`, when it is on the grid.
pub proof fn lemma_adjacent_coords(g: GridModel, ci: int, j: int)
    requires
        adjacent(g, ci, j),
        g.width > 0,
    ensures
        j == (j / (g.width as int)) * (g.width as int) + j % (g.width as int),
        0 <= j % (g.width as int) < g.width,
        0 <= j / (g.width as int) < g.height,
        0 <= ci % (g.width as int) < g.width,
        0 <= ci / (g.width as int) < g.height,
        ci == (ci / (g.width as int)) * (g.width as int) + ci % (g.width as int),
{
    lemma_index_split(j, g.width as int, g.height as int);
    lemma_index_split(ci, g.width as int, g.height as int);
}

/// Offset code `(dy + 1) * 3 + (dx + 1)` of cell `j` seen from cell `ci`.
pub open spec fn offset_code(w: int, ci: int, j: int) -> int {
    (j / w - ci / w + 1) * 3 + (j % w - ci % w + 1)
}

/// Pushes every on-grid, live, unlabelled neighbour of `ci`, scanning the
/// offsets row by row.
fn push_neighbors(grid: &Grid, labels: &Vec<u32>, stack: &mut Vec<usize>, ci: usize)
    requires
        labels@.len() == grid@.width * grid@.height,
        valid_dims(grid@.width as int, grid@.height as int),
        grid@.cells.len() == grid@.width * grid@.height,
        ci < grid@.width * grid@.height,
    ensures
        old(stack)@.len() <= final(stack)@.len() <= old(stack)@.len() + 8,
        forall|t: int| 0 <= t < old(stack)@.len() ==> #[trigger] final(stack)@[t] == old(stack)@[t],
        forall|t: int|
            old(stack)@.len() <= t < final(stack)@.len() ==> {
                &&& live(grid@, #[trigger] final(stack)@[t] as int)
                &&& labels@[final(stack)@[t] as int] == 0
                &&& adjacent(grid@, ci as int, final(stack)@[t] as int)
            },
        forall|j: int|
            adjacent(grid@, ci as int, j) && live(grid@, j) && labels@[j] == 0
                ==> final(stack)@.contains(#[trigger] (j as usize)),
{
    let ghost g = grid@;
    let w = grid.width();
    let h = grid.height();
    proof {
        lemma_index_split(ci as int, w as int, h as int);
    }
    let cx = ci % w;
    let cy = ci / w;
    let ghost s0 = stack@;
    let mut k: usize = 0;
    while k < 9
        invariant
            g == grid@,
            w == g.width,
            h == g.height,
            valid_dims(w as int, h as int),
            g.cells.len() == w * h,
            labels@.len() == w * h,
            ci < w * h,
            cx == (ci as int) % (w as int),
            cy == (ci as int) / (w as int),
            0 <= cx < w,
            0 <= cy < h,
            k <= 9,
            s0.len() <= stack@.len(),
            stack@.len() + (if k > 4 { 1int } else { 0int }) <= s0.len() + k,
            forall|t: int| 0 <= t < s0.len() ==> #[trigger] stack@[t] == s0[t],
            forall|t: int|
                s0.len() <= t < stack@.len() ==> {
                    &&& live(g, #[trigger] stack@[t] as int)
                    &&& labels@[stack@[t] as int] == 0
                    &&& adjacent(g, ci as int, stack@[t] as int)
                },
            forall|j: int|
                adjacent(g, ci as int, j) && live(g, j) && labels@[j] == 0 && offset_code(
                    w as int,
                    ci as int,
                    j,
                ) < k ==> stack@.contains(#[trigger] (j as usize)),
        decreases 9 - k,
    {
        let ghost before = stack@;
        let dx = (k % 3) as i32 - 1;
        let dy = (k / 3) as i32 - 1;
        if k != 4 {
            push_if_unlabeled(grid, labels, stack, cx as i32 + dx, cy as i32 + dy);
        }
        proof {
            let nx = cx + dx;
            let ny = cy + dy;
            assert forall|t: int| 0 <= t < s0.len() implies #[trigger] stack@[t] == s0[t] by {
                assert(before[t] == s0[t]);
                if stack@.len() > before.len() {
                    assert(stack@[t] == before[t]);
                }
            }
            if stack@.len() > before.len() {
                let j = ny * (w as int) + nx;
                lemma_index_bounds(nx, ny, w as int, h as int);
                assert(stack@[before.len() as int] == j as usize);
                assert(adjacent(g, ci as int, j));
            }
            assert forall|j: int|
                adjacent(g, ci as int, j) && live(g, j) && labels@[j] == 0 && offset_code(
                    w as int,
                    ci as int,
                    j,
                ) < k + 1 implies stack@.contains(#[trigger] (j as usize)) by {
                lemma_adjacent_coords(g, ci as int, j);
                if offset_code(w as int, ci as int, j) < k {
                    let t = choose|t: int| 0 <= t < before.len() && before[t] == j as usize;
                    assert(stack@[t] == j as usize);
                } else {
                    let jx = j % (w as int);
                    let jy = j / (w as int);
                    assert(jx == nx && jy == ny);
                    assert(k != 4);
                    lemma_index_bounds(nx, ny, w as int, h as int);
                    assert(stack@[before.len() as int] == j as usize);
                }
            }
        }
        k = k + 1;
    }
    proof {
        assert forall|j: int|
            adjacent(g, ci as int, j) && live(g, j) && labels@[j] == 0 implies stack@.contains(
            #[trigger] (j as usize),
        ) by {
            lemma_adjacent_coords(g, ci as int, j);
            assert(offset_code(w as int, ci as int, j) < 9);
        }
    }
}

/// Everything the flood of group `cur` (started at `seed`) keeps true.
#[verifier::opaque]
spec fn flood_state(
    g: GridModel,
    orig: Seq<u32>,
    labels: Seq<u32>,
    stack: Seq<usize>,
    seeds2: Seq<int>,
    seed: int,
    cur: int,
) -> bool {
    let n = g.width * g.height;
    &&& n <= usize::MAX
    &&& labels.len() == n
    &&& orig.len() == n
    &&& seeds2.len() == cur
    &&& 1 <= cur
    &&& seeds2[cur - 1] == seed
    &&& 0 <= seed < n
    &&& forall|i: int| 0 <= i < n ==> #[trigger] labels[i] <= cur
    &&& forall|i: int| 0 <= i < n && #[trigger] labels[i] != 0 ==> g.cells[i]
    &&& forall|i: int| 0 <= i < n && orig[i] != 0 ==> #[trigger] labels[i] == orig[i]
    &&& forall|i: int|
        0 <= i < n && #[trigger] labels[i] != orig[i] ==> orig[i] == 0 && labels[i] == cur
    &&& forall|i: int|
        0 <= i < n && #[trigger] labels[i] != 0 ==> seeds2[labels[i] - 1] <= i && connected(
            g,
            seeds2[labels[i] - 1],
            i,
        )
    &&& (labels[seed] == cur || stack.contains(seed as usize))
    &&& flood_closed(g, labels, cur, stack)
    &&& stack_inv(g, labels, cur, seed, stack)
    &&& scanned(g, labels, seed)
}

proof fn lemma_flood_start(
    g: GridModel,
    labels: Seq<u32>,
    seeds: Seq<int>,
    seed: int,
    stack: Seq<usize>,
)
    requires
        labels_inv(g, labels, seeds),
        0 <= seed < g.width * g.height,
        live(g, seed),
        labels[seed] == 0,
        closed(g, labels),
        scanned(g, labels, seed),
        g.width * g.height <= usize::MAX,
        stack == seq![seed as usize],
    ensures
        flood_state(g, labels, labels, stack, seeds.push(seed), seed, seeds.len() + 1int),
{
    reveal(flood_state);
    let seeds2 = seeds.push(seed);
    let cur = seeds.len() + 1;
    lemma_path_single(g, seed);
    assert(stack[0] as int == seed);
    assert(stack.contains(seed as usize));
    assert forall|t: int| 0 <= t < stack.len() implies #[trigger] stack[t] as int == seed by {}
    assert forall|i: int|
        0 <= i < g.width * g.height && #[trigger] labels[i] != 0 implies seeds2[labels[i] - 1]
        <= i && connected(g, seeds2[labels[i] - 1], i) by {
        assert(seeds2[labels[i] - 1] == seeds[labels[i] - 1]);
    }
}

proof fn lemma_flood_skip(
    g: GridModel,
    orig: Seq<u32>,
    labels: Seq<u32>,
    stack: Seq<usize>,
    seeds2: Seq<int>,
    seed: int,
    cur: int,
)
    requires
        flood_state(g, orig, labels, stack, seeds2, seed, cur),
        stack.len() > 0,
        labels[stack.last() as int] != 0,
    ensures
        flood_state(g, orig, labels, stack.drop_last(), seeds2, seed, cur),
{
    reveal(flood_state);
    let ci = stack.last();
    let s1 = stack.drop_last();
    assert(stack[stack.len() - 1] == ci);
    assert(labels[ci as int] == cur);
    assert forall|a: usize| stack.contains(a) && a != ci implies s1.contains(a) by {
        let t = choose|t: int| 0 <= t < stack.len() && stack[t] == a;
        assert(s1[t] == a);
    }
    assert forall|t: int| 0 <= t < s1.len() implies #[trigger] s1[t] == stack[t] by {}
    assert forall|i: int, j: int|
        0 <= i < g.width * g.height && labels[i] != 0 && #[trigger] adjacent(g, i, j) && live(
            g,
            j,
        ) implies labels[j] == labels[i] || (labels[i] == cur && s1.contains(j as usize)) by {
        if labels[j] != labels[i] {
            assert(labels[i] == cur && stack.contains(j as usize));
            if j as usize == ci {
                assert(labels[j] == cur);
            } else {
                assert(s1.contains(j as usize));
            }
        }
    }
    assert(labels[seed] == cur || s1.contains(seed as usize)) by {
        if labels[seed] != cur {
            assert(stack.contains(seed as usize));
            if seed as usize != ci {
                assert(s1.contains(seed as usize));
            }
        }
    }
    assert(stack_inv(g, labels, cur, seed, s1)) by {
        assert forall|t: int| 0 <= t < s1.len() implies live(g, #[trigger] s1[t] as int) && (
        labels[s1[t] as int] != 0 ==> labels[s1[t] as int] == cur) && connected(
            g,
            seed,
            s1[t] as int,
        ) by {
            assert(s1[t] == stack[t]);
        }
    }
}

proof fn lemma_visit_closed(
    g: GridModel,
    labels0: Seq<u32>,
    stack0: Seq<usize>,
    stack2: Seq<usize>,
    ci: int,
    cur: int,
)
    requires
        flood_closed(g, labels0, cur, stack0),
        labels0.len() == g.width * g.height,
        g.width * g.height <= usize::MAX,
        1 <= cur <= u32::MAX,
        0 <= ci < g.width * g.height,
        live(g, ci),
        labels0[ci] == 0,
        forall|a: usize| stack0.contains(a) && a != ci as usize ==> stack2.contains(a),
        forall|j: int|
            adjacent(g, ci, j) && live(g, j) && labels0.update(ci, cur as u32)[j] == 0
                ==> stack2.contains(#[trigger] (j as usize)),
    ensures
        flood_closed(g, labels0.update(ci, cur as u32), cur, stack2),
{
    let labels1 = labels0.update(ci, cur as u32);
    let n = g.width * g.height;
    assert forall|i: int, j: int|
        0 <= i < n && labels1[i] != 0 && #[trigger] adjacent(g, i, j) && live(g, j) implies labels1[j]
        == labels1[i] || (labels1[i] == cur && stack2.contains(j as usize)) by {
        if i == ci {
            if labels0[j] != 0 {
                lemma_adjacent_symmetric(g, i, j);
                assert(adjacent(g, j, i));
                assert(labels0[j] == labels0[i] || (labels0[j] == cur && stack0.contains(
                    i as usize,
                )));
                assert(j != ci);
                assert(labels1[j] == labels0[j]);
            } else {
                if j != ci {
                    assert(labels1[j] == 0);
                    assert(stack2.contains(j as usize));
                }
            }
        } else {
            assert(labels1[i] == labels0[i]);
            assert(labels0[j] == labels0[i] || (labels0[i] == cur && stack0.contains(j as usize)));
            if j != ci {
                assert(labels1[j] == labels0[j]);
            }
        }
    }
}

proof fn lemma_flood_visit(
    g: GridModel,
    orig: Seq<u32>,
    labels0: Seq<u32>,
    stack0: Seq<usize>,
    stack2: Seq<usize>,
    seeds2: Seq<int>,
    seed: int,
    cur: int,
)
    requires
        flood_state(g, orig, labels0, stack0, seeds2, seed, cur),
        cur <= u32::MAX,
        stack0.len() > 0,
        labels0[stack0.last() as int] == 0,
        stack0.len() - 1 <= stack2.len(),
        forall|t: int| 0 <= t < stack0.len() - 1 ==> #[trigger] stack2[t] == stack0[t],
        forall|t: int|
            stack0.len() - 1 <= t < stack2.len() ==> {
                &&& live(g, #[trigger] stack2[t] as int)
                &&& labels0.update(stack0.last() as int, cur as u32)[stack2[t] as int] == 0
                &&& adjacent(g, stack0.last() as int, stack2[t] as int)
            },
        forall|j: int|
            adjacent(g, stack0.last() as int, j) && live(g, j) && labels0.update(
                stack0.last() as int,
                cur as u32,
            )[j] == 0 ==> stack2.contains(#[trigger] (j as usize)),
    ensures
        flood_state(
            g,
            orig,
            labels0.update(stack0.last() as int, cur as u32),
            stack2,
            seeds2,
            seed,
            cur,
        ),
{
    reveal(flood_state);
    let ci = stack0.last() as int;
    let labels1 = labels0.update(ci, cur as u32);
    let n = g.width * g.height;
    assert(stack0[stack0.len() - 1] == ci as usize);
    assert(live(g, ci));
    assert(connected(g, seed, ci));
    assert forall|a: usize| stack0.contains(a) && a != ci as usize implies stack2.contains(a) by {
        let t = choose|t: int| 0 <= t < stack0.len() && stack0[t] == a;
        assert(t < stack0.len() - 1);
        assert(stack2[t] == a);
    }
    // the popped cell lies at or after the seed
    if ci < seed {
        assert(labels0[ci] != 0);
    }
    assert forall|i: int|
        0 <= i < n && #[trigger] labels1[i] != 0 implies seeds2[labels1[i] - 1] <= i && connected(
        g,
        seeds2[labels1[i] - 1],
        i,
    ) by {
        if i != ci {
            assert(labels1[i] == labels0[i]);
        }
    }
    assert forall|i: int|
        0 <= i < n && #[trigger] labels1[i] != orig[i] implies orig[i] == 0 && labels1[i] == cur by {
        if i != ci {
            assert(labels1[i] == labels0[i]);
        } else {
            if orig[ci] != 0 {
                assert(labels0[ci] == orig[ci]);
            }
        }
    }
    assert forall|i: int| 0 <= i < n && orig[i] != 0 implies #[trigger] labels1[i] == orig[i] by {
        if i == ci {
            assert(labels0[ci] == orig[ci]);
        }
    }
    assert(labels1[seed] == cur || stack2.contains(seed as usize)) by {
        if ci != seed {
            assert(labels1[seed] == labels0[seed]);
        }
    }
    lemma_visit_closed(g, labels0, stack0, stack2, ci, cur);
    assert forall|t: int| 0 <= t < stack2.len() implies {
        &&& live(g, #[trigger] stack2[t] as int)
        &&& (labels1[stack2[t] as int] != 0 ==> labels1[stack2[t] as int] == cur)
        &&& connected(g, seed, stack2[t] as int)
    } by {
        if t < stack0.len() - 1 {
            assert(stack2[t] == stack0[t]);
            if stack2[t] as int != ci {
                assert(labels1[stack2[t] as int] == labels0[stack2[t] as int]);
            }
        } else {
            lemma_path_extend(g, seed, ci, stack2[t] as int);
        }
    }
    assert forall|i: int| 0 <= i < seed && live(g, i) implies #[trigger] labels1[i] != 0 by {
        if i != ci {
            assert(labels1[i] == labels0[i]);
        }
    }
}

proof fn lemma_flood_finish(
    g: GridModel,
    orig: Seq<u32>,
    labels: Seq<u32>,
    stack: Seq<usize>,
    seeds: Seq<int>,
    seed: int,
)
    requires
        flood_state(g, orig, labels, stack, seeds.push(seed), seed, seeds.len() + 1int),
        stack.len() == 0,
        labels_inv(g, orig, seeds),
        seeds.len() <= seed,
        forall|k: int| 0 <= k < seeds.len() ==> #[trigger] seeds[k] < seed,
    ensures
        labels_inv(g, labels, seeds.push(seed)),
        closed(g, labels),
        scanned(g, labels, seed + 1),
        labels[seed] == seeds.len() + 1int,
{
    reveal(flood_state);
    let seeds2 = seeds.push(seed);
    let cur = seeds.len() + 1;
    assert(!stack.contains(seed as usize));
    assert forall|k: int|
        0 <= k < cur implies 0 <= #[trigger] seeds2[k] < g.width * g.height && k <= seeds2[k]
        && labels[seeds2[k]] == k + 1 by {
        if k < seeds.len() {
            assert(seeds2[k] == seeds[k]);
            assert(orig[seeds[k]] == k + 1);
        }
    }
    assert forall|k1: int, k2: int| 0 <= k1 < k2 < cur implies #[trigger] seeds2[k1]
        < #[trigger] seeds2[k2] by {
        if k2 < seeds.len() {
            assert(seeds2[k1] == seeds[k1] && seeds2[k2] == seeds[k2]);
        } else {
            assert(seeds2[k1] == seeds[k1]);
        }
    }
    assert forall|i: int, j: int|
        0 <= i < g.width * g.height && labels[i] != 0 && #[trigger] adjacent(g, i, j) && live(
            g,
            j,
        ) implies labels[j] == labels[i] by {
        assert(!stack.contains(j as usize));
    }
}

proof fn lemma_infos_update(g: GridModel, labels0: Seq<u32>, ci: int, cur: u32, infos: Seq<ComponentInfo>)
    requires
        infos_match(g, labels0, infos),
        0 <= ci < labels0.len(),
        labels0[ci] == 0,
        infos.len() + 1 == cur,
    ensures
        infos_match(g, labels0.update(ci, cur), infos),
{
    assert forall|k: int| 0 <= k < infos.len() implies {
        &&& #[trigger] infos[k].count == count_label(labels0.update(ci, cur), (k + 1) as u32)
        &&& infos[k].count > 0
        &&& infos[k].sum_x == sum_label(labels0.update(ci, cur), (k + 1) as u32, column_of(g.width))
        &&& infos[k].sum_y == sum_label(labels0.update(ci, cur), (k + 1) as u32, row_of(g.width))
    } by {
        lemma_count_update(labels0, ci, cur, (k + 1) as u32);
        lemma_sum_update(labels0, ci, cur, (k + 1) as u32, column_of(g.width));
        lemma_sum_update(labels0, ci, cur, (k + 1) as u32, row_of(g.width));
    }
}

/// Labels every live cell reachable from `seed` with `cur`, returning the
/// group's size and coordinate sums.
fn flood(
    grid: &Grid,
    labels: &mut Vec<u32>,
    seed: usize,
    cur: u32,
    Ghost(seeds): Ghost<Seq<int>>,
    Ghost(infos): Ghost<Seq<ComponentInfo>>,
) -> (info: ComponentInfo)
    requires
        valid_dims(grid@.width as int, grid@.height as int),
        grid@.cells.len() == grid@.width * grid@.height,
        grid@.width * grid@.height <= u32::MAX,
        labels_inv(grid@, old(labels)@, seeds),
        cur == seeds.len() + 1,
        seed < grid@.width * grid@.height,
        live(grid@, seed as int),
        old(labels)@[seed as int] == 0,
        seeds.len() <= seed,
        forall|k: int| 0 <= k < seeds.len() ==> #[trigger] seeds[k] < seed,
        closed(grid@, old(labels)@),
        scanned(grid@, old(labels)@, seed as int),
        infos_match(grid@, old(labels)@, infos),
        infos.len() == seeds.len(),
    ensures
        labels_inv(grid@, final(labels)@, seeds.push(seed as int)),
        closed(grid@, final(labels)@),
        scanned(grid@, final(labels)@, seed + 1),
        infos_match(grid@, final(labels)@, infos.push(info)),
{
    let ghost g = grid@;
    let w = grid.width();
    let h = grid.height();
    let ghost n = w * h;
    let ghost seeds2 = seeds.push(seed as int);
    let ghost orig = labels@;
    let mut stack: Vec<usize> = Vec::new();
    stack.push(seed);
    let mut info = ComponentInfo { sum_x: 0, sum_y: 0, count: 0 };
    proof {
        lemma_count_zero_absent(labels@, cur);
        assert(stack@ =~= seq![seed]);
        lemma_flood_start(g, labels@, seeds, seed as int, stack@);
    }
    while stack.len() > 0
        invariant
            g == grid@,
            w == g.width,
            h == g.height,
            n == w * h,
            valid_dims(w as int, h as int),
            g.cells.len() == n,
            labels@.len() == n,
            n <= u32::MAX,
            seeds2 == seeds.push(seed as int),
            cur == seeds.len() + 1,
            infos.len() == seeds.len(),
            flood_state(g, orig, labels@, stack@, seeds2, seed as int, cur as int),
            infos_match(g, labels@, infos),
            info.count == count_label(labels@, cur),
            info.sum_x == sum_label(labels@, cur, column_of(g.width)),
            info.sum_y == sum_label(labels@, cur, row_of(g.width)),
            info.sum_x <= info.count * w,
            info.sum_y <= info.count * h,
        decreases 9 * count_label(labels@, 0) + stack@.len(),
    {
        let ghost stack0 = stack@;
        let ghost labels0 = labels@;
        let ci = stack.pop().unwrap();
        proof {
            assert(stack0[stack0.len() - 1] == ci);
            assert(stack@ =~= stack0.drop_last());
            reveal(flood_state);
            assert(stack0.contains(ci));
            assert(live(g, ci as int));
            lemma_index_split(ci as int, w as int, h as int);
        }
        let cx = ci % w;
        let cy = ci / w;
        if labels[ci] != 0 || !grid.alive(cx, cy) {
            proof {
                lemma_index_bounds(cx as int, cy as int, w as int, h as int);
                lemma_flood_skip(g, orig, labels0, stack0, seeds2, seed as int, cur as int);
            }
            continue;
        }
        labels.set(ci, cur);
        proof {
            lemma_count_update(labels0, ci as int, cur, cur);
            lemma_count_update(labels0, ci as int, cur, 0);
            lemma_sum_update(labels0, ci as int, cur, cur, column_of(g.width));
            lemma_sum_update(labels0, ci as int, cur, cur, row_of(g.width));
            lemma_count_le_len(labels@, cur);
            lemma_infos_update(g, labels0, ci as int, cur, infos);
            assert(info.sum_x + cx <= (info.count + 1) * w) by (nonlinear_arith)
                requires
                    info.sum_x <= info.count * w,
                    cx < w,
            ;
            assert(info.sum_y + cy <= (info.count + 1) * h) by (nonlinear_arith)
                requires
                    info.sum_y <= info.count * h,
                    cy < h,
            ;
            assert((info.count + 1) * w <= u32::MAX * i32::MAX) by (nonlinear_arith)
                requires
                    info.count + 1 <= n,
                    n <= u32::MAX,
                    w <= i32::MAX,
            ;
            assert((info.count + 1) * h <= u32::MAX * i32::MAX) by (nonlinear_arith)
                requires
                    info.count + 1 <= n,
                    n <= u32::MAX,
                    h <= i32::MAX,
            ;
        }
        info.sum_x = info.sum_x + cx as u64;
        info.sum_y = info.sum_y + cy as u64;
        info.count = info.count + 1;
        let ghost stack1 = stack@;
        push_neighbors(grid, labels, &mut stack, ci);
        proof {
            lemma_flood_visit(g, orig, labels0, stack0, stack@, seeds2, seed as int, cur as int);
        }
    }
    proof {
        lemma_flood_finish(g, orig, labels@, stack@, seeds, seed as int);
        lemma_count_pos(labels@, seed as int, cur);
    }
    info
}

proof fn lemma_labeling_complete(
    g: GridModel,
    labels: Seq<u32>,
    seeds: Seq<int>,
    infos: Seq<ComponentInfo>,
)
    requires
        labels_inv(g, labels, seeds),
        closed(g, labels),
        scanned(g, labels, (g.width * g.height) as int),
        infos_match(g, labels, infos),
        infos.len() == seeds.len(),
    ensures
        is_component_labeling(g, labels, infos),
{
    let n = g.width * g.height;
    assert forall|i: int, j: int|
        live(g, i) && #[trigger] adjacent(g, i, j) && live(g, j) implies labels[j] == labels[i] by {
        assert(labels[i] != 0);
    }
    assert forall|i: int, j: int| live(g, i) && live(g, j) implies (#[trigger] labels[i]
        == #[trigger] labels[j] <==> connected(g, i, j)) by {
        assert(labels[i] != 0 && labels[j] != 0);
        if connected(g, i, j) {
            let p = choose|p: Seq<int>| #[trigger] is_path(g, p) && p[0] == i && p.last() == j;
            lemma_closed_constant_on_path(g, labels, p, p.len() - 1);
        }
        if labels[i] == labels[j] {
            let s = seeds[labels[i] - 1];
            lemma_path_reverse(g, s, i);
            lemma_path_join(g, i, s, j);
        }
    }
    assert forall|i: int| 0 <= i < n && #[trigger] labels[i] > 0 implies exists|j: int|
        0 <= j <= i && #[trigger] labels[j] == labels[i] && forall|m: int|
            0 <= m < j ==> #[trigger] labels[m] < labels[i] by {
        let k = labels[i] as int;
        let j = seeds[k - 1];
        assert(labels[j] == k);
        assert forall|m: int| 0 <= m < j implies #[trigger] labels[m] < labels[i] by {
            if labels[m] >= labels[i] {
                let l = labels[m] as int;
                assert(seeds[l - 1] <= m);
                if l - 1 > k - 1 {
                    assert(seeds[k - 1] < seeds[l - 1]);
                }
            }
        }
    }
    assert forall|i: int| 0 <= i < n implies (#[trigger] labels[i] == 0 <==> !g.cells[i]) by {
        if g.cells[i] {
            assert(live(g, i));
        }
    }
}

/// Labels the connected groups of live cells (8-neighbourhood, no wrap):
/// dead cells get 0, each group gets the next number in scan order, and
/// `infos[k - 1]` holds the size and coordinate sums of group `k`.
pub fn label_components(grid: &Grid) -> (r: (Vec<u32>, Vec<ComponentInfo>))
    requires
        grid@.width * grid@.height <= u32::MAX,
    ensures
        is_component_labeling(grid@, r.0@, r.1@),
{
    let ghost g = grid@;
    let w = grid.width();
    let h = grid.height();
    let n = w * h;
    let mut labels: Vec<u32> = Vec::new();
    while labels.len() < n
        invariant
            labels@.len() <= n,
            forall|i: int| 0 <= i < labels@.len() ==> #[trigger] labels@[i] == 0,
        decreases n - labels@.len(),
    {
        labels.push(0);
    }
    let mut infos: Vec<ComponentInfo> = Vec::new();
    let mut current_label: u32 = 0;
    let ghost mut seeds: Seq<int> = Seq::empty();
    proof {
        assert forall|i: int| 0 <= i < n implies #[trigger] labels@[i] <= 0 by {}
    }
    let mut y: usize = 0;
    while y < h
        invariant
            g == grid@,
            w == g.width,
            h == g.height,
            n == w * h,
            valid_dims(w as int, h as int),
            g.cells.len() == n,
            n <= u32::MAX,
            y <= h,
            labels_inv(g, labels@, seeds),
            seeds.len() == current_label,
            closed(g, labels@),
            scanned(g, labels@, y * w),
            infos@.len() == seeds.len(),
            infos_match(g, labels@, infos@),
            forall|k: int| 0 <= k < seeds.len() ==> #[trigger] seeds[k] < y * w,
        decreases h - y,
    {
        let mut x: usize = 0;
        while x < w
            invariant
                g == grid@,
                w == g.width,
                h == g.height,
                n == w * h,
                valid_dims(w as int, h as int),
                g.cells.len() == n,
                n <= u32::MAX,
                y < h,
                x <= w,
                labels_inv(g, labels@, seeds),
                seeds.len() == current_label,
                closed(g, labels@),
                scanned(g, labels@, y * w + x),
                infos@.len() == seeds.len(),
                infos_match(g, labels@, infos@),
                forall|k: int| 0 <= k < seeds.len() ==> #[trigger] seeds[k] < y * w + x,
            decreases w - x,
        {
            proof {
                lemma_index_bounds(x as int, y as int, w as int, h as int);
            }
            let idx = y * w + x;
            if !grid.alive(x, y) || labels[idx] != 0 {
                x = x + 1;
                continue;
            }
            proof {
                if seeds.len() > 0 {
                    assert(seeds[seeds.len() - 1] >= seeds.len() - 1);
                }
            }
            current_label = current_label + 1;
            let info = flood(grid, &mut labels, idx, current_label, Ghost(seeds), Ghost(infos@));
            infos.push(info);
            proof {
                seeds = seeds.push(idx as int);
            }
            x = x + 1;
        }
        proof {
            assert((y + 1) * w == y * w + w) by (nonlinear_arith);
        }
        y = y + 1;
    }
    proof {
        assert(y * w == n) by (nonlinear_arith)
            requires
                y == h,
                n == w * h,
        ;
        lemma_labeling_complete(g, labels@, seeds, infos@);
    }
    (labels, infos)
}

} // verus!
