//! The traversal-order generator: a randomized multi-source flood fill over
//! an 8-connected pixel grid. It produces a visitation ordering that lists
//! every grid pixel exactly once and a parent map that forms a forest rooted
//! at the starting points, with every parent strictly earlier in the
//! ordering.

use vstd::prelude::*;
use crate::rng::{random_below, random_u32, shuffle_coords};

verus! {

/// A coordinate lies on the `width x height` grid.
pub open spec fn in_grid(width: int, height: int, p: (usize, usize)) -> bool {
    p.0 < width && p.1 < height
}

/// The flat index of a grid coordinate: column-major, `x * height + y`.
pub open spec fn pidx(height: int, p: (usize, usize)) -> int {
    p.0 * height + p.1
}

/// Two distinct coordinates are 8-connected: each axis differs by at most
/// one.
pub open spec fn is_neighbor(a: (usize, usize), b: (usize, usize)) -> bool {
    a != b && -1 <= a.0 - b.0 <= 1 && -1 <= a.1 - b.1 <= 1
}

/// Chebyshev distance, the number of 8-connected steps between two
/// coordinates.
pub open spec fn cheb(a: (usize, usize), b: (usize, usize)) -> int {
    let dx = if a.0 >= b.0 { a.0 - b.0 } else { b.0 - a.0 };
    let dy = if a.1 >= b.1 { a.1 - b.1 } else { b.1 - a.1 };
    if dx >= dy { dx } else { dy }
}

/// Distinct in-grid coordinates have distinct flat indices.
proof fn lemma_pidx_injective(w: int, h: int, a: (usize, usize), b: (usize, usize))
    requires
        0 < w,
        0 < h,
        in_grid(w, h, a),
        in_grid(w, h, b),
        pidx(h, a) == pidx(h, b),
    ensures
        a == b,
{
    vstd::arithmetic::div_mod::lemma_fundamental_div_mod_converse(
        pidx(h, a),
        h,
        a.0 as int,
        a.1 as int,
    );
    vstd::arithmetic::div_mod::lemma_fundamental_div_mod_converse(
        pidx(h, b),
        h,
        b.0 as int,
        b.1 as int,
    );
}

/// A flat index stays below the pixel count.
proof fn lemma_pidx_bound(w: int, h: int, p: (usize, usize))
    requires
        0 < w,
        0 < h,
        in_grid(w, h, p),
    ensures
        0 <= pidx(h, p) < w * h,
{
    assert(p.0 * h + p.1 < w * h) by (nonlinear_arith)
        requires
            0 < h,
            p.0 < w,
            p.1 < h,
    ;
    assert(0 <= p.0 * h) by (nonlinear_arith)
        requires
            0 < h,
    ;
}

/// Every grid coordinate, listed once: index `i` holds `(i / h, i % h)`.
spec fn grid_enum(w: int, h: int) -> Seq<(usize, usize)> {
    Seq::new((w * h) as nat, |i: int| ((i / h) as usize, (i % h) as usize))
}

/// The enumeration lists exactly the grid's coordinates, without repeats.
proof fn lemma_grid_enum(w: int, h: int)
    requires
        0 < w,
        0 < h,
        w * h <= usize::MAX,
    ensures
        grid_enum(w, h).no_duplicates(),
        forall|p: (usize, usize)| in_grid(w, h, p) <==> grid_enum(w, h).contains(p),
{
    let g = grid_enum(w, h);
    assert(0 <= 0 * h) by (nonlinear_arith);
    assert forall|i: int| 0 <= i < g.len() implies in_grid(w, h, #[trigger] g[i]) && pidx(
        h,
        g[i],
    ) == i by {
        vstd::arithmetic::div_mod::lemma_fundamental_div_mod(i, h);
        vstd::arithmetic::div_mod::lemma_mod_bound(i, h);
        assert(i / h < w) by (nonlinear_arith)
            requires
                0 < h,
                i == h * (i / h) + (i % h),
                0 <= i % h < h,
                i < w * h,
        ;
        assert(0 <= i / h) by (nonlinear_arith)
            requires
                0 < h,
                i == h * (i / h) + (i % h),
                0 <= i % h < h,
                0 <= i,
        ;
        assert(pidx(h, g[i]) == (i / h) * h + (i % h));
        assert((i / h) * h == h * (i / h)) by (nonlinear_arith);
    }
    assert forall|i: int, j: int| 0 <= i < j < g.len() implies g[i] != g[j] by {
        if g[i] == g[j] {
            assert(pidx(h, g[i]) == pidx(h, g[j]));
        }
    }
    assert forall|p: (usize, usize)| in_grid(w, h, p) implies g.contains(p) by {
        lemma_pidx_bound(w, h, p);
        let i = pidx(h, p);
        lemma_pidx_injective(w, h, g[i], p);
        assert(g[i] == p);
    }
}

/// A duplicate-free sequence of in-grid coordinates is no longer than the
/// pixel count.
proof fn lemma_grid_seq_len(w: int, h: int, s: Seq<(usize, usize)>)
    requires
        0 < w,
        0 < h,
        w * h <= usize::MAX,
        s.no_duplicates(),
        forall|k: int| 0 <= k < s.len() ==> in_grid(w, h, #[trigger] s[k]),
    ensures
        s.len() <= w * h,
{
    broadcast use vstd::set::group_set_axioms;
    broadcast use vstd::seq_lib::seq_to_set_is_finite;

    lemma_grid_enum(w, h);
    let g = grid_enum(w, h);
    s.unique_seq_to_set();
    g.unique_seq_to_set();
    assert forall|p: (usize, usize)| s.to_set().contains(p) implies g.to_set().contains(p) by {
        assert(s.contains(p));
        assert(in_grid(w, h, p));
    }
    vstd::set_lib::lemma_len_subset(s.to_set(), g.to_set());
}

/// A set of pixels that is closed under in-grid 8-neighbors and holds one
/// pixel holds every pixel: walking one Chebyshev step toward the held pixel
/// stays on the grid.
proof fn lemma_flood_covers(
    w: int,
    h: int,
    visited: Seq<bool>,
    s0: (usize, usize),
    p: (usize, usize),
)
    requires
        0 < w,
        0 < h,
        w * h <= usize::MAX,
        visited.len() == w * h,
        in_grid(w, h, s0),
        in_grid(w, h, p),
        visited[pidx(h, s0)],
        forall|v: (usize, usize), nb: (usize, usize)|
            in_grid(w, h, v) && visited[pidx(h, v)] && in_grid(w, h, nb) && #[trigger] is_neighbor(
                v,
                nb,
            ) ==> visited[pidx(h, nb)],
    ensures
        visited[pidx(h, p)],
    decreases cheb(s0, p),
{
    if p != s0 {
        let qx: usize = if p.0 < s0.0 {
            (p.0 + 1) as usize
        } else if p.0 > s0.0 {
            (p.0 - 1) as usize
        } else {
            p.0
        };
        let qy: usize = if p.1 < s0.1 {
            (p.1 + 1) as usize
        } else if p.1 > s0.1 {
            (p.1 - 1) as usize
        } else {
            p.1
        };
        let q = (qx, qy);
        assert(in_grid(w, h, q));
        assert(is_neighbor(q, p));
        assert(cheb(s0, q) < cheb(s0, p));
        lemma_flood_covers(w, h, visited, s0, q);
    }
}

/// The in-grid 8-neighbors of a pixel in the fixed emission order: left,
/// right, up, down, then the four diagonals, each clamped at the grid edge.
pub open spec fn neighbor_seq(w: int, h: int, p: (usize, usize)) -> Seq<(usize, usize)> {
    let x = p.0;
    let y = p.1;
    let s = Seq::<(usize, usize)>::empty();
    let s = if x > 0 {
        s.push(((x - 1) as usize, y))
    } else {
        s
    };
    let s = if x < w - 1 {
        s.push(((x + 1) as usize, y))
    } else {
        s
    };
    let s = if y > 0 {
        s.push((x, (y - 1) as usize))
    } else {
        s
    };
    let s = if y < h - 1 {
        s.push((x, (y + 1) as usize))
    } else {
        s
    };
    let s = if x > 0 && y > 0 {
        s.push(((x - 1) as usize, (y - 1) as usize))
    } else {
        s
    };
    let s = if x < w - 1 && y > 0 {
        s.push(((x + 1) as usize, (y - 1) as usize))
    } else {
        s
    };
    let s = if x > 0 && y < h - 1 {
        s.push(((x - 1) as usize, (y + 1) as usize))
    } else {
        s
    };
    let s = if x < w - 1 && y < h - 1 {
        s.push(((x + 1) as usize, (y + 1) as usize))
    } else {
        s
    };
    s
}

/// The emission sequence lists exactly the in-grid 8-neighbors, each once.
proof fn lemma_neighbor_seq(w: int, h: int, p: (usize, usize))
    requires
        0 < w <= usize::MAX,
        0 < h <= usize::MAX,
        in_grid(w, h, p),
    ensures
        neighbor_seq(w, h, p).no_duplicates(),
        neighbor_seq(w, h, p).len() <= 8,
        forall|q: (usize, usize)| neighbor_seq(w, h, p).contains(q) <==> (in_grid(w, h, q)
            && is_neighbor(p, q)),
{
    broadcast use vstd::seq_lib::lemma_seq_contains_after_push;
    broadcast use vstd::seq_lib::lemma_seq_empty_contains_nothing;

    let ns = neighbor_seq(w, h, p);
    assert forall|q: (usize, usize)| in_grid(w, h, q) && is_neighbor(p, q)
        implies ns.contains(q) by {
        assert(q.0 as int == p.0 - 1 || q.0 as int == p.0 as int || q.0 as int == p.0 + 1);
        assert(q.1 as int == p.1 - 1 || q.1 as int == p.1 as int || q.1 as int == p.1 + 1);
    }
    assert(ns.no_duplicates());
}

/// The elements of `ns` not yet visited, in their order in `ns`.
pub open spec fn unvisited_of(
    ns: Seq<(usize, usize)>,
    visited: Seq<bool>,
    h: int,
) -> Seq<(usize, usize)>
    decreases ns.len(),
{
    if ns.len() == 0 {
        Seq::empty()
    } else {
        let rest = unvisited_of(ns.drop_last(), visited, h);
        if !visited[pidx(h, ns.last())] {
            rest.push(ns.last())
        } else {
            rest
        }
    }
}

/// The parent entries of the freshly discovered pixels, each set to `c`, in
/// their order of discovery.
pub open spec fn assign_parents(
    pm: Seq<Option<(usize, usize)>>,
    fresh: Seq<(usize, usize)>,
    c: (usize, usize),
    h: int,
) -> Seq<Option<(usize, usize)>>
    decreases fresh.len(),
{
    if fresh.len() == 0 {
        pm
    } else {
        assign_parents(pm, fresh.drop_last(), c, h).update(pidx(h, fresh.last()), Some(c))
    }
}

/// The traversal's whole state: visitation order, parent entries, visited
/// flags, and the frontier.
pub struct FloodState {
    pub ordering: Seq<(usize, usize)>,
    pub parents: Seq<Option<(usize, usize)>>,
    pub visited: Seq<bool>,
    pub stack: Seq<(usize, usize)>,
}

pub open spec fn flood_state(
    ordering: Seq<(usize, usize)>,
    parents: Seq<Option<(usize, usize)>>,
    visited: Seq<bool>,
    stack: Seq<(usize, usize)>,
) -> FloodState {
    FloodState { ordering, parents, visited, stack }
}

/// The state after seeding the starting points, in order: each is marked
/// visited and self-parented, appended to the ordering, and its unvisited
/// neighbors, parented to it, go onto the frontier.
pub open spec fn seeded_state(w: int, h: int, starts: Seq<(usize, usize)>) -> FloodState
    decreases starts.len(),
{
    if starts.len() == 0 {
        flood_state(
            Seq::empty(),
            Seq::new((w * h) as nat, |i: int| None::<(usize, usize)>),
            Seq::new((w * h) as nat, |i: int| false),
            Seq::empty(),
        )
    } else {
        let s = seeded_state(w, h, starts.drop_last());
        let p = starts.last();
        let vis = s.visited.update(pidx(h, p), true);
        let fresh = unvisited_of(neighbor_seq(w, h, p), vis, h);
        flood_state(
            s.ordering.push(p),
            assign_parents(s.parents.update(pidx(h, p), Some(p)), fresh, p, h),
            vis,
            s.stack + fresh,
        )
    }
}

/// One step of the frontier loop under pure stack (LIFO) discipline: the
/// most recently pushed pixel is removed; a stale, already-visited one is
/// discarded, a fresh one is visited and its unvisited neighbors, parented
/// to it, are pushed in emission order.
pub open spec fn dfs_step(w: int, h: int, s: FloodState) -> FloodState {
    let c = s.stack.last();
    let rest = s.stack.drop_last();
    if s.visited[pidx(h, c)] {
        flood_state(s.ordering, s.parents, s.visited, rest)
    } else {
        let vis = s.visited.update(pidx(h, c), true);
        let fresh = unvisited_of(neighbor_seq(w, h, c), vis, h);
        flood_state(s.ordering.push(c), assign_parents(s.parents, fresh, c, h), vis, rest + fresh)
    }
}

/// Runs the frontier loop for at most `fuel` steps, stopping once the
/// frontier empties.
pub open spec fn dfs_run(w: int, h: int, s: FloodState, fuel: nat) -> FloodState
    decreases fuel,
{
    if fuel == 0 || s.stack.len() == 0 {
        s
    } else {
        dfs_run(w, h, dfs_step(w, h, s), (fuel - 1) as nat)
    }
}

/// The ordering and parent map are exactly what the depth-first run from
/// the seeded state computes, with the frontier drained.
pub open spec fn dfs_result_matches(
    w: int,
    h: int,
    starts: Seq<(usize, usize)>,
    fuel: nat,
    ordering: Seq<(usize, usize)>,
    parents: Seq<Option<(usize, usize)>>,
) -> bool {
    let end = dfs_run(w, h, seeded_state(w, h, starts), fuel);
    end.stack.len() == 0 && ordering == end.ordering && parents == end.parents
}

/// A run from an already-empty frontier goes nowhere.
proof fn lemma_dfs_run_of_empty(w: int, h: int, s: FloodState, f: nat)
    requires
        s.stack.len() == 0,
    ensures
        dfs_run(w, h, s, f) == s,
{
}

/// An emptied frontier is final: more fuel changes nothing.
proof fn lemma_dfs_run_stable(w: int, h: int, s: FloodState, f1: nat, f2: nat)
    requires
        f1 <= f2,
        dfs_run(w, h, s, f1).stack.len() == 0,
    ensures
        dfs_run(w, h, s, f2) == dfs_run(w, h, s, f1),
    decreases f1,
{
    if s.stack.len() == 0 {
        lemma_dfs_run_of_empty(w, h, s, f1);
        lemma_dfs_run_of_empty(w, h, s, f2);
    } else {
        assert(f1 > 0);
        lemma_dfs_run_stable(w, h, dfs_step(w, h, s), (f1 - 1) as nat, (f2 - 1) as nat);
    }
}

/// One more unit of fuel applies one more step at the end of the run.
proof fn lemma_dfs_run_snoc(w: int, h: int, s: FloodState, fuel: nat)
    requires
        dfs_run(w, h, s, fuel).stack.len() > 0,
    ensures
        dfs_run(w, h, s, fuel + 1) == dfs_step(w, h, dfs_run(w, h, s, fuel)),
    decreases fuel,
{
    if s.stack.len() == 0 {
        lemma_dfs_run_of_empty(w, h, s, fuel);
    } else {
        assert(dfs_run(w, h, s, fuel + 1) == dfs_run(w, h, dfs_step(w, h, s), fuel));
        if fuel > 0 {
            lemma_dfs_run_snoc(w, h, dfs_step(w, h, s), (fuel - 1) as nat);
            assert(dfs_run(w, h, s, fuel) == dfs_run(w, h, dfs_step(w, h, s), (fuel - 1) as nat));
        } else {
            assert(dfs_run(w, h, dfs_step(w, h, s), 0) == dfs_step(w, h, s));
            assert(dfs_run(w, h, s, 0) == s);
        }
    }
}

/// Law: the drained depth-first run does not depend on how much fuel was
/// left, so any two results matching one grid and starting list are equal.
/// With `random_variation == 0` and `shuffle_neighbors == false`,
/// `GenerateOrdering::new` ensures its ordering and parent map match the
/// run; two such traversals of equal configuration are therefore equal: the
/// traversal is a pure function of `(width, height, starting_points)`.
pub proof fn lemma_deterministic_traversal(
    w: int,
    h: int,
    starts: Seq<(usize, usize)>,
    f1: nat,
    f2: nat,
    o1: Seq<(usize, usize)>,
    p1: Seq<Option<(usize, usize)>>,
    o2: Seq<(usize, usize)>,
    p2: Seq<Option<(usize, usize)>>,
)
    requires
        dfs_result_matches(w, h, starts, f1, o1, p1),
        dfs_result_matches(w, h, starts, f2, o2, p2),
    ensures
        o1 == o2,
        p1 == p2,
{
    let s = seeded_state(w, h, starts);
    if f1 <= f2 {
        lemma_dfs_run_stable(w, h, s, f1, f2);
    } else {
        lemma_dfs_run_stable(w, h, s, f2, f1);
    }
}

pub struct GenerateOrdering {
    /// The visitation order: every grid pixel, exactly once.
    pub ordering: Vec<(usize, usize)>,
    /// Parent of each pixel, indexed by `pidx`; a starting point is its own
    /// parent.
    pub parent_coords: Vec<Option<(usize, usize)>>,
    pub width: usize,
    pub height: usize,
    pub starting_points: Vec<(usize, usize)>,
    /// Chance, in 2^32 parts, of removing a random frontier element instead
    /// of the most recently pushed one; zero gives pure depth-first order.
    pub random_variation: u32,
    /// Whether a pixel's neighbors are shuffled before they are pushed.
    pub shuffle_neighbors: bool,
}

/// What an assigned parent link guarantees while the traversal runs: the
/// parent is on the grid and already visited, a self-parent marks a starting
/// point, and any other parent is an 8-neighbor.
spec fn parent_ok(
    w: int,
    h: int,
    pm: Seq<Option<(usize, usize)>>,
    visited: Seq<bool>,
    starts: Seq<(usize, usize)>,
    p: (usize, usize),
) -> bool {
    match pm[pidx(h, p)] {
        Some(q) => in_grid(w, h, q) && visited[pidx(h, q)] && (q == p ==> starts.contains(p)) && (q
            != p ==> is_neighbor(p, q)),
        None => true,
    }
}

/// The listed pixel's parent is assigned, and is itself or a strictly
/// earlier listed pixel.
spec fn precedes_ok(
    ordering: Seq<(usize, usize)>,
    pm: Seq<Option<(usize, usize)>>,
    h: int,
    k: int,
) -> bool {
    match pm[pidx(h, ordering[k])] {
        Some(q) => q == ordering[k] || exists|j: int| 0 <= j < k && ordering[j] == q,
        None => false,
    }
}

/// The state shared by the seeding pass and the main loop.
spec fn flood_state_ok(
    w: int,
    h: int,
    ordering: Seq<(usize, usize)>,
    pm: Seq<Option<(usize, usize)>>,
    visited: Seq<bool>,
    stack: Seq<(usize, usize)>,
    starts: Seq<(usize, usize)>,
) -> bool {
    &&& visited.len() == w * h
    &&& pm.len() == w * h
    &&& ordering.no_duplicates()
    &&& forall|k: int| 0 <= k < ordering.len() ==> in_grid(w, h, #[trigger] ordering[k])
    &&& forall|p: (usize, usize)|
        #![trigger visited[pidx(h, p)]]
        #![trigger ordering.contains(p)]
        in_grid(w, h, p) ==> (visited[pidx(h, p)] <==> ordering.contains(p))
    &&& forall|p: (usize, usize)| in_grid(w, h, p) ==> #[trigger] parent_ok(
        w,
        h,
        pm,
        visited,
        starts,
        p,
    )
    &&& forall|k: int| 0 <= k < ordering.len() ==> #[trigger] precedes_ok(ordering, pm, h, k)
    &&& forall|s: (usize, usize)| #[trigger] stack.contains(s) ==> in_grid(w, h, s) && pm[pidx(
        h,
        s,
    )] is Some
}

/// Every in-grid neighbor of a visited pixel is visited or on the frontier.
spec fn frontier_closed(
    w: int,
    h: int,
    visited: Seq<bool>,
    stack: Seq<(usize, usize)>,
) -> bool {
    forall|v: (usize, usize), nb: (usize, usize)|
        in_grid(w, h, v) && visited[pidx(h, v)] && in_grid(w, h, nb) && #[trigger] is_neighbor(
            v,
            nb,
        ) ==> visited[pidx(h, nb)] || stack.contains(nb)
}

/// Computes the flat index of an in-grid coordinate.
pub(crate) fn grid_index(width: usize, height: usize, p: (usize, usize)) -> (i: usize)
    requires
        in_grid(width as int, height as int, p),
        width * height <= usize::MAX,
    ensures
        i == pidx(height as int, p),
        i < width * height,
{
    proof {
        lemma_pidx_bound(width as int, height as int, p);
    }
    p.0 * height + p.1
}

impl GenerateOrdering {
    pub open spec fn grid_w(self) -> int {
        self.width as int
    }

    pub open spec fn grid_h(self) -> int {
        self.height as int
    }

    pub open spec fn n_pixels(self) -> int {
        self.grid_w() * self.grid_h()
    }

    /// The starting points the traversal was seeded with.
    pub open spec fn starts(self) -> Seq<(usize, usize)> {
        self.starting_points@
    }

    /// The assigned parent of a grid coordinate.
    pub open spec fn parent_of(self, p: (usize, usize)) -> Option<(usize, usize)> {
        self.parent_coords@[pidx(self.grid_h(), p)]
    }

    /// A self-parented pixel: a root of the traversal forest.
    pub open spec fn is_root(self, p: (usize, usize)) -> bool {
        self.parent_of(p) == Some(p)
    }

    /// The pixel reached from `p` by following `k` parent links.
    pub open spec fn ancestor(self, p: (usize, usize), k: nat) -> (usize, usize)
        decreases k,
    {
        if k == 0 {
            p
        } else {
            match self.parent_of(p) {
                Some(q) => self.ancestor(q, (k - 1) as nat),
                None => p,
            }
        }
    }

    /// The listed pixel's parent link is assigned, points at itself or at an
    /// 8-neighbor listed strictly earlier, and stays on the grid.
    pub open spec fn link_ok(self, k: int) -> bool {
        match self.parent_of(self.ordering@[k]) {
            Some(q) => in_grid(self.grid_w(), self.grid_h(), q) && (q == self.ordering@[k] || (
            is_neighbor(self.ordering@[k], q) && exists|j: int|
                0 <= j < k && self.ordering@[j] == q)),
            None => false,
        }
    }

    /// The ordering lists in-grid pixels at most once each, and the parent
    /// map linearizes its forest: every listed pixel's parent appears
    /// strictly before it.
    pub open spec fn valid(self) -> bool {
        &&& self.width > 0
        &&& self.height > 0
        &&& self.n_pixels() <= usize::MAX
        &&& self.parent_coords@.len() == self.n_pixels()
        &&& self.ordering@.no_duplicates()
        &&& forall|k: int| 0 <= k < self.ordering@.len() ==> in_grid(
            self.grid_w(),
            self.grid_h(),
            #[trigger] self.ordering@[k],
        )
        &&& forall|k: int| 0 <= k < self.ordering@.len() ==> #[trigger] self.link_ok(k)
    }

    /// The ordering covers the whole grid: it is a permutation of all
    /// `width * height` pixels.
    pub open spec fn complete(self) -> bool {
        &&& self.ordering@.len() == self.n_pixels()
        &&& forall|p: (usize, usize)| in_grid(self.grid_w(), self.grid_h(), p)
            ==> self.ordering@.contains(p)
    }

    /// The forest's roots are exactly the starting points.
    pub open spec fn roots_are_starts(self) -> bool {
        &&& forall|k: int| 0 <= k < self.starts().len() ==> self.parent_of(
            #[trigger] self.starts()[k],
        ) == Some(self.starts()[k])
        &&& forall|p: (usize, usize)| in_grid(self.grid_w(), self.grid_h(), p) && self.is_root(p)
            ==> self.starts().contains(p)
    }

    /// Builds the generator and runs the flood fill: the result's ordering
    /// is a permutation of the whole grid, parent links always point
    /// strictly earlier in it, and its roots are exactly the starting
    /// points.
    pub fn new(
        width: usize,
        height: usize,
        starting_points: Vec<(usize, usize)>,
        random_variation: u32,
        shuffle_neighbors: bool,
    ) -> (g: Self)
        requires
            width > 0,
            height > 0,
            width * height <= usize::MAX,
            starting_points@.len() > 0,
            starting_points@.no_duplicates(),
            forall|k: int| 0 <= k < starting_points@.len() ==> in_grid(
                width as int,
                height as int,
                #[trigger] starting_points@[k],
            ),
        ensures
            g.width == width,
            g.height == height,
            g.starts() == starting_points@,
            g.random_variation == random_variation,
            g.shuffle_neighbors == shuffle_neighbors,
            g.ordering@.take(starting_points@.len() as int) == starting_points@,
            random_variation == 0 && !shuffle_neighbors ==> exists|fuel: nat| dfs_result_matches(
                width as int,
                height as int,
                starting_points@,
                fuel,
                g.ordering@,
                g.parent_coords@,
            ),
            g.valid(),
            g.complete(),
            g.roots_are_starts(),
    {
        let n = width * height;
        let mut parent_coords: Vec<Option<(usize, usize)>> = Vec::new();
        let mut i: usize = 0;
        while i < n
            invariant
                i <= n,
                parent_coords@.len() == i,
                forall|j: int| 0 <= j < i ==> parent_coords@[j] is None,
            decreases n - i,
        {
            parent_coords.push(None);
            i += 1;
        }
        let mut tmp = GenerateOrdering {
            ordering: Vec::new(),
            parent_coords,
            width,
            height,
            starting_points,
            random_variation,
            shuffle_neighbors,
        };
        tmp.generate_ordering_and_coords();
        tmp
    }

    /// The in-grid 8-neighbors of a pixel: exactly the coordinates adjacent
    /// to it, each once, in the fixed emission order unless the generator
    /// was asked to shuffle them, in which case only the order changes.
    fn get_neighbors(&self, pixel: (usize, usize)) -> (ns: Vec<(usize, usize)>)
        requires
            self.width > 0,
            self.height > 0,
            in_grid(self.grid_w(), self.grid_h(), pixel),
        ensures
            forall|q: (usize, usize)| #[trigger] ns@.contains(q) <==> (in_grid(
                self.grid_w(),
                self.grid_h(),
                q,
            ) && is_neighbor(pixel, q)),
            ns@.no_duplicates(),
            ns@.len() <= 8,
            ns@.to_multiset() == neighbor_seq(self.grid_w(), self.grid_h(), pixel).to_multiset(),
            !self.shuffle_neighbors ==> ns@ == neighbor_seq(
                self.grid_w(),
                self.grid_h(),
                pixel,
            ),
    {
        broadcast use vstd::seq_lib::lemma_seq_contains_after_push;
        broadcast use vstd::seq_lib::lemma_seq_empty_contains_nothing;

        let (x, y) = pixel;
        let mut neighbors: Vec<(usize, usize)> = Vec::new();
        if x > 0 {
            neighbors.push((x - 1, y));
        }
        if x < self.width - 1 {
            neighbors.push((x + 1, y));
        }
        if y > 0 {
            neighbors.push((x, y - 1));
        }
        if y < self.height - 1 {
            neighbors.push((x, y + 1));
        }
        if x > 0 && y > 0 {
            neighbors.push((x - 1, y - 1));
        }
        if x < self.width - 1 && y > 0 {
            neighbors.push((x + 1, y - 1));
        }
        if x > 0 && y < self.height - 1 {
            neighbors.push((x - 1, y + 1));
        }
        if x < self.width - 1 && y < self.height - 1 {
            neighbors.push((x + 1, y + 1));
        }
        proof {
            assert(neighbors@ =~= neighbor_seq(self.grid_w(), self.grid_h(), pixel));
            lemma_neighbor_seq(self.grid_w(), self.grid_h(), pixel);
        }
        if self.shuffle_neighbors {
            let ghost pre = neighbors@;
            shuffle_coords(&mut neighbors);
            proof {
                broadcast use vstd::seq_lib::to_multiset_contains;
                broadcast use vstd::seq_lib::to_multiset_len;

                assert forall|q: (usize, usize)|
                    #[trigger] neighbors@.contains(q) == pre.contains(q) by {
                    assert(neighbors@.to_multiset().count(q) == pre.to_multiset().count(q));
                }
                pre.lemma_multiset_has_no_duplicates();
                assert(neighbors@.no_duplicates()) by {
                    neighbors@.lemma_multiset_has_no_duplicates_conv();
                }
                assert(neighbors@.len() == neighbors@.to_multiset().len());
                assert(pre.len() == pre.to_multiset().len());
            }
        }
        neighbors
    }

    /// Runs the flood fill: seeds every starting point, then drains the
    /// frontier, visiting each pixel once and recording its parent.
    #[verifier::loop_isolation(false)]
    #[verifier::rlimit(100)]
    fn generate_ordering_and_coords(&mut self)
        requires
            old(self).width > 0,
            old(self).height > 0,
            old(self).width * old(self).height <= usize::MAX,
            old(self).ordering@.len() == 0,
            old(self).parent_coords@.len() == old(self).n_pixels(),
            forall|j: int| 0 <= j < old(self).parent_coords@.len() ==> old(
                self,
            ).parent_coords@[j] is None,
            old(self).starting_points@.len() > 0,
            old(self).starting_points@.no_duplicates(),
            forall|k: int| 0 <= k < old(self).starting_points@.len() ==> in_grid(
                old(self).grid_w(),
                old(self).grid_h(),
                #[trigger] old(self).starting_points@[k],
            ),
        ensures
            final(self).width == old(self).width,
            final(self).height == old(self).height,
            final(self).starting_points == old(self).starting_points,
            final(self).random_variation == old(self).random_variation,
            final(self).shuffle_neighbors == old(self).shuffle_neighbors,
            final(self).ordering@.take(old(self).starting_points@.len() as int) == old(
                self,
            ).starting_points@,
            old(self).random_variation == 0 && !old(self).shuffle_neighbors ==> exists|fuel: nat|
                dfs_result_matches(
                    old(self).grid_w(),
                    old(self).grid_h(),
                    old(self).starting_points@,
                    fuel,
                    final(self).ordering@,
                    final(self).parent_coords@,
                ),
            final(self).valid(),
            final(self).complete(),
            final(self).roots_are_starts(),
    {
        let ghost w = self.grid_w();
        let ghost h = self.grid_h();
        let ghost starts = self.starting_points@;
        let ghost det = self.random_variation == 0 && !self.shuffle_neighbors;
        let n = self.width * self.height;
        let mut visited: Vec<bool> = Vec::new();
        let mut i: usize = 0;
        while i < n
            invariant
                i <= n,
                visited@.len() == i,
                forall|j: int| 0 <= j < i ==> !visited@[j],
            decreases n - i,
        {
            visited.push(false);
            i += 1;
        }
        let mut stack: Vec<(usize, usize)> = Vec::new();
        proof {
            assert(self.ordering@ =~= starts.take(0));
            assert forall|p: (usize, usize)| in_grid(w, h, p) implies !(#[trigger] visited@[pidx(
                h,
                p,
            )]) by {
                lemma_pidx_bound(w, h, p);
            }
            assert forall|p: (usize, usize)| in_grid(w, h, p) implies #[trigger] parent_ok(
                w,
                h,
                self.parent_coords@,
                visited@,
                starts,
                p,
            ) by {
                lemma_pidx_bound(w, h, p);
            }
            assert(flood_state_ok(
                w,
                h,
                self.ordering@,
                self.parent_coords@,
                visited@,
                stack@,
                starts,
            ));
            assert forall|v: (usize, usize), nb: (usize, usize)|
                in_grid(w, h, v) && visited@[pidx(h, v)] && in_grid(w, h, nb)
                    && #[trigger] is_neighbor(v, nb) implies visited@[pidx(h, nb)]
                || stack@.contains(nb) by {
                lemma_pidx_bound(w, h, v);
            }
            if det {
                assert(self.parent_coords@ =~= Seq::new(
                    (w * h) as nat,
                    |i: int| None::<(usize, usize)>,
                ));
                assert(visited@ =~= Seq::new((w * h) as nat, |i: int| false));
                assert(self.ordering@ =~= Seq::<(usize, usize)>::empty());
                assert(stack@ =~= Seq::<(usize, usize)>::empty());
                assert(starts.take(0).len() == 0);
                assert(flood_state(self.ordering@, self.parent_coords@, visited@, stack@)
                    == seeded_state(w, h, starts.take(0)));
            }
        }

        let mut si: usize = 0;
        while si < self.starting_points.len()
            invariant
                si <= starts.len(),
                self.ordering@ == starts.take(si as int),
                det ==> flood_state(self.ordering@, self.parent_coords@, visited@, stack@)
                    == seeded_state(w, h, starts.take(si as int)),
                flood_state_ok(
                    w,
                    h,
                    self.ordering@,
                    self.parent_coords@,
                    visited@,
                    stack@,
                    starts,
                ),
                frontier_closed(w, h, visited@, stack@),
                forall|k: int| 0 <= k < si ==> self.parent_coords@[pidx(
                    h,
                    #[trigger] starts[k],
                )] == Some(starts[k]),
                self.width == old(self).width,
                self.height == old(self).height,
                self.starting_points == old(self).starting_points,
                self.random_variation == old(self).random_variation,
                self.shuffle_neighbors == old(self).shuffle_neighbors,
            decreases starts.len() - si,
        {
            let pixel = self.starting_points[si];
            proof {
                lemma_pidx_bound(w, h, pixel);
                assert(!self.ordering@.contains(pixel)) by {
                    if self.ordering@.contains(pixel) {
                        let j = choose|j: int|
                            0 <= j < self.ordering@.len() && self.ordering@[j] == pixel;
                        assert(starts[j] == starts[si as int]);
                    }
                }
            }
            let gi = grid_index(self.width, self.height, pixel);
            let ghost pm0 = self.parent_coords@;
            let ghost vis0 = visited@;
            let ghost ord0 = self.ordering@;
            self.parent_coords[gi] = Some(pixel);
            visited[gi] = true;
            self.ordering.push(pixel);
            proof {
                assert(self.ordering@ =~= starts.take(si as int + 1));
                assert(self.ordering@.drop_last() =~= ord0);
                assert(starts.contains(pixel)) by {
                    assert(starts[si as int] == pixel);
                }
                assert forall|k: int| 0 <= k <= si implies self.parent_coords@[pidx(
                    h,
                    #[trigger] starts[k],
                )] == Some(starts[k]) by {
                    assert(in_grid(w, h, starts[k]));
                    lemma_pidx_bound(w, h, starts[k]);
                    if pidx(h, starts[k]) == pidx(h, pixel) {
                        lemma_pidx_injective(w, h, starts[k], pixel);
                    }
                }
                lemma_restore_after_visit(
                    w,
                    h,
                    self.ordering@,
                    pm0,
                    self.parent_coords@,
                    vis0,
                    visited@,
                    stack@,
                    starts,
                    pixel,
                    Some(pixel),
                );
            }
            let neighbors = self.get_neighbors(pixel);
            let ghost pm_base = self.parent_coords@;
            let ghost stack_base = stack@;
            proof {
                if det {
                    assert(neighbors@.take(0) =~= Seq::<(usize, usize)>::empty());
                    assert(unvisited_of(neighbors@.take(0), visited@, h) =~= Seq::<(
                        usize,
                        usize,
                    )>::empty());
                    assert(stack@ =~= stack_base + unvisited_of(neighbors@.take(0), visited@, h));
                }
            }
            let mut t: usize = 0;
            while t < neighbors.len()
                invariant
                    t <= neighbors@.len(),
                    forall|q: (usize, usize)| #[trigger] neighbors@.contains(q) <==> (in_grid(
                        w,
                        h,
                        q,
                    ) && is_neighbor(pixel, q)),
                    self.ordering@ == starts.take(si as int + 1),
                    in_grid(w, h, pixel),
                    visited@[pidx(h, pixel)],
                    flood_state_ok(
                        w,
                        h,
                        self.ordering@,
                        self.parent_coords@,
                        visited@,
                        stack@,
                        starts,
                    ),
                    forall|v: (usize, usize), nb: (usize, usize)|
                        in_grid(w, h, v) && visited@[pidx(h, v)] && v != pixel && in_grid(w, h, nb)
                            && #[trigger] is_neighbor(v, nb) ==> visited@[pidx(h, nb)]
                            || stack@.contains(nb),
                    forall|u: int| 0 <= u < t ==> visited@[pidx(h, #[trigger] neighbors@[u])]
                        || stack@.contains(neighbors@[u]),
                    forall|k: int| 0 <= k <= si ==> self.parent_coords@[pidx(
                        h,
                        #[trigger] starts[k],
                    )] == Some(starts[k]),
                    det ==> self.parent_coords@ == assign_parents(
                        pm_base,
                        unvisited_of(neighbors@.take(t as int), visited@, h),
                        pixel,
                        h,
                    ),
                    det ==> stack@ == stack_base + unvisited_of(
                        neighbors@.take(t as int),
                        visited@,
                        h,
                    ),
                    self.width == old(self).width,
                    self.height == old(self).height,
                    self.starting_points == old(self).starting_points,
                    self.random_variation == old(self).random_variation,
                    self.shuffle_neighbors == old(self).shuffle_neighbors,
                decreases neighbors@.len() - t,
            {
                let nb = neighbors[t];
                proof {
                    assert(neighbors@.contains(nb));
                    lemma_pidx_bound(w, h, nb);
                }
                let ni = grid_index(self.width, self.height, nb);
                let ghost pm_step = self.parent_coords@;
                if !visited[ni] {
                    let ghost pm0 = self.parent_coords@;
                    let ghost stack0 = stack@;
                    self.parent_coords[ni] = Some(pixel);
                    stack.push(nb);
                    proof {
                        broadcast use vstd::seq_lib::lemma_seq_contains_after_push;

                        lemma_restore_after_assign(
                            w,
                            h,
                            self.ordering@,
                            pm0,
                            self.parent_coords@,
                            visited@,
                            stack0,
                            stack@,
                            starts,
                            nb,
                            pixel,
                        );
                        assert forall|k: int| 0 <= k <= si implies self.parent_coords@[pidx(
                            h,
                            #[trigger] starts[k],
                        )] == Some(starts[k]) by {
                            assert(in_grid(w, h, starts[k]));
                            lemma_pidx_bound(w, h, starts[k]);
                            if pidx(h, starts[k]) == pidx(h, nb) {
                                lemma_pidx_injective(w, h, starts[k], nb);
                                assert(parent_ok(w, h, pm0, visited@, starts, starts[k]));
                                assert(visited@[pidx(h, starts[k])]);
                            }
                        }
                    }
                }
                proof {
                    if det {
                        let pre_t = neighbors@.take(t as int);
                        let pre_t1 = neighbors@.take(t as int + 1);
                        assert(pre_t1 =~= pre_t.push(nb));
                        assert(pre_t1.drop_last() =~= pre_t);
                        assert(pre_t1.last() == nb);
                        let fresh_t = unvisited_of(pre_t, visited@, h);
                        if !visited@[pidx(h, nb)] {
                            assert(unvisited_of(pre_t1, visited@, h) == fresh_t.push(nb));
                            assert(fresh_t.push(nb).drop_last() =~= fresh_t);
                            assert(self.parent_coords@ == pm_step.update(
                                pidx(h, nb),
                                Some(pixel),
                            ));
                            assert(self.parent_coords@ == assign_parents(
                                pm_base,
                                fresh_t.push(nb),
                                pixel,
                                h,
                            ));
                            assert(stack@ =~= stack_base + fresh_t.push(nb));
                        } else {
                            assert(unvisited_of(pre_t1, visited@, h) == fresh_t);
                        }
                    }
                }
                t += 1;
            }
            proof {
                if det {
                    assert(neighbors@.take(neighbors@.len() as int) =~= neighbors@);
                    assert(neighbors@ == neighbor_seq(w, h, pixel));
                    let fresh = unvisited_of(neighbor_seq(w, h, pixel), visited@, h);
                    assert(self.parent_coords@ == assign_parents(pm_base, fresh, pixel, h));
                    assert(stack@ == stack_base + fresh);
                    assert(starts.take(si as int + 1).drop_last() =~= starts.take(si as int));
                    assert(starts.take(si as int + 1).last() == pixel);
                    assert(flood_state(ord0, pm0, vis0, stack_base) == seeded_state(
                        w,
                        h,
                        starts.take(si as int),
                    ));
                    assert(visited@ =~= vis0.update(pidx(h, pixel), true));
                    assert(pm_base =~= pm0.update(pidx(h, pixel), Some(pixel)));
                    assert(flood_state(self.ordering@, self.parent_coords@, visited@, stack@)
                        == seeded_state(w, h, starts.take(si as int + 1)));
                }
            }
            si += 1;
            proof {
                assert(frontier_closed(w, h, visited@, stack@)) by {
                    assert forall|v: (usize, usize), nb: (usize, usize)|
                        in_grid(w, h, v) && visited@[pidx(h, v)] && in_grid(w, h, nb)
                            && #[trigger] is_neighbor(v, nb) implies visited@[pidx(h, nb)]
                        || stack@.contains(nb) by {
                        if v == pixel && !visited@[pidx(h, nb)] {
                            assert(neighbors@.contains(nb));
                            let u = choose|u: int|
                                0 <= u < neighbors@.len() && neighbors@[u] == nb;
                            assert(visited@[pidx(h, neighbors@[u])] || stack@.contains(
                                neighbors@[u],
                            ));
                        }
                    }
                }
            }
        }

        let ghost seed0 = seeded_state(w, h, starts);
        let ghost mut kf: nat = 0;
        proof {
            assert(self.ordering@ == starts.take(starts.len() as int));
            assert(self.ordering@ =~= starts);
            lemma_grid_seq_len(w, h, self.ordering@);
            assert(self.ordering@.take(starts.len() as int) =~= starts);
            if det {
                assert(starts.take(starts.len() as int) =~= starts);
                assert(flood_state(self.ordering@, self.parent_coords@, visited@, stack@)
                    == seed0);
                assert(dfs_run(w, h, seed0, 0) == seed0);
            }
        }

        while stack.len() > 0
            invariant
                flood_state_ok(
                    w,
                    h,
                    self.ordering@,
                    self.parent_coords@,
                    visited@,
                    stack@,
                    starts,
                ),
                frontier_closed(w, h, visited@, stack@),
                self.ordering@.len() <= w * h,
                self.ordering@.len() >= starts.len(),
                self.ordering@.take(starts.len() as int) == starts,
                det ==> flood_state(self.ordering@, self.parent_coords@, visited@, stack@)
                    == dfs_run(w, h, seed0, kf),
                forall|k: int| 0 <= k < starts.len() ==> self.parent_coords@[pidx(
                    h,
                    #[trigger] starts[k],
                )] == Some(starts[k]),
                self.width == old(self).width,
                self.height == old(self).height,
                self.starting_points == old(self).starting_points,
                self.random_variation == old(self).random_variation,
                self.shuffle_neighbors == old(self).shuffle_neighbors,
            decreases w * h - self.ordering@.len(), stack@.len(),
        {
            let ghost stack0 = stack@;
            let ghost st_k = flood_state(self.ordering@, self.parent_coords@, visited@, stack@);
            let current_pixel: (usize, usize);
            if random_u32() < self.random_variation {
                let ridx = random_below(stack.len());
                current_pixel = stack.swap_remove(ridx);
                proof {
                    lemma_removal_membership(stack0, stack@, ridx as int);
                }
            } else {
                let popped = stack.pop();
                current_pixel = popped.unwrap();
                proof {
                    assert(stack0.update(stack0.len() - 1, stack0.last()) =~= stack0);
                    lemma_removal_membership(stack0, stack@, stack0.len() - 1);
                }
            }
            proof {
                assert(stack0.contains(current_pixel));
                lemma_pidx_bound(w, h, current_pixel);
            }
            let gi = grid_index(self.width, self.height, current_pixel);
            if !visited[gi] {
                proof {
                    assert(!self.ordering@.contains(current_pixel));
                    lemma_grid_seq_len(w, h, self.ordering@.push(current_pixel));
                }
                let ghost pm0 = self.parent_coords@;
                let ghost vis0 = visited@;
                let ghost ord0 = self.ordering@;
                self.ordering.push(current_pixel);
                visited[gi] = true;
                proof {
                    assert(self.ordering@.drop_last() =~= ord0);
                    assert(self.ordering@.take(starts.len() as int) =~= ord0.take(
                        starts.len() as int,
                    ));
                    assert(parent_ok(w, h, pm0, vis0, starts, current_pixel));
                    assert(pm0[pidx(h, current_pixel)] is Some);
                    assert(self.parent_coords@ =~= pm0.update(
                        pidx(h, current_pixel),
                        pm0[pidx(h, current_pixel)],
                    ));
                    lemma_restore_after_visit(
                        w,
                        h,
                        self.ordering@,
                        pm0,
                        self.parent_coords@,
                        vis0,
                        visited@,
                        stack@,
                        starts,
                        current_pixel,
                        pm0[pidx(h, current_pixel)],
                    );
                }
                let neighbors = self.get_neighbors(current_pixel);
                let ghost pm_base = self.parent_coords@;
                let ghost stack_base = stack@;
                proof {
                    if det {
                        assert(neighbors@.take(0) =~= Seq::<(usize, usize)>::empty());
                        assert(unvisited_of(neighbors@.take(0), visited@, h) =~= Seq::<(
                            usize,
                            usize,
                        )>::empty());
                        assert(stack@ =~= stack_base + unvisited_of(
                            neighbors@.take(0),
                            visited@,
                            h,
                        ));
                    }
                }
                let mut t: usize = 0;
                while t < neighbors.len()
                    invariant
                        t <= neighbors@.len(),
                        forall|q: (usize, usize)| #[trigger] neighbors@.contains(q) <==> (in_grid(
                            w,
                            h,
                            q,
                        ) && is_neighbor(current_pixel, q)),
                        in_grid(w, h, current_pixel),
                        visited@[pidx(h, current_pixel)],
                        self.ordering@ == ord0.push(current_pixel),
                        self.ordering@.len() <= w * h,
                        flood_state_ok(
                            w,
                            h,
                            self.ordering@,
                            self.parent_coords@,
                            visited@,
                            stack@,
                            starts,
                        ),
                        forall|v: (usize, usize), nb: (usize, usize)|
                            in_grid(w, h, v) && visited@[pidx(h, v)] && v != current_pixel
                                && in_grid(w, h, nb) && #[trigger] is_neighbor(v, nb)
                                ==> visited@[pidx(h, nb)] || stack@.contains(nb),
                        forall|u: int| 0 <= u < t ==> visited@[pidx(h, #[trigger] neighbors@[u])]
                            || stack@.contains(neighbors@[u]),
                        forall|k: int| 0 <= k < starts.len() ==> self.parent_coords@[pidx(
                            h,
                            #[trigger] starts[k],
                        )] == Some(starts[k]),
                        det ==> self.parent_coords@ == assign_parents(
                            pm_base,
                            unvisited_of(neighbors@.take(t as int), visited@, h),
                            current_pixel,
                            h,
                        ),
                        det ==> stack@ == stack_base + unvisited_of(
                            neighbors@.take(t as int),
                            visited@,
                            h,
                        ),
                        self.width == old(self).width,
                        self.height == old(self).height,
                        self.starting_points == old(self).starting_points,
                        self.random_variation == old(self).random_variation,
                        self.shuffle_neighbors == old(self).shuffle_neighbors,
                    decreases neighbors@.len() - t,
                {
                    let nb = neighbors[t];
                    proof {
                        assert(neighbors@.contains(nb));
                        lemma_pidx_bound(w, h, nb);
                    }
                    let ni = grid_index(self.width, self.height, nb);
                    let ghost pm_step = self.parent_coords@;
                    if !visited[ni] {
                        let ghost pm0 = self.parent_coords@;
                        let ghost stack1 = stack@;
                        self.parent_coords[ni] = Some(current_pixel);
                        stack.push(nb);
                        proof {
                            broadcast use vstd::seq_lib::lemma_seq_contains_after_push;

                            lemma_restore_after_assign(
                                w,
                                h,
                                self.ordering@,
                                pm0,
                                self.parent_coords@,
                                visited@,
                                stack1,
                                stack@,
                                starts,
                                nb,
                                current_pixel,
                            );
                            assert forall|k: int| 0 <= k < starts.len()
                                implies self.parent_coords@[pidx(h, #[trigger] starts[k])] == Some(
                                starts[k],
                            ) by {
                                assert(in_grid(w, h, starts[k]));
                                lemma_pidx_bound(w, h, starts[k]);
                                if pidx(h, starts[k]) == pidx(h, nb) {
                                    lemma_pidx_injective(w, h, starts[k], nb);
                                    assert(parent_ok(w, h, pm0, visited@, starts, starts[k]));
                                    assert(visited@[pidx(h, starts[k])]);
                                }
                            }
                        }
                    }
                    proof {
                        if det {
                            let pre_t = neighbors@.take(t as int);
                            let pre_t1 = neighbors@.take(t as int + 1);
                            assert(pre_t1 =~= pre_t.push(nb));
                            assert(pre_t1.drop_last() =~= pre_t);
                            assert(pre_t1.last() == nb);
                            let fresh_t = unvisited_of(pre_t, visited@, h);
                            if !visited@[pidx(h, nb)] {
                                assert(unvisited_of(pre_t1, visited@, h) == fresh_t.push(nb));
                                assert(fresh_t.push(nb).drop_last() =~= fresh_t);
                                assert(self.parent_coords@ == pm_step.update(
                                    pidx(h, nb),
                                    Some(current_pixel),
                                ));
                                assert(self.parent_coords@ == assign_parents(
                                    pm_base,
                                    fresh_t.push(nb),
                                    current_pixel,
                                    h,
                                ));
                                assert(stack@ =~= stack_base + fresh_t.push(nb));
                            } else {
                                assert(unvisited_of(pre_t1, visited@, h) == fresh_t);
                            }
                        }
                    }
                    t += 1;
                }
                proof {
                    assert(frontier_closed(w, h, visited@, stack@)) by {
                        assert forall|v: (usize, usize), nb: (usize, usize)|
                            in_grid(w, h, v) && visited@[pidx(h, v)] && in_grid(w, h, nb)
                                && #[trigger] is_neighbor(v, nb) implies visited@[pidx(h, nb)]
                            || stack@.contains(nb) by {
                            if v == current_pixel && !visited@[pidx(h, nb)] {
                                assert(neighbors@.contains(nb));
                                let u = choose|u: int|
                                    0 <= u < neighbors@.len() && neighbors@[u] == nb;
                                assert(visited@[pidx(h, neighbors@[u])] || stack@.contains(
                                    neighbors@[u],
                                ));
                            }
                        }
                    }
                    if det {
                        assert(neighbors@.take(neighbors@.len() as int) =~= neighbors@);
                        assert(neighbors@ == neighbor_seq(w, h, current_pixel));
                        let fresh = unvisited_of(neighbor_seq(w, h, current_pixel), visited@, h);
                        assert(self.parent_coords@ == assign_parents(
                            pm_base,
                            fresh,
                            current_pixel,
                            h,
                        ));
                        assert(stack@ == stack_base + fresh);
                        assert(st_k.stack == stack0);
                        assert(stack0.last() == current_pixel);
                        assert(!st_k.visited[pidx(h, current_pixel)]);
                        assert(visited@ =~= vis0.update(pidx(h, current_pixel), true));
                        assert(stack_base =~= stack0.drop_last());
                        assert(pm_base == pm0);
                        assert(dfs_step(w, h, st_k) == flood_state(
                            self.ordering@,
                            self.parent_coords@,
                            visited@,
                            stack@,
                        ));
                    }
                }
            } else {
                proof {
                    assert(frontier_closed(w, h, visited@, stack@)) by {
                        assert forall|v: (usize, usize), nb: (usize, usize)|
                            in_grid(w, h, v) && visited@[pidx(h, v)] && in_grid(w, h, nb)
                                && #[trigger] is_neighbor(v, nb) implies visited@[pidx(h, nb)]
                            || stack@.contains(nb) by {
                            if !visited@[pidx(h, nb)] && nb != current_pixel {
                                assert(stack0.contains(nb));
                            }
                            if nb == current_pixel {
                                assert(visited@[pidx(h, nb)]);
                            }
                        }
                    }
                    if det {
                        assert(stack@ =~= stack0.drop_last());
                        assert(stack0.last() == current_pixel);
                        assert(st_k.visited[pidx(h, current_pixel)]);
                        assert(dfs_step(w, h, st_k) == flood_state(
                            self.ordering@,
                            self.parent_coords@,
                            visited@,
                            stack@,
                        ));
                    }
                }
            }
            proof {
                if det {
                    lemma_dfs_run_snoc(w, h, seed0, kf);
                    assert(flood_state(self.ordering@, self.parent_coords@, visited@, stack@)
                        == dfs_run(w, h, seed0, kf + 1));
                }
                kf = kf + 1;
            }
        }

        proof {
            let os = self.ordering@;
            assert(visited@[pidx(h, starts[0])]) by {
                assert(parent_ok(w, h, self.parent_coords@, visited@, starts, starts[0]));
            }
            assert forall|p: (usize, usize)| in_grid(w, h, p) implies os.contains(p) by {
                lemma_flood_covers(w, h, visited@, starts[0], p);
            }
            broadcast use vstd::set::group_set_axioms;
            broadcast use vstd::seq_lib::seq_to_set_is_finite;

            lemma_grid_enum(w, h);
            let ge = grid_enum(w, h);
            os.unique_seq_to_set();
            ge.unique_seq_to_set();
            assert(os.to_set() =~= ge.to_set());
            assert(os.len() == w * h);
            assert forall|k: int| 0 <= k < os.len() implies #[trigger] self.link_ok(k) by {
                assert(precedes_ok(os, self.parent_coords@, h, k));
                assert(parent_ok(w, h, self.parent_coords@, visited@, starts, os[k]));
            }
            assert forall|p: (usize, usize)| in_grid(w, h, p) && self.is_root(p)
                implies starts.contains(p) by {
                assert(parent_ok(w, h, self.parent_coords@, visited@, starts, p));
            }
            if det {
                assert(dfs_result_matches(w, h, starts, kf, self.ordering@, self.parent_coords@));
            }
        }
    }
}

/// Removing one stack element (by swap or from the end) keeps every other
/// element's membership and adds nothing.
proof fn lemma_removal_membership(pre: Seq<(usize, usize)>, post: Seq<(usize, usize)>, i: int)
    requires
        0 <= i < pre.len(),
        post == pre.update(i, pre.last()).drop_last(),
    ensures
        forall|q: (usize, usize)| #[trigger] post.contains(q) ==> pre.contains(q),
        forall|q: (usize, usize)| #[trigger] pre.contains(q) && q != pre[i] ==> post.contains(q),
{
    assert forall|q: (usize, usize)| #[trigger] post.contains(q) implies pre.contains(q) by {
        let j = choose|j: int| 0 <= j < post.len() && post[j] == q;
        if j == i {
            assert(pre[pre.len() - 1] == q);
        } else {
            assert(pre[j] == q);
        }
    }
    assert forall|q: (usize, usize)| #[trigger] pre.contains(q) && q != pre[i]
        implies post.contains(q) by {
        let j = choose|j: int| 0 <= j < pre.len() && pre[j] == q;
        if j == pre.len() - 1 {
            assert(i < pre.len() - 1);
            assert(post[i] == q);
        } else {
            assert(post[j] == q);
        }
    }
}

/// Restores the shared state predicate after a pixel is appended to the
/// ordering and marked visited (its parent entry, `link`, already set).
proof fn lemma_restore_after_visit(
    w: int,
    h: int,
    ordering: Seq<(usize, usize)>,
    pm0: Seq<Option<(usize, usize)>>,
    pm: Seq<Option<(usize, usize)>>,
    vis0: Seq<bool>,
    vis: Seq<bool>,
    stack: Seq<(usize, usize)>,
    starts: Seq<(usize, usize)>,
    pixel: (usize, usize),
    link: Option<(usize, usize)>,
)
    requires
        0 < w,
        0 < h,
        w * h <= usize::MAX,
        in_grid(w, h, pixel),
        ordering.len() > 0,
        ordering.last() == pixel,
        flood_state_ok(w, h, ordering.drop_last(), pm0, vis0, stack, starts),
        !vis0[pidx(h, pixel)],
        pm == pm0.update(pidx(h, pixel), pm[pidx(h, pixel)]),
        vis == vis0.update(pidx(h, pixel), true),
        link == pm[pidx(h, pixel)],
        match link {
            Some(q) => in_grid(w, h, q) && (q == pixel ==> starts.contains(pixel)) && (q != pixel
                ==> is_neighbor(pixel, q) && vis0[pidx(h, q)]),
            None => false,
        },
    ensures
        flood_state_ok(w, h, ordering, pm, vis, stack, starts),
{
    broadcast use vstd::seq_lib::lemma_seq_contains_after_push;

    lemma_pidx_bound(w, h, pixel);
    let prev = ordering.drop_last();
    assert(ordering =~= prev.push(pixel));
    assert(!prev.contains(pixel));
    assert(ordering.no_duplicates()) by {
        assert forall|a: int, b: int| 0 <= a < b < ordering.len() implies ordering[a]
            != ordering[b] by {
            if b == ordering.len() - 1 {
                assert(prev[a] == ordering[a]);
                assert(prev.contains(ordering[a]));
            }
        }
    }
    assert forall|p: (usize, usize)|
        #![trigger vis[pidx(h, p)]]
        #![trigger ordering.contains(p)]
        in_grid(w, h, p) implies (vis[pidx(h, p)] <==> ordering.contains(p)) by {
        lemma_pidx_bound(w, h, p);
        if pidx(h, p) == pidx(h, pixel) {
            lemma_pidx_injective(w, h, p, pixel);
            assert(vis[pidx(h, pixel)]);
            assert(ordering.contains(pixel));
        } else {
            assert(vis[pidx(h, p)] == vis0[pidx(h, p)]);
            if ordering.contains(p) {
                let j = choose|j: int| 0 <= j < ordering.len() && ordering[j] == p;
                assert(j < prev.len());
                assert(prev.contains(p));
            }
            if prev.contains(p) {
                assert(ordering.contains(p));
            }
        }
    }
    assert forall|p: (usize, usize)| in_grid(w, h, p) implies #[trigger] parent_ok(
        w,
        h,
        pm,
        vis,
        starts,
        p,
    ) by {
        lemma_pidx_bound(w, h, p);
        if pidx(h, p) == pidx(h, pixel) {
            lemma_pidx_injective(w, h, p, pixel);
            match link {
                Some(q) => {
                    lemma_pidx_bound(w, h, q);
                    if q != pixel {
                        if pidx(h, q) == pidx(h, pixel) {
                            lemma_pidx_injective(w, h, q, pixel);
                        }
                        assert(vis[pidx(h, q)] == vis0[pidx(h, q)]);
                    }
                },
                None => {},
            }
        } else {
            assert(pm[pidx(h, p)] == pm0[pidx(h, p)]);
            assert(parent_ok(w, h, pm0, vis0, starts, p));
            match pm0[pidx(h, p)] {
                Some(q) => {
                    lemma_pidx_bound(w, h, q);
                    if pidx(h, q) != pidx(h, pixel) {
                        assert(vis[pidx(h, q)] == vis0[pidx(h, q)]);
                    }
                },
                None => {},
            }
        }
    }
    assert forall|k: int| 0 <= k < ordering.len() implies #[trigger] precedes_ok(
        ordering,
        pm,
        h,
        k,
    ) by {
        if k < prev.len() {
            assert(precedes_ok(prev, pm0, h, k));
            assert(ordering[k] == prev[k]);
            assert(in_grid(w, h, prev[k]));
            lemma_pidx_bound(w, h, prev[k]);
            if pidx(h, prev[k]) == pidx(h, pixel) {
                lemma_pidx_injective(w, h, prev[k], pixel);
                assert(prev.contains(pixel));
            }
            assert(pm[pidx(h, prev[k])] == pm0[pidx(h, prev[k])]);
            match pm0[pidx(h, prev[k])] {
                Some(q) => {
                    if q != prev[k] {
                        let j = choose|j: int| 0 <= j < k && prev[j] == q;
                        assert(ordering[j] == q);
                    }
                },
                None => {},
            }
        } else {
            assert(ordering[k] == pixel);
            match link {
                Some(q) => {
                    if q != pixel {
                        assert(vis0[pidx(h, q)]);
                        assert(prev.contains(q));
                        let j = choose|j: int| 0 <= j < prev.len() && prev[j] == q;
                        assert(ordering[j] == q);
                    }
                },
                None => {},
            }
        }
    }
    assert forall|s: (usize, usize)| #[trigger] stack.contains(s) implies in_grid(w, h, s)
        && pm[pidx(h, s)] is Some by {
        lemma_pidx_bound(w, h, s);
        if pidx(h, s) != pidx(h, pixel) {
            assert(pm[pidx(h, s)] == pm0[pidx(h, s)]);
        }
    }
}

/// Restores the shared state predicate after an unvisited neighbor's parent
/// entry is written and the neighbor is pushed onto the frontier.
proof fn lemma_restore_after_assign(
    w: int,
    h: int,
    ordering: Seq<(usize, usize)>,
    pm0: Seq<Option<(usize, usize)>>,
    pm: Seq<Option<(usize, usize)>>,
    vis: Seq<bool>,
    stack0: Seq<(usize, usize)>,
    stack: Seq<(usize, usize)>,
    starts: Seq<(usize, usize)>,
    nb: (usize, usize),
    parent: (usize, usize),
)
    requires
        0 < w,
        0 < h,
        w * h <= usize::MAX,
        in_grid(w, h, nb),
        in_grid(w, h, parent),
        is_neighbor(parent, nb),
        vis[pidx(h, parent)],
        !vis[pidx(h, nb)],
        flood_state_ok(w, h, ordering, pm0, vis, stack0, starts),
        pm == pm0.update(pidx(h, nb), Some(parent)),
        stack == stack0.push(nb),
    ensures
        flood_state_ok(w, h, ordering, pm, vis, stack, starts),
{
    broadcast use vstd::seq_lib::lemma_seq_contains_after_push;

    lemma_pidx_bound(w, h, nb);
    lemma_pidx_bound(w, h, parent);
    assert(is_neighbor(nb, parent));
    assert(pidx(h, parent) != pidx(h, nb)) by {
        if pidx(h, parent) == pidx(h, nb) {
            lemma_pidx_injective(w, h, parent, nb);
        }
    }
    assert forall|p: (usize, usize)| in_grid(w, h, p) implies #[trigger] parent_ok(
        w,
        h,
        pm,
        vis,
        starts,
        p,
    ) by {
        lemma_pidx_bound(w, h, p);
        assert(parent_ok(w, h, pm0, vis, starts, p));
        if pidx(h, p) == pidx(h, nb) {
            lemma_pidx_injective(w, h, p, nb);
            assert(pm[pidx(h, p)] == Some(parent));
        } else {
            assert(pm[pidx(h, p)] == pm0[pidx(h, p)]);
            match pm0[pidx(h, p)] {
                Some(q) => {
                    lemma_pidx_bound(w, h, q);
                },
                None => {},
            }
        }
    }
    assert forall|k: int| 0 <= k < ordering.len() implies #[trigger] precedes_ok(
        ordering,
        pm,
        h,
        k,
    ) by {
        assert(precedes_ok(ordering, pm0, h, k));
        assert(in_grid(w, h, ordering[k]));
        lemma_pidx_bound(w, h, ordering[k]);
        if pidx(h, ordering[k]) == pidx(h, nb) {
            lemma_pidx_injective(w, h, ordering[k], nb);
            assert(ordering.contains(nb));
            assert(vis[pidx(h, nb)]);
        } else {
            assert(pm[pidx(h, ordering[k])] == pm0[pidx(h, ordering[k])]);
        }
    }
    assert forall|s: (usize, usize)| #[trigger] stack.contains(s) implies in_grid(w, h, s)
        && pm[pidx(h, s)] is Some by {
        lemma_pidx_bound(w, h, s);
        if s == nb {
            assert(pm[pidx(h, nb)] == Some(parent));
        } else {
            assert(stack0.contains(s));
            if pidx(h, s) != pidx(h, nb) {
                assert(pm[pidx(h, s)] == pm0[pidx(h, s)]);
            } else {
                lemma_pidx_injective(w, h, s, nb);
            }
        }
    }
}

/// Law: in a valid traversal, following parent links from any listed pixel
/// reaches a self-parented root within as many steps as the pixel's position
/// in the ordering; links always point strictly earlier, so chains cannot
/// cycle, and no chain is longer than the pixel count.
pub proof fn lemma_parent_chain_reaches_root(g: GenerateOrdering, k: int)
    requires
        g.valid(),
        0 <= k < g.ordering@.len(),
    ensures
        exists|s: nat| s <= k && g.is_root(#[trigger] g.ancestor(g.ordering@[k], s)),
    decreases k,
{
    let p = g.ordering@[k];
    assert(g.link_ok(k));
    match g.parent_of(p) {
        Some(q) => {
            if q == p {
                assert(g.ancestor(p, 0) == p);
                assert(g.is_root(g.ancestor(p, 0)));
            } else {
                let j = choose|j: int| 0 <= j < k && g.ordering@[j] == q;
                lemma_parent_chain_reaches_root(g, j);
                let s = choose|s: nat| s <= j && g.is_root(g.ancestor(q, s));
                assert(g.ancestor(p, s + 1) == g.ancestor(q, s));
                assert(g.is_root(g.ancestor(p, s + 1)));
            }
        },
        None => {},
    }
}

} // verus!
