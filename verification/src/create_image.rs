//! The image assembler: walks the generated ordering and colors each pixel,
//! drawing a random color for forest roots and the palette color nearest to
//! the parent's color for everything else. Every listed pixel's cell is
//! written exactly once with a color from the initial palette stock.

use vstd::prelude::*;
use crate::color_selection::{ColorSelectionModel, color_point, lemma_avail_parts};
use crate::generate_ordering::{GenerateOrdering, grid_index, in_grid, pidx};
use crate::spatial::dist2;

verus! {

/// The color of the output grid's cell at a coordinate.
pub open spec fn cell(img: Seq<Vec<(u8, u8, u8)>>, p: (usize, usize)) -> (u8, u8, u8) {
    img[p.0 as int]@[p.1 as int]
}

/// The listed pixel's parent entry is assigned, on the grid, and is the
/// pixel itself or a pixel listed strictly earlier.
spec fn coloring_link_ok(
    ordering: Seq<(usize, usize)>,
    pm: Seq<Option<(usize, usize)>>,
    w: int,
    h: int,
    k: int,
) -> bool {
    match pm[pidx(h, ordering[k])] {
        Some(q) => in_grid(w, h, q) && (q == ordering[k] || exists|j: int|
            0 <= j < k && ordering[j] == q),
        None => false,
    }
}

/// One coloring step: the cell written at position `i` of the ordering was
/// popped from the palette between the two states — and, for a non-root
/// pixel, it is the working-set color nearest to its parent's cell.
pub open spec fn coloring_step_ok(
    pre: ColorSelectionModel,
    post: ColorSelectionModel,
    ordering: Seq<(usize, usize)>,
    pm: Seq<Option<(usize, usize)>>,
    img: Seq<Vec<(u8, u8, u8)>>,
    h: int,
    i: int,
) -> bool {
    let p = ordering[i];
    let c = color_point(cell(img, p));
    &&& pre.working().contains(c)
    &&& post.avail() == pre.avail().remove(c)
    &&& match pm[pidx(h, p)] {
        Some(q) => q != p ==> forall|o: (i32, i32, i32)| #[trigger] pre.working().contains(o)
            ==> dist2(c, color_point(cell(img, q))) <= dist2(o, color_point(cell(img, q))),
        None => false,
    }
}

/// A palette trace through the coloring: one state per step, from the
/// palette as given down to the drained one, each step a valid pop whose
/// color stands in the output grid.
pub open spec fn coloring_trace_ok(
    pals: Seq<ColorSelectionModel>,
    start: ColorSelectionModel,
    end: ColorSelectionModel,
    ordering: Seq<(usize, usize)>,
    pm: Seq<Option<(usize, usize)>>,
    img: Seq<Vec<(u8, u8, u8)>>,
    h: int,
) -> bool {
    &&& pals.len() == ordering.len() + 1
    &&& pals[0] == start
    &&& pals[pals.len() - 1] == end
    &&& forall|i: int| 0 <= i < ordering.len() ==> #[trigger] coloring_step_ok(
        pals[i],
        pals[i + 1],
        ordering,
        pm,
        img,
        h,
        i,
    )
}

pub struct CreateImage {
    pub color_selector: ColorSelectionModel,
    pub ordering: Vec<(usize, usize)>,
    pub parent_coords: Vec<Option<(usize, usize)>>,
    pub output_img: Vec<Vec<(u8, u8, u8)>>,
}

impl CreateImage {
    /// The geometry the coloring pass relies on: a `w x h` output grid, and
    /// an ordering of distinct in-grid pixels whose parents are assigned and
    /// listed earlier.
    spec fn geometry_ok(self, w: int, h: int) -> bool {
        &&& 0 < w
        &&& 0 < h
        &&& w * h <= usize::MAX
        &&& self.output_img@.len() == w
        &&& forall|x: int| 0 <= x < w ==> (#[trigger] self.output_img@[x])@.len() == h
        &&& self.parent_coords@.len() == w * h
        &&& self.ordering@.no_duplicates()
        &&& forall|k: int| 0 <= k < self.ordering@.len() ==> in_grid(
            w,
            h,
            #[trigger] self.ordering@[k],
        )
        &&& forall|k: int| 0 <= k < self.ordering@.len() ==> #[trigger] coloring_link_ok(
            self.ordering@,
            self.parent_coords@,
            w,
            h,
            k,
        )
    }

    /// Builds the output grid and colors it along the given traversal: the
    /// result's grid has the traversal's dimensions, each listed pixel's
    /// cell holds a color consumed from the palette's initial stock (one pop
    /// per listed pixel), and unlisted cells keep the black sentinel. With a
    /// complete traversal no cell is left unwritten.
    #[verifier::loop_isolation(false)]
    pub fn new(color_selector: ColorSelectionModel, generate_ordering: GenerateOrdering) -> (m:
        Self)
        requires
            color_selector.wf(),
            generate_ordering.valid(),
            color_selector.avail().len() >= generate_ordering.ordering@.len(),
            generate_ordering.ordering@.len() > 0 ==> color_selector.working().len() > 0,
        ensures
            m.ordering == generate_ordering.ordering,
            m.parent_coords == generate_ordering.parent_coords,
            m.output_img@.len() == generate_ordering.width,
            forall|x: int| 0 <= x < generate_ordering.width ==> (
            #[trigger] m.output_img@[x])@.len() == generate_ordering.height,
            m.color_selector.wf(),
            m.color_selector.avail().len() == color_selector.avail().len()
                - generate_ordering.ordering@.len(),
            forall|i: int| 0 <= i < generate_ordering.ordering@.len()
                ==> color_selector.avail().contains(
                color_point(cell(m.output_img@, #[trigger] generate_ordering.ordering@[i])),
            ),
            forall|p: (usize, usize)| in_grid(
                generate_ordering.grid_w(),
                generate_ordering.grid_h(),
                p,
            ) && !generate_ordering.ordering@.contains(p) ==> cell(m.output_img@, p) == (
            0u8,
            0u8,
            0u8,
            ),
            generate_ordering.complete() ==> forall|p: (usize, usize)| in_grid(
                generate_ordering.grid_w(),
                generate_ordering.grid_h(),
                p,
            ) ==> color_selector.avail().contains(color_point(cell(m.output_img@, p))),
            exists|pals: Seq<ColorSelectionModel>| coloring_trace_ok(
                pals,
                color_selector,
                m.color_selector,
                generate_ordering.ordering@,
                generate_ordering.parent_coords@,
                m.output_img@,
                generate_ordering.grid_h(),
            ),
    {
        let width = generate_ordering.width;
        let height = generate_ordering.height;
        let ghost w = width as int;
        let ghost h = height as int;
        let mut output_img: Vec<Vec<(u8, u8, u8)>> = Vec::new();
        let mut x: usize = 0;
        while x < width
            invariant
                x <= width,
                output_img@.len() == x,
                forall|r: int| 0 <= r < x ==> (#[trigger] output_img@[r])@.len() == height,
                forall|r: int, cidx: int| 0 <= r < x && 0 <= cidx < height ==> (
                #[trigger] output_img@[r]@[cidx]) == (0u8, 0u8, 0u8),
            decreases width - x,
        {
            let mut row: Vec<(u8, u8, u8)> = Vec::new();
            let mut y: usize = 0;
            while y < height
                invariant
                    y <= height,
                    row@.len() == y,
                    forall|cidx: int| 0 <= cidx < y ==> (#[trigger] row@[cidx]) == (0u8, 0u8, 0u8),
                decreases height - y,
            {
                row.push((0, 0, 0));
                y += 1;
            }
            output_img.push(row);
            x += 1;
        }
        let mut tmp = CreateImage {
            color_selector,
            ordering: generate_ordering.ordering,
            parent_coords: generate_ordering.parent_coords,
            output_img,
        };
        proof {
            assert(tmp.geometry_ok(w, h)) by {
                assert forall|k: int| 0 <= k < tmp.ordering@.len()
                    implies #[trigger] coloring_link_ok(
                    tmp.ordering@,
                    tmp.parent_coords@,
                    w,
                    h,
                    k,
                ) by {
                    assert(generate_ordering.link_ok(k));
                }
            }
        }
        tmp.generate_coloring(width, height);
        proof {
            assert forall|p: (usize, usize)| in_grid(w, h, p) && !tmp.ordering@.contains(p)
                implies cell(tmp.output_img@, p) == (0u8, 0u8, 0u8) by {
                assert(!tmp.ordering@.take(tmp.ordering@.len() as int).contains(p));
            }
            if generate_ordering.complete() {
                assert forall|p: (usize, usize)| in_grid(w, h, p)
                    implies color_selector.avail().contains(
                    color_point(cell(tmp.output_img@, p)),
                ) by {
                    assert(generate_ordering.ordering@.contains(p));
                    let i = choose|i: int|
                        0 <= i < tmp.ordering@.len() && tmp.ordering@[i] == p;
                    assert(color_selector.avail().contains(
                        color_point(cell(tmp.output_img@, tmp.ordering@[i])),
                    ));
                }
            }
        }
        tmp
    }

    /// Walks the ordering: a root pixel draws a random color, any other
    /// pixel draws the color nearest to its parent's already-written one;
    /// each step consumes exactly one available color and writes exactly the
    /// current pixel's cell.
    #[verifier::loop_isolation(false)]
    fn generate_coloring(&mut self, width: usize, height: usize)
        requires
            old(self).geometry_ok(width as int, height as int),
            old(self).color_selector.wf(),
            old(self).color_selector.avail().len() >= old(self).ordering@.len(),
            old(self).ordering@.len() > 0 ==> old(self).color_selector.working().len() > 0,
        ensures
            final(self).ordering == old(self).ordering,
            final(self).parent_coords == old(self).parent_coords,
            final(self).output_img@.len() == old(self).output_img@.len(),
            forall|x: int| 0 <= x < width ==> (#[trigger] final(self).output_img@[x])@.len()
                == height,
            final(self).color_selector.wf(),
            final(self).color_selector.avail().len() == old(self).color_selector.avail().len()
                - old(self).ordering@.len(),
            forall|i: int| 0 <= i < old(self).ordering@.len() ==> old(
                self,
            ).color_selector.avail().contains(
                color_point(cell(final(self).output_img@, #[trigger] old(self).ordering@[i])),
            ),
            forall|p: (usize, usize)| in_grid(width as int, height as int, p) && !old(
                self,
            ).ordering@.contains(p) ==> cell(final(self).output_img@, p) == cell(
                old(self).output_img@,
                p,
            ),
            exists|pals: Seq<ColorSelectionModel>| coloring_trace_ok(
                pals,
                old(self).color_selector,
                final(self).color_selector,
                old(self).ordering@,
                old(self).parent_coords@,
                final(self).output_img@,
                height as int,
            ),
    {
        broadcast use vstd::multiset::group_multiset_axioms;

        let ghost w = width as int;
        let ghost h = height as int;
        let ghost init = *old(self);
        let ghost mut pals: Seq<ColorSelectionModel> = seq![init.color_selector];
        let n = self.ordering.len();
        let mut i: usize = 0;
        while i < n
            invariant
                i <= n,
                n == init.ordering@.len(),
                self.ordering == init.ordering,
                self.parent_coords == init.parent_coords,
                self.geometry_ok(w, h),
                self.color_selector.wf(),
                self.color_selector.avail().len() == init.color_selector.avail().len() - i,
                init.color_selector.avail().len() >= n,
                forall|c: (i32, i32, i32)| #[trigger] self.color_selector.avail().count(c)
                    <= init.color_selector.avail().count(c),
                n - i > 0 ==> self.color_selector.working().len() > 0,
                pals.len() == i + 1,
                pals[0] == init.color_selector,
                pals[i as int] == self.color_selector,
                forall|j: int| 0 <= j < i ==> #[trigger] coloring_step_ok(
                    pals[j],
                    pals[j + 1],
                    init.ordering@,
                    init.parent_coords@,
                    self.output_img@,
                    h,
                    j,
                ),
                forall|j: int| 0 <= j < i ==> init.color_selector.avail().contains(
                    color_point(cell(self.output_img@, #[trigger] init.ordering@[j])),
                ),
                forall|p: (usize, usize)| in_grid(w, h, p) && !init.ordering@.take(
                    i as int,
                ).contains(p) ==> cell(self.output_img@, p) == cell(init.output_img@, p),
            decreases n - i,
        {
            let curr = self.ordering[i];
            proof {
                assert(in_grid(w, h, curr));
                assert(coloring_link_ok(self.ordering@, self.parent_coords@, w, h, i as int));
            }
            let gi = grid_index(width, height, curr);
            let po = self.parent_coords[gi];
            let ghost pre_palette = self.color_selector;
            let c: (u8, u8, u8);
            match po {
                Some(parent) => {
                    if parent.0 == curr.0 && parent.1 == curr.1 {
                        c = self.color_selector.pop_random_color();
                    } else {
                        let parent_color = self.output_img[parent.0][parent.1];
                        c = self.color_selector.pop_nearest_neighbor(parent_color);
                    }
                },
                None => {
                    proof {
                        assert(false);
                    }
                    c = (0, 0, 0);
                },
            }
            let ghost img0 = self.output_img@;
            self.output_img[curr.0][curr.1] = c;
            proof {
                assert(self.output_img@[curr.0 as int]@ =~= img0[curr.0 as int]@.update(
                    curr.1 as int,
                    c,
                ));
                assert(pre_palette.working().contains(color_point(c)));
                lemma_avail_parts(pre_palette);
                lemma_avail_parts(self.color_selector);
                assert(pre_palette.avail().count(color_point(c)) > 0);
                assert(init.color_selector.avail().contains(color_point(c)));
                assert(cell(self.output_img@, curr) == c);
                pals = pals.push(self.color_selector);
                assert forall|j: int| 0 <= j < i + 1 implies #[trigger] coloring_step_ok(
                    pals[j],
                    pals[j + 1],
                    init.ordering@,
                    init.parent_coords@,
                    self.output_img@,
                    h,
                    j,
                ) by {
                    if j < i {
                        assert(coloring_step_ok(
                            pals[j],
                            pals[j + 1],
                            init.ordering@,
                            init.parent_coords@,
                            img0,
                            h,
                            j,
                        ));
                        let pj = init.ordering@[j];
                        assert(pj != curr);
                        assert(cell(self.output_img@, pj) == cell(img0, pj));
                        match init.parent_coords@[pidx(h, pj)] {
                            Some(q) => {
                                if q != pj {
                                    assert(coloring_link_ok(
                                        init.ordering@,
                                        init.parent_coords@,
                                        w,
                                        h,
                                        j,
                                    ));
                                    let j2 = choose|j2: int|
                                        0 <= j2 < j && init.ordering@[j2] == q;
                                    assert(init.ordering@[j2] != init.ordering@[i as int]);
                                    assert(cell(self.output_img@, q) == cell(img0, q));
                                }
                            },
                            None => {},
                        }
                    } else {
                        assert(pals[j] == pre_palette);
                        assert(pals[j + 1] == self.color_selector);
                    }
                }
                assert forall|j: int| 0 <= j < i + 1 implies init.color_selector.avail().contains(
                    color_point(cell(self.output_img@, #[trigger] init.ordering@[j])),
                ) by {
                    if j < i {
                        assert(init.ordering@[j] != curr);
                        assert(cell(self.output_img@, init.ordering@[j]) == cell(
                            img0,
                            init.ordering@[j],
                        ));
                    }
                }
                assert forall|p: (usize, usize)| in_grid(w, h, p) && !init.ordering@.take(
                    i + 1,
                ).contains(p) implies cell(self.output_img@, p) == cell(init.output_img@, p) by {
                    assert(init.ordering@.take(i + 1) =~= init.ordering@.take(i as int).push(
                        curr,
                    ));
                    assert(p != curr) by {
                        if p == curr {
                            assert(init.ordering@.take(i + 1)[i as int] == p);
                            assert(init.ordering@.take(i + 1).contains(p));
                        }
                    }
                    assert(!init.ordering@.take(i as int).contains(p)) by {
                        if init.ordering@.take(i as int).contains(p) {
                            let j = choose|j: int|
                                0 <= j < i && init.ordering@.take(i as int)[j] == p;
                            assert(init.ordering@.take(i + 1)[j] == p);
                        }
                    }
                    assert(cell(self.output_img@, p) == cell(img0, p));
                }
            }
            i += 1;
        }
        proof {
            assert forall|p: (usize, usize)| in_grid(w, h, p) && !init.ordering@.contains(p)
                implies cell(self.output_img@, p) == cell(init.output_img@, p) by {
                assert(init.ordering@.take(n as int) =~= init.ordering@);
            }
            assert(coloring_trace_ok(
                pals,
                init.color_selector,
                self.color_selector,
                init.ordering@,
                init.parent_coords@,
                self.output_img@,
                h,
            ));
        }
    }
}

} // verus!
