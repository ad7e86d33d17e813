//! The spatial palette: the full multiset of source colors, split into a
//! bounded working set held in the spatial index and a reserve that
//! backfills it. Every pop permanently consumes one color.

use vstd::prelude::*;
use vstd::multiset::Multiset;
use crate::spatial::{ColorTree, tree_points, point_ok, dist2};
use crate::rng::{random_below, random_channel};

verus! {

/// A source color as a point of the spatial index's coordinate space.
pub open spec fn color_point(c: (u8, u8, u8)) -> (i32, i32, i32) {
    (c.0 as i32, c.1 as i32, c.2 as i32)
}

/// A sequence of colors as the multiset of index points standing for them.
pub open spec fn colors_as_points(s: Seq<(u8, u8, u8)>) -> Multiset<(i32, i32, i32)> {
    s.map_values(|c: (u8, u8, u8)| color_point(c)).to_multiset()
}

pub struct ColorSelectionModel {
    remaining_colors: Vec<(u8, u8, u8)>,
    tree: ColorTree,
}

impl ColorSelectionModel {
    /// The working set: the colors currently eligible for nearest-neighbor
    /// queries.
    pub closed spec fn working(self) -> Multiset<(i32, i32, i32)> {
        tree_points(self.tree)
    }

    /// The reserve: colors not yet admitted to the working set; the backfill
    /// takes them from the end.
    pub closed spec fn reserve(self) -> Seq<(u8, u8, u8)> {
        self.remaining_colors@
    }

    /// Every color still available, whether in the working set or the
    /// reserve.
    pub closed spec fn avail(self) -> Multiset<(i32, i32, i32)> {
        self.working().add(colors_as_points(self.reserve()))
    }

    /// Every working-set point lies in the channel range, so queries on the
    /// index stay within its contract.
    pub closed spec fn wf(self) -> bool {
        forall|p: (i32, i32, i32)| self.working().contains(p) ==> point_ok(p)
    }

    /// Builds the palette from the flat sequence of source colors. After an
    /// optional randomizing pass (one full sweep of swaps with uniformly
    /// chosen partners, which decorrelates color order from position but is
    /// not a uniform permutation), the first `sort_length` colors seed the
    /// working set and the rest form the reserve, reversed so the backfill
    /// takes from the end.
    #[verifier::loop_isolation(false)]
    pub fn new(colors: Vec<(u8, u8, u8)>, sort_length: usize, randomize_image: bool) -> (m: Self)
        ensures
            m.wf(),
            m.avail() == colors_as_points(colors@),
            m.avail().len() == colors@.len(),
            m.working().len() == vstd::math::min(sort_length as int, colors@.len() as int),
            m.reserve().len() == colors@.len() - vstd::math::min(
                sort_length as int,
                colors@.len() as int,
            ),
            !randomize_image ==> m.working() == colors_as_points(
                colors@.take(vstd::math::min(sort_length as int, colors@.len() as int)),
            ) && m.reserve() == colors@.skip(
                vstd::math::min(sort_length as int, colors@.len() as int),
            ).reverse(),
    {
        broadcast use vstd::seq_lib::group_to_multiset_ensures;
        broadcast use vstd::multiset::group_multiset_axioms;

        let ghost cp = |c: (u8, u8, u8)| color_point(c);
        let mut colors = colors;
        let n = colors.len();
        let ghost orig = colors@;
        if randomize_image {
            let mut i: usize = 0;
            while i < n
                invariant
                    i <= n,
                    colors@.len() == n,
                    colors@.map_values(cp).to_multiset() == orig.map_values(cp).to_multiset(),
                decreases n - i,
            {
                let ghost before = colors@;
                let j = random_below(n);
                let a = colors[i];
                let b = colors[j];
                colors[i] = b;
                colors[j] = a;
                proof {
                    let mb = before.map_values(cp);
                    assert(colors@ == before.update(i as int, b).update(j as int, a));
                    assert(colors@.map_values(cp) =~= mb.update(i as int, mb[j as int]).update(
                        j as int,
                        mb[i as int],
                    ));
                    lemma_swap_multiset(mb, i as int, j as int);
                }
                i += 1;
            }
        }
        let ghost shuf = colors@;
        let ghost cut = vstd::math::min(sort_length as int, n as int);
        let mut tree = ColorTree::new();
        let mut remaining: Vec<(u8, u8, u8)> = Vec::new();
        let mut idx: usize = 0;
        while idx < n
            invariant
                idx <= n,
                colors@ == shuf,
                n == shuf.len(),
                cut == vstd::math::min(sort_length as int, n as int),
                idx <= sort_length ==> tree_points(tree) == colors_as_points(
                    shuf.take(idx as int),
                ) && remaining@ == Seq::<(u8, u8, u8)>::empty(),
                idx > sort_length ==> tree_points(tree) == colors_as_points(
                    shuf.take(sort_length as int),
                ) && remaining@ == shuf.subrange(sort_length as int, idx as int),
                forall|p: (i32, i32, i32)| tree_points(tree).contains(p) ==> point_ok(p),
            decreases n - idx,
        {
            broadcast use vstd::seq_lib::group_to_multiset_ensures;
            broadcast use vstd::multiset::group_multiset_axioms;

            let c = colors[idx];
            if idx < sort_length {
                tree.insert((c.0 as i32, c.1 as i32, c.2 as i32));
                proof {
                    assert(shuf.take(idx as int + 1) =~= shuf.take(idx as int).push(c));
                    assert(shuf.take(idx as int + 1).map_values(cp) =~= shuf.take(
                        idx as int,
                    ).map_values(cp).push(color_point(c)));
                }
            } else {
                remaining.push(c);
                proof {
                    assert(remaining@ =~= shuf.subrange(sort_length as int, idx as int + 1));
                }
            }
            idx += 1;
        }
        proof {
            assert(tree_points(tree) == colors_as_points(shuf.take(cut)));
            assert(remaining@ =~= shuf.skip(cut));
        }
        let mut rev: Vec<(u8, u8, u8)> = Vec::new();
        let mut k: usize = remaining.len();
        while k > 0
            invariant
                k <= remaining@.len(),
                rev@.len() == remaining@.len() - k,
                forall|m: int| 0 <= m < rev@.len() ==> rev@[m] == remaining@[remaining@.len() - 1
                    - m],
            decreases k,
        {
            k -= 1;
            let c = remaining[k];
            rev.push(c);
        }
        proof {
            assert(rev@ =~= remaining@.reverse());
        }
        let m = ColorSelectionModel { remaining_colors: rev, tree };
        proof {
            assert(m.reserve() == shuf.skip(cut).reverse());
            assert(m.reserve().map_values(cp) =~= shuf.skip(cut).map_values(cp).reverse());
            shuf.skip(cut).map_values(cp).lemma_reverse_to_multiset();
            assert(colors_as_points(m.reserve()) == colors_as_points(shuf.skip(cut)));
            assert(shuf =~= shuf.take(cut) + shuf.skip(cut));
            assert(shuf.map_values(cp) =~= shuf.take(cut).map_values(cp) + shuf.skip(
                cut,
            ).map_values(cp)) by {
                assert(shuf.map_values(cp).len() == shuf.len());
            }
            broadcast use vstd::seq_lib::lemma_multiset_commutative;

            assert(m.avail() =~= colors_as_points(shuf));
            assert(colors_as_points(shuf) == colors_as_points(orig));
            assert(!randomize_image ==> shuf == colors@ && shuf == orig);
            assert(m.working().len() == shuf.take(cut).map_values(cp).to_multiset().len());
            assert(shuf.take(cut).map_values(cp).len() == cut);
            assert(orig.map_values(cp).len() == orig.len());
            assert(m.avail().len() == orig.len());
        }
        m
    }

    /// Finds the working-set color nearest to the query, without removing
    /// it.
    fn get_nearest_neighbor_from_tree(&self, query_color: (u8, u8, u8)) -> (r: (i32, i32, i32))
        requires
            self.wf(),
            self.working().len() > 0,
        ensures
            self.working().contains(r),
            point_ok(r),
            forall|o: (i32, i32, i32)| self.working().contains(o) ==> dist2(
                r,
                color_point(query_color),
            ) <= dist2(o, color_point(query_color)),
    {
        let q = (query_color.0 as i32, query_color.1 as i32, query_color.2 as i32);
        match self.tree.nearest(q) {
            Some(p) => p,
            None => {
                proof {
                    assert(self.working().len() == 0);
                }
                (0, 0, 0)
            },
        }
    }

    /// Backfills one reserve color into the working set, if any is left.
    fn maintain_tree_size(&mut self)
        requires
            old(self).wf(),
        ensures
            final(self).wf(),
            old(self).reserve().len() > 0 ==> final(self).working() == old(self).working().insert(
                color_point(old(self).reserve().last()),
            ) && final(self).reserve() == old(self).reserve().drop_last(),
            old(self).reserve().len() == 0 ==> *final(self) == *old(self),
    {
        if self.remaining_colors.len() > 0 {
            let c = self.remaining_colors.pop().unwrap();
            self.tree.insert((c.0 as i32, c.1 as i32, c.2 as i32));
            proof {
                broadcast use vstd::multiset::group_multiset_axioms;

                assert(final(self).working() == old(self).working().insert(color_point(c)));
            }
        }
    }

    /// Removes and returns the working-set color nearest to the query, then
    /// backfills one color from the reserve if any is left. One available
    /// color is consumed; with a non-empty reserve the working set keeps its
    /// size, once the reserve is empty it shrinks by one.
    pub fn pop_nearest_neighbor(&mut self, query_color: (u8, u8, u8)) -> (c: (u8, u8, u8))
        requires
            old(self).wf(),
            old(self).working().len() > 0,
        ensures
            final(self).wf(),
            old(self).working().contains(color_point(c)),
            forall|o: (i32, i32, i32)| old(self).working().contains(o) ==> dist2(
                color_point(c),
                color_point(query_color),
            ) <= dist2(o, color_point(query_color)),
            final(self).avail() == old(self).avail().remove(color_point(c)),
            final(self).avail().len() == old(self).avail().len() - 1,
            old(self).reserve().len() > 0 ==> final(self).working().len() == old(
                self,
            ).working().len() && final(self).reserve().len() == old(self).reserve().len() - 1,
            old(self).reserve().len() == 0 ==> final(self).working().len() == old(
                self,
            ).working().len() - 1 && final(self).reserve().len() == 0,
    {
        let nearest = self.get_nearest_neighbor_from_tree(query_color);
        let _removed = self.tree.remove(nearest);
        self.maintain_tree_size();
        proof {
            lemma_pop_state(*old(self), *self, nearest);
        }
        (nearest.0 as u8, nearest.1 as u8, nearest.2 as u8)
    }

    /// Draws a query uniformly from the whole channel space, then removes
    /// and returns the working-set color nearest to it; the palette state
    /// changes exactly as in `pop_nearest_neighbor`.
    pub fn pop_random_color(&mut self) -> (c: (u8, u8, u8))
        requires
            old(self).wf(),
            old(self).working().len() > 0,
        ensures
            final(self).wf(),
            old(self).working().contains(color_point(c)),
            final(self).avail() == old(self).avail().remove(color_point(c)),
            final(self).avail().len() == old(self).avail().len() - 1,
            old(self).reserve().len() > 0 ==> final(self).working().len() == old(
                self,
            ).working().len() && final(self).reserve().len() == old(self).reserve().len() - 1,
            old(self).reserve().len() == 0 ==> final(self).working().len() == old(
                self,
            ).working().len() - 1 && final(self).reserve().len() == 0,
    {
        let query = (random_channel(), random_channel(), random_channel());
        self.pop_nearest_neighbor(query)
    }
}

/// How the available stock decomposes: it is the working set plus the
/// reserve, and every working-set color is available.
pub proof fn lemma_avail_parts(m: ColorSelectionModel)
    ensures
        m.avail().len() == m.working().len() + m.reserve().len(),
        forall|p: (i32, i32, i32)| #[trigger] m.working().count(p) <= m.avail().count(p),
{
    broadcast use vstd::multiset::group_multiset_axioms;
    broadcast use vstd::seq_lib::group_to_multiset_ensures;

    let cp = |c: (u8, u8, u8)| color_point(c);
    assert(m.reserve().map_values(cp).len() == m.reserve().len());
    assert(colors_as_points(m.reserve()).len() == m.reserve().len());
    assert(m.avail().len() == m.working().len() + colors_as_points(m.reserve()).len());
}

/// Swapping two positions of a sequence leaves its multiset unchanged.
proof fn lemma_swap_multiset<A>(s: Seq<A>, i: int, j: int)
    requires
        0 <= i < s.len(),
        0 <= j < s.len(),
    ensures
        s.update(i, s[j]).update(j, s[i]).to_multiset() == s.to_multiset(),
{
    broadcast use vstd::multiset::group_multiset_axioms;
    broadcast use vstd::seq_lib::group_to_multiset_ensures;

    let s1 = s.update(i, s[j]);
    let s2 = s1.update(j, s[i]);
    assert(s1.to_multiset() == s.to_multiset().insert(s[j]).remove(s[i]));
    assert(s2.to_multiset() == s1.to_multiset().insert(s[i]).remove(s1[j]));
    assert(s1[j] == s[j]);
    assert(s.contains(s[i]));
    assert(s.to_multiset().count(s[i]) > 0);
    assert(s.contains(s[j]));
    assert(s.to_multiset().count(s[j]) > 0);
    assert(s2.to_multiset() =~= s.to_multiset());
}

/// The state change common to both pops: removing a working-set point and
/// backfilling takes exactly that point out of the available multiset.
proof fn lemma_pop_state(
    pre: ColorSelectionModel,
    post: ColorSelectionModel,
    p: (i32, i32, i32),
)
    requires
        pre.working().contains(p),
        pre.reserve().len() > 0 ==> post.working() == pre.working().remove(p).insert(
            color_point(pre.reserve().last()),
        ) && post.reserve() == pre.reserve().drop_last(),
        pre.reserve().len() == 0 ==> post.working() == pre.working().remove(p) && post.reserve()
            == pre.reserve(),
    ensures
        post.avail() == pre.avail().remove(p),
        post.avail().len() == pre.avail().len() - 1,
{
    broadcast use vstd::multiset::group_multiset_axioms;
    broadcast use vstd::seq_lib::group_to_multiset_ensures;

    let cp = |c: (u8, u8, u8)| color_point(c);
    if pre.reserve().len() > 0 {
        let last = pre.reserve().last();
        assert(pre.reserve() =~= pre.reserve().drop_last().push(last));
        assert(pre.reserve().map_values(cp) =~= pre.reserve().drop_last().map_values(cp).push(
            color_point(last),
        ));
        assert(colors_as_points(pre.reserve()) =~= colors_as_points(
            pre.reserve().drop_last(),
        ).insert(color_point(last)));
        assert(post.avail() =~= pre.avail().remove(p));
    } else {
        assert(post.avail() =~= pre.avail().remove(p));
    }
    assert(pre.avail().count(p) > 0);
}

/// Law: across any run of pops, each pop consumes exactly one occurrence of
/// the returned color. After `k` pops the palette holds `k` fewer colors,
/// and the initial stock is exactly the final stock plus the returned
/// colors, so no returned occurrence is handed out twice.
pub proof fn lemma_pops_consume(
    avails: Seq<Multiset<(i32, i32, i32)>>,
    rets: Seq<(i32, i32, i32)>,
)
    requires
        avails.len() == rets.len() + 1,
        forall|i: int| 0 <= i < rets.len() ==> (#[trigger] avails[i]).contains(rets[i])
            && avails[i + 1] == avails[i].remove(rets[i]),
    ensures
        avails.last().len() + rets.len() == avails[0].len(),
        avails[0] == avails.last().add(rets.to_multiset()),
    decreases rets.len(),
{
    broadcast use vstd::multiset::group_multiset_axioms;
    broadcast use vstd::seq_lib::group_to_multiset_ensures;

    if rets.len() == 0 {
        assert(avails.last() == avails[0]);
        assert(rets.to_multiset() =~= Multiset::<(i32, i32, i32)>::empty());
        assert(avails[0] =~= avails.last().add(rets.to_multiset()));
    } else {
        let atail = avails.drop_first();
        let rtail = rets.drop_first();
        assert forall|i: int| 0 <= i < rtail.len() implies (#[trigger] atail[i]).contains(rtail[i])
            && atail[i + 1] == atail[i].remove(rtail[i]) by {
            assert(atail[i] == avails[i + 1]);
            assert(atail[i + 1] == avails[i + 2]);
            assert(rtail[i] == rets[i + 1]);
        }
        lemma_pops_consume(atail, rtail);
        assert(atail.last() == avails.last());
        assert(atail[0] == avails[1]);
        assert(avails[1] == avails[0].remove(rets[0]));
        assert(avails[0].contains(rets[0]));
        assert(rets.remove(0) =~= rtail);
        assert(rtail.to_multiset() == rets.to_multiset().remove(rets[0]));
        assert(rets.contains(rets[0]));
        assert(rets.to_multiset().count(rets[0]) > 0);
        assert(avails[0] =~= avails.last().add(rets.to_multiset()));
    }
}

} // verus!
