//! The pages of a tree, from the root down.
use vstd::prelude::*;

use crate::engine::btree::{same_transitive, BTree};
use crate::engine::tree::{ok, Store};
use crate::engine::recovery::group_calls;

verus! {

broadcast use group_calls;

/// The pages of trees of height `h`, each before the pages below it, with how deep
/// they are.
pub open spec fn walk(s: Store, l: Seq<u32>, h: nat, depth: nat) -> Seq<(nat, u32)>
    decreases h, l.len(),
{
    if l.len() == 0 {
        seq![]
    } else {
        let p = l.last();
        let below = if h > 0 {
            walk(s, s[p].kids, (h - 1) as nat, depth + 1)
        } else {
            seq![]
        };
        walk(s, l.drop_last(), h, depth) + (seq![(depth, p)] + below)
    }
}

/// Pages with how deep they are.
pub open spec fn depth_views(v: Seq<(u32, u32)>) -> Seq<(nat, u32)> {
    Seq::new(v.len(), |i: int| (v[i].0 as nat, v[i].1))
}

impl BTree {
    fn walk_pages(
        &mut self,
        pgno: u32,
        fuel: u32,
        depth: u32,
        out: &mut Vec<(u32, u32)>,
        Ghost(h): Ghost<nat>,
        Ghost(top): Ghost<bool>,
    ) -> (r: bool)
        requires
            old(self).wf(),
            depth + fuel <= u32::MAX,
        ensures
            final(self).wf(),
            final(self).same(old(self)),
            final(self).store() == old(self).store(),
            fuel > h && ok(old(self).store(), pgno, h, old(self).m as nat, top) ==> r
                && depth_views(final(out)@) == depth_views(old(out)@) + walk(
                old(self).store(),
                seq![pgno],
                h,
                depth as nat,
            ),
        decreases fuel,
    {
        let ghost before = *self;
        let ghost s = self.store();
        let ghost m = self.m as nat;
        let ghost good = fuel > h && ok(s, pgno, h, m, top);
        let ghost start = depth_views(out@);
        proof {
            crate::engine::btree::same_facts(&before, self);
        }
        if fuel == 0 {
            return false;
        }
        let node = match self.getnode(pgno) {
            Some(n) => n,
            None => return false,
        };
        out.push((depth, pgno));
        let ghost d = (h - 1) as nat;
        let ghost kids = node@.kids;
        let ghost first = start.push((depth as nat, pgno));
        assert(depth_views(out@) =~= first);
        if !node.is_leaf {
            let mut i: usize = 0;
            assert(kids.take(0) =~= seq![]);
            assert(first + walk(s, kids.take(0), d, (depth + 1) as nat) =~= first);
            while i < node.children_pgno.len()
                invariant
                    self.wf(),
                    self.same(&before),
                    before == *old(self),
                    self.store() == s,
                    s == before.store(),
                    m == before.m,
                    fuel > 0,
                    depth + fuel <= u32::MAX,
                    i <= node.children_pgno@.len(),
                    kids == node.children_pgno@,
                    good == (fuel > h && ok(s, pgno, h, m, top)),
                    good ==> h > 0 && d == h - 1 && kids == s[pgno].kids && depth_views(out@)
                        == first + walk(s, kids.take(i as int), d, (depth + 1) as nat),
                decreases node.children_pgno.len() - i,
            {
                let ghost mid = *self;
                let ghost so_far = depth_views(out@);
                let child: u32 = node.children_pgno[i];
                proof {
                    if good {
                        assert(ok(s, kids[i as int], d, m, false));
                    }
                }
                let done = self.walk_pages(
                    child,
                    fuel - 1,
                    depth + 1,
                    out,
                    Ghost(d),
                    Ghost(false),
                );
                proof {
                    same_transitive(&before, &mid, self);
                    if good {
                        let t = kids.take(i + 1);
                        assert(t.drop_last() =~= kids.take(i as int));
                        assert(t.last() == child);
                        let one = seq![child];
                        assert(one.drop_last() =~= seq![]);
                        assert(walk(s, one.drop_last(), d, (depth + 1) as nat) =~= seq![]);
                        assert(depth_views(out@) =~= first + walk(s, t, d, (depth + 1) as nat));
                    }
                }
                if !done {
                    return false;
                }
                i = i + 1;
            }
            assert(kids.take(kids.len() as int) =~= kids);
        }
        proof {
            if good {
                let one = seq![pgno];
                assert(one.drop_last() =~= seq![]);
                assert(walk(s, one.drop_last(), h, depth as nat) =~= seq![]);
                assert(depth_views(out@) =~= start + walk(s, one, h, depth as nat));
            }
        }
        true
    }

    /// The pages of a tree, each before the pages below it, with how deep they are;
    /// `None` where the pages are no tree.
    pub fn tree_pages(&mut self, root: u32) -> (r: Option<Vec<(u32, u32)>>)
        requires
            old(self).wf(),
        ensures
            final(self).wf(),
            final(self).same(old(self)),
            final(self).store() == old(self).store(),
            old(self).is_tree(root) ==> r is Some && depth_views(r->0@) == walk(
                old(self).store(),
                seq![root],
                old(self).height(root),
                0,
            ),
    {
        let ghost before = *self;
        let ghost h = before.height(root);
        proof {
            if before.is_tree(root) {
                assert(before.tree_at(root, h));
            }
        }
        let d: u32 = match self.depth(root) {
            Some(d) => d,
            None => return None,
        };
        if d == u32::MAX {
            return None;
        }
        let ghost mid = *self;
        let mut out: Vec<(u32, u32)> = Vec::new();
        assert(depth_views(out@) =~= seq![]);
        let done = self.walk_pages(root, d + 1, 0, &mut out, Ghost(h), Ghost(true));
        proof {
            same_transitive(&before, &mid, self);
            assert(depth_views(out@) =~= seq![] + depth_views(out@));
            if before.is_tree(root) {
                let w = walk(before.store(), seq![root], h, 0);
                assert(Seq::<(nat, u32)>::empty() + w =~= w);
            }
        }
        if done {
            Some(out)
        } else {
            None
        }
    }
}

} // verus!
