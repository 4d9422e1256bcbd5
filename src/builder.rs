use vstd::prelude::*;
use crate::org::{Account, OrgNode, OrgTree, OrganizationalUnit};

verus! {

/// A unit whose children have been listed and whose child units are being
/// expanded one after the other.
pub struct Frame {
    pub unit: OrganizationalUnit,
    /// The finished subtrees of the child units expanded so far, in listing
    /// order.
    pub built: Vec<Box<OrgTree>>,
    /// The child units still to expand; the next one is at the end.
    pub pending: Vec<OrganizationalUnit>,
    /// The unit's accounts, which follow its child units.
    pub accounts: Vec<Account>,
}

/// Builds the organization tree depth first, one unit expansion at a time.
/// The builder names the unit whose children it needs next; the caller
/// lists and describes them and hands them back. Child units come before
/// child accounts, and each child unit is expanded completely before its
/// next sibling.
pub struct TreeBuilder {
    pub frames: Vec<Frame>,
    /// The unit whose children are needed next.
    pub awaiting: Option<OrganizationalUnit>,
    /// The finished tree.
    pub tree: Option<OrgTree>,
    /// Set when the root itself could not be expanded: there is no tree.
    pub root_failed: bool,
}

/// Within a list of siblings, no unit follows an account.
pub open spec fn units_first(cs: Seq<Box<OrgTree>>) -> bool {
    forall|i: int, j: int|
        0 <= i < j < cs.len() && (#[trigger] cs[i]).root is Account ==> (#[trigger] cs[j]).root is Account
}

/// The shape the builder gives every tree: accounts are leaves, and a unit
/// either has no children or a non-empty list of them in which its child
/// units come before its accounts.
pub open spec fn well_ordered(t: OrgTree) -> bool
    decreases t, 0nat,
{
    match t.root {
        OrgNode::Account(_) => t.children is None,
        OrgNode::Ou(_) => match t.children {
            None => true,
            Some(cs) => cs@.len() > 0 && units_first(cs@) && forest_well_ordered(cs@, cs@.len() as int),
        },
    }
}

/// The first `n` trees of `cs` are all well ordered.
pub open spec fn forest_well_ordered(cs: Seq<Box<OrgTree>>, n: int) -> bool
    decreases cs, n,
{
    if n <= 0 || n > cs.len() {
        true
    } else {
        well_ordered(*cs[n - 1]) && forest_well_ordered(cs, n - 1)
    }
}

proof fn lemma_forest_well_ordered(cs: Seq<Box<OrgTree>>, n: int)
    requires
        0 <= n <= cs.len(),
        forall|i: int| 0 <= i < n ==> well_ordered(*#[trigger] cs[i]),
    ensures
        forest_well_ordered(cs, n),
    decreases n,
{
    if n > 0 {
        lemma_forest_well_ordered(cs, n - 1);
    }
}

/// Every finished subtree held by a frame is a well-ordered unit.
pub open spec fn frames_ok(frames: Seq<Frame>) -> bool {
    forall|k: int, i: int|
        0 <= k < frames.len() && 0 <= i < frames[k].built@.len() ==> (#[trigger] frames[k].built@[i]).root is Ou
            && well_ordered(*frames[k].built@[i])
}

/// One leaf per account, in order.
pub open spec fn account_leaves(accounts: Seq<Account>) -> Seq<Box<OrgTree>> {
    accounts.map_values(|a: Account| Box::new(OrgTree { root: OrgNode::Account(a), children: None }))
}

/// `t` is `unit` with the subtrees `units` of its child units followed by
/// its accounts as leaves; a unit with neither has no children at all.
pub open spec fn is_finished_unit(
    t: OrgTree,
    unit: OrganizationalUnit,
    units: Seq<Box<OrgTree>>,
    accounts: Seq<Account>,
) -> bool {
    &&& t.root == OrgNode::Ou(unit)
    &&& units.len() + accounts.len() == 0 ==> t.children is None
    &&& units.len() + accounts.len() > 0 ==> t.children is Some && t.children->Some_0@ == units
        + account_leaves(accounts)
}

/// What a stack that pops from the end hands out, first item first.
pub open spec fn pop_order<T>(q: Seq<T>) -> Seq<T> {
    q.reverse()
}

/// Finishes a unit: its child units' subtrees, then its accounts as leaves.
pub fn finish_unit(unit: OrganizationalUnit, built: Vec<Box<OrgTree>>, accounts: Vec<Account>) -> (t: OrgTree)
    requires
        forall|i: int| 0 <= i < built@.len() ==> (#[trigger] built@[i]).root is Ou && well_ordered(*built@[i]),
    ensures
        is_finished_unit(t, unit, built@, accounts@),
        well_ordered(t),
{
    if built.len() == 0 && accounts.len() == 0 {
        return OrgTree { root: OrgNode::Ou(unit), children: None };
    }
    let ghost units = built@;
    let mut rest = accounts;
    let mut rev: Vec<Box<OrgTree>> = Vec::new();
    let ghost all = rest@;
    while rest.len() > 0
        invariant
            rev@.len() + rest@.len() == all.len(),
            rest@ == all.take(rest@.len() as int),
            forall|k: int| 0 <= k < rev@.len() ==> #[trigger] rev@[k] == account_leaves(all)[all.len() - 1 - k],
        decreases rest@.len(),
    {
        let a = rest.pop().unwrap();
        rev.push(Box::new(OrgTree::new(OrgNode::Account(a))));
        proof {
            assert(rest@ =~= all.take(rest@.len() as int));
        }
    }
    let mut children = built;
    while rev.len() > 0
        invariant
            rev@.len() + children@.len() == units.len() + all.len(),
            children@.len() >= units.len(),
            forall|k: int| 0 <= k < rev@.len() ==> #[trigger] rev@[k] == account_leaves(all)[all.len() - 1 - k],
            forall|k: int| 0 <= k < units.len() ==> #[trigger] children@[k] == units[k],
            forall|k: int|
                units.len() <= k < children@.len() ==> #[trigger] children@[k] == account_leaves(all)[k
                    - units.len()],
        decreases rev@.len(),
    {
        let t = rev.pop().unwrap();
        children.push(t);
    }
    let ghost cs = children@;
    assert(cs =~= units + account_leaves(all));
    proof {
        assert forall|i: int| 0 <= i < cs.len() implies well_ordered(*#[trigger] cs[i]) by {
            if i >= units.len() {
                assert(cs[i] == account_leaves(all)[i - units.len()]);
            }
        }
        lemma_forest_well_ordered(cs, cs.len() as int);
        assert forall|i: int, j: int|
            0 <= i < j < cs.len() && (#[trigger] cs[i]).root is Account implies (
            #[trigger] cs[j]).root is Account by {
            if i < units.len() {
                assert(cs[i] == units[i]);
            }
            assert(cs[j] == account_leaves(all)[j - units.len()]);
        }
    }
    OrgTree { root: OrgNode::Ou(unit), children: Some(children) }
}


/// A frame's contents as values.
pub struct FrameView {
    pub unit: OrganizationalUnit,
    pub built: Seq<Box<OrgTree>>,
    pub pending: Seq<OrganizationalUnit>,
    pub accounts: Seq<Account>,
}

impl View for Frame {
    type V = FrameView;

    open spec fn view(&self) -> FrameView {
        FrameView {
            unit: self.unit,
            built: self.built@,
            pending: self.pending@,
            accounts: self.accounts@,
        }
    }
}

pub open spec fn views(frames: Seq<Frame>) -> Seq<FrameView> {
    frames.map_values(|f: Frame| f@)
}

/// The frames with `b` appended to the subtrees of the top one.
pub open spec fn with_child(v: Seq<FrameView>, b: Box<OrgTree>) -> Seq<FrameView> {
    v.update(v.len() - 1, FrameView { built: v.last().built.push(b), ..v.last() })
}

/// `t` is what frames `i` and above finish into: the top frame is finished
/// as it stands, and each frame below it with the finished frame above
/// appended to its subtrees.
pub open spec fn finishes_into(v: Seq<FrameView>, i: int, t: OrgTree) -> bool
    decreases v.len() - i,
{
    if i < 0 || i >= v.len() {
        false
    } else if i == v.len() - 1 {
        is_finished_unit(t, v[i].unit, v[i].built, v[i].accounts)
    } else {
        exists|b: Box<OrgTree>|
            finishes_into(v, i + 1, *b) && is_finished_unit(t, v[i].unit, #[trigger] v[i].built.push(b), v[i].accounts)
    }
}

/// Index of the highest frame that still has a child unit to expand, or -1.
pub open spec fn last_pending(v: Seq<FrameView>) -> int
    decreases v.len(),
{
    if v.len() == 0 {
        -1
    } else if v.last().pending.len() > 0 {
        v.len() - 1
    } else {
        last_pending(v.drop_last())
    }
}

/// Unwinding the frames `v` leads to `frames`, `awaiting` and `tree`: every
/// frame above the highest one with a child unit left is finished into the
/// frame below it, and that frame's next child unit is awaited; when no
/// frame has one left, all of them finish into the tree.
pub open spec fn unwound(
    v: Seq<FrameView>,
    frames: Seq<FrameView>,
    awaiting: Option<OrganizationalUnit>,
    tree: Option<OrgTree>,
) -> bool {
    let k = last_pending(v);
    if k >= 0 {
        &&& awaiting == Some(v[k].pending.last())
        &&& tree is None
        &&& frames.len() == k + 1
        &&& frames.take(k) == v.take(k)
        &&& frames[k].unit == v[k].unit
        &&& frames[k].accounts == v[k].accounts
        &&& frames[k].pending == v[k].pending.drop_last()
        &&& k == v.len() - 1 ==> frames[k].built == v[k].built
        &&& k < v.len() - 1 ==> exists|b: Box<OrgTree>|
            finishes_into(v, k + 1, *b) && frames[k].built == #[trigger] v[k].built.push(b)
    } else {
        &&& awaiting is None
        &&& frames.len() == 0
        &&& tree is Some
        &&& finishes_into(v, 0, tree->0)
    }
}

proof fn lemma_last_pending_below(v: Seq<FrameView>, m: int)
    requires
        0 <= m <= v.len(),
        forall|j: int| m <= j < v.len() ==> (#[trigger] v[j]).pending.len() == 0,
    ensures
        last_pending(v) == last_pending(v.take(m)),
    decreases v.len(),
{
    if v.len() == m {
        assert(v.take(m) =~= v);
    } else {
        assert(v.last().pending.len() == 0);
        let w = v.drop_last();
        lemma_last_pending_below(w, m);
        assert(w.take(m) =~= v.take(m));
    }
}

impl TreeBuilder {
    /// Either a unit is awaited, or the tree is finished, or the root failed;
    /// everything built is well ordered.
    pub open spec fn wf(&self) -> bool {
        &&& self.tree is Some ==> self.awaiting is None && self.frames@.len() == 0 && !self.root_failed
            && well_ordered(self.tree->0)
        &&& self.root_failed ==> self.awaiting is None && self.tree is None && self.frames@.len() == 0
        &&& self.awaiting is None ==> self.tree is Some || self.root_failed
        &&& frames_ok(self.frames@)
    }

    /// Starts from the organization's root, taken as a unit.
    pub fn new(root: OrganizationalUnit) -> (b: TreeBuilder)
        ensures
            b.wf(),
            b.awaiting == Some(root),
            b.frames@.len() == 0,
            b.tree is None,
            !b.root_failed,
    {
        TreeBuilder { frames: Vec::new(), awaiting: Some(root), tree: None, root_failed: false }
    }

    /// The id of the unit whose children are needed next, if any.
    pub fn next_unit(&self) -> (r: Option<String>)
        ensures
            r is Some <==> self.awaiting is Some,
            r is Some ==> r->0 == self.awaiting->0.id,
    {
        match &self.awaiting {
            Some(ou) => Some(ou.id.clone()),
            None => None,
        }
    }

    /// Places the children of the awaited unit: its child units `ous` and
    /// its child accounts `accounts`, each in listing order. Child units are
    /// expanded next, the first one first; a unit without child units is
    /// finished at once.
    pub fn expanded(&mut self, ous: Vec<OrganizationalUnit>, accounts: Vec<Account>)
        requires
            old(self).wf(),
            old(self).awaiting is Some,
        ensures
            final(self).wf(),
            ous@.len() > 0 ==> {
                &&& final(self).awaiting == Some(ous@[0])
                &&& final(self).frames@.len() == old(self).frames@.len() + 1
                &&& final(self).frames@.take(old(self).frames@.len() as int) == old(self).frames@
                &&& final(self).frames@.last().unit == old(self).awaiting->0
                &&& final(self).frames@.last().built@.len() == 0
                &&& pop_order(final(self).frames@.last().pending@) == ous@.drop_first()
                &&& final(self).frames@.last().accounts@ == accounts@
            },
            ous@.len() == 0 && old(self).frames@.len() == 0 ==> {
                &&& final(self).tree is Some
                &&& is_finished_unit(final(self).tree->0, old(self).awaiting->0, Seq::empty(), accounts@)
            },
            ous@.len() == 0 && old(self).frames@.len() > 0 ==> exists|b: Box<OrgTree>|
                is_finished_unit(*b, old(self).awaiting->0, Seq::empty(), accounts@) && #[trigger] unwound(
                    with_child(views(old(self).frames@), b),
                    views(final(self).frames@),
                    final(self).awaiting,
                    final(self).tree,
                ),
    {
        let unit = self.awaiting.take().unwrap();
        if ous.len() == 0 {
            let t = finish_unit(unit, Vec::new(), accounts);
            self.attach(t);
            return;
        }
        let ghost all_ous = ous@;
        let mut ous = ous;
        let mut pending: Vec<OrganizationalUnit> = Vec::new();
        while ous.len() > 1
            invariant
                1 <= ous@.len() <= all_ous.len(),
                ous@ == all_ous.take(ous@.len() as int),
                pop_order(pending@) == all_ous.skip(ous@.len() as int),
            decreases ous@.len(),
        {
            let ghost p0 = pending@;
            let o = ous.pop().unwrap();
            pending.push(o);
            proof {
                let n = ous@.len() as int;
                assert(ous@ =~= all_ous.take(n));
                assert(o == all_ous[n]);
                assert(all_ous.skip(n) =~= seq![o] + all_ous.skip(n + 1));
                assert(pop_order(pending@) =~= seq![o] + pop_order(p0));
            }
        }
        let first = ous.pop().unwrap();
        proof {
            assert(all_ous.skip(1) =~= all_ous.drop_first());
        }
        let ghost fs0 = self.frames@;
        self.frames.push(Frame { unit, built: Vec::new(), pending, accounts });
        proof {
            assert(self.frames@.take(fs0.len() as int) =~= fs0);
            assert forall|k: int, i: int|
                0 <= k < self.frames@.len() && 0 <= i < self.frames@[k].built@.len() implies (
                #[trigger] self.frames@[k].built@[i]).root is Ou && well_ordered(*self.frames@[k].built@[i]) by {
                assert(k < fs0.len());
                assert(self.frames@[k] == fs0[k]);
            }
        }
        self.awaiting = Some(first);
    }

    /// The awaited unit could not be expanded. Below the root its subtree is
    /// left out of the tree; at the root there is no tree.
    pub fn expand_failed(&mut self)
        requires
            old(self).wf(),
            old(self).awaiting is Some,
        ensures
            final(self).wf(),
            final(self).root_failed <==> old(self).frames@.len() == 0,
            old(self).frames@.len() > 0 ==> unwound(
                views(old(self).frames@),
                views(final(self).frames@),
                final(self).awaiting,
                final(self).tree,
            ),
    {
        self.awaiting = None;
        if self.frames.len() == 0 {
            self.root_failed = true;
        } else {
            self.advance();
        }
    }

    /// Hands a finished subtree to the unit above it, or makes it the tree
    /// when nothing is above it.
    fn attach(&mut self, t: OrgTree)
        requires
            old(self).awaiting is None,
            old(self).tree is None,
            !old(self).root_failed,
            frames_ok(old(self).frames@),
            t.root is Ou,
            well_ordered(t),
        ensures
            final(self).wf(),
            !final(self).root_failed,
            old(self).frames@.len() == 0 ==> final(self).tree == Some(t),
            old(self).frames@.len() > 0 ==> exists|b: Box<OrgTree>|
                *b == t && #[trigger] unwound(
                    with_child(views(old(self).frames@), b),
                    views(final(self).frames@),
                    final(self).awaiting,
                    final(self).tree,
                ),
    {
        let ghost fs0 = self.frames@;
        match self.frames.pop() {
            None => {
                self.tree = Some(t);
            },
            Some(mut parent) => {
                let ghost fs1 = self.frames@;
                proof {
                    assert(fs1 =~= fs0.drop_last());
                }
                parent.built.push(Box::new(t));
                self.frames.push(parent);
                let ghost b = self.frames@.last().built@.last();
                proof {
                    lemma_frames_ok_push_built(fs0, self.frames@);
                    assert(views(self.frames@) =~= with_child(views(fs0), b));
                }
                self.advance();
                proof {
                    assert(*b == t && unwound(
                        with_child(views(fs0), b),
                        views(self.frames@),
                        self.awaiting,
                        self.tree,
                    ));
                }
            },
        }
    }

    /// Finishes units whose child units are all done, until a child unit has
    /// to be expanded or the root is finished.
    fn advance(&mut self)
        requires
            old(self).awaiting is None,
            old(self).tree is None,
            !old(self).root_failed,
            old(self).frames@.len() > 0,
            frames_ok(old(self).frames@),
        ensures
            final(self).wf(),
            !final(self).root_failed,
            unwound(views(old(self).frames@), views(final(self).frames@), final(self).awaiting, final(self).tree),
    {
        let ghost v0 = views(self.frames@);
        let ghost mut m: int = v0.len() - 1;
        let ghost mut carried: Box<OrgTree> = arbitrary();
        proof {
            assert(views(self.frames@).take(m) =~= v0.take(m));
        }
        loop
            invariant
                self.awaiting is None,
                self.tree is None,
                !self.root_failed,
                frames_ok(self.frames@),
                v0 == views(old(self).frames@),
                v0.len() > 0,
                0 <= m < v0.len(),
                self.frames@.len() == m + 1,
                views(self.frames@).take(m) == v0.take(m),
                self.frames@[m]@.unit == v0[m].unit,
                self.frames@[m]@.accounts == v0[m].accounts,
                self.frames@[m]@.pending == v0[m].pending,
                m == v0.len() - 1 ==> self.frames@[m]@.built == v0[m].built,
                m < v0.len() - 1 ==> finishes_into(v0, m + 1, *carried) && self.frames@[m]@.built
                    == v0[m].built.push(carried),
                forall|j: int| m < j < v0.len() ==> (#[trigger] v0[j]).pending.len() == 0,
            ensures
                self.wf(),
                !self.root_failed,
                unwound(v0, views(self.frames@), self.awaiting, self.tree),
            decreases self.frames@.len(),
        {
            let ghost fs0 = self.frames@;
            let mut f = self.frames.pop().unwrap();
            let ghost fs1 = self.frames@;
            proof {
                assert(fs1 =~= fs0.drop_last());
                assert(f == fs0[m]);
            }
            match f.pending.pop() {
                Some(ou) => {
                    self.frames.push(f);
                    proof {
                        assert forall|k: int, i: int|
                            0 <= k < self.frames@.len() && 0 <= i < self.frames@[k].built@.len() implies (
                            #[trigger] self.frames@[k].built@[i]).root is Ou && well_ordered(
                                *self.frames@[k].built@[i],
                            ) by {
                            if k < fs1.len() {
                                assert(self.frames@[k] == fs0[k]);
                            } else {
                                assert(self.frames@[k].built@ == fs0[k].built@);
                            }
                        }
                        lemma_last_pending_below(v0, m + 1);
                        assert(v0.take(m + 1).last() == v0[m]);
                        assert(v0.take(m + 1).len() == m + 1);
                        let fv = views(self.frames@);
                        assert(fv.take(m) =~= views(fs0).take(m));
                        assert(fv[m].pending == v0[m].pending.drop_last());
                        if m < v0.len() - 1 {
                            assert(fv[m].built == v0[m].built.push(carried));
                        }
                    }
                    self.awaiting = Some(ou);
                    proof {
                        let fv = views(self.frames@);
                        assert(last_pending(v0) == m);
                        assert(ou == v0[m].pending.last());
                        assert(fv.len() == m + 1);
                        assert(fv.take(m) == v0.take(m));
                        assert(fv[m].unit == v0[m].unit);
                        assert(fv[m].accounts == v0[m].accounts);
                        if m < v0.len() - 1 {
                            assert(finishes_into(v0, m + 1, *carried) && fv[m].built == v0[m].built.push(carried));
                        }
                        assert(unwound(v0, fv, self.awaiting, self.tree));
                    }
                    return;
                },
                None => {
                    proof {
                        assert forall|i: int| 0 <= i < f.built@.len() implies (#[trigger] f.built@[i]).root is Ou
                            && well_ordered(*f.built@[i]) by {
                            assert(f.built@[i] == fs0[m].built@[i]);
                        }
                    }
                    let t = finish_unit(f.unit, f.built, f.accounts);
                    proof {
                        if m < v0.len() - 1 {
                            assert(finishes_into(v0, m + 1, *carried) && is_finished_unit(
                                t,
                                v0[m].unit,
                                v0[m].built.push(carried),
                                v0[m].accounts,
                            ));
                        }
                        assert(finishes_into(v0, m, t));
                    }
                    match self.frames.pop() {
                        None => {
                            proof {
                                lemma_last_pending_below(v0, 0);
                                assert(v0.take(0).len() == 0);
                            }
                            self.tree = Some(t);
                            proof {
                                assert(m == 0);
                                assert(last_pending(v0) == -1);
                                assert(views(self.frames@).len() == 0);
                                assert(unwound(v0, views(self.frames@), self.awaiting, self.tree));
                            }
                            return;
                        },
                        Some(mut parent) => {
                            let ghost fs2 = self.frames@;
                            proof {
                                assert(fs2 =~= fs1.drop_last());
                                assert(parent == fs1[m - 1]);
                                assert(views(fs0).take(m)[m - 1] == v0.take(m)[m - 1]);
                                assert(views(fs0)[m - 1] == v0[m - 1]);
                            }
                            parent.built.push(Box::new(t));
                            self.frames.push(parent);
                            proof {
                                lemma_frames_ok_push_built(fs1, self.frames@);
                                m = m - 1;
                                carried = self.frames@[m].built@.last();
                                assert(views(self.frames@).take(m) =~= v0.take(m)) by {
                                    assert forall|j: int| 0 <= j < m implies views(self.frames@)[j] == v0[j] by {
                                        assert(self.frames@[j] == fs0[j]);
                                        assert(views(fs0).take(m + 1)[j] == v0.take(m + 1)[j]);
                                    }
                                }
                                assert(self.frames@[m]@.built =~= v0[m].built.push(carried));
                            }
                        },
                    }
                },
            }
        }
    }

    /// The finished tree; `None` while units are awaited or when the root
    /// failed.
    pub fn finish(self) -> (r: Option<OrgTree>)
        ensures
            r == self.tree,
    {
        self.tree
    }
}

/// Appending a well-ordered unit to the top frame's subtrees keeps the
/// frames in order.
proof fn lemma_frames_ok_push_built(before: Seq<Frame>, after: Seq<Frame>)
    requires
        frames_ok(before),
        before.len() > 0,
        after.len() == before.len(),
        forall|k: int| 0 <= k < before.len() - 1 ==> #[trigger] after[k] == before[k],
        after.last().built@.len() == before.last().built@.len() + 1,
        forall|i: int| 0 <= i < before.last().built@.len() ==> #[trigger] after.last().built@[i] == before.last().built@[i],
        after.last().built@.last().root is Ou,
        well_ordered(*after.last().built@.last()),
    ensures
        frames_ok(after),
{
    assert forall|k: int, i: int|
        0 <= k < after.len() && 0 <= i < after[k].built@.len() implies (#[trigger] after[k].built@[i]).root is Ou
            && well_ordered(*after[k].built@[i]) by {
        if k < before.len() - 1 {
            assert(after[k] == before[k]);
        } else if i < before.last().built@.len() {
            assert(after[k].built@[i] == before[k].built@[i]);
        }
    }
}

} // verus!
