use vstd::prelude::*;

verus! {

/// An organizational unit: a container of accounts and nested units.
pub struct OrganizationalUnit {
    pub id: String,
    pub name: String,
    pub arn: String,
}

/// A member account of the organization; accounts are the leaves of the tree.
pub struct Account {
    pub id: String,
    pub name: String,
    pub email: String,
    pub status: String,
}

impl Account {
    /// A field-by-field copy of the account.
    pub fn duplicate(&self) -> (r: Account)
        ensures
            r == *self,
    {
        Account {
            id: self.id.clone(),
            name: self.name.clone(),
            email: self.email.clone(),
            status: self.status.clone(),
        }
    }
}

/// Each node of the organization tree is either a unit or an account.
pub enum OrgNode {
    Ou(OrganizationalUnit),
    Account(Account),
}

/// An m-ary tree mirroring the organization. `children` is `None` for a node
/// that has not been expanded or that has nothing below it.
pub struct OrgTree {
    pub root: OrgNode,
    pub children: Option<Vec<Box<OrgTree>>>,
}

/// Number of nodes of a tree, counting every node below it.
pub open spec fn tree_size(t: OrgTree) -> nat
    decreases t, 0nat,
{
    match t.children {
        None => 1,
        Some(cs) => 1 + forest_size(cs@, cs@.len() as int),
    }
}

/// Number of nodes in the first `n` trees of `cs`.
pub open spec fn forest_size(cs: Seq<Box<OrgTree>>, n: int) -> nat
    decreases cs, n,
{
    if n <= 0 || n > cs.len() {
        0
    } else {
        tree_size(*cs[n - 1]) + forest_size(cs, n - 1)
    }
}

/// The accounts of a tree in the order a last-in-first-out traversal emits
/// them, each with the names of the units above it (the tree's root unit
/// first). `anc` holds the names above `t` itself. Only units are expanded:
/// whatever hangs below an account is not part of the organization.
pub open spec fn emitted(t: OrgTree, anc: Seq<Seq<char>>) -> Seq<(Account, Seq<Seq<char>>)>
    decreases t, 0nat,
{
    match t.root {
        OrgNode::Account(a) => seq![(a, anc)],
        OrgNode::Ou(ou) => match t.children {
            None => Seq::empty(),
            Some(cs) => emitted_forest(cs@, cs@.len() as int, anc.push(ou.name@)),
        },
    }
}

/// What the first `n` trees of `cs` emit, the last of them first: a stack
/// that received them in order hands them out in reverse.
pub open spec fn emitted_forest(cs: Seq<Box<OrgTree>>, n: int, anc: Seq<Seq<char>>) -> Seq<
    (Account, Seq<Seq<char>>),
>
    decreases cs, n,
{
    if n <= 0 || n > cs.len() {
        Seq::empty()
    } else {
        emitted(*cs[n - 1], anc) + emitted_forest(cs, n - 1, anc)
    }
}

/// The accounts of a tree in the order the directory listed them: a unit's
/// children in order, each subtree whole before the next.
pub open spec fn tree_accounts(t: OrgTree) -> Seq<Account>
    decreases t, 0nat,
{
    match t.root {
        OrgNode::Account(a) => seq![a],
        OrgNode::Ou(_) => match t.children {
            None => Seq::empty(),
            Some(cs) => forest_accounts(cs@, cs@.len() as int),
        },
    }
}

/// The accounts of the first `n` trees of `cs`, in order.
pub open spec fn forest_accounts(cs: Seq<Box<OrgTree>>, n: int) -> Seq<Account>
    decreases cs, n,
{
    if n <= 0 || n > cs.len() {
        Seq::empty()
    } else {
        forest_accounts(cs, n - 1) + tree_accounts(*cs[n - 1])
    }
}

/// Every node of a tree, each before the nodes below it; a node's children
/// are visited last one first.
pub open spec fn preorder(t: OrgTree) -> Seq<OrgTree>
    decreases t, 0nat,
{
    seq![t] + match t.children {
        None => Seq::empty(),
        Some(cs) => preorder_forest(cs@, cs@.len() as int),
    }
}

/// The visits of the first `n` trees of `cs`, the last of them first.
pub open spec fn preorder_forest(cs: Seq<Box<OrgTree>>, n: int) -> Seq<OrgTree>
    decreases cs, n,
{
    if n <= 0 || n > cs.len() {
        Seq::empty()
    } else {
        preorder(*cs[n - 1]) + preorder_forest(cs, n - 1)
    }
}

/// What the trees still on a traversal stack will visit, the top first.
pub open spec fn pending_visits(st: Seq<OrgTree>) -> Seq<OrgTree>
    decreases st.len(),
{
    if st.len() == 0 {
        Seq::empty()
    } else {
        preorder(st.last()) + pending_visits(st.drop_last())
    }
}

/// Number of nodes in the trees on a traversal stack.
pub open spec fn stack_size(st: Seq<OrgTree>) -> nat
    decreases st.len(),
{
    if st.len() == 0 {
        0
    } else {
        tree_size(st.last()) + stack_size(st.drop_last())
    }
}

pub open spec fn deref_all(st: Seq<&OrgTree>) -> Seq<OrgTree> {
    st.map_values(|r: &OrgTree| *r)
}

impl OrgTree {
    pub fn new(root: OrgNode) -> (r: OrgTree)
        ensures
            r.root == root,
            r.children is None,
    {
        OrgTree { root: root, children: None }
    }

    /// Visits every node with an explicit stack: a node comes before the
    /// nodes below it, and a node's children, pushed in order, are popped
    /// last one first.
    pub fn iterative_preorder_ou(&self) -> (res: Vec<&OrgTree>)
        ensures
            deref_all(res@) == preorder(*self),
    {
        let mut stack: Vec<&OrgTree> = Vec::new();
        let mut res: Vec<&OrgTree> = Vec::new();
        stack.push(self);
        proof {
            assert(deref_all(stack@).drop_last() =~= Seq::<OrgTree>::empty());
            assert(deref_all(stack@).last() == *self);
            assert(pending_visits(Seq::<OrgTree>::empty()) =~= Seq::empty());
            assert(deref_all(res@) =~= Seq::empty());
            assert(deref_all(res@) + pending_visits(deref_all(stack@)) =~= preorder(*self));
        }
        while stack.len() > 0
            invariant
                deref_all(res@) + pending_visits(deref_all(stack@)) == preorder(*self),
            decreases stack_size(deref_all(stack@)),
        {
            let ghost st0 = deref_all(stack@);
            let ghost r0 = deref_all(res@);
            let node: &OrgTree = stack.pop().unwrap();
            let ghost st1 = deref_all(stack@);
            res.push(node);
            proof {
                assert(st1 =~= st0.drop_last());
                assert(st0.last() == *node);
                assert(deref_all(res@) =~= r0.push(*node));
            }
            match &node.children {
                Some(children) => {
                    let mut j: usize = 0;
                    while j < children.len()
                        invariant
                            j <= children@.len(),
                            pending_visits(deref_all(stack@)) == preorder_forest(children@, j as int)
                                + pending_visits(st1),
                            stack_size(deref_all(stack@)) == stack_size(st1) + forest_size(
                                children@,
                                j as int,
                            ),
                        decreases children@.len() - j,
                    {
                        let ghost sb = deref_all(stack@);
                        stack.push(&*children[j]);
                        proof {
                            assert(deref_all(stack@).drop_last() =~= sb);
                        }
                        j = j + 1;
                    }
                    proof {
                        assert(preorder(*node) == seq![*node] + preorder_forest(children@, j as int));
                        assert(deref_all(res@) + pending_visits(deref_all(stack@)) =~= r0 + (
                        preorder(*node) + pending_visits(st1)));
                    }
                },
                None => {
                    proof {
                        assert(preorder(*node) =~= seq![*node]);
                        assert(deref_all(res@) + pending_visits(deref_all(stack@)) =~= r0 + (
                        preorder(*node) + pending_visits(st1)));
                    }
                },
            }
        }
        proof {
            assert(deref_all(res@) + pending_visits(deref_all(stack@)) =~= deref_all(res@));
        }
        res
    }
}

} // verus!
