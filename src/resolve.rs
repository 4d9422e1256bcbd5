use vstd::prelude::*;
use crate::builder::{units_first, well_ordered};
use crate::org::{
    Account, OrgNode, OrgTree, emitted, emitted_forest, tree_size, forest_size, stack_size, deref_all,
    tree_accounts, forest_accounts,
};

verus! {

/// The names joined with `:` between them.
pub open spec fn join_names(names: Seq<Seq<char>>) -> Seq<char>
    decreases names.len(),
{
    if names.len() == 0 {
        Seq::empty()
    } else if names.len() == 1 {
        names[0]
    } else {
        join_names(names.drop_last()) + seq![':'] + names.last()
    }
}

/// The label of an account whose enclosing units are `anc`, the synthetic
/// root first: the names below the root joined with `:`.
pub open spec fn ou_path(anc: Seq<Seq<char>>) -> Seq<char> {
    if anc.len() <= 1 {
        Seq::empty()
    } else {
        join_names(anc.drop_first())
    }
}

pub open spec fn names_of(v: Seq<String>) -> Seq<Seq<char>> {
    v.map_values(|s: String| s@)
}

/// The resolved accounts of a whole tree, each with its label.
pub open spec fn resolved(t: OrgTree) -> Seq<(Account, Seq<char>)> {
    labelled(emitted(t, Seq::empty()))
}

/// Each account paired with the label of its enclosing units.
pub open spec fn labelled(s: Seq<(Account, Seq<Seq<char>>)>) -> Seq<(Account, Seq<char>)> {
    s.map_values(|e: (Account, Seq<Seq<char>>)| (e.0, ou_path(e.1)))
}

proof fn lemma_labelled_add(x: Seq<(Account, Seq<Seq<char>>)>, y: Seq<(Account, Seq<Seq<char>>)>)
    ensures
        labelled(x + y) == labelled(x) + labelled(y),
{
    assert(labelled(x + y) =~= labelled(x) + labelled(y));
}

pub open spec fn resolved_view(r: Seq<(Account, String)>) -> Seq<(Account, Seq<char>)> {
    r.map_values(|p: (Account, String)| (p.0, p.1@))
}

/// Joins the unit names after the first (the synthetic root) with `:`.
pub fn build_ou_prefix(ou_prefix_vec: &Vec<String>) -> (r: String)
    ensures
        r@ == ou_path(names_of(ou_prefix_vec@)),
{
    let mut r = String::new();
    if ou_prefix_vec.len() > 1 {
        let ghost names = names_of(ou_prefix_vec@).drop_first();
        r.append(ou_prefix_vec[1].as_str());
        let mut i: usize = 2;
        assert(names.take(1) =~= seq![names[0]]);
        while i < ou_prefix_vec.len()
            invariant
                2 <= i <= ou_prefix_vec.len(),
                names == names_of(ou_prefix_vec@).drop_first(),
                r@ == join_names(names.take(i - 1)),
            decreases ou_prefix_vec.len() - i,
        {
            r.append(":");
            r.append(ou_prefix_vec[i].as_str());
            proof {
                reveal_strlit(":");
                let t = names.take(i as int);
                assert(t.drop_last() =~= names.take(i - 1));
            }
            i = i + 1;
        }
        assert(names.take(i - 1) =~= names);
    }
    r
}


/// What the trees still on a traversal stack will emit, the top of the stack
/// first; `anc[k]` holds the unit names above `st[k]`.
pub open spec fn pending(st: Seq<OrgTree>, anc: Seq<Seq<Seq<char>>>) -> Seq<
    (Account, Seq<Seq<char>>),
>
    decreases st.len(),
{
    if st.len() == 0 || anc.len() == 0 {
        Seq::empty()
    } else {
        emitted(st.last(), anc.last()) + pending(st.drop_last(), anc.drop_last())
    }
}

/// The stack splits, from the top, into groups of siblings: the top group
/// holds `counts.last()` trees whose enclosing units are `prefix`, the group
/// below it those whose units are `prefix` without its last name, and so on.
pub open spec fn groups_ok(
    anc: Seq<Seq<Seq<char>>>,
    counts: Seq<usize>,
    prefix: Seq<Seq<char>>,
) -> bool
    decreases counts.len(),
{
    if counts.len() == 0 {
        anc.len() == 0
    } else {
        let top = counts.last() as int;
        &&& prefix.len() + 1 == counts.len()
        &&& top <= anc.len()
        &&& forall|k: int| anc.len() - top <= k < anc.len() ==> #[trigger] anc[k] == prefix
        &&& groups_ok(
            anc.take(anc.len() - top),
            counts.drop_last(),
            if prefix.len() > 0 {
                prefix.drop_last()
            } else {
                prefix
            },
        )
    }
}

/// Lists every account of the tree with the `:`-joined names of the units
/// above it, not counting the root unit. A unit's children are pushed on a
/// stack in order and popped in reverse; a parallel stack counts the
/// siblings of each level that are still to come, and a level's name is
/// dropped from the path as soon as its count reaches zero.
pub fn list_accounts(tree: &OrgTree) -> (accounts: Vec<(Account, String)>)
    ensures
        resolved_view(accounts@) == resolved(*tree),
{
    let mut accounts: Vec<(Account, String)> = Vec::new();
    let mut stack: Vec<&OrgTree> = Vec::new();
    let mut height_stack: Vec<usize> = Vec::new();
    let mut ou_prefix: Vec<String> = Vec::new();
    let ghost mut anc: Seq<Seq<Seq<char>>> = seq![Seq::empty()];
    let ghost target = emitted(*tree, Seq::empty());

    stack.push(tree);
    height_stack.push(1);
    proof {
        assert(anc.take(0) =~= Seq::<Seq<Seq<char>>>::empty());
        assert(height_stack@.drop_last() =~= Seq::<usize>::empty());
        assert(names_of(ou_prefix@) =~= Seq::<Seq<char>>::empty());
        assert(anc[0] == names_of(ou_prefix@));
        assert(groups_ok(anc.take(0), height_stack@.drop_last(), names_of(ou_prefix@)));
        assert(groups_ok(anc, height_stack@, names_of(ou_prefix@)));
        assert(deref_all(stack@).drop_last() =~= Seq::<OrgTree>::empty());
        assert(deref_all(stack@).last() == *tree);
        assert(anc.drop_last() =~= Seq::<Seq<Seq<char>>>::empty());
        assert(pending(Seq::<OrgTree>::empty(), Seq::<Seq<Seq<char>>>::empty()) =~= Seq::empty());
        assert(pending(deref_all(stack@), anc) =~= target);
    }
    while stack.len() > 0
        invariant
            stack@.len() == anc.len(),
            groups_ok(anc, height_stack@, names_of(ou_prefix@)),
            height_stack@.len() == 0 || height_stack@.last() > 0,
            resolved_view(accounts@) + labelled(pending(deref_all(stack@), anc)) == labelled(target),
        decreases stack_size(deref_all(stack@)),
    {
        let ghost st0 = deref_all(stack@);
        let ghost anc0 = anc;
        let ghost a = anc.last();
        let node: &OrgTree = stack.pop().unwrap();
        let ghost st1 = deref_all(stack@);
        proof {
            assert(st1 =~= st0.drop_last());
            anc = anc.drop_last();
        }
        let ghost anc1 = anc;
        let ghost acc0 = resolved_view(accounts@);
        proof {
            assert(st0.last() == *node);
            assert(anc0 =~= anc1.push(a));
            assert(pending(st0, anc0) == emitted(*node, a) + pending(st1, anc1));
            lemma_labelled_add(emitted(*node, a), pending(st1, anc1));
        }
        let ghost prefix0 = names_of(ou_prefix@);
        let ghost h0 = height_stack@;
        let hlen = height_stack.len();
        let last = height_stack[hlen - 1];
        height_stack.set(hlen - 1, last - 1);
        proof {
            let top = h0.last() as int;
            assert(anc0[anc0.len() - 1] == prefix0);
            assert(a == prefix0);
            assert(anc1.take(anc1.len() - (top - 1)) =~= anc0.take(anc0.len() - top));
            assert(forall|k: int| anc1.len() - (top - 1) <= k < anc1.len() ==> #[trigger] anc1[k] == anc0[k]);
            assert(height_stack@.drop_last() =~= h0.drop_last());
            assert(groups_ok(anc1, height_stack@, prefix0));
        }
        match &node.root {
            OrgNode::Ou(ou) => {
                match &node.children {
                    Some(children) => {
                        ou_prefix.push(ou.name.clone());
                        height_stack.push(children.len());
                        let ghost x = a.push(ou.name@);
                        proof {
                            assert(names_of(ou_prefix@) =~= x);
                        }
                        let mut j: usize = 0;
                        while j < children.len()
                            invariant
                                j <= children@.len(),
                                deref_all(stack@).len() == st1.len() + j,
                                anc.len() == anc1.len() + j,
                                anc.take(anc1.len() as int) == anc1,
                                forall|k: int| anc1.len() <= k < anc.len() ==> #[trigger] anc[k] == x,
                                pending(deref_all(stack@), anc) == emitted_forest(children@, j as int, x)
                                    + pending(st1, anc1),
                                stack_size(deref_all(stack@)) == stack_size(st1) + forest_size(children@, j as int),
                            decreases children@.len() - j,
                        {
                            let ghost sb = deref_all(stack@);
                            let ghost ab = anc;
                            stack.push(&*children[j]);
                            proof {
                                anc = anc.push(x);
                                assert(deref_all(stack@).drop_last() =~= sb);
                                assert(anc.drop_last() =~= ab);
                                assert(anc.take(anc1.len() as int) =~= ab.take(anc1.len() as int));
                            }
                            j = j + 1;
                        }
                        proof {
                            let n = children@.len() as int;
                            let hs = height_stack@;
                            assert(hs.drop_last() =~= h0.update(h0.len() - 1, (h0.last() - 1) as usize));
                            assert(anc.take(anc.len() - n) =~= anc1);
                            assert(names_of(ou_prefix@).drop_last() =~= prefix0);
                            assert(forall|k: int| anc.len() - n <= k < anc.len() ==> #[trigger] anc[k] == names_of(ou_prefix@));
                            assert(groups_ok(anc, hs, names_of(ou_prefix@)));
                            assert(tree_size(*node) == 1 + forest_size(children@, n));
                        }
                    },
                    None => {},
                }
            },
            OrgNode::Account(account) => {
                let path = build_ou_prefix(&ou_prefix);
                accounts.push((account.duplicate(), path));
                proof {
                    assert(resolved_view(accounts@) =~= acc0 + labelled(emitted(*node, a)));
                }
            },
        }
        loop
            invariant
                groups_ok(anc, height_stack@, names_of(ou_prefix@)),
            ensures
                groups_ok(anc, height_stack@, names_of(ou_prefix@)),
                height_stack@.len() == 0 || height_stack@.last() > 0,
            decreases height_stack@.len(),
        {
            if height_stack.len() == 0 {
                break;
            }
            if height_stack[height_stack.len() - 1] != 0 {
                break;
            }
            let ghost pb = names_of(ou_prefix@);
            height_stack.pop();
            ou_prefix.pop();
            proof {
                assert(anc.take(anc.len() - 0) =~= anc);
                if pb.len() > 0 {
                    assert(names_of(ou_prefix@) =~= pb.drop_last());
                } else {
                    assert(names_of(ou_prefix@) =~= pb);
                }
            }
        }
    }
    proof {
        assert(pending(deref_all(stack@), anc) =~= Seq::empty());
        assert(labelled(Seq::empty()) =~= Seq::empty());
        assert(resolved_view(accounts@) + labelled(Seq::empty()) =~= resolved_view(accounts@));
    }
    accounts
}

/// The accounts of emitted entries, without their unit names.
pub open spec fn accounts_of(s: Seq<(Account, Seq<Seq<char>>)>) -> Seq<Account> {
    s.map_values(|e: (Account, Seq<Seq<char>>)| e.0)
}

proof fn lemma_accounts_of_add(x: Seq<(Account, Seq<Seq<char>>)>, y: Seq<(Account, Seq<Seq<char>>)>)
    ensures
        accounts_of(x + y) == accounts_of(x) + accounts_of(y),
{
    assert(accounts_of(x + y) =~= accounts_of(x) + accounts_of(y));
}

proof fn lemma_emitted_accounts(t: OrgTree, anc: Seq<Seq<char>>)
    ensures
        accounts_of(emitted(t, anc)).to_multiset() == tree_accounts(t).to_multiset(),
    decreases t, 0nat,
{
    match t.root {
        OrgNode::Account(a) => {
            assert(accounts_of(emitted(t, anc)) =~= tree_accounts(t));
        },
        OrgNode::Ou(ou) => match t.children {
            None => {
                assert(accounts_of(emitted(t, anc)) =~= tree_accounts(t));
            },
            Some(cs) => {
                lemma_forest_accounts(cs@, cs@.len() as int, anc.push(ou.name@));
            },
        },
    }
}

proof fn lemma_forest_accounts(cs: Seq<Box<OrgTree>>, n: int, anc: Seq<Seq<char>>)
    ensures
        accounts_of(emitted_forest(cs, n, anc)).to_multiset() == forest_accounts(cs, n).to_multiset(),
    decreases cs, n,
{
    broadcast use vstd::seq_lib::lemma_multiset_commutative;

    if n <= 0 || n > cs.len() {
        assert(accounts_of(emitted_forest(cs, n, anc)) =~= Seq::empty());
    } else {
        lemma_emitted_accounts(*cs[n - 1], anc);
        lemma_forest_accounts(cs, n - 1, anc);
        lemma_accounts_of_add(emitted(*cs[n - 1], anc), emitted_forest(cs, n - 1, anc));
        let x = accounts_of(emitted(*cs[n - 1], anc));
        let y = accounts_of(emitted_forest(cs, n - 1, anc));
        assert((x + y).to_multiset() =~= (forest_accounts(cs, n - 1) + tree_accounts(*cs[n - 1])).to_multiset());
    }
}

/// Every account of the tree is listed exactly once, none dropped and none
/// repeated: the listed accounts and the accounts of the tree are equal as
/// multisets, and there are as many entries as accounts.
pub proof fn lemma_each_account_listed_once(t: OrgTree)
    ensures
        resolved(t).map_values(|e: (Account, Seq<char>)| e.0).to_multiset()
            == tree_accounts(t).to_multiset(),
        resolved(t).len() == tree_accounts(t).len(),
{
    broadcast use vstd::seq_lib::group_to_multiset_ensures;

    lemma_emitted_accounts(t, Seq::empty());
    assert(resolved(t).map_values(|e: (Account, Seq<char>)| e.0) =~= accounts_of(emitted(t, Seq::empty())));
    assert(resolved(t).map_values(|e: (Account, Seq<char>)| e.0).to_multiset().len() == resolved(t).len());
}

proof fn lemma_forest_holds_single(cs: Seq<Box<OrgTree>>, n: int, anc: Seq<Seq<char>>, i: int)
    requires
        0 <= i < n <= cs.len(),
        emitted(*cs[i], anc).len() == 1,
    ensures
        emitted_forest(cs, n, anc).contains(emitted(*cs[i], anc)[0]),
    decreases n,
{
    let e = emitted(*cs[i], anc)[0];
    if i == n - 1 {
        assert(emitted_forest(cs, n, anc)[0] == e);
    } else {
        lemma_forest_holds_single(cs, n - 1, anc, i);
        let rest = emitted_forest(cs, n - 1, anc);
        let k = choose|k: int| 0 <= k < rest.len() && rest[k] == e;
        let head = emitted(*cs[n - 1], anc);
        assert(emitted_forest(cs, n, anc)[head.len() + k] == e);
    }
}

/// An account that hangs directly below the synthetic root is listed with
/// the empty path.
pub proof fn lemma_top_level_account_has_empty_path(t: OrgTree, i: int)
    requires
        t.root is Ou,
        t.children is Some,
        0 <= i < t.children->Some_0@.len(),
        t.children->Some_0@[i].root is Account,
    ensures
        resolved(t).contains((t.children->Some_0@[i].root->Account_0, Seq::<char>::empty())),
{
    let cs = t.children->Some_0@;
    let x = Seq::<Seq<char>>::empty().push(t.root->Ou_0.name@);
    let a = t.children->Some_0@[i].root->Account_0;
    assert(emitted(*cs[i], x) == seq![(a, x)]);
    lemma_forest_holds_single(cs, cs.len() as int, x, i);
    let s = emitted(t, Seq::empty());
    let k = choose|k: int| 0 <= k < s.len() && s[k] == (a, x);
    assert(ou_path(x) == Seq::<char>::empty());
    assert(resolved(t)[k] == (a, Seq::<char>::empty()));
}

/// Listing the same tree twice gives the same accounts with the same paths,
/// in the same order.
pub proof fn lemma_listing_is_repeatable(t: OrgTree, first: Seq<(Account, String)>, second: Seq<(Account, String)>)
    requires
        resolved_view(first) == resolved(t),
        resolved_view(second) == resolved(t),
    ensures
        resolved_view(first) == resolved_view(second),
        first.len() == second.len(),
        forall|i: int| 0 <= i < first.len() ==> first[i].0 == second[i].0 && first[i].1@ == second[i].1@,
{
    assert(resolved_view(first).len() == first.len());
    assert(resolved_view(second).len() == second.len());
    assert forall|i: int| 0 <= i < first.len() implies first[i].0 == second[i].0 && first[i].1@ == second[i].1@ by {
        assert(resolved_view(first)[i] == (first[i].0, first[i].1@));
        assert(resolved_view(second)[i] == (second[i].0, second[i].1@));
    }
}


/// Where the entries of `cs[i]` start within what the first `n` trees of
/// `cs` emit.
pub open spec fn block_start(cs: Seq<Box<OrgTree>>, n: int, anc: Seq<Seq<char>>, i: int) -> int
    decreases n,
{
    if n <= 0 || n - 1 <= i {
        0
    } else {
        emitted(*cs[n - 1], anc).len() + block_start(cs, n - 1, anc, i)
    }
}

proof fn lemma_block(cs: Seq<Box<OrgTree>>, n: int, anc: Seq<Seq<char>>, i: int)
    requires
        0 <= i < n <= cs.len(),
    ensures
        0 <= block_start(cs, n, anc, i),
        block_start(cs, n, anc, i) + emitted(*cs[i], anc).len() <= emitted_forest(cs, n, anc).len(),
        emitted_forest(cs, n, anc).subrange(
            block_start(cs, n, anc, i),
            block_start(cs, n, anc, i) + emitted(*cs[i], anc).len(),
        ) == emitted(*cs[i], anc),
    decreases n,
{
    let head = emitted(*cs[n - 1], anc);
    let rest = emitted_forest(cs, n - 1, anc);
    assert(emitted_forest(cs, n, anc) == head + rest);
    if n - 1 == i {
        assert((head + rest).subrange(0, head.len() as int) =~= head);
    } else {
        lemma_block(cs, n - 1, anc, i);
        let b = block_start(cs, n - 1, anc, i);
        let e = emitted(*cs[i], anc);
        assert((head + rest).subrange(head.len() + b, head.len() + b + e.len()) =~= rest.subrange(b, b + e.len()));
    }
}

proof fn lemma_block_order(cs: Seq<Box<OrgTree>>, n: int, anc: Seq<Seq<char>>, j: int, i: int)
    requires
        0 <= j < i < n <= cs.len(),
    ensures
        block_start(cs, n, anc, i) + emitted(*cs[i], anc).len() <= block_start(cs, n, anc, j),
    decreases n,
{
    if n - 1 == i {
        assert(block_start(cs, n - 1, anc, j) >= 0) by {
            lemma_block(cs, n - 1, anc, j);
        }
    } else {
        lemma_block_order(cs, n - 1, anc, j, i);
    }
}

/// In a well-ordered tree, an account that sits directly in a unit is
/// listed before everything listed from inside any of the unit's child
/// units: a unit's own accounts are grouped ahead of its nested units.
pub proof fn lemma_own_accounts_before_nested(t: OrgTree, anc: Seq<Seq<char>>, i: int, j: int)
    requires
        well_ordered(t),
        t.root is Ou,
        t.children is Some,
        0 <= i < t.children->Some_0@.len(),
        0 <= j < t.children->Some_0@.len(),
        t.children->Some_0@[i].root is Account,
        t.children->Some_0@[j].root is Ou,
    ensures
        ({
            let x = anc.push(t.root->Ou_0.name@);
            let s = emitted(t, anc);
            let e = emitted(*t.children->Some_0@[j], x);
            exists|k: int, start: int|
                0 <= k < start && start + e.len() <= s.len() && #[trigger] s[k] == (
                    t.children->Some_0@[i].root->Account_0,
                    x,
                ) && #[trigger] s.subrange(start, start + e.len()) == e
        }),
{
    let cs = t.children->Some_0@;
    let n = cs.len() as int;
    let x = anc.push(t.root->Ou_0.name@);
    let s = emitted(t, anc);
    assert(units_first(cs));
    if i < j {
        assert(cs[j].root is Account);
    }
    assert(j < i);
    lemma_block(cs, n, x, i);
    lemma_block(cs, n, x, j);
    lemma_block_order(cs, n, x, j, i);
    let k = block_start(cs, n, x, i);
    let start = block_start(cs, n, x, j);
    let a = cs[i].root->Account_0;
    assert(emitted(*cs[i], x) == seq![(a, x)]);
    assert(s == emitted_forest(cs, n, x));
    assert(s.subrange(k, k + 1)[0] == s[k]);
    assert(s[k] == (a, x));
}

} // verus!
