use aws_organization_utils::builder::TreeBuilder;
use aws_organization_utils::org::{Account, OrgNode, OrgTree, OrganizationalUnit};
use aws_organization_utils::resolve::{build_ou_prefix, list_accounts};

fn ou(id: &str, name: &str) -> OrganizationalUnit {
    OrganizationalUnit {
        id: id.to_string(),
        name: name.to_string(),
        arn: format!("arn:ou:{}", id),
    }
}

fn account(id: &str) -> Account {
    Account {
        id: id.to_string(),
        name: format!("name-{}", id),
        email: format!("{}@example.com", id),
        status: "ACTIVE".to_string(),
    }
}

fn leaf(id: &str) -> Box<OrgTree> {
    Box::new(OrgTree::new(OrgNode::Account(account(id))))
}

fn unit(id: &str, name: &str, children: Vec<Box<OrgTree>>) -> OrgTree {
    OrgTree {
        root: OrgNode::Ou(ou(id, name)),
        children: Some(children),
    }
}

fn pairs(v: &[(Account, String)]) -> Vec<(String, String)> {
    v.iter().map(|(a, p)| (a.id.clone(), p.clone())).collect()
}

fn node_label(t: &OrgTree) -> String {
    match &t.root {
        OrgNode::Ou(o) => o.name.clone(),
        OrgNode::Account(a) => a.id.clone(),
    }
}

#[test]
fn nested_unit_listed_after_parent_accounts() {
    let apac = unit("ou-apac", "APAC", vec![leaf("A2")]);
    let finance = unit("ou-fin", "Finance", vec![Box::new(apac), leaf("A1")]);
    let root = unit("r-root", "Root", vec![Box::new(finance)]);
    let listed = pairs(&list_accounts(&root));
    assert_eq!(
        listed,
        vec![
            ("A1".to_string(), "Finance".to_string()),
            ("A2".to_string(), "Finance:APAC".to_string()),
        ]
    );
}

#[test]
fn account_under_root_has_empty_path() {
    let root = unit("r-root", "Root", vec![leaf("R1"), leaf("R2")]);
    let listed = pairs(&list_accounts(&root));
    assert_eq!(
        listed,
        vec![("R2".to_string(), String::new()), ("R1".to_string(), String::new())]
    );
}

#[test]
fn end_to_end_through_builder() {
    let mut b = TreeBuilder::new(ou("r-root", "Root"));
    assert_eq!(b.next_unit(), Some("r-root".to_string()));
    b.expanded(vec![ou("ou-eng", "Eng")], vec![account("R1")]);
    assert_eq!(b.next_unit(), Some("ou-eng".to_string()));
    b.expanded(vec![], vec![account("E1"), account("E2")]);
    assert_eq!(b.next_unit(), None);
    let tree = b.finish().expect("tree is finished");
    let listed = pairs(&list_accounts(&tree));
    assert_eq!(
        listed,
        vec![
            ("R1".to_string(), String::new()),
            ("E2".to_string(), "Eng".to_string()),
            ("E1".to_string(), "Eng".to_string()),
        ]
    );
}

#[test]
fn flat_directory_gives_accounts_as_root_leaves() {
    let mut b = TreeBuilder::new(ou("r-root", "Root"));
    b.expanded(vec![], vec![account("A"), account("B"), account("C")]);
    assert_eq!(b.next_unit(), None);
    let tree = b.finish().unwrap();
    let kids = tree.children.as_ref().unwrap();
    let ids: Vec<String> = kids.iter().map(|k| node_label(k)).collect();
    assert_eq!(ids, vec!["A", "B", "C"]);
    assert!(kids.iter().all(|k| k.children.is_none()));
}

#[test]
fn empty_directory_gives_bare_root() {
    let mut b = TreeBuilder::new(ou("r-root", "Root"));
    b.expanded(vec![], vec![]);
    let tree = b.finish().unwrap();
    assert!(tree.children.is_none());
    assert_eq!(node_label(&tree), "Root");
    assert!(list_accounts(&tree).is_empty());
}

#[test]
fn builder_expands_units_depth_first() {
    let mut b = TreeBuilder::new(ou("r", "Root"));
    b.expanded(vec![ou("a", "A"), ou("b", "B")], vec![account("R1")]);
    assert_eq!(b.next_unit(), Some("a".to_string()));
    b.expanded(vec![ou("a1", "A1")], vec![account("X")]);
    assert_eq!(b.next_unit(), Some("a1".to_string()));
    b.expanded(vec![], vec![account("Y")]);
    assert_eq!(b.next_unit(), Some("b".to_string()));
    b.expanded(vec![], vec![]);
    assert_eq!(b.next_unit(), None);
    let tree = b.finish().unwrap();
    let kids: Vec<String> = tree.children.as_ref().unwrap().iter().map(|k| node_label(k)).collect();
    assert_eq!(kids, vec!["A", "B", "R1"]);
    let listed = pairs(&list_accounts(&tree));
    assert_eq!(
        listed,
        vec![
            ("R1".to_string(), String::new()),
            ("X".to_string(), "A".to_string()),
            ("Y".to_string(), "A:A1".to_string()),
        ]
    );
}

#[test]
fn failed_subtree_is_left_out() {
    let mut b = TreeBuilder::new(ou("r", "Root"));
    b.expanded(vec![ou("a", "A"), ou("b", "B")], vec![]);
    b.expand_failed();
    assert_eq!(b.next_unit(), Some("b".to_string()));
    b.expanded(vec![], vec![account("B1")]);
    let tree = b.finish().unwrap();
    let kids: Vec<String> = tree.children.as_ref().unwrap().iter().map(|k| node_label(k)).collect();
    assert_eq!(kids, vec!["B"]);
}

#[test]
fn failed_root_gives_no_tree() {
    let mut b = TreeBuilder::new(ou("r", "Root"));
    b.expand_failed();
    assert!(b.root_failed);
    assert_eq!(b.next_unit(), None);
    assert!(b.finish().is_none());
}

#[test]
fn every_account_listed_once() {
    let deep = unit("d", "D", vec![leaf("D1"), leaf("D2")]);
    let mid = unit("m", "M", vec![Box::new(deep), leaf("M1")]);
    let empty = OrgTree::new(OrgNode::Ou(ou("e", "E")));
    let root = unit("r", "Root", vec![Box::new(mid), Box::new(empty), leaf("R1")]);
    let mut ids: Vec<String> = list_accounts(&root).iter().map(|(a, _)| a.id.clone()).collect();
    assert_eq!(ids.len(), 4);
    ids.sort();
    assert_eq!(ids, vec!["D1", "D2", "M1", "R1"]);
}

#[test]
fn listing_twice_is_identical() {
    let eng = unit("e", "Eng", vec![leaf("E1"), leaf("E2")]);
    let root = unit("r", "Root", vec![Box::new(eng), leaf("R1")]);
    let first = pairs(&list_accounts(&root));
    let second = pairs(&list_accounts(&root));
    assert_eq!(first, second);
}

#[test]
fn account_fields_are_kept() {
    let root = unit("r", "Root", vec![leaf("A")]);
    let listed = list_accounts(&root);
    assert_eq!(listed[0].0.email, "A@example.com");
    assert_eq!(listed[0].0.name, "name-A");
    assert_eq!(listed[0].0.status, "ACTIVE");
}

#[test]
fn prefix_joins_names_below_root() {
    assert_eq!(build_ou_prefix(&vec![]), "");
    assert_eq!(build_ou_prefix(&vec!["Root".to_string()]), "");
    assert_eq!(build_ou_prefix(&vec!["Root".to_string(), "A".to_string()]), "A");
    assert_eq!(
        build_ou_prefix(&vec!["Root".to_string(), "A".to_string(), "B".to_string(), "C".to_string()]),
        "A:B:C"
    );
}

#[test]
fn preorder_visits_node_before_children() {
    let eng = unit("e", "Eng", vec![leaf("E1"), leaf("E2")]);
    let root = unit("r", "Root", vec![Box::new(eng), leaf("R1")]);
    let order: Vec<String> = root.iterative_preorder_ou().iter().map(|t| node_label(t)).collect();
    assert_eq!(order, vec!["Root", "R1", "Eng", "E2", "E1"]);
}
