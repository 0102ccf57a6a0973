use uindex::facttree::{mk_children, CarryOver, FSNode, FactSet};
use uindex::hashing::calculate_name_hash;
use uindex::matching::MPMatching;
use uindex::path::{MPPath, TSegment};
use uindex::segment::MPSegment;

fn leaf(name: &str, text: &str) -> MPSegment {
    MPSegment::new(
        name.to_string(),
        text.to_string(),
        true,
        name == "var",
        name.starts_with("v_"),
        name.starts_with("u_"),
    )
}

fn root_step() -> TSegment {
    TSegment { name: calculate_name_hash("fact"), text: 0 }
}

fn path(name: &str, text: &str) -> MPPath {
    MPPath::new(vec![root_step()], leaf(name, text))
}

fn flat(texts: &[(&str, &str)]) -> Vec<MPPath> {
    texts.iter().map(|(name, text)| path(name, text)).collect()
}

fn x(name: &str) -> MPSegment {
    leaf("var", name)
}

#[test]
fn carry_over_remembers_and_gives_up() {
    let carry = CarryOver::new();
    let (carry, none) = carry.node(3);
    assert_eq!(none, None);
    let carry = carry.add(3, 7);
    let carry = carry.add(5, 9);
    let carry = carry.add(3, 8);
    let (carry, three) = carry.node(3);
    assert_eq!(three, Some(8));
    let (carry, again) = carry.node(3);
    assert_eq!(again, None);
    let (carry, five) = carry.node(5);
    assert_eq!(five, Some(9));
    let (_, gone) = carry.node(5);
    assert_eq!(gone, None);
}

#[test]
fn new_node_has_no_children() {
    assert_eq!(mk_children().len(), 0);
    let root = FSNode::new(None);
    assert!(root.value().is_none());
    assert_eq!(root.get_lchild(0), None);
    assert_eq!(root.child_keys().len(), 0);
    let node = FSNode::new(Some(leaf("v_name", "john")));
    assert_eq!(node.value().unwrap().text, "john");
    assert_eq!(node.get_lchild_r(&path("v_name", "john")), None);
}

#[test]
fn new_fact_set_is_a_lone_root() {
    let facts = FactSet::new();
    assert_eq!(facts.len(), 1);
    assert!(facts.root().value().is_none());
    assert!(facts.node(0).value().is_none());
    assert_eq!(facts.root().child_keys().len(), 0);
}

#[test]
fn intern_lchild_files_the_child_under_parent_and_carried_node() {
    let mut facts = FactSet::new();
    let (a, carry) = facts.intern_lchild(
        0,
        11,
        false,
        FSNode::new(Some(leaf("v_name", "a"))),
        CarryOver::new(),
        0,
    );
    assert_eq!(a, 1);
    let (b, carry) =
        facts.intern_lchild(0, 12, false, FSNode::new(Some(leaf("v_name", "b"))), carry, 1);
    assert_eq!(b, 2);
    assert_eq!(facts.len(), 3);
    assert_eq!(facts.root().get_lchild(11), Some(1));
    assert_eq!(facts.root().get_lchild(12), Some(2));
    let carry = carry.add(4, a);
    let (c, carry) =
        facts.intern_lchild(b, 13, false, FSNode::new(Some(leaf("v_name", "c"))), carry, 4);
    assert_eq!(c, 3);
    assert_eq!(facts.node(b).get_lchild(13), Some(3));
    assert_eq!(facts.node(a).get_lchild(13), Some(3));
    assert_eq!(facts.root().get_lchild(13), None);
    let (_, taken) = carry.node(4);
    assert_eq!(taken, None);
    assert_eq!(facts.node(c).value().unwrap().text, "c");
    let mut keys = facts.root().child_keys();
    keys.sort();
    assert_eq!(keys, vec![11, 12]);
}

#[test]
fn unique_child_takes_the_place_of_its_siblings() {
    let mut facts = FactSet::new();
    let (_, carry) = facts.intern_lchild(
        0,
        11,
        false,
        FSNode::new(Some(leaf("v_name", "a"))),
        CarryOver::new(),
        0,
    );
    let (_, carry) =
        facts.intern_lchild(0, 12, false, FSNode::new(Some(leaf("v_name", "b"))), carry, 1);
    let (c, _) = facts.intern_lchild(0, 13, true, FSNode::new(Some(leaf("u_name", "c"))), carry, 2);
    assert_eq!(facts.len(), 4);
    assert_eq!(facts.root().child_keys(), vec![13]);
    assert_eq!(facts.root().get_lchild(13), Some(c));
    assert_eq!(facts.root().get_lchild(11), None);
}

#[test]
fn add_fact_chains_the_leaves() {
    let mut facts = FactSet::new();
    let fact = flat(&[("v_name", "john"), ("verb", "loves"), ("v_name", "sue")]);
    let ids: Vec<u64> = fact.iter().map(|p| p.identity).collect();
    facts.add_fact(fact);
    assert_eq!(facts.len(), 4);
    assert_eq!(facts.root().get_lchild(ids[0]), Some(1));
    assert_eq!(facts.node(1).get_lchild(ids[1]), Some(2));
    assert_eq!(facts.node(2).get_lchild(ids[2]), Some(3));
    assert_eq!(facts.node(3).child_keys().len(), 0);
    assert_eq!(facts.node(1).value().unwrap().text, "john");
    assert_eq!(facts.node(3).value().unwrap().text, "sue");
}

#[test]
fn add_fact_inserts_even_what_is_known() {
    let mut facts = FactSet::new();
    facts.add_fact(flat(&[("v_name", "john"), ("v_name", "sue")]));
    facts.add_fact(flat(&[("v_name", "john"), ("v_name", "sue")]));
    assert_eq!(facts.len(), 3);
    facts.add_fact(flat(&[("v_name", "john"), ("v_name", "bob")]));
    assert_eq!(facts.len(), 4);
}

#[test]
fn follow_and_create_paths_shares_the_prefix() {
    let mut facts = FactSet::new();
    facts.follow_and_create_paths(
        0,
        flat(&[("v_name", "john"), ("verb", "loves"), ("v_name", "sue")]),
        CarryOver::new(),
    );
    facts.follow_and_create_paths(
        0,
        flat(&[("v_name", "john"), ("verb", "loves"), ("v_name", "bob")]),
        CarryOver::new(),
    );
    assert_eq!(facts.len(), 5);
    assert_eq!(facts.node(2).child_keys().len(), 2);
    facts.follow_and_create_paths(2, flat(&[("v_name", "ann")]), CarryOver::new());
    assert_eq!(facts.len(), 6);
    assert_eq!(facts.node(2).child_keys().len(), 3);
    let (resp, _) =
        facts.ask_fact(flat(&[("v_name", "john"), ("verb", "loves"), ("v_name", "ann")]));
    assert_eq!(resp.len(), 1);
}

#[test]
fn create_paths_creates_what_is_there_already() {
    let mut facts = FactSet::new();
    facts.create_paths(0, flat(&[("v_name", "john"), ("v_name", "sue")]), CarryOver::new(), 0);
    assert_eq!(facts.len(), 3);
    facts.create_paths(0, flat(&[("v_name", "john"), ("v_name", "sue")]), CarryOver::new(), 0);
    assert_eq!(facts.len(), 5);
    assert_eq!(facts.root().child_keys().len(), 1);
    assert_eq!(facts.root().get_lchild_r(&path("v_name", "john")), Some(3));
}

#[test]
fn create_paths_joins_a_branch_at_the_carried_index() {
    let mut facts = FactSet::new();
    facts.create_paths(0, flat(&[("v_name", "a")]), CarryOver::new(), 0);
    let carry = CarryOver::new().add(6, 1);
    let fact = flat(&[("v_name", "b"), ("v_name", "c"), ("v_name", "d")]);
    let c = fact[1].identity;
    facts.create_paths(0, fact, carry, 5);
    assert_eq!(facts.len(), 5);
    assert_eq!(facts.node(2).get_lchild(c), Some(3));
    assert_eq!(facts.node(1).get_lchild(c), Some(3));
}

#[test]
fn tell_says_whether_the_fact_was_new() {
    let mut facts = FactSet::new();
    assert!(facts.tell(flat(&[("v_name", "john"), ("v_name", "sue")])));
    assert!(!facts.tell(flat(&[("v_name", "john"), ("v_name", "sue")])));
    assert!(facts.tell(flat(&[("v_name", "john"), ("v_name", "bob")])));
    assert!(!facts.tell(flat(&[("v_name", "john"), ("var", "X1")])));
    assert_eq!(facts.len(), 4);
}

#[test]
fn told_twice_is_told_once() {
    let mut once = FactSet::new();
    let mut twice = FactSet::new();
    for facts in [&mut once, &mut twice] {
        facts.tell(flat(&[("v_name", "john"), ("verb", "loves"), ("v_name", "sue")]));
    }
    twice.tell(flat(&[("v_name", "john"), ("verb", "loves"), ("v_name", "sue")]));
    assert_eq!(once.len(), twice.len());
    for id in 0..once.len() {
        let mut a = once.node(id).child_keys();
        let mut b = twice.node(id).child_keys();
        a.sort();
        b.sort();
        assert_eq!(a, b);
    }
    let asked = flat(&[("v_name", "john"), ("var", "X1"), ("var", "X2")]);
    let (first, _) = once.ask_fact(asked.clone());
    let (second, _) = twice.ask_fact(asked);
    assert_eq!(first.len(), 1);
    assert_eq!(second.len(), 1);
    assert_eq!(first[0].get(&x("X2")).unwrap().text, second[0].get(&x("X2")).unwrap().text);
}

#[test]
fn unique_object_is_evicted_by_the_next() {
    let mut facts = FactSet::new();
    facts.tell(flat(&[("v_name", "A"), ("verb", "rel"), ("u_obj", "X")]));
    facts.tell(flat(&[("v_name", "A"), ("verb", "rel"), ("u_obj", "Y")]));
    let (first, _) = facts.ask_fact(flat(&[("v_name", "A"), ("verb", "rel"), ("u_obj", "X")]));
    assert_eq!(first.len(), 0);
    let (second, _) = facts.ask_fact(flat(&[("v_name", "A"), ("verb", "rel"), ("u_obj", "Y")]));
    assert_eq!(second.len(), 1);
    let (any, _) = facts.ask_fact(flat(&[("v_name", "A"), ("verb", "rel"), ("var", "X1")]));
    assert_eq!(any.len(), 1);
    assert_eq!(any[0].get(&x("X1")).unwrap().text, "Y");
}

#[test]
fn plain_objects_stay_side_by_side() {
    let mut facts = FactSet::new();
    facts.tell(flat(&[("v_name", "A"), ("verb", "rel"), ("v_obj", "X")]));
    facts.tell(flat(&[("v_name", "A"), ("verb", "rel"), ("v_obj", "Y")]));
    let (any, _) = facts.ask_fact(flat(&[("v_name", "A"), ("verb", "rel"), ("var", "X1")]));
    assert_eq!(any.len(), 2);
}

#[test]
fn ask_fact_hands_the_fact_back() {
    let facts = FactSet::new();
    let fact = flat(&[("v_name", "john"), ("v_name", "sue")]);
    let ids: Vec<u64> = fact.iter().map(|p| p.identity).collect();
    let (resp, back) = facts.ask_fact(fact);
    assert_eq!(resp.len(), 0);
    assert_eq!(back.iter().map(|p| p.identity).collect::<Vec<u64>>(), ids);
    let (known, back) = facts.ask_fact_bool(back);
    assert!(!known);
    assert_eq!(back.len(), 2);
}

#[test]
fn fact_without_leaves_matches_once() {
    let facts = FactSet::new();
    let (resp, _) = facts.ask_fact(Vec::new());
    assert_eq!(resp.len(), 1);
    assert_eq!(resp[0].len(), 0);
    let blank = vec![path("v_name", "  ")];
    let (resp, _) = facts.ask_fact(blank);
    assert_eq!(resp.len(), 1);
    let (known, _) = facts.ask_fact_bool(Vec::new());
    assert!(known);
}

#[test]
fn query_paths_adds_to_what_was_found() {
    let mut facts = FactSet::new();
    facts.tell(flat(&[("v_name", "john"), ("v_name", "sue")]));
    facts.tell(flat(&[("v_name", "john"), ("v_name", "bob")]));
    let asked = flat(&[("v_name", "john"), ("var", "X1")]);
    let mut sofar = MPMatching::new();
    sofar.insert(x("X9"), leaf("v_name", "kept"));
    let resp = facts.root().query_paths(
        &facts,
        &[asked.as_slice()],
        MPMatching::new(),
        vec![sofar],
        None,
    );
    assert_eq!(resp.len(), 3);
    assert_eq!(resp[0].get(&x("X9")).unwrap().text, "kept");
    let mut found: Vec<String> =
        resp[1..].iter().map(|m| m.get(&x("X1")).unwrap().text.clone()).collect();
    found.sort();
    assert_eq!(found, vec!["bob".to_string(), "sue".to_string()]);
}

#[test]
fn query_paths_starts_where_it_is_told_to() {
    let mut facts = FactSet::new();
    facts.tell(flat(&[("v_name", "john"), ("v_name", "sue")]));
    let john = facts.root().get_lchild_r(&path("v_name", "john")).unwrap();
    let tail = flat(&[("var", "X1")]);
    let whole = flat(&[("v_name", "john"), ("var", "X2")]);
    let resp = facts.node(john).query_paths(
        &facts,
        &[tail.as_slice(), whole.as_slice()],
        MPMatching::new(),
        Vec::new(),
        Some(facts.root()),
    );
    assert_eq!(resp.len(), 1);
    assert_eq!(resp[0].get(&x("X1")).unwrap().text, "sue");
    assert_eq!(resp[0].get(&x("X2")).unwrap().text, "sue");
    let stuck = facts.node(john).query_paths(
        &facts,
        &[tail.as_slice(), whole.as_slice()],
        MPMatching::new(),
        Vec::new(),
        None,
    );
    assert_eq!(stuck.len(), 0);
}

#[test]
fn bound_variable_is_looked_up_as_its_binding() {
    let mut facts = FactSet::new();
    facts.tell(flat(&[("v_name", "john"), ("v_name", "john")]));
    facts.tell(flat(&[("v_name", "john"), ("v_name", "sue")]));
    facts.tell(flat(&[("v_name", "sue"), ("v_name", "sue")]));
    let (resp, _) = facts.ask_fact(flat(&[("var", "X1"), ("var", "X1")]));
    assert_eq!(resp.len(), 2);
    let mut found: Vec<String> =
        resp.iter().map(|m| m.get(&x("X1")).unwrap().text.clone()).collect();
    found.sort();
    assert_eq!(found, vec!["john".to_string(), "sue".to_string()]);
    let mut bound = MPMatching::new();
    bound.insert(x("X1"), leaf("v_name", "sue"));
    let asked = flat(&[("v_name", "john"), ("var", "X1")]);
    let resp = facts.root().query_paths(&facts, &[asked.as_slice()], bound, Vec::new(), None);
    assert_eq!(resp.len(), 1);
    assert_eq!(resp[0].len(), 1);
}

#[test]
fn ask_facts_joins_on_shared_variables() {
    let mut facts = FactSet::new();
    facts.tell(flat(&[("v_name", "john"), ("verb", "isa"), ("v_name", "person")]));
    facts.tell(flat(&[("v_name", "john"), ("verb", "isa"), ("v_name", "animal")]));
    facts.tell(flat(&[("v_name", "sue"), ("verb", "isa"), ("v_name", "animal")]));
    let resp = facts.ask_facts(vec![
        flat(&[("v_name", "sue"), ("verb", "isa"), ("var", "X1")]),
        flat(&[("v_name", "john"), ("verb", "isa"), ("var", "X1")]),
    ]);
    assert_eq!(resp.len(), 1);
    assert_eq!(resp[0].get(&x("X1")).unwrap().text, "animal");
    let cross = facts.ask_facts(vec![
        flat(&[("v_name", "sue"), ("verb", "isa"), ("var", "X1")]),
        flat(&[("v_name", "john"), ("verb", "isa"), ("var", "X2")]),
    ]);
    assert_eq!(cross.len(), 2);
}

#[test]
fn query_paths_keeps_what_was_found_in_front() {
    let mut facts = FactSet::new();
    facts.tell(flat(&[("v_name", "john"), ("v_name", "sue")]));
    facts.tell(flat(&[("v_name", "john"), ("v_name", "bob")]));
    let given = |names: &[&str]| -> Vec<MPMatching> {
        names
            .iter()
            .map(|name| {
                let mut m = MPMatching::new();
                m.insert(x("X9"), leaf("v_name", name));
                m
            })
            .collect()
    };
    let kept = |resp: &Vec<MPMatching>| -> Vec<String> {
        resp[..3].iter().map(|m| m.get(&x("X9")).unwrap().text.clone()).collect()
    };
    let order = vec!["c".to_string(), "a".to_string(), "b".to_string()];
    let asked = flat(&[("v_name", "john"), ("var", "X1")]);
    let resp = facts.root().query_paths(
        &facts,
        &[asked.as_slice()],
        MPMatching::new(),
        given(&["c", "a", "b"]),
        None,
    );
    assert_eq!(resp.len(), 5);
    assert_eq!(kept(&resp), order);
    let dead = flat(&[("v_name", "mary"), ("var", "X1")]);
    let resp = facts.root().query_paths(
        &facts,
        &[dead.as_slice()],
        MPMatching::new(),
        given(&["c", "a", "b"]),
        None,
    );
    assert_eq!(resp.len(), 3);
    assert_eq!(kept(&resp), order);
    let mut sofar = MPMatching::new();
    sofar.insert(x("X1"), leaf("v_name", "sue"));
    let resp = facts.root().query_paths(&facts, &[&[]], sofar, given(&["c", "a", "b"]), None);
    assert_eq!(resp.len(), 4);
    assert_eq!(kept(&resp), order);
    assert_eq!(resp[3].get(&x("X1")).unwrap().text, "sue");
    assert_eq!(resp[3].len(), 1);
}
