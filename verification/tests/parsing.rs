use uindex::hashing::calculate_name_hash;
use uindex::knowledge::DB;
use uindex::parser::{MPParser, ParseNode};
use uindex::path::{MPPath, TSegment};

fn node(name: &str, text: &str, children: Vec<ParseNode>) -> ParseNode {
    ParseNode::new(name.to_string(), text.to_string(), children)
}

fn step(name: &str, text: &str) -> TSegment {
    TSegment { name: calculate_name_hash(name), text: calculate_name_hash(text) }
}

fn sample() -> ParseNode {
    node(
        "fact",
        "(a b) c",
        vec![
            node(
                "v_term",
                "(a b)",
                vec![node("atom", "a", vec![]), node("gap", "", vec![]), node("v_atom", "b", vec![])],
            ),
            node("group", "c", vec![node("var", "c", vec![])]),
        ],
    )
}

#[test]
fn parse_node_keeps_its_parts() {
    let tree = sample();
    assert_eq!(tree.name, "fact");
    assert_eq!(tree.text, "(a b) c");
    assert_eq!(tree.children.len(), 2);
    assert_eq!(tree.children[0].children[2].text, "b");
}

#[test]
fn paths_come_in_pre_order_for_leaves_and_ranged_rules() {
    let mut parser = MPParser::new();
    let paths = parser.parse_fact(&sample());
    let shown: Vec<String> = paths.iter().map(|p| p.to_text()).collect();
    assert_eq!(shown, vec!["<v_term: (a b)>", "<atom: a>", "<v_atom: b>", "<var: c>"]);
    let fact = step("fact", "(a b) c");
    let term = step("v_term", "(a b)");
    let group = step("group", "c");
    assert_eq!(paths[0].segments, vec![fact, term]);
    assert_eq!(paths[1].segments, vec![fact, term, step("atom", "a")]);
    assert_eq!(paths[2].segments, vec![fact, term, step("v_atom", "b")]);
    assert_eq!(paths[3].segments, vec![fact, group, step("var", "c")]);
    assert!(!paths[0].value.is_leaf && paths[0].value.in_var_range);
    assert!(paths[1].value.is_leaf && !paths[1].value.in_var_range);
    assert!(paths[2].value.is_leaf && paths[2].value.in_var_range);
    assert!(paths[3].value.is_leaf && paths[3].value.is_var);
    for path in paths.iter() {
        let again = MPPath::new(
            path.segments[..path.segments.len() - 1].to_vec(),
            path.value.clone(),
        );
        assert_eq!(again.identity, path.identity);
    }
    assert_eq!(paths[0].paths_after(&paths[1..]), 2);
}

#[test]
fn every_node_with_text_is_interned() {
    let mut parser = MPParser::new();
    parser.parse_fact(&sample());
    let lexicon = &parser.lexicon;
    assert!(lexicon.get(lexicon.calculate_hash("fact", "(a b) c", false)).is_some());
    assert!(lexicon.get(lexicon.calculate_hash("v_term", "(a b)", false)).is_some());
    assert!(lexicon.get(lexicon.calculate_hash("atom", "a", true)).is_some());
    assert!(lexicon.get(lexicon.calculate_hash("v_atom", "b", true)).is_some());
    assert!(lexicon.get(lexicon.calculate_hash("group", "c", false)).is_some());
    assert!(lexicon.get(lexicon.calculate_hash("var", "c", true)).is_some());
    assert!(lexicon.get(lexicon.calculate_hash("gap", "", true)).is_none());
    assert!(lexicon.get(lexicon.calculate_hash("atom", "a", false)).is_none());
}

#[test]
fn node_without_text_hides_what_is_inside() {
    let mut parser = MPParser::new();
    let tree = node("fact", "", vec![node("v_atom", "a", vec![])]);
    assert_eq!(parser.parse_fact(&tree).len(), 0);
    let lone = node("v_atom", "a", vec![]);
    let paths = parser.parse_fact(&lone);
    assert_eq!(paths.len(), 1);
    assert_eq!(paths[0].segments, vec![step("v_atom", "a")]);
}

#[test]
fn visit_adds_to_the_paths_given() {
    let mut parser = MPParser::new();
    let first = parser.parse_fact(&node("v_atom", "a", vec![]));
    let walk = vec![step("fact", "a b")];
    let paths = parser.visit_parse_node(&node("v_atom", "b", vec![]), walk.clone(), first);
    assert_eq!(paths.len(), 2);
    assert_eq!(paths[0].value.text, "a");
    assert_eq!(paths[1].value.text, "b");
    assert_eq!(paths[1].segments, vec![walk[0], step("v_atom", "b")]);
}

#[test]
fn knowledge_base_tells_each_fact_once() {
    let mut db = DB::new();
    assert_eq!(db.facts.len(), 1);
    let pair = |a: &str, b: &str| {
        node("fact", &format!("{} {}", a, b), vec![node("v_n", a, vec![]), node("v_n", b, vec![])])
    };
    let john = || pair("john", "sue");
    let bob = || pair("john", "bob");
    db.tell(&vec![john(), bob(), john()]);
    assert_eq!(db.facts.len(), 4);
    db.tell(&vec![]);
    db.tell(&vec![bob()]);
    assert_eq!(db.facts.len(), 4);
    let asked = node("fact", "john X1", vec![node("v_n", "john", vec![]), node("var", "X1", vec![])]);
    let resp = db.ask(&vec![asked]);
    assert_eq!(resp.len(), 2);
    assert_eq!(db.facts.len(), 4);
    let var = db.mpparser.lexicon.get(db.mpparser.lexicon.calculate_hash("var", "X1", true));
    assert!(var.expect("interned variable").is_var);
}

#[test]
fn fact_that_goes_on_after_a_known_one_is_told() {
    let mut db = DB::new();
    let fact = |a: &str| node("fact", a, vec![node("v_n", a, vec![])]);
    db.tell(&vec![fact("a")]);
    db.tell(&vec![fact("a"), fact("b")]);
    assert_eq!(db.ask(&vec![fact("b")]).len(), 1);
}
