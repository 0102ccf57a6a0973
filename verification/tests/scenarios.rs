use uindex::facttree::FactSet;
use uindex::matching::MPMatching;
use uindex::parser::{MPParser, ParseNode};
use uindex::path::MPPath;
use uindex::segment::MPSegment;

fn leaf(name: &str, text: &str) -> ParseNode {
    ParseNode::new(name.to_string(), text.to_string(), Vec::new())
}

fn token(text: &str) -> ParseNode {
    let is_var =
        text.starts_with('X') && text.len() > 1 && text[1..].chars().all(|c| c.is_ascii_digit());
    if is_var {
        leaf("var", text)
    } else {
        leaf("v_item", text)
    }
}

fn fact(text: &str) -> ParseNode {
    let children: Vec<ParseNode> = text.split_whitespace().map(token).collect();
    ParseNode::new("fact".to_string(), text.to_string(), children)
}

struct Base {
    parser: MPParser,
    facts: FactSet,
}

impl Base {
    fn new() -> Base {
        Base { parser: MPParser::new(), facts: FactSet::new() }
    }

    fn paths(&mut self, text: &str) -> Vec<MPPath> {
        self.parser.parse_fact(&fact(text))
    }

    fn tell(&mut self, text: &str) -> bool {
        let paths = self.paths(text);
        self.facts.tell(paths)
    }

    fn ask(&mut self, texts: &[&str]) -> Vec<MPMatching> {
        let mut all = Vec::new();
        for text in texts {
            all.push(self.paths(text));
        }
        self.facts.ask_facts(all)
    }
}

fn var(text: &str) -> MPSegment {
    MPSegment::new("var".to_string(), text.to_string(), true, true, false, false)
}

fn bound(matching: &MPMatching, name: &str) -> String {
    matching.get(&var(name)).expect("bound variable").text.clone()
}

fn sorted(mut texts: Vec<String>) -> Vec<String> {
    texts.sort();
    texts
}

#[test]
fn basic_isa_binds_each_object() {
    let mut base = Base::new();
    base.tell("john ISA0 person");
    base.tell("john ISA0 animal");
    base.tell("sue ISA0 animal");
    let resp = base.ask(&["john ISA0 X1"]);
    assert_eq!(resp.len(), 2);
    let found = sorted(resp.iter().map(|m| bound(m, "X1")).collect());
    assert_eq!(found, vec!["animal".to_string(), "person".to_string()]);
    for matching in resp.iter() {
        assert_eq!(matching.len(), 1);
    }
}

#[test]
fn basic_isa_joins_two_facts() {
    let mut base = Base::new();
    base.tell("john ISA0 person");
    base.tell("john ISA0 animal");
    base.tell("sue ISA0 animal");
    let resp = base.ask(&["sue ISA0 X1", "john ISA0 X1"]);
    assert_eq!(resp.len(), 1);
    assert_eq!(bound(&resp[0], "X1"), "animal");
}

#[test]
fn triple_join_binds_six_variables() {
    let mut base = Base::new();
    base.tell("U John1 Smith1 user1");
    base.tell("A user1 Lane1 1 city1");
    base.tell("T city1 1000 country1");
    let resp = base.ask(&["U John1 Smith1 X1", "A X1 X2 X3 X4", "T X4 X5 X6"]);
    assert_eq!(resp.len(), 1);
    let matching = &resp[0];
    assert_eq!(matching.len(), 6);
    assert_eq!(bound(matching, "X1"), "user1");
    assert_eq!(bound(matching, "X2"), "Lane1");
    assert_eq!(bound(matching, "X3"), "1");
    assert_eq!(bound(matching, "X4"), "city1");
    assert_eq!(bound(matching, "X5"), "1000");
    assert_eq!(bound(matching, "X6"), "country1");
}

#[test]
fn unknown_subject_gives_no_matching() {
    let mut base = Base::new();
    base.tell("john ISA0 person");
    let resp = base.ask(&["mary ISA0 X1"]);
    assert_eq!(resp.len(), 0);
}

#[test]
fn fact_told_five_times_is_held_once() {
    let mut base = Base::new();
    assert!(base.tell("a R b"));
    let size = base.facts.len();
    for _ in 0..4 {
        assert!(!base.tell("a R b"));
    }
    assert_eq!(base.facts.len(), size);
    let resp = base.ask(&["a R X1"]);
    assert_eq!(resp.len(), 1);
    assert_eq!(bound(&resp[0], "X1"), "b");
}

#[test]
fn second_fact_filters_the_first() {
    let mut base = Base::new();
    base.tell("sue ISA0 animal");
    base.tell("john ISA0 animal");
    base.tell("john ISA0 philosopher");
    let resp = base.ask(&["sue ISA0 X1", "john ISA0 X1"]);
    assert_eq!(resp.len(), 1);
    assert_eq!(bound(&resp[0], "X1"), "animal");
}

#[test]
fn conjunction_is_a_join() {
    let mut base = Base::new();
    base.tell("A ISA x");
    base.tell("B ISA x");
    base.tell("C ISA y");
    let two = base.ask(&["A ISA X1", "B ISA X1"]);
    assert_eq!(two.len(), 1);
    assert_eq!(bound(&two[0], "X1"), "x");
    let three = base.ask(&["A ISA X1", "B ISA X1", "C ISA X1"]);
    assert_eq!(three.len(), 0);
}

#[test]
fn ground_fact_is_found_once_with_no_binding() {
    let mut base = Base::new();
    base.tell("john ISA0 person");
    base.tell("john ISA0 animal");
    let paths = base.paths("john ISA0 person");
    let (resp, back) = base.facts.ask_fact(paths);
    assert_eq!(resp.len(), 1);
    assert_eq!(resp[0].len(), 0);
    assert_eq!(back.len(), 3);
}

#[test]
fn empty_trie_answers_nothing() {
    let mut base = Base::new();
    assert_eq!(base.facts.len(), 1);
    assert_eq!(base.ask(&["john ISA0 person"]).len(), 0);
    assert_eq!(base.ask(&["X1"]).len(), 0);
    let paths = base.paths("john ISA0 person");
    let (known, _) = base.facts.ask_fact_bool(paths);
    assert!(!known);
}

#[test]
fn variable_at_the_root_takes_every_first_token() {
    let mut base = Base::new();
    base.tell("john ISA0 person");
    base.tell("sue ISA0 animal");
    let resp = base.ask(&["X1 ISA0 X2"]);
    assert_eq!(resp.len(), 2);
    let found = sorted(resp.iter().map(|m| format!("{} {}", bound(m, "X1"), bound(m, "X2"))).collect());
    assert_eq!(found, vec!["john person".to_string(), "sue animal".to_string()]);
    let joined = base.ask(&["X1 ISA0 person", "X1 ISA0 animal"]);
    assert_eq!(joined.len(), 0);
}

#[test]
fn variable_stands_for_the_segment_that_was_told() {
    let mut base = Base::new();
    base.tell("john ISA0 person");
    let resp = base.ask(&["john X1 person"]);
    assert_eq!(resp.len(), 1);
    let value = resp[0].get(&var("X1")).expect("bound variable");
    assert_eq!(value.name, "v_item");
    assert_eq!(value.text, "ISA0");
    assert!(value.is_leaf);
    assert!(value.in_var_range);
    assert!(!value.is_var);
}

#[test]
fn trie_grows_by_one_node_for_each_new_leaf() {
    let mut base = Base::new();
    base.tell("john ISA0 person");
    assert_eq!(base.facts.len(), 4);
    base.tell("john ISA0 animal");
    assert_eq!(base.facts.len(), 5);
    base.tell("sue ISA0 animal");
    assert_eq!(base.facts.len(), 8);
}
