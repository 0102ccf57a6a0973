use uindex::hashing::calculate_name_hash;
use uindex::matching::{
    get_or_key, get_or_key_owning, get_real_matching, invert, MPMatching,
};
use uindex::path::{MPPath, TSegment};
use uindex::segment::MPSegment;

fn leaf(name: &str, text: &str) -> MPSegment {
    let ranged = name.starts_with("v_");
    MPSegment::new(name.to_string(), text.to_string(), true, name == "var", ranged, false)
}

fn branch(name: &str, text: &str) -> MPSegment {
    MPSegment::new(name.to_string(), text.to_string(), false, false, name.starts_with("v_"), false)
}

fn step(name: &str, text: &str) -> TSegment {
    TSegment { name: calculate_name_hash(name), text: calculate_name_hash(text) }
}

#[test]
fn path_ends_with_the_step_of_its_value() {
    let root = step("fact", "john loves sue");
    let path = MPPath::new(vec![root], leaf("v_name", "john"));
    assert_eq!(path.len(), 2);
    assert_eq!(path.segments, vec![root, step("v_name", "john")]);
    assert_eq!(path.value.text, "john");
    let lone = MPPath::new(Vec::new(), leaf("v_name", "john"));
    assert_eq!(lone.len(), 1);
    assert_eq!(lone.segments, vec![step("v_name", "john")]);
}

#[test]
fn identity_goes_by_rule_names_and_last_text() {
    let a = MPPath::new(vec![step("fact", "john loves sue")], leaf("v_name", "john"));
    let b = MPPath::new(vec![step("fact", "john hates bob")], leaf("v_name", "john"));
    let c = MPPath::new(vec![step("fact", "john loves sue")], leaf("v_name", "sue"));
    let d = MPPath::new(vec![step("rule", "john loves sue")], leaf("v_name", "john"));
    let e = MPPath::new(vec![step("fact", "john loves sue")], leaf("v_verb", "john"));
    let f = MPPath::new(Vec::new(), leaf("v_name", "john"));
    assert_eq!(a.identity, b.identity);
    assert!(a == b);
    assert_ne!(a.identity, c.identity);
    assert!(a != c);
    assert_ne!(a.identity, d.identity);
    assert_ne!(a.identity, e.identity);
    assert_ne!(a.identity, f.identity);
    let copy = a.clone();
    assert_eq!(copy.identity, a.identity);
    assert_eq!(copy.segments, a.segments);
    assert!(copy.value == a.value);
}

#[test]
fn path_starts_with_the_walk_of_its_ancestors() {
    let root = step("fact", "(a b) c");
    let outer = MPPath::new(vec![root], branch("v_term", "(a b)"));
    let a = MPPath::new(outer.segments.clone(), leaf("v_atom", "a"));
    let b = MPPath::new(outer.segments.clone(), leaf("v_atom", "b"));
    let c = MPPath::new(vec![root], leaf("v_atom", "c"));
    assert!(a.starts_with(&outer));
    assert!(b.starts_with(&outer));
    assert!(outer.starts_with(&outer));
    assert!(!c.starts_with(&outer));
    assert!(!outer.starts_with(&a));
    assert!(!a.starts_with(&b));
    assert!(!a.starts_with(&c));
}

#[test]
fn paths_after_counts_the_leading_run() {
    let root = step("fact", "(a b) c d");
    let outer = MPPath::new(vec![root], branch("v_term", "(a b)"));
    let a = MPPath::new(outer.segments.clone(), leaf("v_atom", "a"));
    let gap = MPPath::new(vec![root], leaf("v_atom", "  "));
    let b = MPPath::new(outer.segments.clone(), leaf("v_atom", "b"));
    let c = MPPath::new(vec![root], leaf("v_atom", "c"));
    let d = MPPath::new(vec![root], leaf("v_atom", "d"));
    assert_eq!(outer.paths_after(&[]), 0);
    assert_eq!(outer.paths_after(&[a.clone(), b.clone(), c.clone(), d.clone()]), 2);
    assert_eq!(outer.paths_after(&[a.clone(), gap.clone(), b.clone(), c.clone()]), 3);
    assert_eq!(outer.paths_after(&[a.clone(), b.clone()]), 2);
    assert_eq!(outer.paths_after(&[a.clone(), b.clone(), gap.clone()]), 3);
    assert_eq!(outer.paths_after(&[gap.clone(), a.clone(), c.clone(), b.clone()]), 2);
    assert_eq!(outer.paths_after(&[c.clone()]), 0);
    assert_eq!(outer.paths_after(&[c.clone(), d.clone()]), 0);
    assert_eq!(outer.paths_after(&[c.clone(), a.clone(), d.clone()]), 0);
    assert_eq!(outer.paths_after(&[gap.clone(), c.clone(), a.clone()]), 0);
    assert_eq!(outer.paths_after(&[gap.clone()]), 0);
    assert_eq!(a.paths_after(&[b.clone(), c.clone(), d.clone()]), 0);
    assert_eq!(c.paths_after(&[c.clone(), d.clone()]), 1);
}

#[test]
fn substitute_puts_the_binding_in_the_place_of_the_variable() {
    let root = step("fact", "X1 loves sue");
    let var = MPPath::new(vec![root], leaf("var", "X1"));
    let john = leaf("v_name", "john");
    let mut matching = MPMatching::new();
    let same = var.substitute(&matching);
    assert_eq!(same.identity, var.identity);
    assert_eq!(same.segments, var.segments);
    matching.insert(leaf("var", "X1"), john.clone());
    let named = var.substitute(&matching);
    let told = MPPath::new(vec![root], john);
    assert_eq!(named.identity, told.identity);
    assert_eq!(named.segments, told.segments);
    assert_eq!(named.value.text, "john");
    assert_eq!(named.value.name, "v_name");
    assert_eq!(named.len(), var.len());
}

#[test]
fn path_as_text() {
    let path = MPPath::new(Vec::new(), leaf("v_name", "john"));
    assert_eq!(path.to_text(), "<v_name: john>");
}

#[test]
fn matching_binds_and_rebinds() {
    let x = leaf("var", "X1");
    let y = leaf("var", "X2");
    let mut matching = MPMatching::new();
    assert_eq!(matching.len(), 0);
    assert!(!matching.contains_key(&x));
    assert!(matching.get(&x).is_none());
    matching.insert(x.clone(), leaf("v_name", "john"));
    matching.insert(y.clone(), leaf("v_name", "sue"));
    assert_eq!(matching.len(), 2);
    assert!(matching.contains_key(&x));
    assert_eq!(matching.get(&x).unwrap().text, "john");
    assert_eq!(matching.get(&y).unwrap().text, "sue");
    let same_key = MPSegment::new("var".to_string(), "X1".to_string(), false, false, false, true);
    matching.insert(same_key, leaf("v_name", "bob"));
    assert_eq!(matching.len(), 2);
    assert_eq!(matching.get(&x).unwrap().text, "bob");
    let (var, value) = matching.entry(0);
    assert_eq!(var.text, "X1");
    assert!(var.is_leaf);
    assert!(var.is_var);
    assert_eq!(value.text, "bob");
    let (var, value) = matching.entry(1);
    assert_eq!(var.text, "X2");
    assert_eq!(value.text, "sue");
    let copy = matching.clone();
    assert_eq!(copy.len(), 2);
    assert_eq!(copy.get(&x).unwrap().text, "bob");
    assert_eq!(copy.get(&y).unwrap().text, "sue");
}

#[test]
fn get_or_key_gives_the_binding_or_the_key() {
    let x = leaf("var", "X1");
    let y = leaf("var", "X2");
    let mut matching = MPMatching::new();
    matching.insert(x.clone(), leaf("v_name", "john"));
    assert_eq!(get_or_key(&matching, &x).text, "john");
    assert_eq!(get_or_key(&matching, &y).text, "X2");
    assert_eq!(get_or_key_owning(matching.clone(), &x).text, "john");
    assert_eq!(get_or_key_owning(matching, &y).text, "X2");
}

#[test]
fn invert_turns_each_binding_round() {
    let mut matching = MPMatching::new();
    matching.insert(leaf("var", "X1"), leaf("v_name", "john"));
    matching.insert(leaf("var", "X2"), leaf("v_name", "sue"));
    let inverted = invert(&matching);
    assert_eq!(inverted.len(), 2);
    assert_eq!(inverted.get(&leaf("v_name", "john")).unwrap().text, "X1");
    assert_eq!(inverted.get(&leaf("v_name", "sue")).unwrap().text, "X2");
    assert!(inverted.get(&leaf("var", "X1")).is_none());
    assert_eq!(invert(&MPMatching::new()).len(), 0);
    matching.insert(leaf("var", "X3"), leaf("v_name", "john"));
    let folded = invert(&matching);
    assert_eq!(folded.len(), 2);
    assert_eq!(folded.get(&leaf("v_name", "john")).unwrap().text, "X3");
}

#[test]
fn real_matching_renames_the_variables() {
    let mut matching = MPMatching::new();
    matching.insert(leaf("var", "X1"), leaf("v_name", "john"));
    matching.insert(leaf("var", "X2"), leaf("v_name", "sue"));
    let mut varmap = MPMatching::new();
    varmap.insert(leaf("var", "X1"), leaf("var", "Y1"));
    varmap.insert(leaf("var", "X2"), leaf("var", "Y2"));
    varmap.insert(leaf("var", "X3"), leaf("var", "Y3"));
    let real = get_real_matching(&matching, &varmap);
    assert_eq!(real.len(), 2);
    assert_eq!(real.get(&leaf("var", "Y1")).unwrap().text, "john");
    assert_eq!(real.get(&leaf("var", "Y2")).unwrap().text, "sue");
    assert!(real.get(&leaf("var", "X1")).is_none());
}

#[test]
fn invert_twice_gives_the_matching_back() {
    let mut matching = MPMatching::new();
    matching.insert(leaf("var", "X1"), leaf("v_name", "john"));
    matching.insert(leaf("var", "X2"), leaf("v_name", "sue"));
    matching.insert(leaf("var", "X3"), leaf("v_name", "bob"));
    let inverted = invert(&matching);
    assert_eq!(inverted.len(), 3);
    for index in 0..3 {
        let (var, value) = matching.entry(index);
        let (turned_var, turned_value) = inverted.entry(index);
        assert!(turned_var == value);
        assert!(turned_value == var);
    }
    let back = invert(&inverted);
    assert_eq!(back.len(), 3);
    for index in 0..3 {
        let (var, value) = matching.entry(index);
        let (back_var, back_value) = back.entry(index);
        assert!(back_var == var);
        assert!(back_value == value);
    }
}

#[test]
fn no_variable_is_bound_twice() {
    let mut matching = MPMatching::new();
    for round in 0..3 {
        for name in ["X1", "X2", "X1", "X3", "X2"].iter() {
            matching.insert(leaf("var", name), leaf("v_name", &format!("{}{}", name, round)));
        }
    }
    assert_eq!(matching.len(), 3);
    assert_eq!(matching.entry(0).0.text, "X1");
    assert_eq!(matching.entry(1).0.text, "X2");
    assert_eq!(matching.entry(2).0.text, "X3");
    assert_eq!(matching.get(&leaf("var", "X1")).unwrap().text, "X12");
    assert_eq!(matching.get(&leaf("var", "X2")).unwrap().text, "X22");
    assert_eq!(matching.get(&leaf("var", "X3")).unwrap().text, "X32");
}

#[test]
fn real_matching_keeps_each_binding_in_its_place() {
    let mut matching = MPMatching::new();
    matching.insert(leaf("var", "X2"), leaf("v_name", "sue"));
    matching.insert(leaf("var", "X1"), leaf("v_name", "john"));
    let mut varmap = MPMatching::new();
    varmap.insert(leaf("var", "X1"), leaf("var", "Y1"));
    varmap.insert(leaf("var", "X2"), leaf("var", "Y2"));
    let real = get_real_matching(&matching, &varmap);
    assert_eq!(real.len(), 2);
    assert_eq!(real.entry(0).0.text, "Y2");
    assert_eq!(real.entry(0).1.text, "sue");
    assert_eq!(real.entry(1).0.text, "Y1");
    assert_eq!(real.entry(1).1.text, "john");
}
