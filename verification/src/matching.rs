//! Matchings: what a query binds its variables to.

use crate::segment::{MPSegment, Segment, SegmentKey};
use vstd::prelude::*;

verus! {

/// One binding of a matching: a variable and the segment it stands for.
pub ghost struct Binding {
    pub var: Segment,
    pub bound: Segment,
}

/// The mathematical value of an [`MPMatching`]: its bindings, in the order in
/// which the variables were first bound.
pub type Matching = Seq<Binding>;

/// The index of the first binding at or after `from` whose variable has the key
/// `key`; the length of `m` if there is none.
pub open spec fn scan(m: Matching, key: SegmentKey, from: int) -> int
    decreases m.len() - from,
{
    if from < 0 || from >= m.len() {
        m.len() as int
    } else if m[from].var.key() == key {
        from
    } else {
        scan(m, key, from + 1)
    }
}

/// The index of the binding of `key` in `m`; the length of `m` if `key` is unbound.
pub open spec fn index_of(m: Matching, key: SegmentKey) -> int {
    scan(m, key, 0)
}

/// Whether `m` binds the variable with the key `key`.
pub open spec fn binds(m: Matching, key: SegmentKey) -> bool {
    index_of(m, key) < m.len()
}

/// `m` after `var` is bound to `bound`: a variable that is already bound keeps
/// its place and its stored segment, and only what it stands for changes.
pub open spec fn bind(m: Matching, var: Segment, bound: Segment) -> Matching {
    let i = index_of(m, var.key());
    if i < m.len() {
        m.update(i, Binding { var: m[i].var, bound })
    } else {
        m.push(Binding { var, bound })
    }
}

/// What `key` stands for under `m`: its binding, or itself where it has none.
pub open spec fn resolve(m: Matching, key: Segment) -> Segment {
    let i = index_of(m, key.key());
    if i < m.len() {
        m[i].bound
    } else {
        key
    }
}

/// `m` with its first `n` bindings turned round, each bound in turn.
pub open spec fn inverted(m: Matching, n: int) -> Matching
    decreases n,
{
    if n <= 0 || n > m.len() {
        Seq::empty()
    } else {
        bind(inverted(m, n - 1), m[n - 1].bound, m[n - 1].var)
    }
}

/// The first `n` bindings of `m`, each with its variable renamed through `varmap`.
pub open spec fn renamed(m: Matching, varmap: Matching, n: int) -> Matching
    decreases n,
{
    if n <= 0 || n > m.len() {
        Seq::empty()
    } else {
        bind(renamed(m, varmap, n - 1), resolve(varmap, m[n - 1].var), m[n - 1].bound)
    }
}

/// The index that `scan` finds holds the key, and no earlier index from `from` on does.
pub proof fn lemma_scan(m: Matching, key: SegmentKey, from: int)
    requires
        0 <= from <= m.len(),
    ensures
        from <= scan(m, key, from) <= m.len(),
        scan(m, key, from) < m.len() ==> m[scan(m, key, from)].var.key() == key,
        forall|j: int| from <= j < scan(m, key, from) ==> (#[trigger] m[j]).var.key() != key,
    decreases m.len() - from,
{
    if from < m.len() && m[from].var.key() != key {
        lemma_scan(m, key, from + 1);
    }
}

/// An index that holds the key, with none before it that does, is the one `index_of` finds.
pub proof fn lemma_index_of_is(m: Matching, key: SegmentKey, i: int)
    requires
        0 <= i <= m.len(),
        i < m.len() ==> m[i].var.key() == key,
        forall|j: int| 0 <= j < i ==> (#[trigger] m[j]).var.key() != key,
    ensures
        index_of(m, key) == i,
{
    lemma_scan(m, key, 0);
    let found = index_of(m, key);
    if found < i {
        assert(m[found].var.key() == key);
    } else if found > i {
        assert(m[i].var.key() != key);
    }
}

/// Whether no variable is bound twice.
pub open spec fn distinct(m: Matching) -> bool {
    forall|i: int, j: int|
        0 <= i < j < m.len() ==> (#[trigger] m[i]).var.key() != (#[trigger] m[j]).var.key()
}

/// Whether no two variables are bound to the same segment.
pub open spec fn injective(m: Matching) -> bool {
    forall|i: int, j: int|
        0 <= i < j < m.len() ==> (#[trigger] m[i]).bound.key() != (#[trigger] m[j]).bound.key()
}

/// `m` with each binding turned round.
pub open spec fn turned(m: Matching) -> Matching {
    Seq::new(m.len(), |i: int| Binding { var: m[i].bound, bound: m[i].var })
}

/// `m` with the variable of each binding renamed through `varmap`.
pub open spec fn relabelled(m: Matching, varmap: Matching) -> Matching {
    Seq::new(m.len(), |i: int| Binding { var: resolve(varmap, m[i].var), bound: m[i].bound })
}

/// Binding a variable leaves no variable bound twice.
pub proof fn lemma_bind_distinct(m: Matching, var: Segment, bound: Segment)
    requires
        distinct(m),
    ensures
        distinct(bind(m, var, bound)),
{
    lemma_scan(m, var.key(), 0);
}

/// Where no variable is bound twice, each binding is the one that its
/// variable is looked up to.
pub proof fn law_binding_is_looked_up(m: Matching, i: int)
    requires
        distinct(m),
        0 <= i < m.len(),
    ensures
        index_of(m, m[i].var.key()) == i,
        binds(m, m[i].var.key()),
        resolve(m, m[i].var) == m[i].bound,
{
    lemma_index_of_is(m, m[i].var.key(), i);
}

/// Turning round the first `n` bindings of a matching that binds no two
/// variables to the same segment turns each of them round, in its place.
pub proof fn lemma_inverted(m: Matching, n: int)
    requires
        injective(m),
        0 <= n <= m.len(),
    ensures
        inverted(m, n) == turned(m).take(n),
        distinct(inverted(m, n)),
    decreases n,
{
    if n == 0 {
        assert(inverted(m, n) =~= turned(m).take(n));
    } else {
        lemma_inverted(m, n - 1);
        let before = turned(m).take(n - 1);
        lemma_index_of_is(before, m[n - 1].bound.key(), n - 1);
        assert(bind(before, m[n - 1].bound, m[n - 1].var) =~= turned(m).take(n));
        lemma_bind_distinct(before, m[n - 1].bound, m[n - 1].var);
    }
}

/// A matching that binds no variable twice and no two variables to the same
/// segment, turned round twice, is the matching itself.
pub proof fn law_inverted_twice(m: Matching)
    requires
        distinct(m),
        injective(m),
    ensures
        inverted(m, m.len() as int) == turned(m),
        inverted(inverted(m, m.len() as int), m.len() as int) == m,
{
    lemma_inverted(m, m.len() as int);
    assert(turned(m).take(m.len() as int) =~= turned(m));
    lemma_inverted(turned(m), m.len() as int);
    assert(turned(turned(m)).take(m.len() as int) =~= m);
}

/// Renaming the first `n` variables of a matching through a matching that
/// gives no two of its variables the same name renames each binding in its
/// place.
pub proof fn lemma_renamed(m: Matching, varmap: Matching, n: int)
    requires
        distinct(relabelled(m, varmap)),
        0 <= n <= m.len(),
    ensures
        renamed(m, varmap, n) == relabelled(m, varmap).take(n),
        distinct(renamed(m, varmap, n)),
    decreases n,
{
    let all = relabelled(m, varmap);
    if n == 0 {
        assert(renamed(m, varmap, n) =~= all.take(n));
    } else {
        lemma_renamed(m, varmap, n - 1);
        let before = all.take(n - 1);
        assert forall|j: int| 0 <= j < n - 1 implies (#[trigger] before[j]).var.key() != all[n
            - 1].var.key() by {
            assert(before[j] == all[j]);
        }
        lemma_index_of_is(before, all[n - 1].var.key(), n - 1);
        assert(bind(before, resolve(varmap, m[n - 1].var), m[n - 1].bound) =~= all.take(n));
        lemma_bind_distinct(before, resolve(varmap, m[n - 1].var), m[n - 1].bound);
    }
}

/// The values of a row of pairs of segments.
pub open spec fn bindings(entries: Seq<(MPSegment, MPSegment)>) -> Matching {
    Seq::new(entries.len(), |i: int| Binding { var: entries[i].0@, bound: entries[i].1@ })
}

/// A set of variable bindings, in which no variable is bound twice.
#[derive(Debug)]
pub struct MPMatching {
    entries: Vec<(MPSegment, MPSegment)>,
}

impl View for MPMatching {
    type V = Matching;

    closed spec fn view(&self) -> Matching {
        bindings(self.entries@)
    }
}

impl MPMatching {
    #[verifier::type_invariant]
    spec fn no_variable_twice(self) -> bool {
        distinct(self@)
    }

    /// The matching that binds nothing.
    pub fn new() -> (matching: MPMatching)
        ensures
            matching@ == Seq::<Binding>::empty(),
            distinct(matching@),
    {
        let entries: Vec<(MPSegment, MPSegment)> = Vec::new();
        assert(bindings(entries@) =~= Seq::<Binding>::empty());
        MPMatching { entries }
    }

    /// The number of bindings. No variable is bound twice.
    pub fn len(&self) -> (n: usize)
        ensures
            n == self@.len(),
            distinct(self@),
    {
        proof {
            use_type_invariant(self);
        }
        self.entries.len()
    }

    fn position(&self, key: &MPSegment) -> (i: usize)
        ensures
            i == index_of(self@, key@.key()),
            i <= self.entries@.len(),
            self@.len() == self.entries@.len(),
    {
        let mut i: usize = 0;
        while i < self.entries.len()
            invariant
                i <= self.entries@.len(),
                self@.len() == self.entries@.len(),
                forall|j: int| 0 <= j < i ==> (#[trigger] self@[j]).var.key() != key@.key(),
            decreases self.entries@.len() - i,
        {
            let found = self.entries[i].0.name == key.name && self.entries[i].0.text == key.text;
            if found {
                proof {
                    assert(self@[i as int].var.key() == key@.key());
                    lemma_index_of_is(self@, key@.key(), i as int);
                }
                return i;
            }
            i += 1;
        }
        proof {
            lemma_index_of_is(self@, key@.key(), i as int);
        }
        i
    }

    /// Whether `key` is bound.
    pub fn contains_key(&self, key: &MPSegment) -> (bound: bool)
        ensures
            bound == binds(self@, key@.key()),
            distinct(self@),
    {
        proof {
            use_type_invariant(self);
        }
        self.position(key) < self.entries.len()
    }

    /// What `key` is bound to, if it is bound.
    pub fn get(&self, key: &MPSegment) -> (value: Option<&MPSegment>)
        ensures
            value is Some == binds(self@, key@.key()),
            value matches Some(v) ==> v@ == self@[index_of(self@, key@.key())].bound,
            distinct(self@),
    {
        proof {
            use_type_invariant(self);
        }
        let i = self.position(key);
        if i < self.entries.len() {
            Some(&self.entries[i].1)
        } else {
            None
        }
    }

    /// The variable and the value of the binding at `index`.
    pub fn entry(&self, index: usize) -> (pair: (&MPSegment, &MPSegment))
        requires
            index < self@.len(),
        ensures
            pair.0@ == self@[index as int].var,
            pair.1@ == self@[index as int].bound,
            distinct(self@),
    {
        proof {
            use_type_invariant(self);
        }
        (&self.entries[index].0, &self.entries[index].1)
    }

    /// Binds `key` to `value`. A variable that is bound already keeps its
    /// place and is bound anew, so that no variable is bound twice.
    pub fn insert(&mut self, key: MPSegment, value: MPSegment)
        ensures
            final(self)@ == bind(old(self)@, key@, value@),
            distinct(old(self)@),
            distinct(final(self)@),
    {
        let i = self.position(&key);
        let ghost before = self@;
        proof {
            use_type_invariant(&*self);
            lemma_bind_distinct(before, key@, value@);
        }
        let mut taken = MPMatching::new();
        std::mem::swap(self, &mut taken);
        let mut entries = taken.entries;
        if i < entries.len() {
            entries[i].1 = value;
        } else {
            entries.push((key, value));
        }
        assert(bindings(entries@) =~= bind(before, key@, value@));
        *self = MPMatching { entries };
    }
}

impl Clone for MPMatching {
    fn clone(&self) -> (copy: Self)
        ensures
            copy@ == self@,
            distinct(copy@),
    {
        proof {
            use_type_invariant(self);
        }
        let mut entries: Vec<(MPSegment, MPSegment)> = Vec::new();
        let mut i: usize = 0;
        while i < self.entries.len()
            invariant
                i <= self.entries@.len(),
                entries@.len() == i,
                forall|j: int|
                    0 <= j < i ==> (#[trigger] entries@[j]).0@ == self.entries@[j].0@
                        && entries@[j].1@ == self.entries@[j].1@,
            decreases self.entries@.len() - i,
        {
            entries.push((self.entries[i].0.clone(), self.entries[i].1.clone()));
            i += 1;
        }
        assert(bindings(entries@) =~= self@);
        MPMatching { entries }
    }
}

/// Turns a matching round: what was bound becomes the variable. Where no two
/// variables are bound to the same segment, each binding is turned round in
/// its place.
pub fn invert(matching: &MPMatching) -> (result: MPMatching)
    ensures
        result@ == inverted(matching@, matching@.len() as int),
        distinct(result@),
        distinct(matching@),
        injective(matching@) ==> result@ == turned(matching@),
{
    proof {
        if injective(matching@) {
            lemma_inverted(matching@, matching@.len() as int);
            assert(turned(matching@).take(matching@.len() as int) =~= turned(matching@));
        }
    }
    let mut result = MPMatching::new();
    let n = matching.len();
    let mut i: usize = 0;
    while i < n
        invariant
            i <= n,
            n == matching@.len(),
            result@ == inverted(matching@, i as int),
            distinct(result@),
        decreases n - i,
    {
        let (key, value) = matching.entry(i);
        result.insert(value.clone(), key.clone());
        i += 1;
    }
    result
}

/// What `key` stands for under `matching`.
pub fn get_or_key<'a>(matching: &'a MPMatching, key: &'a MPSegment) -> (value: &'a MPSegment)
    ensures
        value@ == resolve(matching@, key@),
{
    match matching.get(key) {
        Some(matched) => matched,
        None => key,
    }
}

/// What `key` stands for under `matching`, which is given up.
pub fn get_or_key_owning(matching: MPMatching, key: &MPSegment) -> (value: MPSegment)
    ensures
        value@ == resolve(matching@, key@),
{
    match matching.get(key) {
        Some(matched) => matched.clone(),
        None => key.clone(),
    }
}

/// Renames the variables of `matching` through `varmap`. Where `varmap` gives
/// no two variables of `matching` the same name, each binding is renamed in
/// its place.
pub fn get_real_matching(matching: &MPMatching, varmap: &MPMatching) -> (result: MPMatching)
    requires
        forall|i: int| 0 <= i < matching@.len() ==> binds(varmap@, (#[trigger] matching@[i]).var.key()),
    ensures
        result@ == renamed(matching@, varmap@, matching@.len() as int),
        distinct(result@),
        distinct(matching@),
        distinct(relabelled(matching@, varmap@)) ==> result@ == relabelled(matching@, varmap@),
{
    proof {
        if distinct(relabelled(matching@, varmap@)) {
            lemma_renamed(matching@, varmap@, matching@.len() as int);
            assert(relabelled(matching@, varmap@).take(matching@.len() as int) =~= relabelled(
                matching@,
                varmap@,
            ));
        }
    }
    let mut result = MPMatching::new();
    let n = matching.len();
    let mut i: usize = 0;
    while i < n
        invariant
            i <= n,
            n == matching@.len(),
            result@ == renamed(matching@, varmap@, i as int),
            distinct(result@),
        decreases n - i,
    {
        let (key, value) = matching.entry(i);
        let new_key = get_or_key(varmap, key);
        result.insert(new_key.clone(), value.clone());
        i += 1;
    }
    result
}

} // verus!
