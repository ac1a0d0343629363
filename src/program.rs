//! The program representation: terms, atoms, rules and rule sets.
use vstd::prelude::*;

use crate::value::{DataValue, EntityId, Validity, AttrId};

verus! {

/// A variable or rule name.
pub type Keyword = String;

/// Errors raised while turning a program into a plan.
#[derive(Debug)]
pub enum QueryCompilationError {
    /// A clause that has no recognised shape: the clause text and a reason.
    UnexpectedForm(String, String),
    /// Definitions of one rule name with different arities, or an application
    /// of a rule with the wrong number of arguments.
    ArityMismatch(Keyword),
    /// An application of a rule that is not defined.
    UndefinedRule(Keyword),
    /// Requested variables that no atom of the body binds.
    UnsafeUnboundVars(Vec<Keyword>),
    /// An internal inconsistency.
    LogicError(String),
    /// The program has no entry rule.
    EntryNotFound,
}

/// How many values an entity may hold for an attribute at one validity.
#[derive(Clone, Copy, Debug, PartialEq, Eq, Structural)]
pub enum Cardinality {
    One,
    Many,
}

/// The type of the values of an attribute.
#[derive(Clone, Copy, Debug, PartialEq, Eq, Structural)]
pub enum AttrValueType {
    Ref,
    Bool,
    Int,
    Str,
    Any,
}

/// A registered attribute.
#[derive(Clone, Debug)]
pub struct Attribute {
    pub id: AttrId,
    pub name: Keyword,
    pub val_type: AttrValueType,
    pub cardinality: Cardinality,
    pub indexed: bool,
    pub with_history: bool,
    pub unique: bool,
}

/// A variable or a constant in an atom.
#[derive(Clone, Debug)]
pub enum Term<T> {
    Var(Keyword),
    Const(T),
}

impl<T> Term<T> {
    /// The variable, where the term is one.
    pub fn get_var(&self) -> (r: Option<&Keyword>)
        ensures
            r is Some <==> self is Var,
            r is Some ==> r->0@ == self->Var_0@,
    {
        match self {
            Term::Var(k) => Some(k),
            Term::Const(_) => None,
        }
    }

    /// The constant, where the term is one.
    pub fn get_const(&self) -> (r: Option<&T>)
        ensures
            r is Some <==> self is Const,
            r is Some ==> *r->0 == self->Const_0,
    {
        match self {
            Term::Const(v) => Some(v),
            Term::Var(_) => None,
        }
    }
}

/// `attr(entity, value)`: a fact of the triple store.
#[derive(Clone, Debug)]
pub struct AttrTripleAtom {
    pub attr: Attribute,
    pub entity: Term<EntityId>,
    pub value: Term<DataValue>,
}

/// `name(args..)`: an application of a rule.
#[derive(Clone, Debug)]
pub struct RuleApplyAtom {
    pub name: Keyword,
    pub args: Vec<Term<DataValue>>,
}

/// The comparison made by a predicate atom.
#[derive(Clone, Copy, Debug, PartialEq, Eq, Structural)]
pub enum PredicateOp {
    Eq,
    Ne,
    Lt,
    Le,
    Gt,
    Ge,
}

/// `left op right`: a filter on the rows bound so far.
#[derive(Clone, Debug)]
pub struct PredicateAtom {
    pub op: PredicateOp,
    pub left: Term<DataValue>,
    pub right: Term<DataValue>,
}

/// One atom of a rule body.
#[derive(Clone, Debug)]
pub enum Atom {
    AttrTriple(AttrTripleAtom),
    Rule(RuleApplyAtom),
    Predicate(PredicateAtom),
}

/// Aggregation applied to a head term.
#[derive(Clone, Copy, Debug, Default, PartialEq, Eq, Structural)]
pub enum Aggregation {
    /// The value is taken as it is.
    #[default]
    Unaggregated,
}

/// A head term: a variable with its aggregation.
#[derive(Clone, Debug)]
pub struct BindingHeadTerm {
    pub name: Keyword,
    pub aggr: Aggregation,
}

/// `head :- body`, evaluated as of a validity.
#[derive(Clone, Debug)]
pub struct Rule {
    pub head: Vec<BindingHeadTerm>,
    pub body: Vec<Atom>,
    pub vld: Validity,
}

/// The definitions of one rule name, all of one arity.
#[derive(Clone, Debug)]
pub struct RuleSet {
    pub rules: Vec<Rule>,
    pub arity: usize,
}

/// The names of the rules that an atom applies.
pub open spec fn atom_rule_names(a: Atom) -> Set<Seq<char>> {
    match a {
        Atom::Rule(r) => set![r.name@],
        _ => Set::empty(),
    }
}

/// The names of the rules that the first `n` atoms of a body apply.
pub open spec fn body_rule_names(body: Seq<Atom>, n: int) -> Set<Seq<char>>
    decreases n,
{
    if n <= 0 {
        Set::empty()
    } else {
        body_rule_names(body, n - 1).union(atom_rule_names(body[n - 1]))
    }
}

/// The views of a sequence of keywords.
pub open spec fn keyword_views(ks: Seq<Keyword>) -> Seq<Seq<char>> {
    ks.map_values(|k: Keyword| k@)
}

/// Whether the keyword `k` stands in `ks`, compared by content.
pub fn contains_keyword(ks: &Vec<Keyword>, k: &Keyword) -> (r: bool)
    ensures
        r == keyword_views(ks@).contains(k@),
{
    let mut i: usize = 0;
    while i < ks.len()
        invariant
            i <= ks.len(),
            forall|j: int| 0 <= j < i ==> ks@[j]@ != k@,
        decreases ks.len() - i,
    {
        if ks[i] == *k {
            proof {
                assert(keyword_views(ks@)[i as int] == k@);
            }
            return true;
        }
        i += 1;
    }
    proof {
        if keyword_views(ks@).contains(k@) {
            let j = choose|j: int| 0 <= j < keyword_views(ks@).len() && keyword_views(ks@)[j] == k@;
            assert(ks@[j]@ == k@);
        }
    }
    false
}

impl Rule {
    /// The names of the rules applied in the body, each once.
    pub fn contained_rules(&self) -> (r: Vec<Keyword>)
        ensures
            keyword_views(r@).to_set() == body_rule_names(self.body@, self.body@.len() as int),
            keyword_views(r@).no_duplicates(),
    {
        let mut collected: Vec<Keyword> = Vec::new();
        let mut i: usize = 0;
        while i < self.body.len()
            invariant
                i <= self.body.len(),
                keyword_views(collected@).to_set() == body_rule_names(self.body@, i as int),
                keyword_views(collected@).no_duplicates(),
            decreases self.body.len() - i,
        {
            if let Atom::Rule(rule) = &self.body[i] {
                if !contains_keyword(&collected, &rule.name) {
                    let ghost before = collected@;
                    collected.push(rule.name.clone());
                    proof {
                        assert(keyword_views(collected@) =~= keyword_views(before).push(rule.name@));
                        keyword_views(before).lemma_push_to_set_commute(rule.name@);
                        assert(keyword_views(collected@).to_set() =~= keyword_views(before).to_set().insert(rule.name@));
                    }
                }
                proof {
                    assert(keyword_views(collected@).to_set() =~= body_rule_names(self.body@, i + 1));
                }
            } else {
                proof {
                    assert(body_rule_names(self.body@, i + 1) =~= body_rule_names(self.body@, i as int));
                }
            }
            i += 1;
        }
        collected
    }
}

/// Two definitions in `defs` share a name and differ in arity.
pub open spec fn arity_conflict(defs: Seq<(Keyword, Rule)>) -> bool {
    exists|i: int, j: int|
        0 <= i < j < defs.len() && #[trigger] defs[i].0@ == #[trigger] defs[j].0@
            && defs[i].1.head@.len() != defs[j].1.head@.len()
}

/// The first `n` definitions hold no conflict.
pub open spec fn no_conflict_upto(defs: Seq<(Keyword, Rule)>, n: int) -> bool {
    forall|i: int, j: int|
        0 <= i < j < n ==> #[trigger] defs[i].0@ == #[trigger] defs[j].0@ ==> defs[i].1.head@.len() == defs[j].1.head@.len()
}

/// What grouping the first `n` definitions into `sets` establishes.
pub open spec fn sets_cover(sets: Seq<(Keyword, RuleSet)>, defs: Seq<(Keyword, Rule)>, n: int) -> bool {
    &&& forall|a: int, b: int| 0 <= a < b < sets.len() ==> (#[trigger] sets[a]).0@ != (#[trigger] sets[b]).0@
    &&& forall|t: int| 0 <= t < n ==> exists|k: int| 0 <= k < sets.len()
        && (#[trigger] sets[k]).0@ == (#[trigger] defs[t]).0@ && sets[k].1.arity == defs[t].1.head@.len()
    &&& forall|k: int| 0 <= k < sets.len() ==> exists|t: int| 0 <= t < n
        && (#[trigger] sets[k]).0@ == (#[trigger] defs[t]).0@
    &&& forall|k: int, m: int| 0 <= k < sets.len() && 0 <= m < sets[k].1.rules@.len()
        ==> (#[trigger] sets[k].1.rules@[m]).head@.len() == sets[k].1.arity
}

/// The position of the rule set named `name`, if any.
fn find_rule_set(sets: &Vec<(Keyword, RuleSet)>, name: &Keyword) -> (r: Option<usize>)
    ensures
        r is None ==> forall|k: int| 0 <= k < sets@.len() ==> (#[trigger] sets@[k]).0@ != name@,
        r is Some ==> r->0 < sets@.len() && sets@[r->0 as int].0@ == name@,
{
    let mut k: usize = 0;
    while k < sets.len()
        invariant
            k <= sets.len(),
            forall|a: int| 0 <= a < k ==> (#[trigger] sets@[a]).0@ != name@,
        decreases sets.len() - k,
    {
        if sets[k].0 == *name {
            return Some(k);
        }
        k += 1;
    }
    None
}

/// The rules defined under `name`, in order of definition.
pub open spec fn rules_named(defs: Seq<(Keyword, Rule)>, name: Seq<char>) -> Seq<Rule> {
    defs.filter(named(name)).map_values(|d: (Keyword, Rule)| d.1)
}

/// Whether a definition is of the rule `name`.
pub open spec fn named(name: Seq<char>) -> spec_fn((Keyword, Rule)) -> bool {
    |d: (Keyword, Rule)| d.0@ == name
}

/// Each set holds exactly the rules of its name among the first `n` definitions.
pub open spec fn sets_rules(sets: Seq<(Keyword, RuleSet)>, defs: Seq<(Keyword, Rule)>, n: int) -> bool {
    forall|k: int| 0 <= k < sets.len() ==> (#[trigger] sets[k]).1.rules@ == rules_named(defs.take(n), sets[k].0@)
}

/// The rules of a name after one more definition.
pub proof fn lemma_rules_named_push(s: Seq<(Keyword, Rule)>, x: (Keyword, Rule), name: Seq<char>)
    ensures
        rules_named(s.push(x), name) == if x.0@ == name {
            rules_named(s, name).push(x.1)
        } else {
            rules_named(s, name)
        },
{
    s.lemma_filter_push(x, named(name));
    assert(rules_named(s.push(x), name) =~= if x.0@ == name {
        rules_named(s, name).push(x.1)
    } else {
        rules_named(s, name)
    });
}

/// No definition of a name means no rules of it.
pub proof fn lemma_rules_named_none(s: Seq<(Keyword, Rule)>, name: Seq<char>)
    requires
        forall|i: int| 0 <= i < s.len() ==> (#[trigger] s[i]).0@ != name,
    ensures
        rules_named(s, name) == Seq::<Rule>::empty(),
    decreases s.len(),
{
    if s.len() > 0 {
        let init = s.drop_last();
        assert forall|i: int| 0 <= i < init.len() implies (#[trigger] init[i]).0@ != name by {
            assert(init[i] == s[i]);
        }
        lemma_rules_named_none(init, name);
        assert(s =~= init.push(s.last()));
        lemma_rules_named_push(init, s.last(), name);
    } else {
        assert(rules_named(s, name) =~= Seq::<Rule>::empty()) by {
            reveal(Seq::filter);
        }
    }
}

/// Adding definition `done` to the set `k` of its name keeps each set's rules exact.
pub proof fn lemma_rules_extend(
    before: Seq<(Keyword, RuleSet)>,
    after: Seq<(Keyword, RuleSet)>,
    orig: Seq<(Keyword, Rule)>,
    done: int,
    k: int,
)
    requires
        0 <= done < orig.len(),
        0 <= k < before.len(),
        sets_rules(before, orig, done),
        forall|a: int, b: int| 0 <= a < b < before.len() ==> (#[trigger] before[a]).0@ != (#[trigger] before[b]).0@,
        before[k].0@ == orig[done].0@,
        after.len() == before.len(),
        forall|i: int| 0 <= i < before.len() && i != k ==> after[i] == before[i],
        after[k].0@ == before[k].0@,
        after[k].1.rules@ == before[k].1.rules@.push(orig[done].1),
    ensures
        sets_rules(after, orig, done + 1),
{
    assert(orig.take(done + 1) =~= orig.take(done).push(orig[done]));
    assert forall|kk: int| 0 <= kk < after.len() implies (#[trigger] after[kk]).1.rules@ == rules_named(orig.take(done + 1), after[kk].0@) by {
        lemma_rules_named_push(orig.take(done), orig[done], after[kk].0@);
        if kk != k {
            assert(after[kk] == before[kk]);
            if kk < k {
                assert(before[kk].0@ != before[k].0@);
            } else {
                assert(before[k].0@ != before[kk].0@);
            }
        }
    }
}

/// Adding definition `done` as a new set keeps each set's rules exact.
pub proof fn lemma_rules_add(
    before: Seq<(Keyword, RuleSet)>,
    after: Seq<(Keyword, RuleSet)>,
    orig: Seq<(Keyword, Rule)>,
    done: int,
)
    requires
        0 <= done < orig.len(),
        sets_rules(before, orig, done),
        sets_cover(before, orig, done),
        forall|k: int| 0 <= k < before.len() ==> (#[trigger] before[k]).0@ != orig[done].0@,
        after == before.push(after[before.len() as int]),
        after[before.len() as int].0@ == orig[done].0@,
        after[before.len() as int].1.rules@ == seq![orig[done].1],
    ensures
        sets_rules(after, orig, done + 1),
{
    let n = before.len() as int;
    assert(orig.take(done + 1) =~= orig.take(done).push(orig[done]));
    assert forall|i: int| 0 <= i < orig.take(done).len() implies (#[trigger] orig.take(done)[i]).0@ != orig[done].0@ by {
        assert(orig.take(done)[i] == orig[i]);
        let kk = choose|kk: int| 0 <= kk < before.len()
            && (#[trigger] before[kk]).0@ == (#[trigger] orig[i]).0@ && before[kk].1.arity == orig[i].1.head@.len();
    }
    lemma_rules_named_none(orig.take(done), orig[done].0@);
    assert forall|kk: int| 0 <= kk < after.len() implies (#[trigger] after[kk]).1.rules@ == rules_named(orig.take(done + 1), after[kk].0@) by {
        lemma_rules_named_push(orig.take(done), orig[done], after[kk].0@);
        if kk < n {
            assert(after[kk] == before[kk]);
            assert(before[kk].0@ != orig[done].0@);
        } else {
            assert(after[kk].1.rules@ =~= Seq::<Rule>::empty().push(orig[done].1));
        }
    }
}

/// Groups rule definitions by name, keeping each name's definitions in order.
/// All definitions of one name must have the same arity; otherwise the
/// program is refused.
pub fn collect_rule_sets(defs: Vec<(Keyword, Rule)>) -> (r: Result<Vec<(Keyword, RuleSet)>, QueryCompilationError>)
    ensures
        r is Err <==> arity_conflict(defs@),
        r is Ok ==> sets_cover(r->Ok_0@, defs@, defs@.len() as int),
        r is Ok ==> forall|k: int| 0 <= k < r->Ok_0@.len() ==> (#[trigger] r->Ok_0@[k]).1.rules@ == rules_named(
            defs@,
            r->Ok_0@[k].0@,
        ),
        r is Err ==> match r->Err_0 {
            QueryCompilationError::ArityMismatch(n) => exists|i: int, j: int|
                0 <= i < j < defs@.len() && #[trigger] defs@[i].0@ == #[trigger] defs@[j].0@
                    && defs@[i].1.head@.len() != defs@[j].1.head@.len() && n@ == defs@[j].0@,
            _ => false,
        },
{
    let ghost orig = defs@;
    group_rule_defs(defs, Ghost(orig))
}

/// Groups the definitions `defs`, which are `orig`, by name.
#[verifier::rlimit(100)]
fn group_rule_defs(defs: Vec<(Keyword, Rule)>, Ghost(orig): Ghost<Seq<(Keyword, Rule)>>) -> (r: Result<Vec<(Keyword, RuleSet)>, QueryCompilationError>)
    requires
        defs@ == orig,
    ensures
        r is Err <==> arity_conflict(orig),
        r is Ok ==> sets_cover(r->Ok_0@, orig, orig.len() as int),
        r is Ok ==> forall|k: int| 0 <= k < r->Ok_0@.len() ==> (#[trigger] r->Ok_0@[k]).1.rules@ == rules_named(
            orig,
            r->Ok_0@[k].0@,
        ),
        r is Err ==> match r->Err_0 {
            QueryCompilationError::ArityMismatch(n) => exists|i: int, j: int|
                0 <= i < j < orig.len() && #[trigger] orig[i].0@ == #[trigger] orig[j].0@
                    && orig[i].1.head@.len() != orig[j].1.head@.len() && n@ == orig[j].0@,
            _ => false,
        },
{
    proof {
        assert(orig.len() == defs.len());
    }
    let mut rest = defs;
    let mut sets: Vec<(Keyword, RuleSet)> = Vec::new();
    let mut done: usize = 0;
    while rest.len() > 0
        invariant
            done + rest@.len() == orig.len(),
            orig.len() <= usize::MAX,
            rest@ == orig.subrange(done as int, orig.len() as int),
            no_conflict_upto(orig, done as int),
            sets_cover(sets@, orig, done as int),
            sets_rules(sets@, orig, done as int),
        decreases rest@.len(),
    {
        let (name, rule) = rest.remove(0);
        proof {
            assert(orig[done as int] == (name, rule));
            assert(rest@ =~= orig.subrange(done + 1, orig.len() as int));
        }
        match find_rule_set(&sets, &name) {
            Some(k) => {
                if sets[k].1.arity != rule.head.len() {
                    proof {
                        let t = lemma_conflict(sets@, orig, done as int, k as int);
                        assert(0 <= t < done < orig.len() && orig[t].0@ == orig[done as int].0@
                            && orig[t].1.head@.len() != orig[done as int].1.head@.len());
                    }
                    return Err(QueryCompilationError::ArityMismatch(name));
                }
                let ghost before = sets@;
                let (n, mut set) = sets.remove(k);
                set.rules.push(rule);
                sets.insert(k, (n, set));
                proof {
                    assert(sets@ =~= before.update(k as int, sets@[k as int]));
                    lemma_extend_set(before, sets@, orig, done as int, k as int);
                    lemma_rules_extend(before, sets@, orig, done as int, k as int);
                }
            },
            None => {
                let arity = rule.head.len();
                let ghost before = sets@;
                let set = RuleSet { rules: vec![rule], arity };
                sets.push((name, set));
                proof {
                    assert(sets@ == before.push(sets@[before.len() as int]));
                    lemma_add_set(before, sets@, orig, done as int);
                    assert(sets@[before.len() as int].1.rules@ =~= seq![orig[done as int].1]);
                    lemma_rules_add(before, sets@, orig, done as int);
                }
            },
        }
        done += 1;
    }
    proof {
        assert(done == orig.len());
        assert(orig.take(done as int) =~= orig);
        if arity_conflict(orig) {
            let (i, j) = choose|i: int, j: int|
                0 <= i < j < orig.len() && #[trigger] orig[i].0@ == #[trigger] orig[j].0@
                    && orig[i].1.head@.len() != orig[j].1.head@.len();
            assert(orig[i].1.head@.len() == orig[j].1.head@.len());
        }
    }
    Ok(sets)
}

/// A definition whose name has a set of another arity conflicts with an earlier one.
pub proof fn lemma_conflict(sets: Seq<(Keyword, RuleSet)>, orig: Seq<(Keyword, Rule)>, done: int, k: int) -> (t: int)
    requires
        0 <= done < orig.len(),
        0 <= k < sets.len(),
        sets_cover(sets, orig, done),
        sets[k].0@ == orig[done].0@,
        sets[k].1.arity != orig[done].1.head@.len(),
    ensures
        0 <= t < done,
        orig[t].0@ == orig[done].0@,
        orig[t].1.head@.len() != orig[done].1.head@.len(),
        arity_conflict(orig),
{
    let t = choose|t: int| 0 <= t < done && (#[trigger] sets[k]).0@ == (#[trigger] orig[t]).0@;
    let kk = choose|kk: int| 0 <= kk < sets.len() && (#[trigger] sets[kk]).0@ == (#[trigger] orig[t]).0@
        && sets[kk].1.arity == orig[t].1.head@.len();
    assert(kk == k);
    t
}

#[verifier::rlimit(100)]
/// Adding definition `done` to the existing set `k` of its name keeps the grouping.
pub proof fn lemma_extend_set(
    before: Seq<(Keyword, RuleSet)>,
    after: Seq<(Keyword, RuleSet)>,
    orig: Seq<(Keyword, Rule)>,
    done: int,
    k: int,
)
    requires
        0 <= done < orig.len(),
        0 <= k < before.len(),
        sets_cover(before, orig, done),
        no_conflict_upto(orig, done),
        before[k].0@ == orig[done].0@,
        before[k].1.arity == orig[done].1.head@.len(),
        after.len() == before.len(),
        forall|i: int| 0 <= i < before.len() && i != k ==> after[i] == before[i],
        after[k].0@ == before[k].0@,
        after[k].1.arity == before[k].1.arity,
        after[k].1.rules@.len() == before[k].1.rules@.len() + 1,
        forall|m: int| 0 <= m < before[k].1.rules@.len() ==> after[k].1.rules@[m] == before[k].1.rules@[m],
        after[k].1.rules@[before[k].1.rules@.len() as int].head@.len() == orig[done].1.head@.len(),
    ensures
        sets_cover(after, orig, done + 1),
        no_conflict_upto(orig, done + 1),
{
    assert forall|i: int, j: int| 0 <= i < j < done + 1 && #[trigger] orig[i].0@ == #[trigger] orig[j].0@
        implies orig[i].1.head@.len() == orig[j].1.head@.len() by {
        if j == done {
            let kk = choose|kk: int| 0 <= kk < before.len() && (#[trigger] before[kk]).0@ == (#[trigger] orig[i]).0@
                && before[kk].1.arity == orig[i].1.head@.len();
            assert(kk == k);
        }
    }
    assert forall|t: int| 0 <= t < done + 1 implies exists|kk: int| 0 <= kk < after.len()
        && (#[trigger] after[kk]).0@ == (#[trigger] orig[t]).0@ && after[kk].1.arity == orig[t].1.head@.len() by {
        if t == done {
            assert(after[k].0@ == orig[t].0@);
        } else {
            let kk = choose|kk: int| 0 <= kk < before.len() && (#[trigger] before[kk]).0@ == (#[trigger] orig[t]).0@
                && before[kk].1.arity == orig[t].1.head@.len();
            assert(after[kk].0@ == orig[t].0@);
        }
    }
    assert forall|kk: int| 0 <= kk < after.len() implies exists|t: int| 0 <= t < done + 1
        && (#[trigger] after[kk]).0@ == (#[trigger] orig[t]).0@ by {
        let t = choose|t: int| 0 <= t < done && (#[trigger] before[kk]).0@ == (#[trigger] orig[t]).0@;
        assert(after[kk].0@ == orig[t].0@);
    }
    assert forall|kk: int, m: int| 0 <= kk < after.len() && 0 <= m < after[kk].1.rules@.len()
        implies (#[trigger] after[kk].1.rules@[m]).head@.len() == after[kk].1.arity by {
        if kk == k && m < before[kk].1.rules@.len() {
            assert(after[kk].1.rules@[m] == before[kk].1.rules@[m]);
        }
    }
    assert forall|a: int, b: int| 0 <= a < b < after.len() implies (#[trigger] after[a]).0@ != (#[trigger] after[b]).0@ by {
        assert(before[a].0@ != before[b].0@);
    }
}

#[verifier::rlimit(100)]
/// Adding definition `done` as a new set, where no set has its name, keeps the grouping.
pub proof fn lemma_add_set(
    before: Seq<(Keyword, RuleSet)>,
    after: Seq<(Keyword, RuleSet)>,
    orig: Seq<(Keyword, Rule)>,
    done: int,
)
    requires
        0 <= done < orig.len(),
        sets_cover(before, orig, done),
        no_conflict_upto(orig, done),
        forall|k: int| 0 <= k < before.len() ==> (#[trigger] before[k]).0@ != orig[done].0@,
        after == before.push(after[before.len() as int]),
        after[before.len() as int].0@ == orig[done].0@,
        after[before.len() as int].1.arity == orig[done].1.head@.len(),
        after[before.len() as int].1.rules@.len() == 1,
        after[before.len() as int].1.rules@[0].head@.len() == orig[done].1.head@.len(),
    ensures
        sets_cover(after, orig, done + 1),
        no_conflict_upto(orig, done + 1),
{
    let n = before.len() as int;
    assert forall|i: int, j: int| 0 <= i < j < done + 1 && #[trigger] orig[i].0@ == #[trigger] orig[j].0@
        implies orig[i].1.head@.len() == orig[j].1.head@.len() by {
        if j == done {
            let kk = choose|kk: int| 0 <= kk < before.len() && (#[trigger] before[kk]).0@ == (#[trigger] orig[i]).0@
                && before[kk].1.arity == orig[i].1.head@.len();
        }
    }
    assert forall|t: int| 0 <= t < done + 1 implies exists|kk: int| 0 <= kk < after.len()
        && (#[trigger] after[kk]).0@ == (#[trigger] orig[t]).0@ && after[kk].1.arity == orig[t].1.head@.len() by {
        if t == done {
            assert(after[n].0@ == orig[t].0@);
        } else {
            let kk = choose|kk: int| 0 <= kk < before.len() && (#[trigger] before[kk]).0@ == (#[trigger] orig[t]).0@
                && before[kk].1.arity == orig[t].1.head@.len();
            assert(after[kk] == before[kk]);
        }
    }
    assert forall|kk: int| 0 <= kk < after.len() implies exists|t: int| 0 <= t < done + 1
        && (#[trigger] after[kk]).0@ == (#[trigger] orig[t]).0@ by {
        if kk == n {
            assert(after[kk].0@ == orig[done].0@);
        } else {
            let t = choose|t: int| 0 <= t < done && (#[trigger] before[kk]).0@ == (#[trigger] orig[t]).0@;
            assert(after[kk] == before[kk]);
        }
    }
    assert forall|kk: int, m: int| 0 <= kk < after.len() && 0 <= m < after[kk].1.rules@.len()
        implies (#[trigger] after[kk].1.rules@[m]).head@.len() == after[kk].1.arity by {
        if kk < n {
            assert(after[kk] == before[kk]);
        }
    }
    assert forall|a: int, b: int| 0 <= a < b < after.len() implies (#[trigger] after[a]).0@ != (#[trigger] after[b]).0@ by {
        assert(after[a] == before[a]);
        if b < n {
            assert(after[b] == before[b]);
        }
    }
}

} // verus!
