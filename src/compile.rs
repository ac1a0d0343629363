//! Compilation of a rule body into a relational plan.
use vstd::prelude::*;

use crate::program::{
    Attribute, keyword_views, contains_keyword, Atom, Keyword, PredicateAtom, PredicateOp, QueryCompilationError, Term,
};
use crate::relation::{
    binding_views, lemma_without_facts, without, Binding, BindingView, Filter, Operand, Relation,
    TempStoreId,
};
use crate::transact::SessionTx;
use crate::value::{DataValue, EntityId, Validity};

verus! {

/// The scratch table that holds the rows of a rule, with the rule's arity.
#[derive(Clone, Debug)]
pub struct StoreEntry {
    pub name: Keyword,
    pub store: TempStoreId,
    pub arity: usize,
}

/// The variable of a term, if any.
pub open spec fn term_vars<T>(t: Term<T>) -> Set<Seq<char>> {
    match t {
        Term::Var(k) => set![k@],
        Term::Const(_) => Set::empty(),
    }
}

/// The variables of the first `n` terms.
pub open spec fn args_vars(args: Seq<Term<DataValue>>, n: int) -> Set<Seq<char>>
    decreases n,
{
    if n <= 0 {
        Set::empty()
    } else {
        args_vars(args, n - 1).union(term_vars(args[n - 1]))
    }
}

/// The variables that an atom binds; a predicate binds none.
pub open spec fn atom_vars(a: Atom) -> Set<Seq<char>> {
    match a {
        Atom::AttrTriple(t) => term_vars(t.entity).union(term_vars(t.value)),
        Atom::Rule(r) => args_vars(r.args@, r.args@.len() as int),
        Atom::Predicate(_) => Set::empty(),
    }
}

/// The variables bound by the first `n` atoms of a body.
pub open spec fn bound_vars(body: Seq<Atom>, n: int) -> Set<Seq<char>>
    decreases n,
{
    if n <= 0 {
        Set::empty()
    } else {
        bound_vars(body, n - 1).union(atom_vars(body[n - 1]))
    }
}

/// The number of terms in the first `n` atoms of a body.
pub open spec fn term_count(body: Seq<Atom>, n: int) -> int
    decreases n,
{
    if n <= 0 {
        0
    } else {
        term_count(body, n - 1) + match body[n - 1] {
            Atom::Rule(r) => r.args@.len() as int,
            _ => 2,
        }
    }
}

/// Whether a rule of this name is stored.
pub open spec fn store_defined(stores: Seq<StoreEntry>, name: Seq<char>) -> bool {
    exists|i: int| 0 <= i < stores.len() && (#[trigger] stores[i]).name@ == name
}

/// Whether a rule of this name is stored with arity `n`.
pub open spec fn store_has_arity(stores: Seq<StoreEntry>, name: Seq<char>, n: int) -> bool {
    exists|i: int| 0 <= i < stores.len() && (#[trigger] stores[i]).name@ == name && stores[i].arity == n
}

/// Rule names are unique among the stores.
pub open spec fn stores_wf(stores: Seq<StoreEntry>) -> bool {
    forall|i: int, j: int|
        0 <= i < stores.len() && 0 <= j < stores.len() && i != j ==> stores[i].name@ != stores[j].name@
}

/// Whether an atom cannot be compiled after the variables `bound`: an
/// application of an unknown rule or with the wrong number of arguments,
/// or a predicate on a variable not bound yet.
pub open spec fn atom_fault(a: Atom, bound: Set<Seq<char>>, stores: Seq<StoreEntry>) -> bool {
    match a {
        Atom::Rule(r) => !store_has_arity(stores, r.name@, r.args@.len() as int),
        Atom::Predicate(p) => !term_vars(p.left).subset_of(bound) || !term_vars(p.right).subset_of(
            bound,
        ),
        Atom::AttrTriple(_) => false,
    }
}

/// None of the first `n` atoms is at fault.
pub open spec fn fault_free(body: Seq<Atom>, stores: Seq<StoreEntry>, n: int) -> bool {
    forall|i: int| 0 <= i < n ==> !#[trigger] atom_fault(body[i], bound_vars(body, i), stores)
}

/// Atom `i` is the first at fault.
pub open spec fn first_fault(body: Seq<Atom>, stores: Seq<StoreEntry>, i: int) -> bool {
    &&& 0 <= i < body.len()
    &&& fault_free(body, stores, i)
    &&& atom_fault(body[i], bound_vars(body, i), stores)
}

/// The columns named after user variables.
pub open spec fn var_bindings(ks: Seq<Keyword>) -> Seq<BindingView> {
    ks.map_values(|k: Keyword| BindingView::Var(k@))
}

/// Every column of `bs` is a variable of `bound` or a temporary below `serial`.
pub open spec fn columns_known(bs: Seq<BindingView>, bound: Set<Seq<char>>, serial: int) -> bool {
    forall|b: BindingView|
        #[trigger] bs.contains(b) ==> match b {
            BindingView::Var(k) => bound.contains(k),
            BindingView::Temp(n) => n < serial,
        }
}

/// Whether every scan, store read and filter of `rel` comes from the atoms of
/// `body`: triple scans read an attribute of a triple atom as of `vld`,
/// derived relations read the store of a rule that the body applies, and each
/// filter is an equality between a variable and its repetition or the
/// comparison of a predicate atom.
pub open spec fn plan_from(rel: Relation, body: Seq<Atom>, vld: Validity, stores: Seq<StoreEntry>) -> bool
    decreases rel,
{
    match rel {
        Relation::Unit => true,
        Relation::Singlet { .. } => true,
        Relation::Triple { attr, vld: v, .. } => v == vld && exists|i: int|
            0 <= i < body.len() && #[trigger] body[i] is AttrTriple && body[i]->AttrTriple_0.attr == attr,
        Relation::Derived { store, .. } => exists|i: int, s: int|
            0 <= i < body.len() && 0 <= s < stores.len() && #[trigger] body[i] is Rule
                && #[trigger] stores[s].name@ == body[i]->Rule_0.name@ && stores[s].store == store,
        Relation::Join { left, right, .. } => plan_from(*left, body, vld, stores) && plan_from(*right, body, vld, stores),
        Relation::Cartesian { left, right } => plan_from(*left, body, vld, stores) && plan_from(*right, body, vld, stores),
        Relation::Reorder { inner, .. } => plan_from(*inner, body, vld, stores),
        Relation::Filtered { inner, filter } => plan_from(*inner, body, vld, stores) && match filter.right {
            Operand::Bound(Binding::Temp(_)) => filter.op == PredicateOp::Eq,
            _ => exists|i: int| 0 <= i < body.len() && #[trigger] body[i] is Predicate && body[i]->Predicate_0.op == filter.op,
        },
    }
}

/// A copy of an attribute.
fn copy_attr(a: &Attribute) -> (r: Attribute)
    ensures
        r == *a,
{
    Attribute {
        id: a.id,
        name: a.name.clone(),
        val_type: a.val_type,
        cardinality: a.cardinality,
        indexed: a.indexed,
        with_history: a.with_history,
        unique: a.unique,
    }
}

/// How the arguments of an atom meet the plan built so far.
pub struct ArgPlan {
    /// Columns of the plan so far (or of `const_bindings`) to join on.
    pub left_keys: Vec<Binding>,
    /// Columns of the new relation to join on, parallel to `left_keys`.
    pub right_keys: Vec<Binding>,
    /// Temporaries that carry the constants of the atom.
    pub const_bindings: Vec<Binding>,
    pub const_values: Vec<DataValue>,
    /// The columns of the new relation, one per argument.
    pub right_vars: Vec<Binding>,
    /// Variables that the atom binds first.
    pub fresh: Vec<Keyword>,
    /// A variable repeated within the atom and the temporary of its repetition.
    pub repeats: Vec<(Keyword, Binding)>,
}

impl ArgPlan {
    /// What `plan_args` establishes, for the variables `bound` before the atom and
    /// the temporaries numbered from `s0` to `s1`.
    pub open spec fn valid(&self, bound: Set<Seq<char>>, s0: int, s1: int) -> bool {
        let cb = binding_views(self.const_bindings@);
        let rv = binding_views(self.right_vars@);
        let rk = binding_views(self.right_keys@);
        let fresh = keyword_views(self.fresh@);
        &&& self.left_keys@.len() == self.right_keys@.len()
        &&& self.const_bindings@.len() == self.const_values@.len()
        &&& forall|i: int|
            0 <= i < self.left_keys@.len() ==> match #[trigger] self.left_keys@[i]@ {
                BindingView::Var(k) => bound.contains(k),
                BindingView::Temp(n) => cb.contains(BindingView::Temp(n)),
            }
        &&& forall|i: int| 0 <= i < self.right_keys@.len() ==> rv.contains(#[trigger] self.right_keys@[i]@)
        &&& rk.no_duplicates()
        &&& cb.no_duplicates()
        &&& rv.no_duplicates()
        &&& forall|b: BindingView| #[trigger] cb.contains(b) ==> !rv.contains(b)
        &&& forall|b: BindingView|
            #[trigger] cb.contains(b) ==> match b {
                BindingView::Var(_) => false,
                BindingView::Temp(n) => s0 <= n < s1,
            }
        &&& forall|b: BindingView|
            #[trigger] rv.contains(b) ==> match b {
                BindingView::Var(k) => fresh.contains(k) && !rk.contains(b),
                BindingView::Temp(n) => s0 <= n < s1,
            }
        &&& fresh.no_duplicates()
        &&& forall|k: Seq<char>| #[trigger] fresh.contains(k) ==> !bound.contains(k) && rv.contains(BindingView::Var(k))
        &&& forall|i: int|
            0 <= i < self.repeats@.len() ==> {
                &&& fresh.contains((#[trigger] self.repeats@[i]).0@)
                &&& rv.contains(self.repeats@[i].1@)
                &&& !rk.contains(self.repeats@[i].1@)
            }
        &&& forall|i: int| 0 <= i < self.repeats@.len() ==> (#[trigger] self.repeats@[i]).1@ is Temp
        &&& s0 <= s1
    }
}

/// What a sequence holds after a push.
pub proof fn lemma_push_contains<A>(s: Seq<A>, x: A)
    ensures
        forall|b: A| #[trigger] s.push(x).contains(b) <==> (s.contains(b) || b == x),
{
    assert forall|b: A| #[trigger] s.push(x).contains(b) <==> (s.contains(b) || b == x) by {
        if s.push(x).contains(b) {
            let i = choose|i: int| 0 <= i < s.len() + 1 && s.push(x)[i] == b;
            if i < s.len() {
                assert(s[i] == b);
            }
        }
        if s.contains(b) {
            let i = choose|i: int| 0 <= i < s.len() && s[i] == b;
            assert(s.push(x)[i] == b);
        }
        if b == x {
            assert(s.push(x)[s.len() as int] == b);
        }
    }
}

/// A column that is not among the new columns of a plan is none of its right keys.
pub proof fn lemma_outside(plan: ArgPlan, bound: Set<Seq<char>>, s0: int, s1: int, x: BindingView)
    requires
        plan.valid(bound, s0, s1),
        !binding_views(plan.right_vars@).contains(x),
    ensures
        !binding_views(plan.right_keys@).contains(x),
{
    let rk = binding_views(plan.right_keys@);
    if rk.contains(x) {
        let i = choose|i: int| 0 <= i < rk.len() && rk[i] == x;
        assert(plan.right_keys@[i]@ == x);
    }
}

/// Pushing a new element keeps a sequence free of duplicates.
pub proof fn lemma_push_no_dup<A>(s: Seq<A>, x: A)
    requires
        s.no_duplicates(),
        !s.contains(x),
    ensures
        s.push(x).no_duplicates(),
{
    assert forall|i: int, j: int| 0 <= i < s.len() + 1 && 0 <= j < s.len() + 1 && i != j implies s.push(x)[i] != s.push(x)[j] by {
        if i == s.len() {
            assert(s[j] == s.push(x)[j]);
        } else if j == s.len() {
            assert(s[i] == s.push(x)[i]);
        }
    }
}

/// Plans how the arguments `args` of an atom join the plan built so far, in which
/// the variables `seen` are bound; new temporaries are numbered from `*serial`.
pub fn plan_args(args: &Vec<Term<DataValue>>, seen: &Vec<Keyword>, serial: &mut u64) -> (r: ArgPlan)
    requires
        *old(serial) + 2 * args@.len() <= u64::MAX,
    ensures
        r.valid(keyword_views(seen@).to_set(), *old(serial) as int, *final(serial) as int),
        *final(serial) <= *old(serial) + 2 * args@.len(),
        r.right_vars@.len() == args@.len(),
        keyword_views(seen@).to_set().union(keyword_views(r.fresh@).to_set())
            == keyword_views(seen@).to_set().union(args_vars(args@, args@.len() as int)),
{
    let ghost bound = keyword_views(seen@).to_set();
    let ghost s0 = *serial as int;
    let mut plan = ArgPlan {
        left_keys: Vec::new(),
        right_keys: Vec::new(),
        const_bindings: Vec::new(),
        const_values: Vec::new(),
        right_vars: Vec::new(),
        fresh: Vec::new(),
        repeats: Vec::new(),
    };
    proof {
        assert(binding_views(plan.const_bindings@) =~= Seq::<BindingView>::empty());
        assert(binding_views(plan.right_vars@) =~= Seq::<BindingView>::empty());
        assert(keyword_views(plan.fresh@) =~= Seq::<Seq<char>>::empty());
        assert(binding_views(plan.right_keys@) =~= Seq::<BindingView>::empty());
        assert(keyword_views(plan.fresh@).to_set() =~= Set::<Seq<char>>::empty());
    }
    let mut j: usize = 0;
    while j < args.len()
        invariant
            j <= args.len(),
            bound == keyword_views(seen@).to_set(),
            s0 == *old(serial),
            *old(serial) + 2 * args@.len() <= u64::MAX,
            plan.valid(bound, s0, *serial as int),
            *serial <= s0 + 2 * j,
            plan.right_vars@.len() == j,
            bound.union(keyword_views(plan.fresh@).to_set()) == bound.union(args_vars(args@, j as int)),
        decreases args.len() - j,
    {
        let ghost prev = plan;
        let ghost cb0 = binding_views(plan.const_bindings@);
        let ghost rv0 = binding_views(plan.right_vars@);
        let ghost rk0 = binding_views(plan.right_keys@);
        let ghost fr0 = keyword_views(plan.fresh@);
        let ghost n0 = *serial as int;
        match &args[j] {
            Term::Var(k) => {
                if contains_keyword(seen, k) {
                    let t = Binding::Temp(*serial);
                    *serial = *serial + 1;
                    plan.left_keys.push(Binding::Var(k.clone()));
                    plan.right_keys.push(t.duplicate());
                    plan.right_vars.push(t);
                    proof {
                        let tv = BindingView::Temp(n0 as u64);
                        assert(binding_views(plan.right_vars@) =~= rv0.push(tv));
                        assert(binding_views(plan.right_keys@) =~= rk0.push(tv));
                        assert(!rv0.contains(tv));
                        assert(!cb0.contains(tv));
                        lemma_outside(prev, bound, s0, n0, tv);
                        lemma_push_contains(rv0, tv);
                        lemma_push_contains(rk0, tv);
                        lemma_push_no_dup(rv0, tv);
                        lemma_push_no_dup(rk0, tv);
                        assert(plan.left_keys@[plan.left_keys@.len() - 1]@ == BindingView::Var(k@));
                        assert(keyword_views(seen@).contains(k@));
                        assert(bound.contains(k@));
                        assert(plan.valid(bound, s0, *serial as int));
                        assert(bound.union(keyword_views(plan.fresh@).to_set()) =~= bound.union(fr0.to_set()).union(term_vars(args@[j as int])));
                    }
                } else if contains_keyword(&plan.fresh, k) {
                    let t = Binding::Temp(*serial);
                    *serial = *serial + 1;
                    plan.repeats.push((k.clone(), t.duplicate()));
                    plan.right_vars.push(t);
                    proof {
                        let tv = BindingView::Temp(n0 as u64);
                        assert(binding_views(plan.right_vars@) =~= rv0.push(tv));
                        assert(!rv0.contains(tv));
                        assert(!cb0.contains(tv));
                        lemma_outside(prev, bound, s0, n0, tv);
                        lemma_push_contains(rv0, tv);
                        lemma_push_no_dup(rv0, tv);
                        assert(fr0.to_set().contains(k@));
                        assert(plan.valid(bound, s0, *serial as int));
                        assert(bound.union(keyword_views(plan.fresh@).to_set()) =~= bound.union(fr0.to_set()).union(term_vars(args@[j as int])));
                    }
                } else {
                    plan.fresh.push(k.clone());
                    plan.right_vars.push(Binding::Var(k.clone()));
                    proof {
                        let kv = BindingView::Var(k@);
                        assert(binding_views(plan.right_vars@) =~= rv0.push(kv));
                        assert(keyword_views(plan.fresh@) =~= fr0.push(k@));
                        assert(!rv0.contains(kv));
                        assert(!cb0.contains(kv));
                        lemma_outside(prev, bound, s0, n0, kv);
                        lemma_push_contains(rv0, kv);
                        lemma_push_contains(fr0, k@);
                        lemma_push_no_dup(rv0, kv);
                        lemma_push_no_dup(fr0, k@);
                        assert(!keyword_views(seen@).contains(k@));
                        fr0.lemma_push_to_set_commute(k@);
                        assert(plan.valid(bound, s0, *serial as int));
                        assert(bound.union(keyword_views(plan.fresh@).to_set()) =~= bound.union(fr0.to_set()).union(term_vars(args@[j as int])));
                    }
                }
            },
            Term::Const(c) => {
                let lt = Binding::Temp(*serial);
                let rt = Binding::Temp(*serial + 1);
                *serial = *serial + 2;
                plan.const_values.push(c.duplicate());
                plan.const_bindings.push(lt.duplicate());
                plan.left_keys.push(lt);
                plan.right_keys.push(rt.duplicate());
                plan.right_vars.push(rt);
                proof {
                    let lv = BindingView::Temp(n0 as u64);
                    let rv = BindingView::Temp((n0 + 1) as u64);
                    assert(binding_views(plan.right_vars@) =~= rv0.push(rv));
                    assert(binding_views(plan.const_bindings@) =~= cb0.push(lv));
                    assert(binding_views(plan.right_keys@) =~= rk0.push(rv));
                    assert(!rv0.contains(rv));
                    assert(!cb0.contains(lv));
                    lemma_outside(prev, bound, s0, n0, rv);
                    lemma_push_contains(rv0, rv);
                    lemma_push_contains(rk0, rv);
                    lemma_push_contains(cb0, lv);
                    lemma_push_no_dup(rv0, rv);
                    lemma_push_no_dup(rk0, rv);
                    lemma_push_no_dup(cb0, lv);
                    assert(binding_views(plan.const_bindings@).contains(lv));
                    assert(plan.valid(bound, s0, *serial as int));
                    assert(bound.union(keyword_views(plan.fresh@).to_set()) =~= bound.union(fr0.to_set()).union(term_vars(args@[j as int])));
                }
            },
        }
        proof {
            assert(args_vars(args@, j + 1) == args_vars(args@, j as int).union(term_vars(args@[j as int])));
            assert(bound.union(keyword_views(plan.fresh@).to_set()) =~= bound.union(args_vars(args@, j + 1)));
        }
        j += 1;
    }
    plan
}

/// Concatenating disjoint sequences without duplicates.
pub proof fn lemma_concat<A>(a: Seq<A>, b: Seq<A>)
    requires
        a.no_duplicates(),
        b.no_duplicates(),
        forall|x: A| #[trigger] a.contains(x) ==> !b.contains(x),
    ensures
        (a + b).no_duplicates(),
        forall|x: A| #[trigger] (a + b).contains(x) <==> (a.contains(x) || b.contains(x)),
{
    assert forall|i: int, j: int| 0 <= i < a.len() && 0 <= j < b.len() implies a[i] != b[j] by {
        assert(a.contains(a[i]));
        assert(b.contains(b[j]));
    }
    vstd::seq_lib::lemma_no_dup_in_concat(a, b);
    assert forall|x: A| #[trigger] (a + b).contains(x) <==> (a.contains(x) || b.contains(x)) by {
        if (a + b).contains(x) {
            let i = choose|i: int| 0 <= i < (a + b).len() && (a + b)[i] == x;
            if i < a.len() {
                assert(a[i] == x);
            } else {
                assert(b[i - a.len()] == x);
            }
        }
        if a.contains(x) {
            let i = choose|i: int| 0 <= i < a.len() && a[i] == x;
            assert((a + b)[i] == x);
        }
        if b.contains(x) {
            let i = choose|i: int| 0 <= i < b.len() && b[i] == x;
            assert((a + b)[a.len() + i] == x);
        }
    }
}

/// Joins the relation `right`, whose columns are those of `plan`, to the plan
/// `ret` built so far, in which the variables `bound` are bound and every
/// temporary is numbered below `s0`.
fn attach(
    ret: Relation,
    plan: ArgPlan,
    right: Relation,
    Ghost(bound): Ghost<Set<Seq<char>>>,
    Ghost(s0): Ghost<int>,
    Ghost(s1): Ghost<int>,
    Ghost(body): Ghost<Seq<Atom>>,
    Ghost(vld): Ghost<Validity>,
    Ghost(stores): Ghost<Seq<StoreEntry>>,
) -> (r: Relation)
    requires
        plan_from(ret, body, vld, stores),
        plan_from(right, body, vld, stores),
        ret.wf(),
        ret.spec_bindings().no_duplicates(),
        columns_known(ret.spec_bindings(), bound, s0),
        forall|k: Seq<char>| #[trigger] bound.contains(k) ==> ret.spec_bindings().contains(BindingView::Var(k)),
        plan.valid(bound, s0, s1),
        right.wf(),
        right.spec_bindings() == binding_views(plan.right_vars@),
    ensures
        plan_from(r, body, vld, stores),
        r.wf(),
        r.spec_bindings().no_duplicates(),
        forall|x: BindingView| #[trigger] r.spec_bindings().contains(x) <==> (
            ret.spec_bindings().contains(x)
            || binding_views(plan.const_bindings@).contains(x)
            || (binding_views(plan.right_vars@).contains(x) && !binding_views(plan.right_keys@).contains(x))),
{
    let ghost b0 = ret.spec_bindings();
    let ghost cb = binding_views(plan.const_bindings@);
    let ghost rv = binding_views(plan.right_vars@);
    let ghost rk = binding_views(plan.right_keys@);
    let ghost fresh = keyword_views(plan.fresh@);
    let ArgPlan { left_keys, right_keys, const_bindings, const_values, right_vars: _, fresh: _, repeats } = plan;
    let left = if const_bindings.len() > 0 {
        let singlet = Relation::Singlet { bindings: const_bindings, values: const_values };
        proof {
            assert forall|x: BindingView| #[trigger] b0.contains(x) implies !cb.contains(x) by {
                if cb.contains(x) {
                    assert(x is Temp);
                }
            }
            lemma_concat(b0, cb);
            assert(plan_from(singlet, body, vld, stores));
        }
        if ret.is_unit() {
            proof {
                assert(b0 + cb =~= cb);
            }
            singlet
        } else {
            let ghost r0 = ret;
            let ghost s0_ = singlet;
            let c = ret.cartesian_join(singlet);
            proof {
                assert(c == (Relation::Cartesian { left: Box::new(r0), right: Box::new(s0_) }));
                assert(plan_from(c, body, vld, stores));
            }
            c
        }
    } else {
        proof {
            assert(b0 + cb =~= b0);
            assert(cb =~= Seq::<BindingView>::empty());
        }
        ret
    };
    proof {
        assert(plan_from(left, body, vld, stores));
        lemma_without_facts(rv, rk);
        assert forall|x: BindingView| #[trigger] left.spec_bindings().contains(x) implies !without(rv, rk).contains(x) by {
            if without(rv, rk).contains(x) {
                if cb.contains(x) {
                } else {
                    match x {
                        BindingView::Var(k) => {
                            assert(fresh.contains(k));
                        },
                        BindingView::Temp(n) => {},
                    }
                }
            }
        }
        lemma_concat(left.spec_bindings(), without(rv, rk));
    }
    let joined = if left.is_unit() && left_keys.len() == 0 {
        proof {
            assert(rk =~= Seq::<BindingView>::empty());
            assert forall|x: BindingView| #[trigger] rv.contains(x) implies without(rv, rk).contains(x) by {}
        }
        right
    } else {
        proof {
            assert forall|i: int| 0 <= i < left_keys@.len() implies left.spec_bindings().contains(#[trigger] left_keys@[i]@) by {
                match left_keys@[i]@ {
                    BindingView::Var(k) => {
                        assert(b0.contains(BindingView::Var(k)));
                    },
                    BindingView::Temp(n) => {},
                }
            }
        }
        left.join(right, left_keys, right_keys)
    };
    proof {
        assert(plan_from(left, body, vld, stores));
        assert(plan_from(joined, body, vld, stores));
    }
    let ghost out = joined.spec_bindings();
    let mut result = joined;
    let mut i: usize = 0;
    while i < repeats.len()
        invariant
            i <= repeats.len(),
            plan_from(result, body, vld, stores),
            forall|j: int| 0 <= j < repeats@.len() ==> (#[trigger] repeats@[j]).1@ is Temp,
            result.wf(),
            result.spec_bindings() == out,
            out.no_duplicates(),
            forall|x: BindingView| #[trigger] out.contains(x) <==> (b0.contains(x) || cb.contains(x) || (rv.contains(x) && !rk.contains(x))),
            forall|j: int|
                0 <= j < repeats@.len() ==> {
                    &&& fresh.contains((#[trigger] repeats@[j]).0@)
                    &&& rv.contains(repeats@[j].1@)
                    &&& !rk.contains(repeats@[j].1@)
                },
            forall|b: BindingView|
                #[trigger] rv.contains(b) ==> match b {
                    BindingView::Var(k) => fresh.contains(k) && !rk.contains(b),
                    BindingView::Temp(n) => s0 <= n < s1,
                },
            forall|k: Seq<char>| #[trigger] fresh.contains(k) ==> rv.contains(BindingView::Var(k)),
        decreases repeats.len() - i,
    {
        let (k, t) = &repeats[i];
        proof {
            assert(fresh.contains(repeats@[i as int].0@));
            assert(rv.contains(BindingView::Var(k@)));
        }
        let filter = Filter {
            op: PredicateOp::Eq,
            left: Operand::Bound(Binding::Var(k.clone())),
            right: Operand::Bound(t.duplicate()),
        };
        proof {
            assert(repeats@[i as int].1@ is Temp);
            assert(filter.right->Bound_0 is Temp);
        }
        result = result.filter(filter);
        i += 1;
    }
    result
}

/// Term counts only grow along a body.
pub proof fn lemma_term_count_mono(body: Seq<Atom>, i: int, n: int)
    requires
        0 <= i <= n,
    ensures
        term_count(body, i) <= term_count(body, n),
    decreases n - i,
{
    if i < n {
        lemma_term_count_mono(body, i, n - 1);
        assert(term_count(body, n) >= term_count(body, n - 1)) by {
            match body[n - 1] {
                Atom::Rule(r) => {},
                _ => {},
            }
        }
    }
}

/// The views of a concatenation hold what either part holds.
pub proof fn lemma_keywords_append(a: Seq<Keyword>, b: Seq<Keyword>)
    ensures
        keyword_views(a + b).to_set() == keyword_views(a).to_set().union(keyword_views(b).to_set()),
{
    assert(keyword_views(a + b) =~= keyword_views(a) + keyword_views(b));
    lemma_concat_contains(keyword_views(a), keyword_views(b));
    assert(keyword_views(a + b).to_set() =~= keyword_views(a).to_set().union(keyword_views(b).to_set()));
}

/// What a concatenation holds.
pub proof fn lemma_concat_contains<A>(a: Seq<A>, b: Seq<A>)
    ensures
        forall|x: A| #[trigger] (a + b).contains(x) <==> (a.contains(x) || b.contains(x)),
{
    assert forall|x: A| #[trigger] (a + b).contains(x) <==> (a.contains(x) || b.contains(x)) by {
        if (a + b).contains(x) {
            let i = choose|i: int| 0 <= i < (a + b).len() && (a + b)[i] == x;
            if i < a.len() {
                assert(a[i] == x);
            } else {
                assert(b[i - a.len()] == x);
            }
        }
        if a.contains(x) {
            let i = choose|i: int| 0 <= i < a.len() && a[i] == x;
            assert((a + b)[i] == x);
        }
        if b.contains(x) {
            let i = choose|i: int| 0 <= i < b.len() && b[i] == x;
            assert((a + b)[a.len() + i] == x);
        }
    }
}

/// An entity term as a term over values.
fn entity_term(t: &Term<EntityId>) -> (r: Term<DataValue>)
    ensures
        term_vars(r) == term_vars(*t),
{
    match t {
        Term::Var(k) => Term::Var(k.clone()),
        Term::Const(e) => Term::Const(DataValue::EnId(*e)),
    }
}

/// A copy of a value term.
fn value_term(t: &Term<DataValue>) -> (r: Term<DataValue>)
    ensures
        term_vars(r) == term_vars(*t),
{
    match t {
        Term::Var(k) => Term::Var(k.clone()),
        Term::Const(v) => Term::Const(v.duplicate()),
    }
}

/// A copy of a list of keywords.
fn copy_keywords(ks: &Vec<Keyword>) -> (r: Vec<Keyword>)
    ensures
        keyword_views(r@) == keyword_views(ks@),
{
    let mut r: Vec<Keyword> = Vec::new();
    let mut i: usize = 0;
    while i < ks.len()
        invariant
            i <= ks.len(),
            keyword_views(r@) == keyword_views(ks@).take(i as int),
        decreases ks.len() - i,
    {
        let ghost prev = r@;
        r.push(ks[i].clone());
        proof {
            assert(keyword_views(r@) =~= keyword_views(prev).push(ks@[i as int]@));
            assert(keyword_views(r@) =~= keyword_views(ks@).take(i + 1));
        }
        i += 1;
    }
    proof {
        assert(keyword_views(ks@).take(ks@.len() as int) =~= keyword_views(ks@));
    }
    r
}

/// The index of the store of the rule `name`, if it is stored.
fn find_store(stores: &Vec<StoreEntry>, name: &Keyword) -> (r: Option<usize>)
    ensures
        r is None <==> !store_defined(stores@, name@),
        r is Some ==> r->0 < stores@.len() && stores@[r->0 as int].name@ == name@,
{
    let mut i: usize = 0;
    while i < stores.len()
        invariant
            i <= stores.len(),
            forall|j: int| 0 <= j < i ==> stores@[j].name@ != name@,
        decreases stores.len() - i,
    {
        if stores[i].name == *name {
            return Some(i);
        }
        i += 1;
    }
    None
}

/// The plan after atom `i` keeps the invariant of the compilation loop.
pub proof fn lemma_step(
    body: Seq<Atom>,
    stores: Seq<StoreEntry>,
    i: int,
    b0: Seq<BindingView>,
    b1: Seq<BindingView>,
    plan: ArgPlan,
    s0: int,
    s1: int,
)
    requires
        0 <= i < body.len(),
        !atom_fault(body[i], bound_vars(body, i), stores),
        fault_free(body, stores, i),
        columns_known(b0, bound_vars(body, i), s0),
        forall|k: Seq<char>| #[trigger] bound_vars(body, i).contains(k) ==> b0.contains(BindingView::Var(k)),
        plan.valid(bound_vars(body, i), s0, s1),
        bound_vars(body, i).union(keyword_views(plan.fresh@).to_set()) == bound_vars(body, i).union(atom_vars(body[i])),
        forall|x: BindingView| #[trigger] b1.contains(x) <==> (
            b0.contains(x)
            || binding_views(plan.const_bindings@).contains(x)
            || (binding_views(plan.right_vars@).contains(x) && !binding_views(plan.right_keys@).contains(x))),
    ensures
        columns_known(b1, bound_vars(body, i + 1), s1),
        forall|k: Seq<char>| #[trigger] bound_vars(body, i + 1).contains(k) ==> b1.contains(BindingView::Var(k)),
        fault_free(body, stores, i + 1),
{
    let bound = bound_vars(body, i);
    let next = bound_vars(body, i + 1);
    let fresh = keyword_views(plan.fresh@);
    let cb = binding_views(plan.const_bindings@);
    let rv = binding_views(plan.right_vars@);
    let rk = binding_views(plan.right_keys@);
    assert(next == bound.union(atom_vars(body[i])));
    assert forall|b: BindingView| #[trigger] b1.contains(b) implies match b {
        BindingView::Var(k) => next.contains(k),
        BindingView::Temp(n) => n < s1,
    } by {
        if b0.contains(b) {
        } else if cb.contains(b) {
        } else {
            match b {
                BindingView::Var(k) => {
                    assert(fresh.contains(k));
                    assert(fresh.to_set().contains(k));
                    assert(bound.union(fresh.to_set()).contains(k));
                },
                BindingView::Temp(n) => {},
            }
        }
    }
    assert forall|k: Seq<char>| #[trigger] next.contains(k) implies b1.contains(BindingView::Var(k)) by {
        if bound.contains(k) {
        } else {
            assert(bound.union(atom_vars(body[i])).contains(k));
            assert(bound.union(fresh.to_set()).contains(k));
            assert(fresh.contains(k));
            assert(rv.contains(BindingView::Var(k)));
        }
    }
    assert forall|j: int| 0 <= j < i + 1 implies !#[trigger] atom_fault(body[j], bound_vars(body, j), stores) by {
        if j < i {
        }
    }
}

/// The operand for a term of a predicate, whose variable must be bound already.
fn predicate_operand(t: &Term<DataValue>, seen: &Vec<Keyword>) -> (r: Result<Operand, QueryCompilationError>)
    ensures
        r is Ok <==> term_vars(*t).subset_of(keyword_views(seen@).to_set()),
        r is Ok ==> match r->Ok_0 {
            Operand::Bound(b) => t is Var && b@ == BindingView::Var(t->Var_0@),
            Operand::Const(_) => t is Const,
        },
        r is Err ==> match r->Err_0 {
            QueryCompilationError::UnsafeUnboundVars(vs) => t is Var && vs@.len() == 1 && vs@[0]@ == t->Var_0@,
            _ => false,
        },
{
    match t {
        Term::Var(k) => {
            if contains_keyword(seen, k) {
                proof {
                    assert(term_vars(*t) =~= set![k@]);
                    assert(keyword_views(seen@).to_set().contains(k@));
                }
                Ok(Operand::Bound(Binding::Var(k.clone())))
            } else {
                proof {
                    assert(term_vars(*t).contains(k@));
                    assert(!keyword_views(seen@).to_set().contains(k@));
                }
                Err(QueryCompilationError::UnsafeUnboundVars(vec![k.clone()]))
            }
        },
        Term::Const(c) => {
            proof {
                assert(term_vars(*t) =~= Set::<Seq<char>>::empty());
            }
            Ok(Operand::Const(c.duplicate()))
        },
    }
}

/// The last step of compiling a body: every requested variable must be bound,
/// and the plan is projected onto the requested variables, in order.
fn finish_body(
    ret: Relation,
    seen: &Vec<Keyword>,
    ret_vars: &Vec<Keyword>,
    Ghost(body): Ghost<Seq<Atom>>,
    Ghost(vld): Ghost<Validity>,
    Ghost(stores): Ghost<Seq<StoreEntry>>,
) -> (r: Result<Relation, QueryCompilationError>)
    requires
        plan_from(ret, body, vld, stores),
        ret.wf(),
        ret.spec_bindings().no_duplicates(),
        keyword_views(seen@).to_set() == bound_vars(body, body.len() as int),
        forall|k: Seq<char>| #[trigger] bound_vars(body, body.len() as int).contains(k)
            ==> ret.spec_bindings().contains(BindingView::Var(k)),
    ensures
        r is Ok <==> (forall|j: int|
            0 <= j < ret_vars@.len() ==> bound_vars(body, body.len() as int).contains(#[trigger] ret_vars@[j]@))
            && keyword_views(ret_vars@).no_duplicates(),
        r is Ok ==> r->Ok_0.wf() && r->Ok_0.spec_bindings() == var_bindings(ret_vars@),
        r is Ok ==> plan_from(r->Ok_0, body, vld, stores),
        r is Ok && ret.spec_bindings() == var_bindings(ret_vars@) ==> r->Ok_0 == ret,
        r is Ok && ret.spec_bindings() != var_bindings(ret_vars@) ==> r->Ok_0 == (Relation::Reorder {
            inner: Box::new(ret),
            new_order: r->Ok_0->new_order,
        }),
        r is Err ==> match r->Err_0 {
            QueryCompilationError::UnsafeUnboundVars(vs) => keyword_views(vs@) == keyword_views(ret_vars@).filter(
                |k: Seq<char>| !bound_vars(body, body.len() as int).contains(k),
            ),
            QueryCompilationError::UnexpectedForm(n, _) => (forall|j: int|
                0 <= j < ret_vars@.len() ==> bound_vars(body, body.len() as int).contains(#[trigger] ret_vars@[j]@))
                && !keyword_views(ret_vars@).no_duplicates() && keyword_views(ret_vars@).contains(n@),
            _ => false,
        },
{
    let ghost bound = bound_vars(body, body.len() as int);
    let ghost pred = |k: Seq<char>| !bound.contains(k);
    let mut missing: Vec<Keyword> = Vec::new();
    let mut order: Vec<Binding> = Vec::new();
    let mut j: usize = 0;
    while j < ret_vars.len()
        invariant
            j <= ret_vars.len(),
            keyword_views(seen@).to_set() == bound,
            bound == bound_vars(body, body.len() as int),
            pred == (|k: Seq<char>| !bound.contains(k)),
            keyword_views(missing@) == keyword_views(ret_vars@).take(j as int).filter(pred),
            binding_views(order@) == var_bindings(ret_vars@).take(j as int),
        decreases ret_vars.len() - j,
    {
        let ghost m0 = missing@;
        let ghost o0 = order@;
        let v = &ret_vars[j];
        let found = contains_keyword(seen, v);
        proof {
            assert(keyword_views(ret_vars@).take(j + 1) =~= keyword_views(ret_vars@).take(j as int).push(ret_vars@[j as int]@));
            keyword_views(ret_vars@).take(j as int).lemma_filter_push(ret_vars@[j as int]@, pred);
            assert(found == keyword_views(seen@).to_set().contains(v@));
        }
        if !found {
            missing.push(v.clone());
            proof {
                assert(keyword_views(missing@) =~= keyword_views(m0).push(v@));
            }
        }
        order.push(Binding::Var(v.clone()));
        proof {
            assert(binding_views(order@) =~= binding_views(o0).push(BindingView::Var(v@)));
            assert(var_bindings(ret_vars@).take(j + 1) =~= var_bindings(ret_vars@).take(j as int).push(BindingView::Var(v@)));
        }
        j += 1;
    }
    proof {
        assert(keyword_views(ret_vars@).take(ret_vars@.len() as int) =~= keyword_views(ret_vars@));
        assert(var_bindings(ret_vars@).take(ret_vars@.len() as int) =~= var_bindings(ret_vars@));
        lemma_filter_keywords(keyword_views(ret_vars@), pred);
    }
    if missing.len() > 0 {
        proof {
            assert(keyword_views(missing@).len() > 0);
            let x = keyword_views(missing@)[0];
            assert(keyword_views(missing@).contains(x));
            let jj = choose|jj: int| 0 <= jj < ret_vars@.len() && keyword_views(ret_vars@)[jj] == x;
            assert(!bound.contains(ret_vars@[jj]@));
        }
        return Err(QueryCompilationError::UnsafeUnboundVars(missing));
    }
    proof {
        assert forall|jj: int| 0 <= jj < ret_vars@.len() implies bound.contains(#[trigger] ret_vars@[jj]@) by {
            if !bound.contains(ret_vars@[jj]@) {
                assert(keyword_views(ret_vars@)[jj] == ret_vars@[jj]@);
                assert(keyword_views(missing@).contains(ret_vars@[jj]@));
            }
        }
        assert forall|jj: int| 0 <= jj < order@.len() implies ret.spec_bindings().contains(#[trigger] order@[jj]@) by {
            assert(binding_views(order@)[jj] == order@[jj]@);
            assert(var_bindings(ret_vars@)[jj] == BindingView::Var(ret_vars@[jj]@));
            assert(bound.contains(ret_vars@[jj]@));
        }
    }
    match first_repeat(ret_vars) {
        Some(d) => {
            proof {
                assert(keyword_views(ret_vars@)[d as int] == ret_vars@[d as int]@);
            }
            let msg = "repeated among the requested variables".to_string();
            return Err(QueryCompilationError::UnexpectedForm(ret_vars[d].clone(), msg));
        },
        None => {},
    }
    proof {
        assert(binding_views(order@) =~= var_bindings(ret_vars@));
        lemma_var_bindings_no_dup(ret_vars@);
    }
    let current = ret.bindings();
    if same_bindings(&current, &order) {
        return Ok(ret);
    }
    Ok(ret.reorder(order))
}

/// Distinct names give distinct columns.
pub proof fn lemma_var_bindings_no_dup(ks: Seq<Keyword>)
    requires
        keyword_views(ks).no_duplicates(),
    ensures
        var_bindings(ks).no_duplicates(),
{
    assert forall|i: int, j: int| 0 <= i < ks.len() && 0 <= j < ks.len() && i != j
        implies var_bindings(ks)[i] != var_bindings(ks)[j] by {
        assert(keyword_views(ks)[i] != keyword_views(ks)[j]);
    }
}

/// Whether two lists of columns are the same.
fn same_bindings(a: &Vec<Binding>, b: &Vec<Binding>) -> (r: bool)
    ensures
        r == (binding_views(a@) == binding_views(b@)),
{
    if a.len() != b.len() {
        proof {
            assert(binding_views(a@).len() != binding_views(b@).len());
        }
        return false;
    }
    let mut i: usize = 0;
    while i < a.len()
        invariant
            i <= a.len() == b.len(),
            forall|j: int| 0 <= j < i ==> a@[j]@ == b@[j]@,
        decreases a.len() - i,
    {
        if !a[i].same_as(&b[i]) {
            proof {
                assert(binding_views(a@)[i as int] != binding_views(b@)[i as int]);
            }
            return false;
        }
        i += 1;
    }
    proof {
        assert(binding_views(a@) =~= binding_views(b@));
    }
    true
}

/// The position of a name that repeats an earlier one, if any.
fn first_repeat(ks: &Vec<Keyword>) -> (r: Option<usize>)
    ensures
        r is None <==> keyword_views(ks@).no_duplicates(),
        r is Some ==> r->0 < ks@.len(),
{
    let mut j: usize = 0;
    while j < ks.len()
        invariant
            j <= ks.len(),
            keyword_views(ks@).take(j as int).no_duplicates(),
        decreases ks.len() - j,
    {
        let mut i: usize = 0;
        while i < j
            invariant
                i <= j < ks.len(),
                forall|m: int| 0 <= m < i ==> ks@[m]@ != ks@[j as int]@,
            decreases j - i,
        {
            if ks[i] == ks[j] {
                proof {
                    assert(keyword_views(ks@)[i as int] == keyword_views(ks@)[j as int]);
                }
                return Some(j);
            }
            i += 1;
        }
        proof {
            let t = keyword_views(ks@).take(j + 1);
            assert forall|a: int, b: int| 0 <= a < t.len() && 0 <= b < t.len() && a != b implies t[a] != t[b] by {
                assert(keyword_views(ks@).take(j as int)[a] == t[a] || a == j);
                if a < j && b < j {
                    assert(keyword_views(ks@).take(j as int)[b] == t[b]);
                }
            }
        }
        j += 1;
    }
    proof {
        assert(keyword_views(ks@).take(ks@.len() as int) =~= keyword_views(ks@));
    }
    None
}

/// What a filtered sequence of names holds.
pub proof fn lemma_filter_keywords(s: Seq<Seq<char>>, p: spec_fn(Seq<char>) -> bool)
    ensures
        forall|x: Seq<char>| #[trigger] s.filter(p).contains(x) <==> (s.contains(x) && p(x)),
    decreases s.len(),
{
    reveal(Seq::filter);
    if s.len() > 0 {
        let init = s.drop_last();
        lemma_filter_keywords(init, p);
        assert(s =~= init.push(s.last()));
        lemma_push_contains(init, s.last());
        lemma_push_contains(init.filter(p), s.last());
    }
}

impl SessionTx {
    /// Compiles the atoms of a rule body, evaluated as of `vld`, into a plan
    /// whose columns are `ret_vars`, in that order. `stores` gives the scratch
    /// table and arity of each rule that the body may apply.
    pub fn compile_rule_body(
        &self,
        clauses: &Vec<Atom>,
        vld: Validity,
        stores: &Vec<StoreEntry>,
        ret_vars: &Vec<Keyword>,
    ) -> (r: Result<Relation, QueryCompilationError>)
        requires
            stores_wf(stores@),
            2 * term_count(clauses@, clauses@.len() as int) <= u64::MAX,
        ensures
            r is Ok <==> (fault_free(clauses@, stores@, clauses@.len() as int) && (forall|j: int|
                0 <= j < ret_vars@.len() ==> bound_vars(clauses@, clauses@.len() as int).contains(
                    #[trigger] ret_vars@[j]@,
                )) && keyword_views(ret_vars@).no_duplicates()),
            r is Ok ==> r->Ok_0.wf() && r->Ok_0.spec_bindings() == var_bindings(ret_vars@),
            r is Ok ==> plan_from(r->Ok_0, clauses@, vld, stores@),
            clauses@.len() == 0 && ret_vars@.len() == 0 ==> r == Ok::<Relation, QueryCompilationError>(Relation::Unit),
            r is Err ==> match r->Err_0 {
                QueryCompilationError::UndefinedRule(n) => exists|i: int|
                    #[trigger] first_fault(clauses@, stores@, i) && clauses@[i] is Rule
                        && clauses@[i]->Rule_0.name@ == n@ && !store_defined(stores@, n@),
                QueryCompilationError::ArityMismatch(n) => exists|i: int|
                    #[trigger] first_fault(clauses@, stores@, i) && clauses@[i] is Rule
                        && clauses@[i]->Rule_0.name@ == n@ && store_defined(stores@, n@),
                QueryCompilationError::UnsafeUnboundVars(vs) => (exists|i: int|
                    #[trigger] first_fault(clauses@, stores@, i) && clauses@[i] is Predicate
                        && vs@.len() == 1 && !bound_vars(clauses@, i).contains(vs@[0]@)
                        && (term_vars(clauses@[i]->Predicate_0.left).contains(vs@[0]@)
                            || term_vars(clauses@[i]->Predicate_0.right).contains(vs@[0]@)))
                    || (fault_free(clauses@, stores@, clauses@.len() as int) && keyword_views(vs@)
                        == keyword_views(ret_vars@).filter(
                        |k: Seq<char>| !bound_vars(clauses@, clauses@.len() as int).contains(k),
                    )),
                QueryCompilationError::UnexpectedForm(n, _) => fault_free(clauses@, stores@, clauses@.len() as int)
                    && (forall|j: int| 0 <= j < ret_vars@.len() ==> bound_vars(clauses@, clauses@.len() as int).contains(
                        #[trigger] ret_vars@[j]@))
                    && !keyword_views(ret_vars@).no_duplicates() && keyword_views(ret_vars@).contains(n@),
                _ => false,
            },
    {
        let mut ret = Relation::unit();
        let mut seen: Vec<Keyword> = Vec::new();
        let mut id_serial: u64 = 0;
        let mut i: usize = 0;
        proof {
            assert(keyword_views(seen@).to_set() =~= bound_vars(clauses@, 0));
        }
        while i < clauses.len()
            invariant
                i <= clauses.len(),
                stores_wf(stores@),
                2 * term_count(clauses@, clauses@.len() as int) <= u64::MAX,
                ret.wf(),
                ret.spec_bindings().no_duplicates(),
                keyword_views(seen@).to_set() == bound_vars(clauses@, i as int),
                columns_known(ret.spec_bindings(), bound_vars(clauses@, i as int), id_serial as int),
                forall|k: Seq<char>| #[trigger] bound_vars(clauses@, i as int).contains(k)
                    ==> ret.spec_bindings().contains(BindingView::Var(k)),
                fault_free(clauses@, stores@, i as int),
                id_serial <= 2 * term_count(clauses@, i as int),
                i == 0 ==> ret == Relation::Unit,
                plan_from(ret, clauses@, vld, stores@),
            decreases clauses.len() - i,
        {
            let ghost bound = bound_vars(clauses@, i as int);
            let ghost s0 = id_serial as int;
            let ghost b0 = ret.spec_bindings();
            proof {
                lemma_term_count_mono(clauses@, i + 1, clauses@.len() as int);
            }
            match &clauses[i] {
                Atom::AttrTriple(a_triple) => {
                    let args = vec![entity_term(&a_triple.entity), value_term(&a_triple.value)];
                    proof {
                        assert(args_vars(args@, 0) =~= Set::<Seq<char>>::empty());
                        assert(args_vars(args@, 1) =~= term_vars(args@[0]));
                        assert(args_vars(args@, 2) =~= term_vars(a_triple.entity).union(term_vars(a_triple.value)));
                    }
                    let plan = plan_args(&args, &seen, &mut id_serial);
                    let mut fresh = copy_keywords(&plan.fresh);
                    let right = Relation::Triple {
                        attr: copy_attr(&a_triple.attr),
                        vld,
                        e_binding: plan.right_vars[0].duplicate(),
                        v_binding: plan.right_vars[1].duplicate(),
                    };
                    proof {
                        assert(right.spec_bindings() =~= binding_views(plan.right_vars@));
                        assert(clauses@[i as int] is AttrTriple && clauses@[i as int]->AttrTriple_0.attr == a_triple.attr);
                        assert(plan_from(right, clauses@, vld, stores@));
                    }
                    let ghost p = plan;
                    ret = attach(ret, plan, right, Ghost(bound), Ghost(s0), Ghost(id_serial as int), Ghost(clauses@), Ghost(vld), Ghost(stores@));
                    let ghost seen0 = seen@;
                    let ghost fresh0 = fresh@;
                    seen.append(&mut fresh);
                    proof {
                        lemma_keywords_append(seen0, fresh0);
                        assert(seen@ == seen0 + fresh0);
                        assert(bound_vars(clauses@, i + 1) == bound.union(atom_vars(clauses@[i as int])));
                        lemma_step(clauses@, stores@, i as int, b0, ret.spec_bindings(), p, s0, id_serial as int);
                    }
                },
                Atom::Rule(rule_app) => {
                    let found = find_store(stores, &rule_app.name);
                    if found.is_none() {
                        proof {
                            assert(first_fault(clauses@, stores@, i as int));
                        }
                        return Err(QueryCompilationError::UndefinedRule(rule_app.name.clone()));
                    }
                    let idx = found.unwrap();
                    if stores[idx].arity != rule_app.args.len() {
                        proof {
                            assert(store_defined(stores@, rule_app.name@));
                            assert(!store_has_arity(stores@, rule_app.name@, rule_app.args@.len() as int));
                            assert(first_fault(clauses@, stores@, i as int));
                        }
                        return Err(QueryCompilationError::ArityMismatch(rule_app.name.clone()));
                    }
                    proof {
                        assert(store_has_arity(stores@, rule_app.name@, rule_app.args@.len() as int));
                    }
                    let plan = plan_args(&rule_app.args, &seen, &mut id_serial);
                    let mut fresh = copy_keywords(&plan.fresh);
                    let right = Relation::Derived {
                        bindings: crate::relation::copy_bindings(&plan.right_vars),
                        store: stores[idx].store,
                    };
                    proof {
                        assert(right.spec_bindings() =~= binding_views(plan.right_vars@));
                        assert(clauses@[i as int] is Rule && stores@[idx as int].name@ == clauses@[i as int]->Rule_0.name@);
                        assert(plan_from(right, clauses@, vld, stores@));
                    }
                    let ghost p = plan;
                    ret = attach(ret, plan, right, Ghost(bound), Ghost(s0), Ghost(id_serial as int), Ghost(clauses@), Ghost(vld), Ghost(stores@));
                    let ghost seen0 = seen@;
                    let ghost fresh0 = fresh@;
                    seen.append(&mut fresh);
                    proof {
                        lemma_keywords_append(seen0, fresh0);
                        assert(seen@ == seen0 + fresh0);
                        assert(bound_vars(clauses@, i + 1) == bound.union(atom_vars(clauses@[i as int])));
                        lemma_step(clauses@, stores@, i as int, b0, ret.spec_bindings(), p, s0, id_serial as int);
                    }
                },
                Atom::Predicate(pred) => {
                    let left = match predicate_operand(&pred.left, &seen) {
                        Ok(o) => o,
                        Err(e) => {
                            proof {
                                assert(atom_fault(clauses@[i as int], bound, stores@));
                                assert(first_fault(clauses@, stores@, i as int));
                            }
                            return Err(e);
                        },
                    };
                    let right = match predicate_operand(&pred.right, &seen) {
                        Ok(o) => o,
                        Err(e) => {
                            proof {
                                assert(atom_fault(clauses@[i as int], bound, stores@));
                                assert(first_fault(clauses@, stores@, i as int));
                            }
                            return Err(e);
                        },
                    };
                    proof {
                        if left is Bound {
                            assert(keyword_views(seen@).to_set().contains(pred.left->Var_0@));
                            assert(bound.contains(pred.left->Var_0@));
                        }
                        if right is Bound {
                            assert(keyword_views(seen@).to_set().contains(pred.right->Var_0@));
                            assert(bound.contains(pred.right->Var_0@));
                        }
                    }
                    let filter = Filter { op: pred.op, left, right };
                    proof {
                        assert(clauses@[i as int] is Predicate && clauses@[i as int]->Predicate_0.op == filter.op);
                        if filter.right is Bound {
                            assert(filter.right->Bound_0 is Var);
                        }
                    }
                    ret = ret.filter(filter);
                    proof {
                        assert(bound_vars(clauses@, i + 1) =~= bound);
                        assert(!atom_fault(clauses@[i as int], bound, stores@));
                    }
                },
            }
            i += 1;
        }
        proof {
            assert(fault_free(clauses@, stores@, clauses@.len() as int));
            if clauses@.len() == 0 && ret_vars@.len() == 0 {
                assert(ret.spec_bindings() =~= var_bindings(ret_vars@));
                assert(keyword_views(ret_vars@) =~= Seq::<Seq<char>>::empty());
            }
        }
        finish_body(ret, &seen, ret_vars, Ghost(clauses@), Ghost(vld), Ghost(stores@))
    }
}

} // verus!
