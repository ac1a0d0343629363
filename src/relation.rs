//! Relational plans: the row sources that a compiled rule body is made of.
use vstd::prelude::*;

use crate::program::{Attribute, Keyword, PredicateOp};
use crate::value::{DataValue, Validity};

verus! {

/// The content of a `Binding`.
pub enum BindingView {
    Var(Seq<char>),
    Temp(u64),
}

/// A column name of a plan: a user variable, or a temporary made by the
/// compiler, which can never equal a user variable.
#[derive(Clone, Debug)]
pub enum Binding {
    Var(Keyword),
    Temp(u64),
}

impl View for Binding {
    type V = BindingView;

    open spec fn view(&self) -> BindingView {
        match self {
            Binding::Var(k) => BindingView::Var(k@),
            Binding::Temp(n) => BindingView::Temp(*n),
        }
    }
}

/// The views of a sequence of bindings.
pub open spec fn binding_views(bs: Seq<Binding>) -> Seq<BindingView> {
    bs.map_values(|b: Binding| b@)
}

impl Binding {
    /// A copy with the same content.
    pub fn duplicate(&self) -> (r: Binding)
        ensures
            r@ == self@,
    {
        match self {
            Binding::Var(k) => Binding::Var(k.clone()),
            Binding::Temp(n) => Binding::Temp(*n),
        }
    }

    /// Whether two bindings name the same column.
    pub fn same_as(&self, other: &Binding) -> (r: bool)
        ensures
            r == (self@ == other@),
    {
        match self {
            Binding::Var(a) => match other {
                Binding::Var(b) => *a == *b,
                Binding::Temp(_) => false,
            },
            Binding::Temp(a) => match other {
                Binding::Var(_) => false,
                Binding::Temp(b) => *a == *b,
            },
        }
    }
}

/// Whether `b` stands in `bs`, compared by content.
pub fn contains_binding(bs: &Vec<Binding>, b: &Binding) -> (r: bool)
    ensures
        r == binding_views(bs@).contains(b@),
{
    let mut i: usize = 0;
    while i < bs.len()
        invariant
            i <= bs.len(),
            forall|j: int| 0 <= j < i ==> bs@[j]@ != b@,
        decreases bs.len() - i,
    {
        if bs[i].same_as(b) {
            proof {
                assert(binding_views(bs@)[i as int] == b@);
            }
            return true;
        }
        i += 1;
    }
    proof {
        if binding_views(bs@).contains(b@) {
            let j = choose|j: int| 0 <= j < bs@.len() && binding_views(bs@)[j] == b@;
            assert(bs@[j]@ == b@);
        }
    }
    false
}

/// A copy of a list of bindings.
pub fn copy_bindings(bs: &Vec<Binding>) -> (r: Vec<Binding>)
    ensures
        binding_views(r@) == binding_views(bs@),
{
    let mut r: Vec<Binding> = Vec::new();
    let mut i: usize = 0;
    while i < bs.len()
        invariant
            i <= bs.len(),
            binding_views(r@) == binding_views(bs@).take(i as int),
        decreases bs.len() - i,
    {
        let ghost prev = r@;
        r.push(bs[i].duplicate());
        proof {
            assert(binding_views(r@) =~= binding_views(prev).push(bs@[i as int]@));
            assert(binding_views(r@) =~= binding_views(bs@).take(i + 1));
        }
        i += 1;
    }
    proof {
        assert(binding_views(bs@).take(bs@.len() as int) =~= binding_views(bs@));
    }
    r
}

/// Membership in `keys` when `keeping`, absence from it otherwise.
pub open spec fn select_pred(keys: Seq<BindingView>, keeping: bool) -> spec_fn(BindingView) -> bool {
    |b: BindingView| keys.contains(b) == keeping
}

/// The bindings of `bs` that are in `keep` (`keeping`) or not in it, in order.
pub fn select_bindings(bs: &Vec<Binding>, keys: &Vec<Binding>, keeping: bool) -> (r: Vec<Binding>)
    ensures
        keeping ==> binding_views(r@) == only(binding_views(bs@), binding_views(keys@)),
        !keeping ==> binding_views(r@) == without(binding_views(bs@), binding_views(keys@)),
{
    let mut r: Vec<Binding> = Vec::new();
    let mut i: usize = 0;
    while i < bs.len()
        invariant
            i <= bs.len(),
            binding_views(r@) == binding_views(bs@).take(i as int).filter(select_pred(binding_views(keys@), keeping)),
        decreases bs.len() - i,
    {
        let ghost prev = r@;
        let found = contains_binding(keys, &bs[i]);
        proof {
            assert(binding_views(bs@).take(i + 1) =~= binding_views(bs@).take(i as int).push(
                bs@[i as int]@,
            ));
            binding_views(bs@).take(i as int).lemma_filter_push(bs@[i as int]@, select_pred(binding_views(keys@), keeping));
            assert(select_pred(binding_views(keys@), keeping)(bs@[i as int]@) == (found == keeping));
        }
        if found == keeping {
            r.push(bs[i].duplicate());
            proof {
                assert(binding_views(r@) =~= binding_views(prev).push(bs@[i as int]@));
            }
        }
        i += 1;
    }
    proof {
        assert(binding_views(bs@).take(bs@.len() as int) =~= binding_views(bs@));
        if keeping {
            assert(select_pred(binding_views(keys@), keeping) =~= (|b: BindingView| binding_views(keys@).contains(b)));
        } else {
            assert(select_pred(binding_views(keys@), keeping) =~= (|b: BindingView| !binding_views(keys@).contains(b)));
        }
    }
    r
}

/// The concatenation of two lists of bindings.
pub fn concat_bindings(a: Vec<Binding>, b: Vec<Binding>) -> (r: Vec<Binding>)
    ensures
        binding_views(r@) == binding_views(a@) + binding_views(b@),
{
    let mut a = a;
    let mut b = b;
    let ghost (a0, b0) = (a@, b@);
    a.append(&mut b);
    proof {
        assert(binding_views(a@) =~= binding_views(a0) + binding_views(b0));
    }
    a
}

/// What a filtered sequence holds, and that filtering keeps it free of duplicates.
pub proof fn lemma_filter_facts(bs: Seq<BindingView>, p: spec_fn(BindingView) -> bool)
    ensures
        forall|x: BindingView| #[trigger] bs.filter(p).contains(x) <==> (bs.contains(x) && p(x)),
        bs.no_duplicates() ==> bs.filter(p).no_duplicates(),
    decreases bs.len(),
{
    reveal(Seq::filter);
    if bs.len() > 0 {
        let init = bs.drop_last();
        lemma_filter_facts(init, p);
        assert(bs =~= init.push(bs.last()));
        assert forall|x: BindingView| #[trigger] bs.contains(x) <==> (init.contains(x) || x == bs.last()) by {
            if bs.contains(x) {
                let j = choose|j: int| 0 <= j < bs.len() && bs[j] == x;
                if j < bs.len() - 1 {
                    assert(init[j] == x);
                }
            }
            if init.contains(x) {
                let j = choose|j: int| 0 <= j < init.len() && init[j] == x;
                assert(bs[j] == x);
            }
        }
        let sub = init.filter(p);
        if p(bs.last()) {
            assert forall|x: BindingView| #[trigger] sub.push(bs.last()).contains(x) <==> (sub.contains(x) || x == bs.last()) by {
                if sub.push(bs.last()).contains(x) {
                    let j = choose|j: int| 0 <= j < sub.len() + 1 && sub.push(bs.last())[j] == x;
                    if j < sub.len() {
                        assert(sub[j] == x);
                    }
                }
                if sub.contains(x) {
                    let j = choose|j: int| 0 <= j < sub.len() && sub[j] == x;
                    assert(sub.push(bs.last())[j] == x);
                }
                if x == bs.last() {
                    assert(sub.push(bs.last())[sub.len() as int] == x);
                }
            }
            if bs.no_duplicates() {
                assert(init.no_duplicates());
                assert(!init.contains(bs.last())) by {
                    if init.contains(bs.last()) {
                        let j = choose|j: int| 0 <= j < init.len() && init[j] == bs.last();
                        assert(bs[j] == bs[bs.len() - 1]);
                    }
                }
                assert(sub.push(bs.last()).no_duplicates()) by {
                    assert forall|a: int, b: int|
                        0 <= a < sub.len() + 1 && 0 <= b < sub.len() + 1 && a != b implies
                        sub.push(bs.last())[a] != sub.push(bs.last())[b] by {
                        if a == sub.len() {
                            assert(sub.contains(sub[b]));
                        } else if b == sub.len() {
                            assert(sub.contains(sub[a]));
                        }
                    }
                }
            }
        } else {
            if bs.no_duplicates() {
                assert(init.no_duplicates());
            }
        }
    }
}

/// What `without` keeps.
pub proof fn lemma_without_facts(bs: Seq<BindingView>, drop: Seq<BindingView>)
    ensures
        forall|x: BindingView| #[trigger] without(bs, drop).contains(x) <==> (bs.contains(x) && !drop.contains(x)),
        bs.no_duplicates() ==> without(bs, drop).no_duplicates(),
{
    lemma_filter_facts(bs, |b: BindingView| !drop.contains(b));
}

/// What `only` keeps.
pub proof fn lemma_only_facts(bs: Seq<BindingView>, keep: Seq<BindingView>)
    ensures
        forall|x: BindingView| #[trigger] only(bs, keep).contains(x) <==> (bs.contains(x) && keep.contains(x)),
        bs.no_duplicates() ==> only(bs, keep).no_duplicates(),
{
    lemma_filter_facts(bs, |b: BindingView| keep.contains(b));
}

/// Identifies a scratch table that holds the rows of a derived relation.
#[derive(Clone, Copy, Debug, PartialEq, Eq, Structural)]
pub struct TempStoreId(pub u32);

/// One side of a filter comparison.
#[derive(Clone, Debug)]
pub enum Operand {
    Bound(Binding),
    Const(DataValue),
}

/// A comparison between two operands of a row.
#[derive(Clone, Debug)]
pub struct Filter {
    pub op: PredicateOp,
    pub left: Operand,
    pub right: Operand,
}

/// Whether an operand only names columns among `bs`.
pub open spec fn operand_within(o: Operand, bs: Seq<BindingView>) -> bool {
    match o {
        Operand::Bound(b) => bs.contains(b@),
        Operand::Const(_) => true,
    }
}

/// A lazy row source with an ordered list of output columns.
#[derive(Debug)]
pub enum Relation {
    /// One empty row.
    Unit,
    /// One row of fixed values.
    Singlet { bindings: Vec<Binding>, values: Vec<DataValue> },
    /// The visible (entity, value) pairs of an attribute as of a validity.
    Triple { attr: Attribute, vld: Validity, e_binding: Binding, v_binding: Binding },
    /// The rows of a scratch table.
    Derived { bindings: Vec<Binding>, store: TempStoreId },
    /// Equi-join on parallel key lists; the right keys are dropped from the output.
    Join {
        left: Box<Relation>,
        right: Box<Relation>,
        left_keys: Vec<Binding>,
        right_keys: Vec<Binding>,
    },
    /// Every pair of a left row and a right row.
    Cartesian { left: Box<Relation>, right: Box<Relation> },
    /// The columns of the inner rows, in a new order; columns left out are dropped.
    Reorder { inner: Box<Relation>, new_order: Vec<Binding> },
    /// The inner rows that satisfy a comparison.
    Filtered { inner: Box<Relation>, filter: Filter },
}

/// The bindings of `bs` that are not in `drop`, in order.
pub open spec fn without(bs: Seq<BindingView>, drop: Seq<BindingView>) -> Seq<BindingView> {
    bs.filter(|b: BindingView| !drop.contains(b))
}

/// The bindings of `bs` that are in `keep`, in order.
pub open spec fn only(bs: Seq<BindingView>, keep: Seq<BindingView>) -> Seq<BindingView> {
    bs.filter(|b: BindingView| keep.contains(b))
}

impl Relation {
    /// The output columns, in order.
    pub open spec fn spec_bindings(&self) -> Seq<BindingView>
        decreases self,
    {
        match self {
            Relation::Unit => Seq::empty(),
            Relation::Singlet { bindings, .. } => binding_views(bindings@),
            Relation::Triple { e_binding, v_binding, .. } => seq![e_binding@, v_binding@],
            Relation::Derived { bindings, .. } => binding_views(bindings@),
            Relation::Join { left, right, right_keys, .. } => left.spec_bindings()
                + without(right.spec_bindings(), binding_views(right_keys@)),
            Relation::Cartesian { left, right } => left.spec_bindings() + right.spec_bindings(),
            Relation::Reorder { new_order, .. } => binding_views(new_order@),
            Relation::Filtered { inner, .. } => inner.spec_bindings(),
        }
    }

    /// Well-formedness: column names are unique, join keys are parallel lists
    /// of columns of each side, and every column referred to exists.
    pub open spec fn wf(&self) -> bool
        decreases self,
    {
        &&& self.spec_bindings().no_duplicates()
        &&& match self {
            Relation::Unit => true,
            Relation::Singlet { bindings, values } => bindings@.len() == values@.len(),
            Relation::Triple { .. } => true,
            Relation::Derived { .. } => true,
            Relation::Join { left, right, left_keys, right_keys } => {
                &&& left.wf()
                &&& right.wf()
                &&& left_keys@.len() == right_keys@.len()
                &&& forall|i: int|
                    0 <= i < left_keys@.len() ==> left.spec_bindings().contains(
                        #[trigger] left_keys@[i]@,
                    )
                &&& forall|i: int|
                    0 <= i < right_keys@.len() ==> right.spec_bindings().contains(
                        #[trigger] right_keys@[i]@,
                    )
            },
            Relation::Cartesian { left, right } => left.wf() && right.wf(),
            Relation::Reorder { inner, new_order } => {
                &&& inner.wf()
                &&& forall|i: int|
                    0 <= i < new_order@.len() ==> inner.spec_bindings().contains(
                        #[trigger] new_order@[i]@,
                    )
            },
            Relation::Filtered { inner, filter } => {
                &&& inner.wf()
                &&& operand_within(filter.left, inner.spec_bindings())
                &&& operand_within(filter.right, inner.spec_bindings())
            },
        }
    }

    /// The relation with one empty row.
    pub fn unit() -> (r: Relation)
        ensures
            r is Unit,
            r.wf(),
            r.spec_bindings() == Seq::<BindingView>::empty(),
    {
        Relation::Unit
    }

    /// The output columns, in order.
    pub fn bindings(&self) -> (r: Vec<Binding>)
        ensures
            binding_views(r@) == self.spec_bindings(),
        decreases self,
    {
        match self {
            Relation::Unit => Vec::new(),
            Relation::Singlet { bindings, .. } => copy_bindings(bindings),
            Relation::Triple { e_binding, v_binding, .. } => {
                let r = vec![e_binding.duplicate(), v_binding.duplicate()];
                proof {
                    assert(binding_views(r@) =~= seq![e_binding@, v_binding@]);
                }
                r
            },
            Relation::Derived { bindings, .. } => copy_bindings(bindings),
            Relation::Join { left, right, right_keys, .. } => {
                let l = left.bindings();
                let rb = right.bindings();
                concat_bindings(l, select_bindings(&rb, right_keys, false))
            },
            Relation::Cartesian { left, right } => concat_bindings(left.bindings(), right.bindings()),
            Relation::Reorder { new_order, .. } => copy_bindings(new_order),
            Relation::Filtered { inner, .. } => inner.bindings(),
        }
    }

    /// The equi-join of `self` and `right` on the parallel lists of keys.
    pub fn join(self, right: Relation, left_keys: Vec<Binding>, right_keys: Vec<Binding>) -> (r: Relation)
        requires
            self.wf(),
            right.wf(),
            left_keys@.len() == right_keys@.len(),
            forall|i: int| 0 <= i < left_keys@.len() ==> self.spec_bindings().contains(#[trigger] left_keys@[i]@),
            forall|i: int| 0 <= i < right_keys@.len() ==> right.spec_bindings().contains(#[trigger] right_keys@[i]@),
            (self.spec_bindings() + without(right.spec_bindings(), binding_views(right_keys@))).no_duplicates(),
        ensures
            r.wf(),
            r.spec_bindings() == self.spec_bindings() + without(right.spec_bindings(), binding_views(right_keys@)),
            r == (Relation::Join { left: Box::new(self), right: Box::new(right), left_keys, right_keys }),
    {
        Relation::Join { left: Box::new(self), right: Box::new(right), left_keys, right_keys }
    }

    /// Every pair of a row of `self` and a row of `right`.
    pub fn cartesian_join(self, right: Relation) -> (r: Relation)
        requires
            self.wf(),
            right.wf(),
            (self.spec_bindings() + right.spec_bindings()).no_duplicates(),
        ensures
            r.wf(),
            r.spec_bindings() == self.spec_bindings() + right.spec_bindings(),
            r == (Relation::Cartesian { left: Box::new(self), right: Box::new(right) }),
    {
        Relation::Cartesian { left: Box::new(self), right: Box::new(right) }
    }

    /// The rows of `self` with the columns of `new_order`, in that order.
    pub fn reorder(self, new_order: Vec<Binding>) -> (r: Relation)
        requires
            self.wf(),
            forall|i: int| 0 <= i < new_order@.len() ==> self.spec_bindings().contains(#[trigger] new_order@[i]@),
            binding_views(new_order@).no_duplicates(),
        ensures
            r.wf(),
            r.spec_bindings() == binding_views(new_order@),
            r == (Relation::Reorder { inner: Box::new(self), new_order }),
    {
        Relation::Reorder { inner: Box::new(self), new_order }
    }

    /// The rows of `self` that satisfy `filter`.
    pub fn filter(self, filter: Filter) -> (r: Relation)
        requires
            self.wf(),
            self.spec_bindings().no_duplicates(),
            operand_within(filter.left, self.spec_bindings()),
            operand_within(filter.right, self.spec_bindings()),
        ensures
            r.wf(),
            r.spec_bindings() == self.spec_bindings(),
            r == (Relation::Filtered { inner: Box::new(self), filter }),
    {
        Relation::Filtered { inner: Box::new(self), filter }
    }

    /// Drops the columns that are not in `keep`; the others keep their order.
    pub fn eliminate_temp_vars(self, keep: &Vec<Binding>) -> (r: Relation)
        requires
            self.wf(),
        ensures
            r.wf(),
            r.spec_bindings() == only(self.spec_bindings(), binding_views(keep@)),
            r matches Relation::Reorder { inner, .. } && *inner == self,
    {
        let current = self.bindings();
        let kept = select_bindings(&current, keep, true);
        proof {
            lemma_only_facts(self.spec_bindings(), binding_views(keep@));
            assert forall|i: int| 0 <= i < kept@.len() implies self.spec_bindings().contains(#[trigger] kept@[i]@) by {
                assert(binding_views(kept@)[i] == kept@[i]@);
                assert(binding_views(kept@).contains(kept@[i]@));
            }
        }
        Relation::Reorder { inner: Box::new(self), new_order: kept }
    }

    /// Whether this is the relation with one empty row.
    pub fn is_unit(&self) -> (r: bool)
        ensures
            r == self is Unit,
    {
        match self {
            Relation::Unit => true,
            _ => false,
        }
    }
}

} // verus!
