//! The entities visible as of a validity, with the values of their attributes.
use vstd::prelude::*;

use crate::program::{Attribute, Cardinality, Keyword};
use crate::transact::{
    changed_between, holds, latest, latest_triple, lemma_holds_as_of_monotone, lemma_read_as_of_monotone,
    triple_changed_between, visible, Fact, SessionTx, StoreOp,
};
use crate::value::{DataValue, EntityId, Validity, ValueView};

verus! {

/// An entity with the visible values of its attributes, by attribute name.
#[derive(Debug)]
pub struct EntityAttrs {
    pub id: EntityId,
    pub attrs: Vec<(Keyword, Vec<DataValue>)>,
}

/// The views of a list of values.
pub open spec fn value_views(vs: Seq<DataValue>) -> Seq<ValueView> {
    vs.map_values(|d: DataValue| d@)
}

/// Whether the attribute `at` of entity `e` has a value visible at `vld`.
#[verifier::opaque]
pub open spec fn attr_nonempty(facts: Seq<Fact>, e: u64, at: Attribute, vld: i64) -> bool {
    match at.cardinality {
        Cardinality::One => visible(facts, e, at.id.0, vld) is Some,
        Cardinality::Many => exists|v: ValueView| holds(facts, e, at.id.0, v, vld),
    }
}

/// Whether `vals` are the values of attribute `at` of entity `e` visible at
/// `vld`: the one visible value of a cardinality-one attribute, or each value
/// that holds, once, for a cardinality-many attribute.
#[verifier::opaque]
pub open spec fn values_right(facts: Seq<Fact>, e: u64, at: Attribute, vld: i64, vals: Seq<ValueView>) -> bool {
    match at.cardinality {
        Cardinality::One => vals == match visible(facts, e, at.id.0, vld) {
            Some(v) => seq![v],
            None => Seq::<ValueView>::empty(),
        },
        Cardinality::Many => vals.no_duplicates() && forall|v: ValueView|
            #[trigger] vals.contains(v) <==> holds(facts, e, at.id.0, v, vld),
    }
}

/// Whether some attribute of `attrs` of entity `e` has a value visible at `vld`.
pub open spec fn entity_has(facts: Seq<Fact>, attrs: Seq<Attribute>, e: u64, vld: i64) -> bool {
    exists|i: int| 0 <= i < attrs.len() && #[trigger] attr_nonempty(facts, e, attrs[i], vld)
}

/// What `entities_at` lists for entity `e`: exactly the attributes with a
/// visible value, each with those values.
pub open spec fn entry_right(facts: Seq<Fact>, attrs: Seq<Attribute>, vld: i64, x: EntityAttrs) -> bool {
    let e = x.id.0;
    &&& forall|k: int| 0 <= k < x.attrs@.len() ==> exists|i: int| 0 <= i < attrs.len()
        && (#[trigger] x.attrs@[k]).0@ == (#[trigger] attrs[i]).name@
        && attr_nonempty(facts, e, attrs[i], vld)
        && values_right(facts, e, attrs[i], vld, value_views(x.attrs@[k].1@))
    &&& forall|i: int| 0 <= i < attrs.len() && #[trigger] attr_nonempty(facts, e, attrs[i], vld)
        ==> exists|k: int| 0 <= k < x.attrs@.len() && (#[trigger] x.attrs@[k]).0@ == attrs[i].name@
        && values_right(facts, e, attrs[i], vld, value_views(x.attrs@[k].1@))
}

/// The latest fact about a pair is a fact about that pair.
pub proof fn lemma_latest_fact(facts: Seq<Fact>, e: u64, a: u32, vld: i64, n: int)
    requires
        0 <= n <= facts.len(),
    ensures
        latest(facts, e, a, vld, n) matches Some(i) ==> 0 <= i < n && facts[i].entity.0 == e && facts[i].attr.0 == a,
    decreases n,
{
    if n > 0 {
        lemma_latest_fact(facts, e, a, vld, n - 1);
    }
}

/// The latest fact about a triple is a fact about that triple.
pub proof fn lemma_latest_triple_fact(facts: Seq<Fact>, e: u64, a: u32, v: ValueView, vld: i64, n: int)
    requires
        0 <= n <= facts.len(),
    ensures
        latest_triple(facts, e, a, v, vld, n) matches Some(i) ==> 0 <= i < n && facts[i].entity.0 == e
            && facts[i].attr.0 == a && facts[i].value@ == v,
    decreases n,
{
    if n > 0 {
        lemma_latest_triple_fact(facts, e, a, v, vld, n - 1);
    }
}

/// An entity with a visible value is named by some fact.
pub proof fn lemma_has_fact(facts: Seq<Fact>, attrs: Seq<Attribute>, e: u64, vld: i64)
    requires
        entity_has(facts, attrs, e, vld),
    ensures
        exists|j: int| 0 <= j < facts.len() && (#[trigger] facts[j]).entity.0 == e,
{
    reveal(attr_nonempty);
    let i = choose|i: int| 0 <= i < attrs.len() && #[trigger] attr_nonempty(facts, e, attrs[i], vld);
    let a = attrs[i].id.0;
    match attrs[i].cardinality {
        Cardinality::One => {
            lemma_latest_fact(facts, e, a, vld, facts.len() as int);
            let j = latest(facts, e, a, vld, facts.len() as int)->0;
            assert(facts[j].entity.0 == e);
        },
        Cardinality::Many => {
            let v = choose|v: ValueView| holds(facts, e, a, v, vld);
            lemma_latest_triple_fact(facts, e, a, v, vld, facts.len() as int);
            let j = latest_triple(facts, e, a, v, vld, facts.len() as int)->0;
            assert(facts[j].entity.0 == e);
        },
    }
}

/// Whether a value with the content of `v` stands in `vs`.
fn contains_value(vs: &Vec<DataValue>, v: &DataValue) -> (r: bool)
    ensures
        r == value_views(vs@).contains(v@),
{
    let mut i: usize = 0;
    while i < vs.len()
        invariant
            i <= vs.len(),
            forall|j: int| 0 <= j < i ==> vs@[j]@ != v@,
        decreases vs.len() - i,
    {
        if vs[i].same_as(v) {
            proof {
                assert(value_views(vs@)[i as int] == v@);
            }
            return true;
        }
        i += 1;
    }
    proof {
        if value_views(vs@).contains(v@) {
            let j = choose|j: int| 0 <= j < vs@.len() && value_views(vs@)[j] == v@;
            assert(vs@[j]@ == v@);
        }
    }
    false
}

/// The values of attribute `at` of entity `e` visible as of `vld`.
pub fn attr_values(tx: &SessionTx, e: EntityId, at: &Attribute, vld: Validity) -> (r: Vec<DataValue>)
    ensures
        values_right(tx.facts@, e.0, *at, vld.0, value_views(r@)),
        r@.len() > 0 <==> attr_nonempty(tx.facts@, e.0, *at, vld.0),
{
    reveal(attr_nonempty);
    reveal(values_right);
    let facts = &tx.facts;
    match at.cardinality {
        Cardinality::One => match tx.read_value(e, at.id, vld) {
            Some(v) => {
                let r = vec![v];
                proof {
                    assert(value_views(r@) =~= seq![r@[0]@]);
                }
                r
            },
            None => {
                let r: Vec<DataValue> = Vec::new();
                proof {
                    assert(value_views(r@) =~= Seq::<ValueView>::empty());
                }
                r
            },
        },
        Cardinality::Many => {
            let mut out: Vec<DataValue> = Vec::new();
            let mut j: usize = 0;
            while j < facts.len()
                invariant
                    j <= facts.len(),
                    facts@ == tx.facts@,
                    at.cardinality == Cardinality::Many,
                    value_views(out@).no_duplicates(),
                    forall|v: ValueView| #[trigger] value_views(out@).contains(v) ==> holds(facts@, e.0, at.id.0, v, vld.0),
                    forall|jj: int| 0 <= jj < j && (#[trigger] facts@[jj]).entity.0 == e.0 && facts@[jj].attr.0 == at.id.0
                        && holds(facts@, e.0, at.id.0, facts@[jj].value@, vld.0) ==> value_views(out@).contains(facts@[jj].value@),
                decreases facts.len() - j,
            {
                let f = &facts[j];
                if f.entity.0 == e.0 && f.attr.0 == at.id.0 && tx.has_value(e, at.id, &f.value, vld)
                    && !contains_value(&out, &f.value) {
                    let ghost before = value_views(out@);
                    out.push(f.value.duplicate());
                    proof {
                        assert(value_views(out@) =~= before.push(f.value@));
                        crate::compile::lemma_push_contains(before, f.value@);
                        crate::compile::lemma_push_no_dup(before, f.value@);
                    }
                }
                j += 1;
            }
            proof {
                assert forall|v: ValueView| holds(facts@, e.0, at.id.0, v, vld.0) implies #[trigger] value_views(out@).contains(v) by {
                    lemma_latest_triple_fact(facts@, e.0, at.id.0, v, vld.0, facts@.len() as int);
                    let jj = latest_triple(facts@, e.0, at.id.0, v, vld.0, facts@.len() as int)->0;
                    assert(facts@[jj].value@ == v);
                }
                if out@.len() > 0 {
                    assert(value_views(out@).contains(value_views(out@)[0]));
                }
                if exists|v: ValueView| holds(facts@, e.0, at.id.0, v, vld.0) {
                    let v = choose|v: ValueView| holds(facts@, e.0, at.id.0, v, vld.0);
                    assert(value_views(out@).contains(v));
                }
            }
            out
        },
    }
}

/// The values that `entities_at` reports for an attribute of an entity at a
/// later validity are those it reports at an earlier one, unless a fact about
/// that entity and attribute has a validity between the two.
pub proof fn lemma_entity_values_monotone(
    facts: Seq<Fact>,
    e: u64,
    at: Attribute,
    vld1: i64,
    vld2: i64,
    vals1: Seq<ValueView>,
    vals2: Seq<ValueView>,
)
    requires
        vld1 <= vld2,
        values_right(facts, e, at, vld1, vals1),
        values_right(facts, e, at, vld2, vals2),
    ensures
        vals1.to_set() == vals2.to_set() || changed_between(facts, e, at.id.0, vld1, vld2),
{
    reveal(values_right);
    let a = at.id.0;
    if !changed_between(facts, e, a, vld1, vld2) {
        match at.cardinality {
            Cardinality::One => {
                lemma_read_as_of_monotone(facts, e, a, vld1, vld2);
            },
            Cardinality::Many => {
                assert forall|v: ValueView| #[trigger] vals1.contains(v) == vals2.contains(v) by {
                    lemma_holds_as_of_monotone(facts, e, a, v, vld1, vld2);
                    if triple_changed_between(facts, e, a, v, vld1, vld2) {
                        let i = choose|i: int| 0 <= i < facts.len() && (#[trigger] facts[i]).entity.0 == e
                            && facts[i].attr.0 == a && facts[i].value@ == v && vld1 < facts[i].vld.0 <= vld2;
                        assert(facts[i].entity.0 == e);
                    }
                }
                assert(vals1.to_set() =~= vals2.to_set());
            },
        }
    }
}

/// What the first `i` attributes contribute to the entry of entity `e`.
pub open spec fn entry_inv(facts: Seq<Fact>, attrs: Seq<Attribute>, e: u64, vld: i64, out: Seq<(Keyword, Vec<DataValue>)>, i: int) -> bool {
    &&& 0 <= i <= attrs.len()
    &&& forall|k: int| 0 <= k < out.len() ==> exists|ii: int| 0 <= ii < attrs.len()
        && (#[trigger] out[k]).0@ == (#[trigger] attrs[ii]).name@
        && attr_nonempty(facts, e, attrs[ii], vld)
        && values_right(facts, e, attrs[ii], vld, value_views(out[k].1@))
    &&& forall|ii: int| 0 <= ii < i && #[trigger] attr_nonempty(facts, e, attrs[ii], vld)
        ==> exists|k: int| 0 <= k < out.len() && (#[trigger] out[k]).0@ == attrs[ii].name@
        && values_right(facts, e, attrs[ii], vld, value_views(out[k].1@))
    &&& out.len() > 0 ==> exists|ii: int| 0 <= ii < attrs.len() && #[trigger] attr_nonempty(facts, e, attrs[ii], vld)
}

/// Adding attribute `i` with its values keeps the entry right.
pub proof fn lemma_entry_push(facts: Seq<Fact>, attrs: Seq<Attribute>, e: u64, vld: i64,
    before: Seq<(Keyword, Vec<DataValue>)>, after: Seq<(Keyword, Vec<DataValue>)>, i: int)
    requires
        entry_inv(facts, attrs, e, vld, before, i),
        i < attrs.len(),
        attr_nonempty(facts, e, attrs[i], vld),
        after.len() == before.len() + 1,
        forall|k: int| 0 <= k < before.len() ==> after[k] == before[k],
        after[before.len() as int].0@ == attrs[i].name@,
        values_right(facts, e, attrs[i], vld, value_views(after[before.len() as int].1@)),
    ensures
        entry_inv(facts, attrs, e, vld, after, i + 1),
{
    let n = before.len() as int;
    assert forall|k: int| 0 <= k < after.len() implies exists|ii: int| 0 <= ii < attrs.len()
        && (#[trigger] after[k]).0@ == (#[trigger] attrs[ii]).name@
        && attr_nonempty(facts, e, attrs[ii], vld)
        && values_right(facts, e, attrs[ii], vld, value_views(after[k].1@)) by {
        if k < n {
            assert(after[k] == before[k]);
        } else {
            assert(after[k].0@ == attrs[i].name@);
        }
    }
    assert forall|ii: int| 0 <= ii < i + 1 && #[trigger] attr_nonempty(facts, e, attrs[ii], vld)
        implies exists|k: int| 0 <= k < after.len() && (#[trigger] after[k]).0@ == attrs[ii].name@
        && values_right(facts, e, attrs[ii], vld, value_views(after[k].1@)) by {
        if ii < i {
            let k = choose|k: int| 0 <= k < before.len() && (#[trigger] before[k]).0@ == attrs[ii].name@
                && values_right(facts, e, attrs[ii], vld, value_views(before[k].1@));
            assert(after[k] == before[k]);
        } else {
            assert(after[n].0@ == attrs[ii].name@);
        }
    }
}

/// Skipping attribute `i`, which has no visible value, keeps the entry right.
pub proof fn lemma_entry_skip(facts: Seq<Fact>, attrs: Seq<Attribute>, e: u64, vld: i64,
    out: Seq<(Keyword, Vec<DataValue>)>, i: int)
    requires
        entry_inv(facts, attrs, e, vld, out, i),
        i < attrs.len(),
        !attr_nonempty(facts, e, attrs[i], vld),
    ensures
        entry_inv(facts, attrs, e, vld, out, i + 1),
{
    assert forall|ii: int| 0 <= ii < i + 1 && #[trigger] attr_nonempty(facts, e, attrs[ii], vld)
        implies exists|k: int| 0 <= k < out.len() && (#[trigger] out[k]).0@ == attrs[ii].name@
        && values_right(facts, e, attrs[ii], vld, value_views(out[k].1@)) by {
        assert(ii < i);
    }
}

/// The entry right for all attributes.
pub proof fn lemma_entry_done(facts: Seq<Fact>, attrs: Seq<Attribute>, e: u64, vld: i64, x: EntityAttrs)
    requires
        entry_inv(facts, attrs, e, vld, x.attrs@, attrs.len() as int),
        x.id.0 == e,
    ensures
        entry_right(facts, attrs, vld, x),
        x.attrs@.len() > 0 <==> entity_has(facts, attrs, e, vld),
{
    if entity_has(facts, attrs, e, vld) {
        let ii = choose|ii: int| 0 <= ii < attrs.len() && #[trigger] attr_nonempty(facts, e, attrs[ii], vld);
    }
}

/// The attributes of entity `e` with values visible as of `vld`.
fn entity_entry(tx: &SessionTx, attrs: &Vec<Attribute>, e: EntityId, vld: Validity) -> (r: EntityAttrs)
    ensures
        r.id == e,
        entry_right(tx.facts@, attrs@, vld.0, r),
        r.attrs@.len() > 0 <==> entity_has(tx.facts@, attrs@, e.0, vld.0),
{
    let mut out: Vec<(Keyword, Vec<DataValue>)> = Vec::new();
    let mut i: usize = 0;
    while i < attrs.len()
        invariant
            i <= attrs.len(),
            entry_inv(tx.facts@, attrs@, e.0, vld.0, out@, i as int),
        decreases attrs.len() - i,
    {
        let vals = attr_values(tx, e, &attrs[i], vld);
        if vals.len() > 0 {
            let ghost before = out@;
            out.push((attrs[i].name.clone(), vals));
            proof {
                lemma_entry_push(tx.facts@, attrs@, e.0, vld.0, before, out@, i as int);
            }
        } else {
            proof {
                lemma_entry_skip(tx.facts@, attrs@, e.0, vld.0, out@, i as int);
            }
        }
        i += 1;
    }
    let r = EntityAttrs { id: e, attrs: out };
    proof {
        lemma_entry_done(tx.facts@, attrs@, e.0, vld.0, r);
    }
    r
}

/// The smallest entity id of a fact that is above `after`, if any.
fn next_entity(facts: &Vec<Fact>, after: Option<u64>) -> (r: Option<u64>)
    ensures
        r matches Some(x) ==> (exists|j: int| 0 <= j < facts@.len() && (#[trigger] facts@[j]).entity.0 == x)
            && (after matches Some(a) ==> a < x)
            && forall|j: int| 0 <= j < facts@.len() && (after matches Some(a) ==> a < (#[trigger] facts@[j]).entity.0)
                ==> x <= facts@[j].entity.0,
        r is None ==> forall|j: int| 0 <= j < facts@.len() ==> (after matches Some(a) && (#[trigger] facts@[j]).entity.0 <= a),
{
    let mut best: Option<u64> = None;
    let mut j: usize = 0;
    while j < facts.len()
        invariant
            j <= facts.len(),
            best matches Some(x) ==> (exists|jj: int| 0 <= jj < j && (#[trigger] facts@[jj]).entity.0 == x)
                && (after matches Some(a) ==> a < x),
            forall|jj: int| 0 <= jj < j && (after matches Some(a) ==> a < (#[trigger] facts@[jj]).entity.0)
                ==> (best matches Some(x) && x <= facts@[jj].entity.0),
        decreases facts.len() - j,
    {
        let id = facts[j].entity.0;
        let above = match after {
            Some(a) => a < id,
            None => true,
        };
        if above {
            match best {
                Some(x) => {
                    if id < x {
                        best = Some(id);
                    }
                },
                None => {
                    best = Some(id);
                },
            }
        }
        j += 1;
    }
    best
}

/// The entities with some attribute of `attrs` visible as of `vld`, in
/// increasing order of id, each with the visible values of those attributes.
#[verifier::rlimit(100)]
pub fn entities_at(tx: &SessionTx, attrs: &Vec<Attribute>, vld: Validity) -> (r: Vec<EntityAttrs>)
    requires
        forall|i: int, j: int| 0 <= i < j < attrs@.len() ==> attrs@[i].id != attrs@[j].id,
    ensures
        forall|i: int, j: int| 0 <= i < j < r@.len() ==> r@[i].id.0 < r@[j].id.0,
        forall|k: int| 0 <= k < r@.len() ==> entry_right(tx.facts@, attrs@, vld.0, #[trigger] r@[k])
            && entity_has(tx.facts@, attrs@, r@[k].id.0, vld.0),
        forall|e: u64| entity_has(tx.facts@, attrs@, e, vld.0) ==> exists|k: int| 0 <= k < r@.len() && (#[trigger] r@[k]).id.0 == e,
{
    let mut out: Vec<EntityAttrs> = Vec::new();
    let mut last: Option<u64> = None;
    loop
        invariant
            forall|i: int, j: int| 0 <= i < j < out@.len() ==> out@[i].id.0 < out@[j].id.0,
            forall|k: int| 0 <= k < out@.len() ==> entry_right(tx.facts@, attrs@, vld.0, #[trigger] out@[k])
                && entity_has(tx.facts@, attrs@, out@[k].id.0, vld.0)
                && (last matches Some(l) && out@[k].id.0 <= l),
            forall|j: int| 0 <= j < tx.facts@.len() && (last matches Some(l) && (#[trigger] tx.facts@[j]).entity.0 <= l)
                && entity_has(tx.facts@, attrs@, tx.facts@[j].entity.0, vld.0)
                ==> exists|k: int| 0 <= k < out@.len() && (#[trigger] out@[k]).id.0 == tx.facts@[j].entity.0,
        decreases (if last is None { 0x1_0000_0000_0000_0001int } else { u64::MAX - last->0 }),
    {
        match next_entity(&tx.facts, last) {
            None => {
                proof {
                    assert forall|e: u64| entity_has(tx.facts@, attrs@, e, vld.0) implies exists|k: int|
                        0 <= k < out@.len() && (#[trigger] out@[k]).id.0 == e by {
                        lemma_has_fact(tx.facts@, attrs@, e, vld.0);
                        let j = choose|j: int| 0 <= j < tx.facts@.len() && (#[trigger] tx.facts@[j]).entity.0 == e;
                    }
                }
                return out;
            },
            Some(x) => {
                let entry = entity_entry(tx, attrs, EntityId(x), vld);
                let ghost before = out@;
                let ghost old_last = last;
                if entry.attrs.len() > 0 {
                    out.push(entry);
                }
                last = Some(x);
                proof {
                    assert forall|k: int| 0 <= k < out@.len() implies entry_right(tx.facts@, attrs@, vld.0, #[trigger] out@[k])
                        && entity_has(tx.facts@, attrs@, out@[k].id.0, vld.0)
                        && (last matches Some(l) && out@[k].id.0 <= l) by {
                        if k < before.len() {
                            assert(out@[k] == before[k]);
                        }
                    }
                    assert forall|j: int| 0 <= j < tx.facts@.len() && (last matches Some(l) && (#[trigger] tx.facts@[j]).entity.0 <= l)
                        && entity_has(tx.facts@, attrs@, tx.facts@[j].entity.0, vld.0)
                        implies exists|k: int| 0 <= k < out@.len() && (#[trigger] out@[k]).id.0 == tx.facts@[j].entity.0 by {
                        if tx.facts@[j].entity.0 == x {
                            assert(out@[out@.len() - 1].id.0 == x);
                        } else {
                            assert(old_last matches Some(l) && tx.facts@[j].entity.0 <= l);
                            let k = choose|k: int| 0 <= k < before.len() && (#[trigger] before[k]).id.0 == tx.facts@[j].entity.0;
                            assert(out@[k] == before[k]);
                        }
                    }
                }
            },
        }
    }
}

/// The rows of a query result after skipping `offset` rows and keeping at
/// most `limit` of the rest.
pub fn offset_limit<T>(rows: Vec<T>, offset: Option<usize>, limit: Option<usize>) -> (r: Vec<T>)
    ensures
        ({
            let skipped = match offset {
                Some(o) => if o <= rows@.len() { rows@.skip(o as int) } else { Seq::<T>::empty() },
                None => rows@,
            };
            r@ == match limit {
                Some(l) => if l <= skipped.len() { skipped.take(l as int) } else { skipped },
                None => skipped,
            }
        }),
{
    let mut rows = rows;
    let mut rest = match offset {
        Some(o) => if o <= rows.len() {
            rows.split_off(o)
        } else {
            Vec::new()
        },
        None => rows,
    };
    let ghost skipped = rest@;
    match limit {
        Some(l) => {
            rest.truncate(l);
        },
        None => {},
    }
    proof {
        assert(skipped.take(skipped.len() as int) =~= skipped);
    }
    rest
}

} // verus!
