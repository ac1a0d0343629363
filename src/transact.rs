//! Triple transactions: versioned facts, visibility as of a validity, and
//! writes with cardinality-one and cardinality-many semantics.
use vstd::prelude::*;

use crate::value::{AttrId, DataValue, EntityId, TxId, Validity, ValueView};

verus! {

/// Whether a fact asserts or retracts a value.
#[derive(Clone, Copy, Debug, PartialEq, Eq, Structural)]
pub enum StoreOp {
    Assert,
    Retract,
}

/// A versioned fact: `(entity, attribute, value)` from `vld` on.
#[derive(Clone, Debug)]
pub struct Fact {
    pub entity: EntityId,
    pub attr: AttrId,
    pub value: DataValue,
    pub vld: Validity,
    pub op: StoreOp,
}

/// A transaction over the facts of the store.
pub struct SessionTx {
    pub facts: Vec<Fact>,
    pub w_tx_id: Option<TxId>,
}

/// Whether fact `f` is about `(e, a)` and visible at `vld`.
pub open spec fn applies(f: Fact, e: u64, a: u32, vld: i64) -> bool {
    f.entity.0 == e && f.attr.0 == a && f.vld.0 <= vld
}

/// Among the first `n` facts about `(e, a)` visible at `vld`, the position of the
/// one with the greatest validity; of equal validities, the last written.
pub open spec fn latest(facts: Seq<Fact>, e: u64, a: u32, vld: i64, n: int) -> Option<int>
    decreases n,
{
    if n <= 0 {
        None
    } else {
        let prev = latest(facts, e, a, vld, n - 1);
        if applies(facts[n - 1], e, a, vld) && (prev is None || facts[prev->0].vld.0 <= facts[n - 1].vld.0) {
            Some(n - 1)
        } else {
            prev
        }
    }
}

/// The value of `(e, a)` visible at `vld`: that of the latest fact, unless it is a retraction.
pub open spec fn visible(facts: Seq<Fact>, e: u64, a: u32, vld: i64) -> Option<ValueView> {
    match latest(facts, e, a, vld, facts.len() as int) {
        Some(i) => if facts[i].op == StoreOp::Assert {
            Some(facts[i].value@)
        } else {
            None
        },
        None => None,
    }
}

/// Some fact about `(e, a)` has a validity in `(vld1, vld2]`.
pub open spec fn changed_between(facts: Seq<Fact>, e: u64, a: u32, vld1: i64, vld2: i64) -> bool {
    exists|i: int|
        0 <= i < facts.len() && (#[trigger] facts[i]).entity.0 == e && facts[i].attr.0 == a && vld1
            < facts[i].vld.0 <= vld2
}

/// Where nothing about `(e, a)` happened between two validities, the same fact is the latest.
pub proof fn lemma_latest_stable(facts: Seq<Fact>, e: u64, a: u32, vld1: i64, vld2: i64, n: int)
    requires
        vld1 <= vld2,
        0 <= n <= facts.len(),
        !changed_between(facts, e, a, vld1, vld2),
    ensures
        latest(facts, e, a, vld1, n) == latest(facts, e, a, vld2, n),
    decreases n,
{
    if n > 0 {
        lemma_latest_stable(facts, e, a, vld1, vld2, n - 1);
        let f = facts[n - 1];
        assert(applies(f, e, a, vld1) == applies(f, e, a, vld2));
    }
}

/// The value visible at a later validity is the one visible at an earlier
/// validity, unless a fact about the same entity and attribute has a
/// validity between the two.
pub proof fn lemma_read_as_of_monotone(facts: Seq<Fact>, e: u64, a: u32, vld1: i64, vld2: i64)
    requires
        vld1 <= vld2,
    ensures
        visible(facts, e, a, vld1) == visible(facts, e, a, vld2) || changed_between(facts, e, a, vld1, vld2),
{
    if !changed_between(facts, e, a, vld1, vld2) {
        lemma_latest_stable(facts, e, a, vld1, vld2, facts.len() as int);
    }
}

/// Among the first `n` facts about the triple `(e, a, v)` visible at `vld`, the
/// position of the one with the greatest validity; of equal validities, the last written.
pub open spec fn latest_triple(facts: Seq<Fact>, e: u64, a: u32, v: ValueView, vld: i64, n: int) -> Option<int>
    decreases n,
{
    if n <= 0 {
        None
    } else {
        let prev = latest_triple(facts, e, a, v, vld, n - 1);
        if applies(facts[n - 1], e, a, vld) && facts[n - 1].value@ == v && (prev is None
            || facts[prev->0].vld.0 <= facts[n - 1].vld.0) {
            Some(n - 1)
        } else {
            prev
        }
    }
}

/// Whether the triple `(e, a, v)` holds at `vld`: its latest fact is an assertion.
/// This is how a value of a cardinality-many attribute is read.
pub open spec fn holds(facts: Seq<Fact>, e: u64, a: u32, v: ValueView, vld: i64) -> bool {
    match latest_triple(facts, e, a, v, vld, facts.len() as int) {
        Some(i) => facts[i].op == StoreOp::Assert,
        None => false,
    }
}

/// Some fact about the triple `(e, a, v)` has a validity in `(vld1, vld2]`.
pub open spec fn triple_changed_between(facts: Seq<Fact>, e: u64, a: u32, v: ValueView, vld1: i64, vld2: i64) -> bool {
    exists|i: int|
        0 <= i < facts.len() && (#[trigger] facts[i]).entity.0 == e && facts[i].attr.0 == a
            && facts[i].value@ == v && vld1 < facts[i].vld.0 <= vld2
}

/// Where nothing about `(e, a, v)` happened between two validities, the same fact is the latest.
pub proof fn lemma_latest_triple_stable(facts: Seq<Fact>, e: u64, a: u32, v: ValueView, vld1: i64, vld2: i64, n: int)
    requires
        vld1 <= vld2,
        0 <= n <= facts.len(),
        !triple_changed_between(facts, e, a, v, vld1, vld2),
    ensures
        latest_triple(facts, e, a, v, vld1, n) == latest_triple(facts, e, a, v, vld2, n),
    decreases n,
{
    if n > 0 {
        lemma_latest_triple_stable(facts, e, a, v, vld1, vld2, n - 1);
        let f = facts[n - 1];
        assert(f.value@ == v ==> applies(f, e, a, vld1) == applies(f, e, a, vld2));
    }
}

/// Whether a value of a cardinality-many attribute holds at a later validity
/// is as at an earlier one, unless a fact about that same triple has a
/// validity between the two.
pub proof fn lemma_holds_as_of_monotone(facts: Seq<Fact>, e: u64, a: u32, v: ValueView, vld1: i64, vld2: i64)
    requires
        vld1 <= vld2,
    ensures
        holds(facts, e, a, v, vld1) == holds(facts, e, a, v, vld2) || triple_changed_between(facts, e, a, v, vld1, vld2),
{
    if !triple_changed_between(facts, e, a, v, vld1, vld2) {
        lemma_latest_triple_stable(facts, e, a, v, vld1, vld2, facts.len() as int);
    }
}

impl SessionTx {
    /// Whether entity `e` has value `v` for `a` as of `vld`, each value being
    /// asserted and retracted on its own.
    pub fn has_value(&self, e: EntityId, a: AttrId, v: &DataValue, vld: Validity) -> (r: bool)
        ensures
            r == holds(self.facts@, e.0, a.0, v@, vld.0),
    {
        let mut best: Option<usize> = None;
        let mut i: usize = 0;
        while i < self.facts.len()
            invariant
                i <= self.facts.len(),
                best matches Some(b) ==> b < i,
                latest_triple(self.facts@, e.0, a.0, v@, vld.0, i as int) == match best {
                    Some(b) => Some(b as int),
                    None => None::<int>,
                },
            decreases self.facts.len() - i,
        {
            let f = &self.facts[i];
            if f.entity.0 == e.0 && f.attr.0 == a.0 && f.vld.0 <= vld.0 && f.value.same_as(v) {
                match best {
                    Some(b) => {
                        if self.facts[b].vld.0 <= f.vld.0 {
                            best = Some(i);
                        }
                    },
                    None => {
                        best = Some(i);
                    },
                }
            }
            i += 1;
        }
        match best {
            Some(b) => match self.facts[b].op {
                StoreOp::Assert => true,
                StoreOp::Retract => false,
            },
            None => false,
        }
    }

    /// The value of attribute `a` of entity `e` visible as of `vld`.
    pub fn read_value(&self, e: EntityId, a: AttrId, vld: Validity) -> (r: Option<DataValue>)
        ensures
            r is Some <==> visible(self.facts@, e.0, a.0, vld.0) is Some,
            r is Some ==> visible(self.facts@, e.0, a.0, vld.0) == Some(r->0@),
    {
        let mut best: Option<usize> = None;
        let mut i: usize = 0;
        while i < self.facts.len()
            invariant
                i <= self.facts.len(),
                best matches Some(b) ==> b < i,
                latest(self.facts@, e.0, a.0, vld.0, i as int) == match best {
                    Some(b) => Some(b as int),
                    None => None::<int>,
                },
            decreases self.facts.len() - i,
        {
            let f = &self.facts[i];
            if f.entity.0 == e.0 && f.attr.0 == a.0 && f.vld.0 <= vld.0 {
                match best {
                    Some(b) => {
                        if self.facts[b].vld.0 <= f.vld.0 {
                            best = Some(i);
                        }
                    },
                    None => {
                        best = Some(i);
                    },
                }
            }
            i += 1;
        }
        match best {
            Some(b) => match self.facts[b].op {
                StoreOp::Assert => Some(self.facts[b].value.duplicate()),
                StoreOp::Retract => None,
            },
            None => None,
        }
    }

    /// Records that `e` has value `v` for `a` from `vld` on. Later reads at or
    /// after `vld` see `v`, replacing an earlier value of a cardinality-one
    /// attribute.
    pub fn put(&mut self, e: EntityId, a: AttrId, v: DataValue, vld: Validity)
        ensures
            final(self).facts@.len() == old(self).facts@.len() + 1,
            final(self).facts@.drop_last() == old(self).facts@,
            final(self).facts@.last() == (Fact { entity: e, attr: a, value: v, vld, op: StoreOp::Assert }),
            final(self).w_tx_id == old(self).w_tx_id,
    {
        self.facts.push(Fact { entity: e, attr: a, value: v, vld, op: StoreOp::Assert });
        proof {
            assert(final(self).facts@.drop_last() =~= old(self).facts@);
        }
    }

    /// Records that `e` no longer has value `v` for `a` from `vld` on.
    pub fn retract(&mut self, e: EntityId, a: AttrId, v: DataValue, vld: Validity)
        ensures
            final(self).facts@.len() == old(self).facts@.len() + 1,
            final(self).facts@.drop_last() == old(self).facts@,
            final(self).facts@.last() == (Fact { entity: e, attr: a, value: v, vld, op: StoreOp::Retract }),
            final(self).w_tx_id == old(self).w_tx_id,
    {
        self.facts.push(Fact { entity: e, attr: a, value: v, vld, op: StoreOp::Retract });
        proof {
            assert(final(self).facts@.drop_last() =~= old(self).facts@);
        }
    }
}

} // verus!
