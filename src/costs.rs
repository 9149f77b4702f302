use vstd::prelude::*;

verus! {

/// The cost that one entry of a cost map charges: its value, or nothing.
pub open spec fn charge(o: Option<u32>) -> int {
    match o {
        Some(v) => v as int,
        None => 0,
    }
}

/// The sum of all values in a cost map indexed by class.
pub open spec fn sum_costs(s: Seq<Option<u32>>) -> int
    decreases s.len(),
{
    if s.len() == 0 {
        0
    } else {
        sum_costs(s.drop_last()) + charge(s.last())
    }
}

/// Union of two cost maps where the classes already in `a` keep their cost.
pub open spec fn merge(a: Seq<Option<u32>>, b: Seq<Option<u32>>) -> Seq<Option<u32>> {
    Seq::new(a.len(), |k: int| if a[k] is Some { a[k] } else { b[k] })
}

/// A cost map with no class in it.
pub open spec fn no_costs(n: nat) -> Seq<Option<u32>> {
    Seq::new(n, |k: int| None::<u32>)
}

/// The abstract content of a cost set: the cost charged to each class and
/// the node it proposes.
pub struct SetView {
    pub costs: Seq<Option<u32>>,
    pub choice: usize,
}

impl SetView {
    pub open spec fn total(&self) -> int {
        sum_costs(self.costs)
    }
}

/// The cost of choosing one node: a cost per reachable class (indexed by
/// class), their sum, and the node chosen.
pub struct CostSet {
    pub costs: Vec<Option<u32>>,
    pub total: u64,
    pub choice: usize,
}

impl View for CostSet {
    type V = SetView;

    open spec fn view(&self) -> SetView {
        SetView { costs: self.costs@, choice: self.choice }
    }
}

impl CostSet {
    /// The recorded total is the sum of the cost map.
    pub open spec fn wf(&self) -> bool {
        self.total as int == sum_costs(self.costs@)
    }
}

pub proof fn lemma_sum_bounds(s: Seq<Option<u32>>)
    ensures
        0 <= sum_costs(s) <= s.len() * 0xffff_ffff,
    decreases s.len(),
{
    if s.len() > 0 {
        lemma_sum_bounds(s.drop_last());
        assert(sum_costs(s) <= (s.len() - 1) * 0xffff_ffff + 0xffff_ffff) by (nonlinear_arith)
            requires
                sum_costs(s) <= sum_costs(s.drop_last()) + 0xffff_ffff,
                sum_costs(s.drop_last()) <= (s.len() - 1) * 0xffff_ffff,
        ;
        assert((s.len() - 1) * 0xffff_ffff + 0xffff_ffff == s.len() * 0xffff_ffff)
            by (nonlinear_arith);
    }
}

pub proof fn lemma_sum_take(s: Seq<Option<u32>>, k: int)
    requires
        0 <= k < s.len(),
    ensures
        sum_costs(s.take(k + 1)) == sum_costs(s.take(k)) + charge(s[k]),
{
    assert(s.take(k + 1).drop_last() =~= s.take(k));
}

pub proof fn lemma_sum_empty(n: nat)
    ensures
        sum_costs(no_costs(n)) == 0,
    decreases n,
{
    if n > 0 {
        assert(no_costs(n).drop_last() =~= no_costs((n - 1) as nat));
        lemma_sum_empty((n - 1) as nat);
    }
}

/// Changing one entry changes the sum by the difference of the two charges.
pub proof fn lemma_sum_update(s: Seq<Option<u32>>, k: int, v: Option<u32>)
    requires
        0 <= k < s.len(),
    ensures
        sum_costs(s.update(k, v)) == sum_costs(s) - charge(s[k]) + charge(v),
    decreases s.len(),
{
    if k == s.len() - 1 {
        assert(s.update(k, v).drop_last() =~= s.drop_last());
    } else {
        assert(s.update(k, v).drop_last() =~= s.drop_last().update(k, v));
        lemma_sum_update(s.drop_last(), k, v);
    }
}

} // verus!
