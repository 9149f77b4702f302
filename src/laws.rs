use vstd::prelude::*;
use crate::costs::{lemma_sum_empty, lemma_sum_update, no_costs, SetView};
use crate::extract::{
    candidate, chosen, entry_ok, iterate, lemma_iterate_ok, lemma_pass_upto, pass, pass_upto,
    settled, step, table_ok,
};
use crate::graph::Graph;

verus! {

/// A node without children proposes exactly its own class at its own cost,
/// and the total of that proposal is that cost.
pub proof fn lemma_leaf_candidate(g: Graph, t: Seq<Option<SetView>>, n: int)
    requires
        g.wf(),
        0 <= n < g.nodes@.len(),
        g.children_of(n).len() == 0,
    ensures
        candidate(g, t, n) == Some(
            SetView {
                costs: no_costs(g.n_classes as nat).update(g.class_of(n), Some(g.nodes@[n].cost)),
                choice: n as usize,
            },
        ),
        candidate(g, t, n)->0.total() == g.nodes@[n].cost,
{
    assert(g.node_ok(n));
    lemma_sum_empty(g.n_classes as nat);
    lemma_sum_update(no_costs(g.n_classes as nat), g.class_of(n), Some(g.nodes@[n].cost));
}

/// Every accepted update replaces an existing entry only by one with a
/// strictly smaller total, and never removes an entry.
pub proof fn lemma_update_strictly_cheaper(g: Graph, t: Seq<Option<SetView>>, n: int, c: int)
    requires
        g.wf(),
        0 <= n < g.nodes@.len(),
        table_ok(g, t),
        0 <= c < t.len(),
        t[c] is Some,
    ensures
        step(g, t, n)[c] is Some,
        step(g, t, n)[c] != t[c] ==> step(g, t, n)[c]->0.total() < t[c]->0.total(),
{
    assert(g.node_ok(n));
}

proof fn lemma_pass_upto_cheaper(g: Graph, t: Seq<Option<SetView>>, i: int, c: int)
    requires
        g.wf(),
        0 <= i <= g.nodes@.len(),
        table_ok(g, t),
        0 <= c < t.len(),
        t[c] is Some,
    ensures
        pass_upto(g, t, i).0[c] is Some,
        pass_upto(g, t, i).0[c]->0.total() <= t[c]->0.total(),
        pass_upto(g, t, i).0[c] != t[c]
            ==> pass_upto(g, t, i).0[c]->0.total() < t[c]->0.total(),
    decreases i,
{
    if i > 0 {
        lemma_pass_upto_cheaper(g, t, i - 1, c);
        lemma_pass_upto(g, t, i - 1);
        lemma_update_strictly_cheaper(g, pass_upto(g, t, i - 1).0, i - 1, c);
    }
}

/// Over a run, once a class has an entry it keeps one, and its total only
/// falls: any later entry that differs has a strictly smaller total.
pub proof fn lemma_totals_fall(g: Graph, k1: nat, k2: nat, c: int)
    requires
        g.wf(),
        k1 <= k2,
        0 <= c < g.n_classes,
        iterate(g, k1)[c] is Some,
    ensures
        iterate(g, k2)[c] is Some,
        iterate(g, k2)[c] != iterate(g, k1)[c] ==> iterate(g, k2)[c]->0.total() < iterate(
            g,
            k1,
        )[c]->0.total(),
    decreases k2 - k1,
{
    if k1 < k2 {
        let k = (k2 - 1) as nat;
        lemma_totals_fall(g, k1, k, c);
        lemma_iterate_ok(g, k);
        lemma_pass_upto_cheaper(g, iterate(g, k), g.nodes@.len() as int, c);
    }
}

proof fn lemma_settled_stays(g: Graph, k: nat, m: nat)
    requires
        g.wf(),
        settled(g, k),
    ensures
        iterate(g, k + m) == iterate(g, k),
    decreases m,
{
    if m > 0 {
        lemma_settled_stays(g, k, (m - 1) as nat);
        lemma_iterate_ok(g, k);
        lemma_pass_upto(g, iterate(g, k), g.nodes@.len() as int);
        assert(iterate(g, (k + m) as nat) == pass(g, iterate(g, (k + m - 1) as nat)).0);
    }
}

/// Extraction is a function of the graph: any two fixed points reached from
/// the empty table give the same choices.
pub proof fn lemma_output_unique(g: Graph, k1: nat, k2: nat)
    requires
        g.wf(),
        settled(g, k1),
        settled(g, k2),
    ensures
        chosen(iterate(g, k1)) == chosen(iterate(g, k2)),
{
    if k1 <= k2 {
        lemma_settled_stays(g, k1, (k2 - k1) as nat);
    } else {
        lemma_settled_stays(g, k2, (k1 - k2) as nat);
    }
}

/// A class each of whose nodes has a child in a class without an entry has
/// no entry either.
pub proof fn lemma_blocked_class_absent(g: Graph, k: nat, c: int)
    requires
        g.wf(),
        0 <= c < g.n_classes,
        forall|n: int|
            0 <= n < g.nodes@.len() && #[trigger] g.class_of(n) == c ==> exists|j: int|
                0 <= j < g.children_of(n).len() && (#[trigger] iterate(g, k)[g.child_class(
                    n,
                    j,
                )]) is None,
    ensures
        iterate(g, k)[c] is None,
{
    lemma_iterate_ok(g, k);
    let t = iterate(g, k);
    if t[c] is Some {
        assert(entry_ok(g, t, c));
        let n = t[c]->0.choice as int;
        assert(g.class_of(n) == c);
        let j = choose|j: int|
            0 <= j < g.children_of(n).len() && (#[trigger] t[g.child_class(n, j)]) is None;
        assert(t[g.child_class(n, j)] is Some);
    }
}

/// Every chosen node belongs to its class, no child of it lies in that same
/// class, and the class of each of its children has a chosen node too.
pub proof fn lemma_choice_closed(g: Graph, k: nat, c: int)
    requires
        g.wf(),
        0 <= c < g.n_classes,
        chosen(iterate(g, k))[c] is Some,
    ensures
        ({
            let n = chosen(iterate(g, k))[c]->0 as int;
            &&& 0 <= n < g.nodes@.len()
            &&& g.class_of(n) == c
            &&& forall|j: int|
                0 <= j < g.children_of(n).len() ==> {
                    &&& #[trigger] g.child_class(n, j) != c
                    &&& chosen(iterate(g, k))[g.child_class(n, j)] is Some
                }
        }),
{
    lemma_iterate_ok(g, k);
    let t = iterate(g, k);
    assert(entry_ok(g, t, c));
    let n = t[c]->0.choice as int;
    assert forall|j: int| 0 <= j < g.children_of(n).len() implies {
        &&& #[trigger] g.child_class(n, j) != c
        &&& chosen(t)[g.child_class(n, j)] is Some
    } by {
        assert(g.node_ok(n));
        assert(g.children_of(n)[j] < g.nodes@.len());
        assert(g.node_ok(g.children_of(n)[j] as int));
    }
}

} // verus!
