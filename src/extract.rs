use vstd::prelude::*;
use crate::costs::{lemma_sum_bounds, lemma_sum_take, merge, no_costs, sum_costs, CostSet, SetView};
use crate::graph::Graph;

verus! {

/// The best-so-far table as seen by contracts: one optional cost set per class.
pub open spec fn table_view(t: Seq<Option<CostSet>>) -> Seq<Option<SetView>> {
    Seq::new(
        t.len(),
        |c: int|
            match t[c] {
                Some(cs) => Some(cs@),
                None => None,
            },
    )
}

pub open spec fn empty_table(n: nat) -> Seq<Option<SetView>> {
    Seq::new(n, |c: int| None::<SetView>)
}

/// The cost map gathered from the first `j` children of node `n`, or `None`
/// when one of them has no entry yet or its entry already holds `n`'s class.
pub open spec fn gather(g: Graph, t: Seq<Option<SetView>>, n: int, j: int) -> Option<
    Seq<Option<u32>>,
>
    decreases j,
{
    if j <= 0 {
        Some(no_costs(g.n_classes as nat))
    } else {
        match gather(g, t, n, j - 1) {
            None => None,
            Some(acc) => match t[g.child_class(n, j - 1)] {
                None => None,
                Some(cs) => if cs.costs[g.class_of(n)] is Some {
                    None
                } else {
                    Some(merge(acc, cs.costs))
                },
            },
        }
    }
}

/// The cost set proposed for node `n` against table `t`, if it can be built.
pub open spec fn candidate(g: Graph, t: Seq<Option<SetView>>, n: int) -> Option<SetView> {
    match gather(g, t, n, g.children_of(n).len() as int) {
        None => None,
        Some(acc) => Some(
            SetView {
                costs: acc.update(g.class_of(n), Some(g.nodes@[n].cost)),
                choice: n as usize,
            },
        ),
    }
}

/// Node `n`'s proposal is installed: its class had no entry, or the
/// proposal is strictly cheaper.
pub open spec fn accepts(g: Graph, t: Seq<Option<SetView>>, n: int) -> bool {
    match candidate(g, t, n) {
        None => false,
        Some(cs) => match t[g.class_of(n)] {
            None => true,
            Some(cur) => cs.total() < cur.total(),
        },
    }
}

pub open spec fn step(g: Graph, t: Seq<Option<SetView>>, n: int) -> Seq<Option<SetView>> {
    if accepts(g, t, n) {
        t.update(g.class_of(n), candidate(g, t, n))
    } else {
        t
    }
}

/// The table after evaluating nodes `0..i` in order, and whether any
/// proposal was installed.
pub open spec fn pass_upto(g: Graph, t: Seq<Option<SetView>>, i: int) -> (
    Seq<Option<SetView>>,
    bool,
)
    decreases i,
{
    if i <= 0 {
        (t, false)
    } else {
        let prev = pass_upto(g, t, i - 1);
        (step(g, prev.0, i - 1), prev.1 || accepts(g, prev.0, i - 1))
    }
}

/// One full pass over every node.
pub open spec fn pass(g: Graph, t: Seq<Option<SetView>>) -> (Seq<Option<SetView>>, bool) {
    pass_upto(g, t, g.nodes@.len() as int)
}

/// The table after `k` passes from the empty table.
pub open spec fn iterate(g: Graph, k: nat) -> Seq<Option<SetView>>
    decreases k,
{
    if k == 0 {
        empty_table(g.n_classes as nat)
    } else {
        pass(g, iterate(g, (k - 1) as nat)).0
    }
}

/// The pass that follows the `k`-th installs nothing: a fixed point.
pub open spec fn settled(g: Graph, k: nat) -> bool {
    !pass(g, iterate(g, k)).1
}

/// The node chosen for each class, where there is one.
pub open spec fn chosen(t: Seq<Option<SetView>>) -> Seq<Option<usize>> {
    Seq::new(
        t.len(),
        |c: int|
            match t[c] {
                Some(cs) => Some(cs.choice),
                None => None,
            },
    )
}

/// What holds of the entry of class `c`: a map over all classes that charges
/// `c` itself, for a node of class `c` whose children's classes all have
/// entries and differ from `c`.
pub open spec fn entry_ok(g: Graph, t: Seq<Option<SetView>>, c: int) -> bool {
    t[c] is Some ==> {
        let cs = t[c]->0;
        &&& cs.costs.len() == g.n_classes
        &&& cs.choice < g.nodes@.len()
        &&& g.class_of(cs.choice as int) == c
        &&& cs.costs[c] is Some
        &&& forall|j: int|
            0 <= j < g.children_of(cs.choice as int).len() ==> {
                &&& t[#[trigger] g.child_class(cs.choice as int, j)] is Some
                &&& g.child_class(cs.choice as int, j) != c
            }
    }
}

pub open spec fn table_ok(g: Graph, t: Seq<Option<SetView>>) -> bool {
    &&& t.len() == g.n_classes
    &&& forall|c: int| 0 <= c < t.len() ==> #[trigger] entry_ok(g, t, c)
}

/// Every recorded total is the sum of its cost map.
pub open spec fn totals_ok(t: Seq<Option<CostSet>>) -> bool {
    forall|c: int| 0 <= c < t.len() && #[trigger] t[c] is Some ==> t[c]->0.wf()
}

/// A weight above every total a cost set can have.
pub open spec fn ceiling(g: Graph) -> int {
    g.n_classes * 0xffff_ffff + 1
}

pub open spec fn weight(g: Graph, o: Option<SetView>) -> int {
    match o {
        None => ceiling(g),
        Some(cs) => cs.total(),
    }
}

/// Sum of the weights of all entries: it falls with every installed proposal.
pub open spec fn potential(g: Graph, t: Seq<Option<SetView>>) -> int
    decreases t.len(),
{
    if t.len() == 0 {
        0
    } else {
        potential(g, t.drop_last()) + weight(g, t.last())
    }
}

/// A gathered map spans all classes, and every child consulted had an entry
/// that does not hold the node's own class.
pub proof fn lemma_gather_some(g: Graph, t: Seq<Option<SetView>>, n: int, j: int)
    requires
        gather(g, t, n, j) is Some,
    ensures
        gather(g, t, n, j)->0.len() == g.n_classes,
        forall|i: int|
            0 <= i < j ==> {
                &&& t[#[trigger] g.child_class(n, i)] is Some
                &&& t[g.child_class(n, i)]->0.costs[g.class_of(n)] is None
            },
    decreases j,
{
    if j > 0 {
        lemma_gather_some(g, t, n, j - 1);
    }
}

/// Once gathering fails it stays failed.
pub proof fn lemma_gather_stuck(g: Graph, t: Seq<Option<SetView>>, n: int, j: int, m: int)
    requires
        0 <= j <= m,
        gather(g, t, n, j) is None,
    ensures
        gather(g, t, n, m) is None,
    decreases m - j,
{
    if j < m {
        lemma_gather_stuck(g, t, n, j, m - 1);
    }
}

pub proof fn lemma_potential_update(g: Graph, t: Seq<Option<SetView>>, c: int, v: Option<SetView>)
    requires
        0 <= c < t.len(),
    ensures
        potential(g, t.update(c, v)) == potential(g, t) - weight(g, t[c]) + weight(g, v),
    decreases t.len(),
{
    if c == t.len() - 1 {
        assert(t.update(c, v).drop_last() =~= t.drop_last());
    } else {
        assert(t.update(c, v).drop_last() =~= t.drop_last().update(c, v));
        lemma_potential_update(g, t.drop_last(), c, v);
    }
}

pub proof fn lemma_potential_nonneg(g: Graph, t: Seq<Option<SetView>>)
    ensures
        potential(g, t) >= 0,
    decreases t.len(),
{
    if t.len() > 0 {
        lemma_potential_nonneg(g, t.drop_last());
        match t.last() {
            Some(cs) => lemma_sum_bounds(cs.costs),
            None => {},
        }
    }
}

/// One evaluation keeps the table well formed, and lowers the potential
/// whenever it installs a proposal.
pub proof fn lemma_step(g: Graph, t: Seq<Option<SetView>>, n: int)
    requires
        g.wf(),
        0 <= n < g.nodes@.len(),
        table_ok(g, t),
    ensures
        table_ok(g, step(g, t, n)),
        accepts(g, t, n) ==> potential(g, step(g, t, n)) < potential(g, t),
        !accepts(g, t, n) ==> step(g, t, n) == t,
        forall|c: int|
            0 <= c < t.len() && #[trigger] t[c] is Some ==> step(g, t, n)[c] is Some,
{
    if accepts(g, t, n) {
        assert(g.node_ok(n));
        let c = g.class_of(n);
        let len = g.children_of(n).len() as int;
        lemma_gather_some(g, t, n, len);
        let cs = candidate(g, t, n)->0;
        let t2 = t.update(c, Some(cs));
        assert forall|e: int| 0 <= e < t2.len() implies #[trigger] entry_ok(g, t2, e) by {
            assert(entry_ok(g, t, e));
            if e == c {
                assert(cs.choice as int == n);
                assert(cs.costs.len() == g.n_classes);
                assert(cs.costs[c] is Some);
                assert forall|j: int| 0 <= j < g.children_of(n).len() implies {
                    &&& t2[#[trigger] g.child_class(n, j)] is Some
                    &&& g.child_class(n, j) != c
                } by {
                    let d = g.child_class(n, j);
                    assert(g.children_of(n)[j] < g.nodes@.len());
                    assert(g.node_ok(g.children_of(n)[j] as int));
                    assert(t[d] is Some);
                    assert(entry_ok(g, t, d));
                }
                assert(entry_ok(g, t2, e));
            } else if t[e] is Some {
                let ch = t[e]->0.choice as int;
                assert forall|j: int| 0 <= j < g.children_of(ch).len() implies {
                    &&& t2[#[trigger] g.child_class(ch, j)] is Some
                    &&& g.child_class(ch, j) != e
                } by {
                    assert(g.node_ok(ch));
                    assert(g.children_of(ch)[j] < g.nodes@.len());
                    assert(g.node_ok(g.children_of(ch)[j] as int));
                    assert(t[g.child_class(ch, j)] is Some);
                }
            }
        }
        lemma_potential_update(g, t, c, Some(cs));
        lemma_sum_bounds(cs.costs);
        assert(cs.total() <= g.n_classes * 0xffff_ffff);
    }
}

/// A partial pass keeps the table well formed; it lowers the potential if
/// it installed anything and otherwise leaves the table as it was.
pub proof fn lemma_pass_upto(g: Graph, t: Seq<Option<SetView>>, i: int)
    requires
        g.wf(),
        0 <= i <= g.nodes@.len(),
        table_ok(g, t),
    ensures
        table_ok(g, pass_upto(g, t, i).0),
        pass_upto(g, t, i).1 ==> potential(g, pass_upto(g, t, i).0) < potential(g, t),
        !pass_upto(g, t, i).1 ==> pass_upto(g, t, i).0 == t,
    decreases i,
{
    if i > 0 {
        lemma_pass_upto(g, t, i - 1);
        lemma_step(g, pass_upto(g, t, i - 1).0, i - 1);
    }
}

/// Every table reached from the empty one is well formed.
pub proof fn lemma_iterate_ok(g: Graph, k: nat)
    requires
        g.wf(),
    ensures
        table_ok(g, iterate(g, k)),
    decreases k,
{
    if k > 0 {
        lemma_iterate_ok(g, (k - 1) as nat);
        lemma_pass_upto(g, iterate(g, (k - 1) as nat), g.nodes@.len() as int);
    }
}

/// Builds the cost set that node `n` proposes against the current table:
/// `None` when a child's class has no entry yet or its entry already charges
/// `n`'s own class.
fn propose(g: &Graph, t: &Vec<Option<CostSet>>, n: usize) -> (r: Option<CostSet>)
    requires
        g.wf(),
        n < g.nodes@.len(),
        table_ok(*g, table_view(t@)),
        totals_ok(t@),
    ensures
        r is Some <==> candidate(*g, table_view(t@), n as int) is Some,
        r is Some ==> r->0@ == candidate(*g, table_view(t@), n as int)->0 && r->0.wf(),
{
    let ghost tv = table_view(t@);
    let node = &g.nodes[n];
    let c = node.class;
    proof {
        assert(g.node_ok(n as int));
    }
    let mut acc: Vec<Option<u32>> = Vec::new();
    let mut k: usize = 0;
    while k < g.n_classes
        invariant
            k <= g.n_classes,
            acc@ =~= no_costs(k as nat),
        decreases g.n_classes - k,
    {
        acc.push(None);
        k += 1;
    }
    let mut j: usize = 0;
    while j < node.children.len()
        invariant
            g.wf(),
            n < g.nodes@.len(),
            *node == g.nodes@[n as int],
            g.node_ok(n as int),
            c == g.class_of(n as int),
            c < g.n_classes,
            table_ok(*g, tv),
            tv == table_view(t@),
            j <= node.children@.len(),
            gather(*g, tv, n as int, j as int) == Some(acc@),
            acc@.len() == g.n_classes,
        decreases node.children@.len() - j,
    {
        let child = node.children[j];
        proof {
            assert(g.children_of(n as int)[j as int] < g.nodes@.len());
            assert(g.node_ok(child as int));
        }
        let d = g.nodes[child].class;
        match &t[d] {
            None => {
                proof {
                    lemma_gather_stuck(*g, tv, n as int, j + 1, node.children@.len() as int);
                }
                return None;
            },
            Some(cs) => {
                assert(entry_ok(*g, tv, d as int));
                if cs.costs[c].is_some() {
                    proof {
                        lemma_gather_stuck(*g, tv, n as int, j + 1, node.children@.len() as int);
                    }
                    return None;
                }
                let ghost prev = acc@;
                let mut k: usize = 0;
                while k < acc.len()
                    invariant
                        acc@.len() == prev.len(),
                        prev.len() == cs.costs@.len(),
                        k <= acc@.len(),
                        forall|i: int| 0 <= i < k ==> acc@[i] == merge(prev, cs.costs@)[i],
                        forall|i: int| k <= i < acc@.len() ==> acc@[i] == prev[i],
                    decreases acc@.len() - k,
                {
                    if acc[k].is_none() {
                        acc.set(k, cs.costs[k]);
                    }
                    k += 1;
                }
                assert(acc@ =~= merge(prev, cs.costs@));
            },
        }
        j += 1;
    }
    acc.set(c, Some(node.cost));
    let mut total: u64 = 0;
    let mut k: usize = 0;
    while k < acc.len()
        invariant
            acc@.len() == g.n_classes,
            g.n_classes <= 0xffff_ffff,
            k <= acc@.len(),
            total == sum_costs(acc@.take(k as int)),
            total <= k * 0xffff_ffff,
        decreases acc@.len() - k,
    {
        proof {
            lemma_sum_take(acc@, k as int);
            assert((k + 1) * 0xffff_ffff <= 0xffff_ffff * 0xffff_ffff) by (nonlinear_arith)
                requires
                    k + 1 <= 0xffff_ffff,
            ;
            assert(k * 0xffff_ffff + 0xffff_ffff == (k + 1) * 0xffff_ffff) by (nonlinear_arith);
        }
        match acc[k] {
            Some(v) => {
                total = total + v as u64;
            },
            None => {},
        }
        k += 1;
    }
    assert(acc@.take(acc@.len() as int) =~= acc@);
    Some(CostSet { costs: acc, total, choice: n })
}

/// Evaluates every node once, in order, installing each proposal that is the
/// first for its class or strictly cheaper than the current entry.
fn run_pass(g: &Graph, t: &mut Vec<Option<CostSet>>) -> (progress: bool)
    requires
        g.wf(),
        table_ok(*g, table_view(old(t)@)),
        totals_ok(old(t)@),
    ensures
        table_view(final(t)@) == pass(*g, table_view(old(t)@)).0,
        progress == pass(*g, table_view(old(t)@)).1,
        totals_ok(final(t)@),
{
    let ghost t0 = table_view(t@);
    let mut progress = false;
    let mut n: usize = 0;
    let count = g.nodes.len();
    while n < count
        invariant
            g.wf(),
            count == g.nodes@.len(),
            n <= count,
            table_view(t@) == pass_upto(*g, t0, n as int).0,
            progress == pass_upto(*g, t0, n as int).1,
            table_ok(*g, table_view(t@)),
            totals_ok(t@),
            table_ok(*g, t0),
        decreases count - n,
    {
        let ghost before = table_view(t@);
        proof {
            lemma_pass_upto(*g, t0, n as int);
            lemma_step(*g, before, n as int);
            assert(g.node_ok(n as int));
        }
        let proposal = propose(g, t, n);
        match proposal {
            None => {},
            Some(cs) => {
                let c = g.nodes[n].class;
                let better = match &t[c] {
                    None => true,
                    Some(cur) => cs.total < cur.total,
                };
                if better {
                    t.set(c, Some(cs));
                    progress = true;
                    assert(table_view(t@) =~= before.update(c as int, candidate(*g, before, n as int)));
                }
            },
        }
        n += 1;
    }
    progress
}

/// The greedy extractor: relaxes cost sets to a fixed point and reports,
/// for each class, the node chosen for it.
#[derive(Default)]
pub struct GreedyDagExtractor;

impl GreedyDagExtractor {
    /// Runs passes from the empty table until one installs nothing, and
    /// returns that table: for each class its best cost set, if any.
    pub fn relax(&self, egraph: &Graph) -> (r: Vec<Option<CostSet>>)
        requires
            egraph.wf(),
        ensures
            exists|k: nat| #[trigger] settled(*egraph, k) && table_view(r@) == iterate(*egraph, k),
            totals_ok(r@),
    {
        let ghost g = *egraph;
        let mut t: Vec<Option<CostSet>> = Vec::new();
        let mut c: usize = 0;
        while c < egraph.n_classes
            invariant
                g == *egraph,
                c <= g.n_classes,
                t@.len() == c,
                forall|i: int| 0 <= i < c ==> t@[i] is None,
            decreases g.n_classes - c,
        {
            t.push(None);
            c += 1;
        }
        assert(table_view(t@) =~= empty_table(g.n_classes as nat));
        proof {
            lemma_iterate_ok(g, 0);
        }
        let ghost mut k: nat = 0;
        let mut keep_going = true;
        while keep_going
            invariant
                g == *egraph,
                g.wf(),
                table_view(t@) == iterate(g, k),
                table_ok(g, table_view(t@)),
                totals_ok(t@),
                !keep_going ==> settled(g, k),
            decreases potential(g, table_view(t@)) + if keep_going { 1int } else { 0int },
        {
            let ghost before = table_view(t@);
            proof {
                lemma_pass_upto(g, before, g.nodes@.len() as int);
                lemma_potential_nonneg(g, before);
            }
            keep_going = run_pass(egraph, &mut t);
            proof {
                lemma_potential_nonneg(g, table_view(t@));
                k = k + 1;
            }
        }
        t
    }

    /// The chosen node of each class at the fixed point (`None` for a class
    /// that never resolved). The root hint is accepted and not used.
    pub fn extract(&self, egraph: &Graph, _roots: &[usize]) -> (r: Vec<Option<usize>>)
        requires
            egraph.wf(),
        ensures
            r@.len() == egraph.n_classes,
            exists|k: nat| #[trigger] settled(*egraph, k) && r@ == chosen(iterate(*egraph, k)),
    {
        let t = self.relax(egraph);
        let ghost k = choose|k: nat| #[trigger] settled(*egraph, k) && table_view(t@) == iterate(*egraph, k);
        let mut out: Vec<Option<usize>> = Vec::new();
        let mut c: usize = 0;
        while c < t.len()
            invariant
                c <= t@.len(),
                out@ =~= chosen(table_view(t@)).take(c as int),
            decreases t@.len() - c,
        {
            match &t[c] {
                Some(cs) => out.push(Some(cs.choice)),
                None => out.push(None),
            }
            c += 1;
        }
        assert(out@ =~= chosen(iterate(*egraph, k)));
        proof {
            lemma_iterate_ok(*egraph, k);
        }
        out
    }
}

} // verus!
