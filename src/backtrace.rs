//! The trace of how a conflicting parse state can be reached: an arena of
//! nodes, each with an item and the indices of its alternative predecessors.
use vstd::prelude::*;
use crate::grammar::LR0Item;

verus! {

/// One state of the trace. `parents` holds arena indices of the alternative
/// predecessor states, in order.
pub struct BacktraceNode {
    pub item: LR0Item,
    pub parents: Vec<usize>,
}

/// The whole trace. Every parent of node `n` has an index below `n`, so the
/// structure is acyclic.
pub struct Backtrace {
    pub nodes: Vec<BacktraceNode>,
}

impl Backtrace {
    pub open spec fn parents_of(&self, n: int) -> Seq<usize> {
        self.nodes@[n].parents@
    }

    pub open spec fn is_leaf(&self, n: int) -> bool {
        self.parents_of(n).len() == 0
    }

    /// Items are well formed and every parent index is below its child's.
    pub open spec fn wf(&self) -> bool {
        &&& self.nodes@.len() <= usize::MAX
        &&& forall|n: int| 0 <= n < self.nodes@.len() ==> #[trigger] self.nodes@[n].item.wf()
        &&& forall|n: int, j: int|
            0 <= n < self.nodes@.len() && 0 <= j < self.parents_of(n).len() ==> #[trigger] self.parents_of(n)[j] < n
    }

    /// All root-to-leaf paths from `n`, one per combination of parent choices,
    /// in odometer order: the first parent's paths first.
    pub open spec fn paths(&self, n: int) -> Seq<Seq<usize>>
        decreases n, 1nat, 0nat,
    {
        if self.is_leaf(n) {
            seq![seq![n as usize]]
        } else {
            self.pending(n, 0)
        }
    }

    /// The paths from `n` that go through parents `i` and later.
    pub open spec fn pending(&self, n: int, i: int) -> Seq<Seq<usize>>
        decreases n, 0nat, self.parents_of(n).len() - i,
    {
        if i < 0 || i >= self.parents_of(n).len() {
            seq![]
        } else {
            let p = self.parents_of(n)[i] as int;
            let rest = self.pending(n, i + 1);
            if 0 <= p < n {
                self.paths(p).map_values(|q: Seq<usize>| seq![n as usize] + q) + rest
            } else {
                rest
            }
        }
    }

    /// `q` starts at `n`, steps from each node to one of its parents, and
    /// ends at a node without parents.
    pub open spec fn is_path(&self, n: int, q: Seq<usize>) -> bool {
        &&& q.len() >= 1
        &&& q[0] == n
        &&& forall|k: int| 0 <= k < q.len() ==> #[trigger] q[k] < self.nodes@.len()
        &&& forall|k: int| 0 <= k < q.len() - 1 ==> self.parents_of(q[k] as int).contains(#[trigger] q[k + 1])
        &&& self.is_leaf(q[q.len() - 1] as int)
    }
}

/// Prefixing a path from a parent of `n` with `n` gives a path from `n`.
proof fn lemma_extend_path(t: Backtrace, n: int, i: int, q: Seq<usize>)
    requires
        t.wf(),
        0 <= n < t.nodes@.len(),
        0 <= i < t.parents_of(n).len(),
        t.is_path(t.parents_of(n)[i] as int, q),
    ensures
        t.is_path(n, seq![n as usize] + q),
{
    let r = seq![n as usize] + q;
    assert(r[1] == t.parents_of(n)[i]);
    assert forall|k: int| 0 <= k < r.len() implies #[trigger] r[k] < t.nodes@.len() by {
        if k > 0 {
            assert(r[k] == q[k - 1]);
        }
    }
    assert forall|k: int| 0 <= k < r.len() - 1 implies t.parents_of(r[k] as int).contains(#[trigger] r[k + 1]) by {
        if k > 0 {
            assert(r[k] == q[k - 1] && r[k + 1] == q[k]);
            assert(t.parents_of(q[k - 1] as int).contains(q[(k - 1) + 1]));
        } else {
            assert(r[0] == n as usize);
            assert(t.parents_of(n)[i] == r[1]);
            assert(t.parents_of(n).contains(r[1]));
        }
    }
    assert(r[r.len() - 1] == q[q.len() - 1]);
}

/// Each path through parents `i` and later is a path from `n` whose second
/// node is one of those parents.
proof fn lemma_pending_valid(t: Backtrace, n: int, i: int)
    requires
        t.wf(),
        0 <= n < t.nodes@.len(),
        0 <= i,
    ensures
        forall|x: int|
            0 <= x < t.pending(n, i).len() ==> t.is_path(n, #[trigger] t.pending(n, i)[x])
                && t.pending(n, i)[x].len() >= 2
                && exists|j: int| i <= j < t.parents_of(n).len() && t.pending(n, i)[x][1] == t.parents_of(n)[j],
    decreases n, 0nat, t.parents_of(n).len() - i,
{
    if i < t.parents_of(n).len() {
        let p = t.parents_of(n)[i] as int;
        assert(p < n);
        lemma_paths_valid(t, p);
        lemma_pending_valid(t, n, i + 1);
        let a = t.paths(p);
        let am = a.map_values(|q: Seq<usize>| seq![n as usize] + q);
        let b = t.pending(n, i + 1);
        assert(t.pending(n, i) == am + b);
        assert forall|x: int| 0 <= x < t.pending(n, i).len() implies t.is_path(n, #[trigger] t.pending(n, i)[x])
            && t.pending(n, i)[x].len() >= 2
            && exists|j: int| i <= j < t.parents_of(n).len() && t.pending(n, i)[x][1] == t.parents_of(n)[j] by {
            if x < am.len() {
                lemma_extend_path(t, n, i, a[x]);
                assert(t.pending(n, i)[x] == seq![n as usize] + a[x]);
                assert(t.pending(n, i)[x][1] == t.parents_of(n)[i]);
            } else {
                assert(t.pending(n, i)[x] == b[x - am.len()]);
            }
        }
    }
}

/// Every enumerated sequence from `n` is a root-to-leaf path from `n`.
pub proof fn lemma_paths_valid(t: Backtrace, n: int)
    requires
        t.wf(),
        0 <= n < t.nodes@.len(),
    ensures
        forall|x: int| 0 <= x < t.paths(n).len() ==> t.is_path(n, #[trigger] t.paths(n)[x]),
    decreases n, 1nat, 0nat,
{
    if t.is_leaf(n) {
        let q = seq![n as usize];
        assert(t.paths(n)[0] == q);
        assert(t.paths(n).len() == 1);
        assert(t.is_path(n, q));
    } else {
        lemma_pending_valid(t, n, 0);
        assert(t.paths(n) == t.pending(n, 0));
    }
}

proof fn lemma_pending_contains(t: Backtrace, n: int, i: int, j: int, q: Seq<usize>)
    requires
        t.wf(),
        0 <= n < t.nodes@.len(),
        0 <= i <= j < t.parents_of(n).len(),
        t.paths(t.parents_of(n)[j] as int).contains(q),
    ensures
        t.pending(n, i).contains(seq![n as usize] + q),
    decreases j - i,
{
    let p = t.parents_of(n)[i] as int;
    assert(p < n);
    let am = t.paths(p).map_values(|r: Seq<usize>| seq![n as usize] + r);
    assert(t.pending(n, i) == am + t.pending(n, i + 1));
    if i == j {
        let x = choose|x: int| 0 <= x < t.paths(p).len() && t.paths(p)[x] == q;
        assert(t.pending(n, i)[x] == seq![n as usize] + q);
    } else {
        lemma_pending_contains(t, n, i + 1, j, q);
        let y = choose|y: int| 0 <= y < t.pending(n, i + 1).len() && #[trigger] t.pending(n, i + 1)[y] == seq![n as usize] + q;
        assert(t.pending(n, i)[am.len() + y] == seq![n as usize] + q);
    }
}

/// Every root-to-leaf path from `n` is among the enumerated ones.
pub proof fn lemma_paths_complete(t: Backtrace, n: int, q: Seq<usize>)
    requires
        t.wf(),
        0 <= n < t.nodes@.len(),
        t.is_path(n, q),
    ensures
        t.paths(n).contains(q),
    decreases q.len(),
{
    if q.len() > 1 {
        let z: int = 0;
        assert(t.parents_of(q[z] as int).contains(q[z + 1]));
    }
    if t.is_leaf(n) {
        assert(q =~= seq![n as usize]);
        assert(t.paths(n)[0] == q);
    } else {
        assert(q.len() > 1);
        let j = choose|j: int| 0 <= j < t.parents_of(n).len() && t.parents_of(n)[j] == q[1];
        let q2 = q.drop_first();
        let m = q[1] as int;
        assert(m < t.nodes@.len());
        assert forall|k: int| 0 <= k < q2.len() - 1 implies t.parents_of(q2[k] as int).contains(#[trigger] q2[k + 1]) by {
            assert(q2[k] == q[k + 1] && q2[k + 1] == q[k + 2]);
            assert(t.parents_of(q[k + 1] as int).contains(q[(k + 1) + 1]));
        }
        assert forall|k: int| 0 <= k < q2.len() implies #[trigger] q2[k] < t.nodes@.len() by {
            assert(q2[k] == q[k + 1]);
        }
        assert(t.is_path(m, q2));
        lemma_paths_complete(t, m, q2);
        lemma_pending_contains(t, n, 0, j, q2);
        assert(seq![n as usize] + q2 =~= q);
        assert(t.paths(n) == t.pending(n, 0));
    }
}

/// No node lists the same parent twice.
pub open spec fn distinct_parents(t: Backtrace) -> bool {
    forall|n: int| 0 <= n < t.nodes@.len() ==> (#[trigger] t.parents_of(n)).no_duplicates()
}

proof fn lemma_pending_distinct(t: Backtrace, n: int, i: int)
    requires
        t.wf(),
        distinct_parents(t),
        0 <= n < t.nodes@.len(),
        0 <= i,
    ensures
        t.pending(n, i).no_duplicates(),
    decreases n, 0nat, t.parents_of(n).len() - i,
{
    if i < t.parents_of(n).len() {
        let p = t.parents_of(n)[i] as int;
        assert(p < n);
        lemma_paths_distinct(t, p);
        lemma_paths_valid(t, p);
        lemma_pending_distinct(t, n, i + 1);
        lemma_pending_valid(t, n, i + 1);
        let a = t.paths(p);
        let am = a.map_values(|q: Seq<usize>| seq![n as usize] + q);
        let b = t.pending(n, i + 1);
        let all = am + b;
        assert(t.pending(n, i) == all);
        assert(t.parents_of(n).no_duplicates());
        assert forall|x: int, y: int| 0 <= x < all.len() && 0 <= y < all.len() && x != y implies all[x] != all[y] by {
            if x < am.len() && y < am.len() {
                assert(all[x].drop_first() =~= a[x]);
                assert(all[y].drop_first() =~= a[y]);
            } else if x >= am.len() && y >= am.len() {
                assert(all[x] == b[x - am.len()] && all[y] == b[y - am.len()]);
            } else {
                let (u, v) = if x < am.len() { (x, y - am.len()) } else { (y, x - am.len()) };
                assert(t.is_path(p, a[u]));
                assert(am[u][1] == a[u][0]);
                assert(b[v].len() >= 2);
                let j = choose|j: int| i + 1 <= j < t.parents_of(n).len() && b[v][1] == t.parents_of(n)[j];
                assert(t.parents_of(n)[i] != t.parents_of(n)[j]);
            }
        }
    }
}

/// With no parent listed twice, the enumerated paths from `n` are pairwise
/// different.
pub proof fn lemma_paths_distinct(t: Backtrace, n: int)
    requires
        t.wf(),
        distinct_parents(t),
        0 <= n < t.nodes@.len(),
    ensures
        t.paths(n).no_duplicates(),
    decreases n, 1nat, 0nat,
{
    if !t.is_leaf(n) {
        lemma_pending_distinct(t, n, 0);
    }
}

/// The product of the parent counts of the branch points on the path from
/// `n` that always takes the first parent.
pub open spec fn branch_product(t: Backtrace, n: int) -> int
    decreases n,
{
    if t.is_leaf(n) {
        1
    } else {
        let p = t.parents_of(n)[0] as int;
        if 0 <= p < n {
            t.parents_of(n).len() * branch_product(t, p)
        } else {
            0
        }
    }
}

/// Whichever parent is taken at a node, the branch points met afterwards
/// multiply to the same number, so the product does not depend on the path.
pub open spec fn uniform_branching(t: Backtrace) -> bool {
    forall|n: int, j: int|
        0 <= n < t.nodes@.len() && 0 <= j < t.parents_of(n).len() ==> branch_product(
            t,
            #[trigger] t.parents_of(n)[j] as int,
        ) == branch_product(t, t.parents_of(n)[0] as int)
}

proof fn lemma_pending_count(t: Backtrace, n: int, i: int)
    requires
        t.wf(),
        uniform_branching(t),
        0 <= n < t.nodes@.len(),
        0 <= i <= t.parents_of(n).len(),
        t.parents_of(n).len() > 0,
    ensures
        t.pending(n, i).len() == (t.parents_of(n).len() - i) * branch_product(t, t.parents_of(n)[0] as int),
    decreases n, 0nat, t.parents_of(n).len() - i,
{
    let b = branch_product(t, t.parents_of(n)[0] as int);
    let c = t.parents_of(n).len() - i;
    if i < t.parents_of(n).len() {
        let p = t.parents_of(n)[i] as int;
        assert(p < n);
        lemma_paths_count(t, p);
        lemma_pending_count(t, n, i + 1);
        assert(branch_product(t, p) == b);
        assert(c * b == b + (c - 1) * b) by (nonlinear_arith);
    } else {
        assert(c * b == 0) by (nonlinear_arith)
            requires
                c == 0,
        ;
    }
}

/// Where the product of parent counts over the branch points does not
/// depend on the path, that product is the number of enumerated paths.
pub proof fn lemma_paths_count(t: Backtrace, n: int)
    requires
        t.wf(),
        uniform_branching(t),
        0 <= n < t.nodes@.len(),
    ensures
        t.paths(n).len() == branch_product(t, n),
    decreases n, 1nat, 0nat,
{
    if !t.is_leaf(n) {
        assert(t.parents_of(n)[0] < n);
        lemma_pending_count(t, n, 0);
    }
}

} // verus!
