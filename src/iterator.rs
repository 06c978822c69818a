//! Lazy enumeration of every combination of parent choices in a trace, one
//! `Example` per root-to-leaf path.
use vstd::prelude::*;
use crate::backtrace::{
    branch_product, distinct_parents, lemma_paths_complete, lemma_paths_count, lemma_paths_distinct, lemma_paths_valid,
    uniform_branching, Backtrace,
};
use crate::example::{SymbolModel, concrete, items_wf, lemma_expand_shape, nested_or_disjoint, example_of_items, expand, symbol_models, reduction_models, Example, ExampleSymbol, Reduction};
use crate::grammar::ItemModel;
use crate::layout::spans_ok;

verus! {

/// A frame of the enumeration stack: a node and the next parent to explore.
#[derive(Clone, Copy)]
pub struct ExampleState {
    pub node: usize,
    pub index: usize,
}

/// Enumerates the paths of a trace, from the root towards leaves, with
/// memory proportional to the length of a path.
pub struct ExampleIterator<'ex> {
    tree: &'ex Backtrace,
    stack: Vec<ExampleState>,
}

/// The node of each frame, bottom first.
pub open spec fn frame_nodes(s: Seq<ExampleState>) -> Seq<usize> {
    s.map_values(|f: ExampleState| f.node)
}

/// The paths still to come after the current one: the untried parents of
/// each frame, deepest frame first.
pub open spec fn paths_after(t: Backtrace, s: Seq<ExampleState>) -> Seq<Seq<usize>>
    decreases s.len(),
{
    if s.len() == 0 {
        seq![]
    } else {
        let f = s.last();
        let below = s.drop_last();
        t.pending(f.node as int, f.index as int).map_values(|q: Seq<usize>| frame_nodes(below) + q)
            + paths_after(t, below)
    }
}

/// The item models along a path, earliest ancestor (last node) first.
pub open spec fn path_items(t: Backtrace, path: Seq<usize>) -> Seq<ItemModel> {
    Seq::new(path.len(), |k: int| t.nodes@[path[path.len() - 1 - k] as int].item@)
}

/// The example reconstructed from one root-to-leaf path.
pub open spec fn example_of_path(t: Backtrace, path: Seq<usize>) -> crate::example::ExampleModel {
    example_of_items(path_items(t, path))
}

/// Frames name nodes of the tree, indices stay in range, and each frame
/// above the bottom is the parent that the frame below it last chose.
pub open spec fn chain_ok(t: Backtrace, s: Seq<ExampleState>) -> bool {
    &&& t.wf()
    &&& forall|k: int| 0 <= k < s.len() ==> (#[trigger] s[k]).node < t.nodes@.len()
        && s[k].index <= t.parents_of(s[k].node as int).len()
    &&& forall|k: int| 0 <= k < s.len() - 1 ==> (#[trigger] s[k]).index >= 1
        && s[k + 1].node == t.parents_of(s[k].node as int)[s[k].index - 1]
}

/// A chain whose top is a leaf that has not been left yet.
pub open spec fn complete(t: Backtrace, s: Seq<ExampleState>) -> bool {
    &&& chain_ok(t, s)
    &&& s.len() > 0
    &&& t.is_leaf(s.last().node as int)
    &&& s.last().index == 0
}

/// A non-empty path of nodes of `t`.
pub open spec fn path_in_tree(t: Backtrace, path: Seq<usize>) -> bool {
    &&& path.len() >= 1
    &&& forall|k: int| 0 <= k < path.len() ==> #[trigger] path[k] < t.nodes@.len()
}

proof fn lemma_path_items_wf(t: Backtrace, path: Seq<usize>)
    requires
        t.wf(),
        path_in_tree(t, path),
    ensures
        items_wf(path_items(t, path)),
        path_items(t, path).len() >= 1,
{
    let items = path_items(t, path);
    assert forall|k: int| 0 <= k < items.len() implies (#[trigger] items[k]).wf() by {
        let m = path[path.len() - 1 - k] as int;
        assert(m < t.nodes@.len());
        assert(t.nodes@[m].item.wf());
    }
}

/// The reductions of a reconstructed example never partially overlap; each
/// is non-empty, lies within the symbols, and lies within every reduction
/// that comes after it in the list.
pub proof fn lemma_reductions_nest(t: Backtrace, path: Seq<usize>)
    requires
        t.wf(),
        path_in_tree(t, path),
    ensures
        ({
            let ex = example_of_path(t, path);
            &&& spans_ok(ex.reductions, ex.symbols.len() as int)
            &&& forall|i: int, j: int|
                0 <= i < ex.reductions.len() && 0 <= j < ex.reductions.len() ==> nested_or_disjoint(
                    #[trigger] ex.reductions[i],
                    #[trigger] ex.reductions[j],
                )
            &&& forall|i: int, j: int|
                0 <= i < j < ex.reductions.len() ==> (#[trigger] ex.reductions[j]).start
                    <= (#[trigger] ex.reductions[i]).start && ex.reductions[i].end <= ex.reductions[j].end
        }),
{
    lemma_path_items_wf(t, path);
    lemma_expand_shape(path_items(t, path), 0);
    let ex = example_of_path(t, path);
    assert forall|i: int, j: int|
        0 <= i < ex.reductions.len() && 0 <= j < ex.reductions.len() implies nested_or_disjoint(
        #[trigger] ex.reductions[i],
        #[trigger] ex.reductions[j],
    ) by {
        if i < j {
            assert(ex.reductions[j].start <= ex.reductions[i].start);
        } else if j < i {
            assert(ex.reductions[i].start <= ex.reductions[j].start);
        }
    }
}

/// The cursor of a reconstructed example lies within its symbols.
pub proof fn lemma_cursor_bound(t: Backtrace, path: Seq<usize>)
    requires
        t.wf(),
        path_in_tree(t, path),
    ensures
        0 <= example_of_path(t, path).cursor <= example_of_path(t, path).symbols.len(),
{
    lemma_path_items_wf(t, path);
    lemma_expand_shape(path_items(t, path), 0);
}

/// What an enumeration started at `root` hands out (`ExampleIterator::new`
/// makes these its remaining paths, and `next` takes them one at a time, then
/// only `None`): exactly the root-to-leaf paths from `root`, each once where
/// no node lists a parent twice, as many as the product of the parent counts
/// at the branch points wherever that product does not depend on the path.
pub proof fn lemma_enumeration_complete(t: Backtrace, root: int)
    requires
        t.wf(),
        0 <= root < t.nodes@.len(),
    ensures
        forall|x: int| 0 <= x < t.paths(root).len() ==> t.is_path(root, #[trigger] t.paths(root)[x]),
        forall|q: Seq<usize>| t.is_path(root, q) ==> #[trigger] t.paths(root).contains(q),
        distinct_parents(t) ==> t.paths(root).no_duplicates(),
        uniform_branching(t) ==> t.paths(root).len() == branch_product(t, root),
{
    lemma_paths_valid(t, root);
    assert forall|q: Seq<usize>| t.is_path(root, q) implies #[trigger] t.paths(root).contains(q) by {
        lemma_paths_complete(t, root, q);
    }
    if distinct_parents(t) {
        lemma_paths_distinct(t, root);
    }
    if uniform_branching(t) {
        lemma_paths_count(t, root);
    }
}

proof fn lemma_pending_split(t: Backtrace, n: int, i: int)
    requires
        t.wf(),
        0 <= n < t.nodes@.len(),
        0 <= i < t.parents_of(n).len(),
    ensures
        t.pending(n, i) == t.paths(t.parents_of(n)[i] as int).map_values(|q: Seq<usize>| seq![n as usize] + q)
            + t.pending(n, i + 1),
{
    assert(t.parents_of(n)[i] < n);
}

/// Taking the next parent of the top frame and completing the path through
/// it leaves the same paths to enumerate.
proof fn lemma_descend(t: Backtrace, s: Seq<ExampleState>)
    requires
        chain_ok(t, s),
        s.len() > 0,
        s.last().index < t.parents_of(s.last().node as int).len() <= usize::MAX,
    ensures
        ({
            let f = s.last();
            let s1 = s.drop_last().push(ExampleState { node: f.node, index: (f.index + 1) as usize });
            let p = t.parents_of(f.node as int)[f.index as int] as int;
            t.paths(p).map_values(|q: Seq<usize>| frame_nodes(s1) + q) + paths_after(t, s1) == paths_after(t, s)
        }),
{
    let f = s.last();
    let n = f.node as int;
    let i = f.index as int;
    let below = s.drop_last();
    let s1 = below.push(ExampleState { node: f.node, index: (f.index + 1) as usize });
    let p = t.parents_of(n)[i] as int;
    let pre = frame_nodes(below);
    lemma_pending_split(t, n, i);
    assert(s1.drop_last() =~= below);
    assert(frame_nodes(s1) =~= pre.push(n as usize));
    let a = t.paths(p);
    let b = t.pending(n, i + 1);
    let left = a.map_values(|q: Seq<usize>| seq![n as usize] + q);
    let rest = paths_after(t, below);
    assert(paths_after(t, s) == t.pending(n, i).map_values(|q: Seq<usize>| pre + q) + rest);
    assert((f.index + 1) as usize as int == i + 1);
    assert(s1.last() == ExampleState { node: f.node, index: (f.index + 1) as usize });
    assert(paths_after(t, s1) == b.map_values(|q: Seq<usize>| pre + q) + rest);
    let am = a.map_values(|q: Seq<usize>| frame_nodes(s1) + q);
    let bm = b.map_values(|q: Seq<usize>| pre + q);
    assert((left + b).map_values(|q: Seq<usize>| pre + q) =~= am + bm) by {
        assert forall|j: int| 0 <= j < a.len() implies pre + (seq![n as usize] + a[j]) =~= frame_nodes(s1) + a[j] by {}
    }
    assert(am + (bm + rest) =~= (am + bm) + rest);
}

/// Appends the symbols `from..to` of `symbols`, each as a concrete symbol.
fn push_symbols(out: &mut Vec<ExampleSymbol>, symbols: &Vec<String>, from: usize, to: usize)
    requires
        from <= to <= symbols@.len(),
    ensures
        symbol_models(final(out)@) == symbol_models(old(out)@)
            + concrete(symbols@.map_values(|s: String| s@).subrange(from as int, to as int)),
{
    let ghost start = symbol_models(out@);
    let ghost all = symbols@.map_values(|s: String| s@);
    let mut i: usize = from;
    while i < to
        invariant
            from <= i <= to <= symbols@.len(),
            all == symbols@.map_values(|s: String| s@),
            symbol_models(out@) == start + concrete(all.subrange(from as int, i as int)),
        decreases to - i,
    {
        let ghost prev = out@;
        let sym = symbols[i].clone();
        out.push(ExampleSymbol::Symbol(sym));
        proof {
            assert(out@ == prev.push(ExampleSymbol::Symbol(sym)));
            assert(all[i as int] == sym@);
            assert(symbol_models(out@) =~= symbol_models(prev).push(SymbolModel::Symbol(sym@)));
            assert(all.subrange(from as int, i + 1) =~= all.subrange(from as int, i as int).push(sym@));
            assert(concrete(all.subrange(from as int, i + 1)) =~= concrete(all.subrange(from as int, i as int)).push(
                SymbolModel::Symbol(sym@),
            ));
        }
        i = i + 1;
    }
}

impl<'ex> ExampleIterator<'ex> {
    /// The trace being enumerated.
    pub closed spec fn tree(&self) -> Backtrace {
        *self.tree
    }

    /// The enumeration state is consistent.
    pub closed spec fn wf(&self) -> bool {
        chain_ok(*self.tree, self.stack@) && (self.stack@.len() == 0 || complete(*self.tree, self.stack@))
    }

    /// The paths not yet handed out, in the order they will come.
    pub closed spec fn remaining(&self) -> Seq<Seq<usize>> {
        if self.stack@.len() == 0 {
            seq![]
        } else {
            seq![frame_nodes(self.stack@)] + paths_after(*self.tree, self.stack@)
        }
    }

    /// Follows the first untried parent of the top frame, and the first
    /// parent of every node after it, down to a leaf.
    fn populate(&mut self) -> (r: bool)
        requires
            chain_ok(*old(self).tree, old(self).stack@),
            old(self).stack@.len() > 0,
        ensures
            final(self).tree == old(self).tree,
            r == (old(self).stack@.last().index < old(self).tree.parents_of(old(self).stack@.last().node as int).len()),
            !r ==> final(self).stack@ == old(self).stack@,
            r ==> complete(*final(self).tree, final(self).stack@),
            r ==> seq![frame_nodes(final(self).stack@)] + paths_after(*final(self).tree, final(self).stack@)
                == paths_after(*old(self).tree, old(self).stack@),
        decreases old(self).stack@.last().node,
    {
        let ghost s = self.stack@;
        let ghost t = *self.tree;
        let last = self.stack.len() - 1;
        let top = self.stack[last];
        let tree = self.tree;
        if top.index == tree.nodes[top.node].parents.len() {
            return false;
        }
        let parent = tree.nodes[top.node].parents[top.index];
        proof {
            assert(t.parents_of(top.node as int)[top.index as int] < top.node);
        }
        self.stack.set(last, ExampleState { node: top.node, index: top.index + 1 });
        let ghost s1 = self.stack@;
        self.stack.push(ExampleState { node: parent, index: 0 });
        let ghost s2 = self.stack@;
        proof {
            assert(s1 =~= s.drop_last().push(ExampleState { node: top.node, index: (top.index + 1) as usize }));
            assert(s2.drop_last() =~= s1);
            assert forall|k: int| 0 <= k < s2.len() - 1 implies (#[trigger] s2[k]).index >= 1
                && s2[k + 1].node == t.parents_of(s2[k].node as int)[s2[k].index - 1] by {
                if k + 1 < last {
                    assert(s2[k] == s[k] && s2[k + 1] == s[k + 1]);
                } else if k + 1 == last {
                    assert(s2[k] == s[k] && s2[k + 1].node == s[k + 1].node);
                }
            }
            lemma_descend(t, s);
        }
        let deeper = self.populate();
        proof {
            let p = parent as int;
            let s3 = self.stack@;
            if !deeper {
                assert(t.is_leaf(p));
                assert(t.pending(p, 0) =~= seq![]);
                assert(frame_nodes(s2) =~= frame_nodes(s1).push(parent));
                assert(t.paths(p) == seq![seq![parent]]);
                assert(frame_nodes(s1) + seq![parent] =~= frame_nodes(s2));
                assert(t.paths(p).map_values(|q: Seq<usize>| frame_nodes(s1) + q) =~= seq![frame_nodes(s2)]);
                assert(paths_after(t, s2) =~= paths_after(t, s1));
            } else {
                assert(t.paths(p) == t.pending(p, 0));
                assert(paths_after(t, s2) =~= t.paths(p).map_values(|q: Seq<usize>| frame_nodes(s1) + q)
                    + paths_after(t, s1));
            }
        }
        true
    }

    /// Leaves the current leaf and moves on to the next path, if any.
    fn iterate(&mut self)
        requires
            chain_ok(*old(self).tree, old(self).stack@),
            complete(*old(self).tree, old(self).stack@),
        ensures
            final(self).tree == old(self).tree,
            final(self).wf(),
            final(self).remaining() == paths_after(*old(self).tree, old(self).stack@),
    {
        let ghost t = *self.tree;
        let ghost tr = self.tree;
        let ghost target = paths_after(t, self.stack@);
        proof {
            let s = self.stack@;
            assert(t.pending(s.last().node as int, 0) =~= seq![]);
            assert(paths_after(t, s) =~= paths_after(t, s.drop_last()));
        }
        self.stack.pop();
        while self.stack.len() > 0
            invariant
                self.tree == tr,
                old(self).tree == tr,
                *tr == t,
                target == paths_after(*old(self).tree, old(self).stack@),
                chain_ok(t, self.stack@),
                paths_after(t, self.stack@) == target,
            decreases self.stack@.len(),
        {
            if self.populate() {
                return;
            }
            proof {
                let s = self.stack@;
                let f = s.last();
                assert(t.pending(f.node as int, f.index as int) =~= seq![]);
                assert(paths_after(t, s) =~= paths_after(t, s.drop_last()));
            }
            self.stack.pop();
        }
    }

    /// The items of the frames `0..=pos`, frame `pos` first.
    closed spec fn items_from(&self, pos: int) -> Seq<ItemModel> {
        Seq::new((pos + 1) as nat, |k: int| self.tree.nodes@[self.stack@[pos - k].node as int].item@)
    }

    /// Appends the reconstruction of the items of frames `pos` down to `0`.
    fn unwind(&self, pos: usize, example: &mut Example)
        requires
            self.wf(),
            pos < self.stack@.len(),
        ensures
            ({
                let e = expand(self.items_from(pos as int), old(example).symbols@.len() as int);
                &&& symbol_models(final(example).symbols@) == symbol_models(old(example).symbols@) + e.0
                &&& final(example).cursor == e.1
                &&& reduction_models(final(example).reductions@) == reduction_models(old(example).reductions@) + e.2
            }),
        decreases pos,
    {
        let ghost items = self.items_from(pos as int);
        let ghost old_syms = symbol_models(example.symbols@);
        let ghost old_reds = reduction_models(example.reductions@);
        let start = example.symbols.len();
        let item = &self.tree.nodes[self.stack[pos].node].item;
        proof {
            assert(self.tree.nodes@[self.stack@[pos as int].node as int].item.wf());
            assert(items[0] == item@);
        }
        let k = item.index;
        let symbols = &item.production.symbols;
        let ghost sm = item@.symbols;
        push_symbols(&mut example.symbols, symbols, 0, k);
        proof {
            assert(sm.subrange(0, k as int) =~= sm.take(k as int));
        }
        let ghost mid = symbol_models(example.symbols@);
        let ghost mid_reds = reduction_models(example.reductions@);
        if pos > 0 {
            proof {
                assert(items.drop_first() =~= self.items_from(pos - 1));
            }
            self.unwind(pos - 1, example);
            let ghost sub = expand(items.drop_first(), (start + k) as int);
            let ghost after_sub = symbol_models(example.symbols@);
            if k != symbols.len() {
                push_symbols(&mut example.symbols, symbols, k + 1, symbols.len());
                proof {
                    assert(sm.subrange(k + 1, sm.len() as int) =~= sm.skip(k + 1));
                }
            }
            proof {
                let suffix = if (k as int) < sm.len() { concrete(sm.skip(k + 1)) } else { seq![] };
                assert(symbol_models(example.symbols@) =~= old_syms + (concrete(sm.take(k as int)) + sub.0 + suffix));
                assert(reduction_models(example.reductions@) == old_reds + sub.2);
                assert(example.cursor == sub.1);
            }
        } else {
            example.cursor = example.symbols.len();
            push_symbols(&mut example.symbols, symbols, k, symbols.len());
            proof {
                assert(sm.subrange(k as int, sm.len() as int) =~= sm.skip(k as int));
                assert(sm.take(k as int) + sm.skip(k as int) =~= sm);
                assert(concrete(sm.take(k as int)) + concrete(sm.skip(k as int)) =~= concrete(sm));
                assert(symbol_models(example.symbols@) =~= old_syms + concrete(sm));
                assert(reduction_models(example.reductions@) =~= old_reds);
            }
        }
        let ghost body_models = symbol_models(example.symbols@);
        let ghost body_reds = reduction_models(example.reductions@);
        if start == example.symbols.len() {
            example.symbols.push(ExampleSymbol::Epsilon);
            proof {
                assert(symbol_models(example.symbols@) =~= body_models.push(SymbolModel::Epsilon));
            }
        }
        let end = example.symbols.len();
        let nonterminal = item.production.nonterminal.clone();
        let ghost red = Reduction { start, end, nonterminal };
        example.reductions.push(Reduction { start, end, nonterminal });
        proof {
            let e = expand(items, start as int);
            assert(reduction_models(example.reductions@) =~= body_reds.push(red@));
            assert(symbol_models(example.symbols@) =~= old_syms + e.0);
            assert(reduction_models(example.reductions@) =~= old_reds + e.2);
        }
    }

    /// Starts the enumeration at node `root` of `backtrace`, the conflicting
    /// state: the paths to come are all paths from `root`.
    pub fn new(backtrace: &'ex Backtrace, root: usize) -> (r: Self)
        requires
            backtrace.wf(),
            root < backtrace.nodes@.len(),
        ensures
            r.wf(),
            r.tree() == *backtrace,
            r.remaining() == backtrace.paths(root as int),
    {
        let mut this = ExampleIterator { tree: backtrace, stack: Vec::new() };
        this.stack.push(ExampleState { node: root, index: 0 });
        let ghost s = this.stack@;
        proof {
            assert(frame_nodes(s.drop_last()) =~= seq![]);
            assert(s.drop_last() =~= seq![]);
            let pend = backtrace.pending(root as int, 0);
            assert(pend.map_values(|q: Seq<usize>| frame_nodes(s.drop_last()) + q) =~= pend);
            assert(paths_after(*backtrace, s.drop_last()) == Seq::<Seq<usize>>::empty());
            assert(paths_after(*backtrace, s) =~= pend);
        }
        let deeper = this.populate();
        proof {
            if !deeper {
                assert(backtrace.pending(root as int, 0) =~= seq![]);
                assert(frame_nodes(s) =~= seq![root]);
                assert(this.remaining() =~= backtrace.paths(root as int));
            }
        }
        this
    }

    /// Hands out the example of the next path, or `None` once every path has
    /// been handed out.
    pub fn next(&mut self) -> (r: Option<Example>)
        requires
            old(self).wf(),
        ensures
            final(self).wf(),
            final(self).tree() == old(self).tree(),
            old(self).remaining().len() == 0 ==> r is None && final(self).remaining() == old(self).remaining(),
            old(self).remaining().len() > 0 ==> r is Some && r->0@ == example_of_path(
                old(self).tree(),
                old(self).remaining()[0],
            ) && final(self).remaining() == old(self).remaining().drop_first(),
    {
        if self.stack.len() == 0 {
            return None;
        }
        let mut example = Example { cursor: 0, symbols: Vec::new(), reductions: Vec::new() };
        proof {
            assert(symbol_models(example.symbols@) =~= seq![]);
            assert(reduction_models(example.reductions@) =~= seq![]);
        }
        self.unwind(self.stack.len() - 1, &mut example);
        proof {
            let path = frame_nodes(self.stack@);
            assert(self.items_from(self.stack@.len() - 1) =~= path_items(*self.tree, path));
            assert(self.remaining()[0] == path);
            assert(symbol_models(example.symbols@) =~= example_of_path(*self.tree, path).symbols);
            assert(reduction_models(example.reductions@) =~= example_of_path(*self.tree, path).reductions);
        }
        self.iterate();
        proof {
            assert(old(self).remaining().drop_first() =~= paths_after(*old(self).tree, old(self).stack@));
        }
        Some(example)
    }
}

} // verus!
