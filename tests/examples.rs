use conflict_example::backtrace::{Backtrace, BacktraceNode};
use conflict_example::example::{Example, ExampleSymbol, Reduction};
use conflict_example::grammar::{LR0Item, Production};
use conflict_example::iterator::ExampleIterator;

fn item(nonterminal: &str, symbols: &[&str], index: usize) -> LR0Item {
    LR0Item {
        production: Production {
            nonterminal: nonterminal.to_string(),
            symbols: symbols.iter().map(|s| s.to_string()).collect(),
        },
        index,
    }
}

fn node(item: LR0Item, parents: Vec<usize>) -> BacktraceNode {
    BacktraceNode { item, parents }
}

fn sym(s: &str) -> ExampleSymbol {
    ExampleSymbol::Symbol(s.to_string())
}

fn red(start: usize, end: usize, nonterminal: &str) -> Reduction {
    Reduction { start, end, nonterminal: nonterminal.to_string() }
}

fn texts(ex: &Example) -> Vec<Option<String>> {
    ex.symbols
        .iter()
        .map(|s| match s {
            ExampleSymbol::Symbol(t) => Some(t.clone()),
            ExampleSymbol::Epsilon => None,
        })
        .collect()
}

fn spans(ex: &Example) -> Vec<(usize, usize, String)> {
    ex.reductions.iter().map(|r| (r.start, r.end, r.nonterminal.clone())).collect()
}

fn some(v: &[&str]) -> Vec<Option<String>> {
    v.iter().map(|s| Some(s.to_string())).collect()
}

fn collect_all(it: &mut ExampleIterator) -> Vec<Example> {
    let mut out = Vec::new();
    while let Some(ex) = it.next() {
        out.push(ex);
    }
    out
}

/// Two leaves `S = x (*) E z` and `T = (*) E w` lead to `E = e (*)`.
fn two_way_tree() -> Backtrace {
    Backtrace {
        nodes: vec![
            node(item("S", &["x", "E", "z"], 1), vec![]),
            node(item("T", &["E", "w"], 0), vec![]),
            node(item("E", &["e"], 1), vec![0, 1]),
        ],
    }
}

#[test]
fn single_item_without_parents() {
    let tree = Backtrace { nodes: vec![node(item("Foo", &["W", "X", "Y", "Z"], 2), vec![])] };
    let mut it = ExampleIterator::new(&tree, 0);
    let all = collect_all(&mut it);
    assert_eq!(all.len(), 1);
    let ex = &all[0];
    assert_eq!(texts(ex), some(&["W", "X", "Y", "Z"]));
    assert_eq!(ex.cursor, 2);
    assert_eq!(spans(ex), vec![(0, 4, "Foo".to_string())]);
    assert_eq!(ex.paint(), vec!["W X Y Z".to_string(), "|     |".to_string(), "+-Foo-+".to_string()]);
    assert!(it.next().is_none());
}

#[test]
fn empty_production_yields_placeholder() {
    let tree = Backtrace { nodes: vec![node(item("Foo", &[], 0), vec![])] };
    let mut it = ExampleIterator::new(&tree, 0);
    let all = collect_all(&mut it);
    assert_eq!(all.len(), 1);
    let ex = &all[0];
    assert_eq!(texts(ex), vec![None]);
    assert_eq!(ex.cursor, 0);
    assert_eq!(spans(ex), vec![(0, 1, "Foo".to_string())]);
    assert_eq!(ex.lengths(), vec![1, 0]);
    assert_eq!(ex.positions(&ex.lengths()), vec![0, 8]);
    assert_eq!(ex.paint(), vec!["".to_string(), "|     |".to_string(), "+-Foo-+".to_string()]);
}

#[test]
fn two_way_branch_yields_both_in_order() {
    let tree = two_way_tree();
    for _ in 0..2 {
        let mut it = ExampleIterator::new(&tree, 2);
        let all = collect_all(&mut it);
        assert_eq!(all.len(), 2);
        assert_eq!(texts(&all[0]), some(&["x", "e", "z"]));
        assert_eq!(all[0].cursor, 2);
        assert_eq!(spans(&all[0]), vec![(1, 2, "E".to_string()), (0, 3, "S".to_string())]);
        assert_eq!(texts(&all[1]), some(&["e", "w"]));
        assert_eq!(all[1].cursor, 1);
        assert_eq!(spans(&all[1]), vec![(0, 1, "E".to_string()), (0, 2, "T".to_string())]);
        assert!(it.next().is_none());
        assert!(it.next().is_none());
    }
}

#[test]
fn nested_reductions_render_lower() {
    let tree = two_way_tree();
    let mut it = ExampleIterator::new(&tree, 2);
    let ex = it.next().unwrap();
    assert_eq!(ex.positions(&ex.lengths()), vec![0, 2, 8, 10]);
    assert_eq!(
        ex.paint(),
        vec![
            "x e     z".to_string(),
            "| |   | |".to_string(),
            "| +-E-+ |".to_string(),
            "|       |".to_string(),
            "+-S-----+".to_string(),
        ]
    );
}

#[test]
fn long_label_shifts_following_columns() {
    // `S = p (*) N q` expanded by `VeryLongName = (*) AB`.
    let tree = Backtrace {
        nodes: vec![
            node(item("S", &["p", "N", "q"], 1), vec![]),
            node(item("VeryLongName", &["AB"], 0), vec![0]),
        ],
    };
    let mut it = ExampleIterator::new(&tree, 1);
    let ex = it.next().unwrap();
    assert!(it.next().is_none());
    assert_eq!(texts(&ex), some(&["p", "AB", "q"]));
    assert_eq!(ex.cursor, 1);
    assert_eq!(spans(&ex), vec![(1, 2, "VeryLongName".to_string()), (0, 3, "S".to_string())]);
    let lengths = ex.lengths();
    assert_eq!(lengths, vec![1, 2, 1, 0]);
    let positions = ex.positions(&lengths);
    // Unadjusted the columns are 0, 2, 5, 7; the label needs 16 columns where
    // the symbol gives 2, so everything after it moves by 14.
    assert_eq!(positions, vec![0, 2, 19, 21]);
    let bracket_width = positions[2] - 1 - positions[1];
    assert_eq!(bracket_width, "VeryLongName".len() + 4);
    assert_eq!(
        ex.paint(),
        vec![
            "p AB               q".to_string(),
            "| |              | |".to_string(),
            "| +-VeryLongName-+ |".to_string(),
            "|                  |".to_string(),
            "+-S----------------+".to_string(),
        ]
    );
}

#[test]
fn long_label_is_justified_across_gaps() {
    let ex = Example {
        cursor: 0,
        symbols: vec![sym("A1"), sym("B2"), sym("C3"), sym("D4"), sym("E5"), sym("F6")],
        reductions: vec![red(0, 4, "LongLabel22")],
    };
    assert_eq!(ex.lengths(), vec![2, 2, 2, 2, 2, 2, 0]);
    assert_eq!(ex.positions(&ex.lengths()), vec![0, 5, 9, 13, 16, 19, 22]);
    assert_eq!(
        ex.paint(),
        vec!["A1   B2  C3  D4 E5 F6".to_string(), "|             |".to_string(), "+-LongLabel22-+".to_string()]
    );
}

#[test]
fn lengths_count_characters() {
    let ex = Example {
        cursor: 0,
        symbols: vec![sym("\"Id\""), ExampleSymbol::Epsilon, sym("é")],
        reductions: vec![],
    };
    assert_eq!(ex.lengths(), vec![4, 1, 1, 0]);
    assert_eq!(ex.positions(&ex.lengths()), vec![0, 5, 7, 9]);
    assert_eq!(ex.paint(), vec!["\"Id\"   é".to_string()]);
}

#[test]
fn enumeration_covers_every_combination() {
    // Node 4 has parents 2 and 3; node 3 has parents 0 and 1; nodes 0, 1, 2
    // are leaves: three paths, first-parent first.
    let tree = Backtrace {
        nodes: vec![
            node(item("A", &["a", "M"], 1), vec![]),
            node(item("B", &["M", "b"], 0), vec![]),
            node(item("C", &["c", "K"], 1), vec![]),
            node(item("M", &["K"], 0), vec![0, 1]),
            node(item("K", &["k"], 1), vec![2, 3]),
        ],
    };
    let mut it = ExampleIterator::new(&tree, 4);
    let all = collect_all(&mut it);
    assert_eq!(all.len(), 3);
    assert_eq!(texts(&all[0]), some(&["c", "k"]));
    assert_eq!(texts(&all[1]), some(&["a", "k"]));
    assert_eq!(spans(&all[1]), vec![(1, 2, "K".to_string()), (1, 2, "M".to_string()), (0, 2, "A".to_string())]);
    assert_eq!(texts(&all[2]), some(&["k", "b"]));
    assert_eq!(all[2].cursor, 1);
    assert!(it.next().is_none());
}

#[test]
fn enumeration_count_is_product_of_branchings() {
    // Each level offers two alternatives that lead to the same ancestors:
    // 2 x 2 = 4 paths.
    let tree = Backtrace {
        nodes: vec![
            node(item("P", &["p", "Q"], 1), vec![]),
            node(item("R", &["Q", "r"], 0), vec![]),
            node(item("Q", &["q", "X"], 1), vec![0, 1]),
            node(item("Q", &["X", "s"], 0), vec![0, 1]),
            node(item("X", &["x"], 1), vec![2, 3]),
        ],
    };
    let mut it = ExampleIterator::new(&tree, 4);
    let all = collect_all(&mut it);
    assert_eq!(all.len(), 4);
    let seen: Vec<Vec<Option<String>>> = all.iter().map(texts).collect();
    assert_eq!(seen[0], some(&["p", "q", "x"]));
    assert_eq!(seen[1], some(&["q", "x", "r"]));
    assert_eq!(seen[2], some(&["p", "x", "s"]));
    assert_eq!(seen[3], some(&["x", "s", "r"]));
    for ex in &all {
        assert!(ex.cursor <= ex.symbols.len());
    }
}

#[test]
fn layout_properties_hold_on_examples() {
    let tree = two_way_tree();
    let mut it = ExampleIterator::new(&tree, 2);
    while let Some(ex) = it.next() {
        let lengths = ex.lengths();
        let positions = ex.positions(&lengths);
        for w in positions.windows(2) {
            assert!(w[0] < w[1]);
        }
        for r in &ex.reductions {
            assert!(positions[r.end] - positions[r.start] >= r.nonterminal.chars().count() + 4);
        }
        for (i, a) in ex.reductions.iter().enumerate() {
            for b in &ex.reductions[i + 1..] {
                assert!(b.start <= a.start && a.end <= b.end);
            }
        }
        assert_eq!(ex.paint(), ex.paint());
    }
}
