use ccx::analysis::{
    candidate_fits, AstSizeAnalysis, AstSizeCostNoApp, SimpleLang, SizeAnalysisNoApp,
    SizeNoAppSymbols, SymbolSet,
};
use ccx::slots::{AppliedId, SlotMap};

fn child(id: usize) -> AppliedId {
    AppliedId::new(id, SlotMap::new())
}

fn sorted(s: &SymbolSet) -> Vec<u32> {
    let mut v = s.items.clone();
    v.sort();
    v
}

#[test]
fn ast_size_counts_every_node() {
    assert_eq!(AstSizeAnalysis::make(&vec![]), 1);
    assert_eq!(AstSizeAnalysis::make(&vec![2, 3]), 6);
    assert_eq!(AstSizeAnalysis::make(&vec![u64::MAX - 1, 5]), u64::MAX);
    assert_eq!(AstSizeAnalysis::merge(4, 2), 2);
    assert_eq!(AstSizeAnalysis::merge(2, 4), 2);
}

#[test]
fn size_without_applications() {
    let app = SimpleLang::App(child(1), child(2));
    assert_eq!(SizeAnalysisNoApp::make(&app, &vec![2, 3]), 5);
    assert_eq!(SizeAnalysisNoApp::make(&SimpleLang::Var(4), &vec![]), 1);
    assert_eq!(SizeAnalysisNoApp::make(&SimpleLang::Number(7), &vec![]), 1);
    assert_eq!(SizeAnalysisNoApp::make(&app, &vec![u64::MAX, 1]), u64::MAX);
    assert_eq!(SizeAnalysisNoApp::merge(9, 3), 3);
    let cost = AstSizeCostNoApp;
    assert_eq!(cost.cost(&app, &vec![1, 1]), 2);
    assert_eq!(cost.cost(&SimpleLang::Symbol(3), &vec![]), 1);
}

#[test]
fn symbols_of_nodes() {
    let (s, f) = SizeNoAppSymbols::make(&SimpleLang::Symbol(7), &vec![]);
    assert_eq!(s, 1);
    assert_eq!(sorted(&f), vec![7]);

    let (s, f) = SizeNoAppSymbols::make(&SimpleLang::Var(2), &vec![]);
    assert_eq!(s, 1);
    assert!(f.items.is_empty());

    let head = SymbolSet::singleton(5);
    let mut arg = SymbolSet::singleton(6);
    arg.insert(8);
    let app = SimpleLang::App(child(1), child(2));
    let (s, f) = SizeNoAppSymbols::make(&app, &vec![(1, head), (2, arg)]);
    assert_eq!(s, 3);
    assert_eq!(sorted(&f), vec![5]);
}

#[test]
fn symbols_merge_takes_minimum_and_union() {
    let mut l = SymbolSet::singleton(1);
    l.insert(2);
    let mut r = SymbolSet::singleton(2);
    r.insert(3);
    let (s, f) = SizeNoAppSymbols::merge((4, l), (7, r));
    assert_eq!(s, 4);
    assert_eq!(sorted(&f), vec![1, 2, 3]);
}

#[test]
fn symbol_set_has_no_repetitions() {
    let mut s = SymbolSet::new();
    s.insert(4);
    s.insert(4);
    s.insert(1);
    assert_eq!(sorted(&s), vec![1, 4]);
    assert!(s.contains(1));
    assert!(!s.contains(2));
}

#[test]
fn merge_is_a_semilattice_on_examples() {
    for (a, b, c) in [(1u64, 2u64, 3u64), (5, 5, 0), (9, 2, 7)] {
        let ab = SizeAnalysisNoApp::merge(a, b);
        assert_eq!(ab, SizeAnalysisNoApp::merge(b, a));
        assert_eq!(
            SizeAnalysisNoApp::merge(ab, c),
            SizeAnalysisNoApp::merge(a, SizeAnalysisNoApp::merge(b, c))
        );
        assert_eq!(SizeAnalysisNoApp::merge(a, a), a);
    }
}

#[test]
fn candidate_size_bound() {
    assert!(candidate_fits(&vec![2, 3], 6));
    assert!(!candidate_fits(&vec![2, 3], 5));
    assert!(candidate_fits(&vec![], 1));
}
