use riblt::{PeelableResult, RatelessIBLT, SimpleSymbol, UnmanagedRatelessIBLT};
use std::collections::HashSet;

#[test]
fn test_collapsing() {
    let items_local: HashSet<SimpleSymbol> = HashSet::from([
        SimpleSymbol { value: 7 },
        SimpleSymbol { value: 15 },
        SimpleSymbol { value: 16 },
        SimpleSymbol { value: 2 },
    ]);

    let items_remote: HashSet<SimpleSymbol> = HashSet::from([
        SimpleSymbol { value: 7 },
        SimpleSymbol { value: 15 },
        SimpleSymbol { value: 16 },
        SimpleSymbol { value: 1 },
    ]);

    let mut iblt_local = RatelessIBLT::new(items_local.iter().cloned().collect());
    iblt_local.extend_coded_symbols(0);
    let mut iblt_remote = RatelessIBLT::new(items_remote.iter().cloned().collect());
    iblt_remote.extend_coded_symbols(0);

    let local_only: HashSet<SimpleSymbol> = items_local.difference(&items_remote).cloned().collect();
    let remote_only: HashSet<SimpleSymbol> = items_remote.difference(&items_local).cloned().collect();

    let iblt_remote_unmanaged: UnmanagedRatelessIBLT<SimpleSymbol> = UnmanagedRatelessIBLT {
        coded_symbols: iblt_remote.coded_symbols.clone(),
    };

    let mut collapsed_local = iblt_local.collapse(&iblt_remote_unmanaged);

    let mut peeled_set_local = HashSet::new();
    let mut peeled_set_remote = HashSet::new();

    for s in collapsed_local.peel_all_symbols() {
        match s {
            PeelableResult::Local(symbol) => {
                peeled_set_local.insert(symbol.clone());
            }
            PeelableResult::Remote(symbol) => {
                peeled_set_remote.insert(symbol.clone());
            }
            PeelableResult::NotPeelable => panic!("Not expecting this case"),
        }
    }
    assert_eq!(local_only, peeled_set_local);
    assert_eq!(remote_only, peeled_set_remote);
}

#[test]
fn test_peeling() {
    let items: HashSet<SimpleSymbol> = HashSet::from([
        SimpleSymbol { value: 7 },
        SimpleSymbol { value: 15 },
        SimpleSymbol { value: 16 },
    ]);

    let mut iblt = RatelessIBLT::new(items.iter().cloned().collect());
    iblt.extend_coded_symbols(0);

    let mut peeled_set = HashSet::new();

    for s in iblt.peel_all_symbols() {
        match s {
            PeelableResult::Local(symbol) => {
                peeled_set.insert(symbol.clone());
            }
            PeelableResult::Remote(_) => panic!("Not expecting remote symbol"),
            PeelableResult::NotPeelable => panic!("Not expecting this case"),
        }
    }

    assert!(iblt.is_empty());
    assert_eq!(items, peeled_set);
}

#[test]
fn test_union() {
    let common_items: HashSet<u64> = HashSet::from([1, 2, 3]);
    let a_only_items: HashSet<u64> = HashSet::from([4]);
    let b_only_items: HashSet<u64> = HashSet::from([5, 6]);

    let a: HashSet<u64> = common_items.union(&a_only_items).cloned().collect();
    let b: HashSet<u64> = common_items.union(&b_only_items).cloned().collect();

    let expected_difference_set: HashSet<u64> = a_only_items.union(&b_only_items).cloned().collect();
    let computed_difference_set: HashSet<u64> = a.symmetric_difference(&b).cloned().collect();

    assert_eq!(expected_difference_set, computed_difference_set);

    let mut items_missing_from_a: HashSet<u64> = HashSet::new();

    for item in &computed_difference_set {
        if !a.contains(item) {
            items_missing_from_a.insert(*item);
        }
    }
    assert_eq!(items_missing_from_a, b_only_items);
}
