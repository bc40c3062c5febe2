use riblt::{CodedSymbol, Direction, PeelableResult, RandomMapping, RatelessIBLT, SimpleSymbol, UnmanagedRatelessIBLT};
use std::collections::HashSet;

fn symbols(values: &[u64]) -> Vec<SimpleSymbol> {
    values.iter().map(|&value| SimpleSymbol { value }).collect()
}

fn stream_prefix(encoder: &mut RatelessIBLT<SimpleSymbol>, n: usize) -> UnmanagedRatelessIBLT<SimpleSymbol> {
    let mut holder = UnmanagedRatelessIBLT::new();
    for i in 0..n {
        let cs = encoder.get_coded_symbol(i);
        holder.add_coded_symbol(&cs);
    }
    holder
}

fn peel_into_sets(
    holder: &mut UnmanagedRatelessIBLT<SimpleSymbol>,
) -> (HashSet<u64>, HashSet<u64>) {
    let mut local = HashSet::new();
    let mut remote = HashSet::new();
    for r in holder.peel_all_symbols() {
        match r {
            PeelableResult::Local(s) => {
                local.insert(s.value);
            }
            PeelableResult::Remote(s) => {
                remote.insert(s.value);
            }
            PeelableResult::NotPeelable => panic!("peel_all_symbols never returns NotPeelable"),
        }
    }
    (local, remote)
}

#[test]
fn mapping_same_seed_same_sequence() {
    let s = SimpleSymbol { value: 77 };
    let mut a = RandomMapping::new(&s);
    let mut b = RandomMapping::new(&SimpleSymbol { value: 77 });
    for _ in 0..200 {
        assert_eq!(a.next_index(), b.next_index());
    }
}

#[test]
fn mapping_strictly_increasing() {
    for seed in [0u64, 1, 2, 3, 1000, u64::MAX] {
        let mut m = RandomMapping::new(&SimpleSymbol { value: seed });
        let mut prev = m.next_index();
        assert_eq!(prev, 0, "every mapping starts at position zero");
        for _ in 0..500 {
            let next = m.next_index();
            if prev == u64::MAX {
                // a tiny pseudo-random word makes the gap enormous, and the
                // position saturates at the top of the 64-bit range
                assert_eq!(next, u64::MAX);
            } else {
                assert!(next > prev, "positions must strictly increase");
            }
            prev = next;
        }
    }
}

#[test]
fn extend_makes_index_available() {
    let mut encoder = RatelessIBLT::new(symbols(&[5, 6, 7]));
    for idx in [0usize, 10, 1023, 1024, 5000] {
        encoder.extend_coded_symbols(idx);
        assert!(encoder.coded_symbols.len() > idx);
    }
}

#[test]
fn coded_symbol_independent_of_extension_history() {
    let values = [3u64, 9, 27, 81, 243];
    let mut eager = RatelessIBLT::new(symbols(&values));
    let mut lazy = RatelessIBLT::new(symbols(&values));

    eager.extend_coded_symbols(4000);
    for i in [0usize, 1, 17, 1023, 1024, 3999] {
        let a = eager.get_coded_symbol(i);
        let b = lazy.get_coded_symbol(i);
        assert_eq!(a.sum, b.sum);
        assert_eq!(a.hash, b.hash);
        assert_eq!(a.count, b.count);
    }
}

#[test]
fn collapse_with_self_is_all_empty() {
    let mut encoder = RatelessIBLT::new(symbols(&[7, 15, 16]));
    let twenty = stream_prefix(&mut encoder, 20);
    let collapsed = twenty.collapse(&twenty);
    assert_eq!(collapsed.coded_symbols.len(), 20);
    for cs in &collapsed.coded_symbols {
        assert_eq!(cs.count, 0);
        assert_eq!(cs.hash, 0);
        assert!(cs.sum.iter().all(|&b| b == 0));
    }
    assert!(collapsed.is_empty());
}

#[test]
fn combine_commutative_and_associative() {
    let a = {
        let mut c = CodedSymbol::new();
        c.apply(&SimpleSymbol { value: 11 }, Direction::Add);
        c.apply(&SimpleSymbol { value: 12 }, Direction::Add);
        c
    };
    let b = {
        let mut c = CodedSymbol::new();
        c.apply(&SimpleSymbol { value: 13 }, Direction::Add);
        c
    };
    let d = {
        let mut c = CodedSymbol::new();
        c.apply(&SimpleSymbol { value: 14 }, Direction::Remove);
        c
    };

    let ab = a.combine(&b);
    let ba = b.combine(&a);
    assert_eq!(ab.sum, ba.sum);
    assert_eq!(ab.hash, ba.hash);
    assert_eq!(ab.count, ba.count);

    let ab_d = a.combine(&b).combine(&d);
    let a_bd = a.combine(&b.combine(&d));
    assert_eq!(ab_d.sum, a_bd.sum);
    assert_eq!(ab_d.hash, a_bd.hash);
    assert_eq!(ab_d.count, a_bd.count);
}

#[test]
fn wire_round_trip_is_bitwise_identical() {
    let mut c = CodedSymbol::new();
    c.apply(&SimpleSymbol { value: 42 }, Direction::Add);
    c.apply(&SimpleSymbol { value: 7 }, Direction::Remove);
    c.apply(&SimpleSymbol { value: 9001 }, Direction::Remove);

    let wire = c.to_wire_bytes();
    assert_eq!(wire.len(), 8 + 16);
    assert_eq!(&wire[0..8], &c.sum[..]);
    assert_eq!(&wire[8..16], &c.hash.to_le_bytes()[..]);
    assert_eq!(&wire[16..24], &c.count.to_le_bytes()[..]);
    let back: CodedSymbol<SimpleSymbol> = CodedSymbol::from_wire_bytes(&wire);
    assert_eq!(back.sum, c.sum);
    assert_eq!(back.hash, c.hash);
    assert_eq!(back.count, c.count);

    // a negative count survives the two's-complement wire form
    let mut n = CodedSymbol::new();
    n.apply(&SimpleSymbol { value: 3 }, Direction::Remove);
    n.apply(&SimpleSymbol { value: 4 }, Direction::Remove);
    assert_eq!(n.count, -2);
    let wire_n = n.to_wire_bytes();
    let back_n: CodedSymbol<SimpleSymbol> = CodedSymbol::from_wire_bytes(&wire_n);
    assert_eq!(back_n.sum, n.sum);
    assert_eq!(back_n.hash, n.hash);
    assert_eq!(back_n.count, n.count);
}

#[test]
fn scenario_identity_collapse() {
    let mut local = RatelessIBLT::new(symbols(&[7, 15, 16]));
    let mut remote = RatelessIBLT::new(symbols(&[7, 15, 16]));
    let local_stream = stream_prefix(&mut local, 20);
    let remote_stream = stream_prefix(&mut remote, 20);
    let mut collapsed = local_stream.collapse(&remote_stream);
    let peeled = collapsed.peel_all_symbols();
    assert!(peeled.is_empty());
    assert!(collapsed.is_empty());
}

#[test]
fn scenario_single_remote_difference() {
    let mut local = RatelessIBLT::new(symbols(&[7, 15, 16]));
    let mut remote = RatelessIBLT::new(symbols(&[7, 15, 16, 17]));
    let remote_stream = stream_prefix(&mut remote, 20);
    let mut collapsed = local.collapse(&remote_stream);
    let (local_only, remote_only) = peel_into_sets(&mut collapsed);
    assert!(local_only.is_empty());
    assert_eq!(remote_only, HashSet::from([17]));
    assert!(collapsed.is_empty());
}

#[test]
fn scenario_single_local_difference() {
    let mut local = RatelessIBLT::new(symbols(&[7, 15, 16, 17]));
    let mut remote = RatelessIBLT::new(symbols(&[7, 15, 16]));
    let remote_stream = stream_prefix(&mut remote, 20);
    let mut collapsed = local.collapse(&remote_stream);
    let (local_only, remote_only) = peel_into_sets(&mut collapsed);
    assert_eq!(local_only, HashSet::from([17]));
    assert!(remote_only.is_empty());
    assert!(collapsed.is_empty());
}

#[test]
fn scenario_two_sided_difference() {
    let mut local = RatelessIBLT::new(symbols(&[7, 15, 16, 2]));
    let mut remote = RatelessIBLT::new(symbols(&[7, 15, 16, 1]));
    let remote_stream = stream_prefix(&mut remote, 20);
    let mut collapsed = local.collapse(&remote_stream);
    let (local_only, remote_only) = peel_into_sets(&mut collapsed);
    assert_eq!(local_only, HashSet::from([2]));
    assert_eq!(remote_only, HashSet::from([1]));
    assert!(collapsed.is_empty());
}

#[test]
fn scenario_rateless_growth() {
    let local_values: Vec<u64> = (0..=999).collect();
    let mut remote_values: Vec<u64> = (0..=999).collect();
    remote_values.push(1000);

    let mut local = RatelessIBLT::new(symbols(&local_values));
    let mut remote = RatelessIBLT::new(symbols(&remote_values));

    // position zero is hit by every symbol, so with a single-element
    // difference one coded symbol already peels
    let remote_stream = stream_prefix(&mut remote, 1);
    let mut collapsed = local.collapse(&remote_stream);
    let (local_only, remote_only) = peel_into_sets(&mut collapsed);
    assert!(local_only.is_empty());
    assert_eq!(remote_only, HashSet::from([1000]));
    assert!(collapsed.is_empty());
}

#[test]
fn scenario_large_difference_needs_more_positions() {
    let mut local = RatelessIBLT::new(Vec::new());
    let remote_values: Vec<u64> = (0..=99).collect();
    let mut remote = RatelessIBLT::new(symbols(&remote_values));

    let mut recovered: HashSet<u64> = HashSet::new();
    let mut positions: usize = 64;
    let mut rounds: usize = 0;
    loop {
        let remote_stream = stream_prefix(&mut remote, positions);
        let mut collapsed = local.collapse(&remote_stream);
        let (local_only, remote_only) = peel_into_sets(&mut collapsed);
        assert!(local_only.is_empty());
        if collapsed.is_empty() {
            recovered = remote_only;
            break;
        }
        positions += 64;
        rounds += 1;
        assert!(rounds < 100, "the difference should decode long before this");
    }
    let expected: HashSet<u64> = (0..=99).collect();
    assert_eq!(recovered, expected);
}

#[test]
fn new_coded_symbol_is_empty_and_not_peelable() {
    let mut c: CodedSymbol<SimpleSymbol> = CodedSymbol::new();
    assert!(c.is_empty());
    assert!(!c.is_peelable());
    assert_eq!(c.count, 0);
    assert_eq!(c.hash, 0);
    assert!(c.sum.iter().all(|&b| b == 0));
    assert!(matches!(c.peel_peek(), PeelableResult::NotPeelable));
    assert!(matches!(c.peel(), PeelableResult::NotPeelable));
}

#[test]
fn disjoint_union_collapse_recovers_difference() {
    let a_values = [100u64, 200, 300, 400];
    let union_values = [100u64, 200, 300, 400, 1000, 2000, 3000];
    let b_expected: HashSet<u64> = HashSet::from([1000, 2000, 3000]);

    let mut union_encoder = RatelessIBLT::new(symbols(&union_values));
    let mut a_encoder = RatelessIBLT::new(symbols(&a_values));
    let union_stream = stream_prefix(&mut union_encoder, 30);
    let a_stream = stream_prefix(&mut a_encoder, 30);

    // the union holds B on top of A, so B comes out on the side of the
    // first argument: as Local residues, with no Remote ones
    let mut collapsed = union_stream.collapse(&a_stream);
    let (local_only, remote_only) = peel_into_sets(&mut collapsed);
    assert_eq!(local_only, b_expected);
    assert!(remote_only.is_empty());
    assert!(collapsed.is_empty());

    // collapsed the other way round, B comes out as Remote residues
    let mut collapsed_rev = a_stream.collapse(&union_stream);
    let (local_rev, remote_rev) = peel_into_sets(&mut collapsed_rev);
    assert_eq!(remote_rev, b_expected);
    assert!(local_rev.is_empty());
    assert!(collapsed_rev.is_empty());
}

#[test]
fn apply_then_remove_restores_emptiness() {
    let mut c = CodedSymbol::new();
    let s = SimpleSymbol { value: 123456 };
    c.apply(&s, Direction::Add);
    assert!(!c.is_empty());
    c.apply(&s, Direction::Remove);
    assert!(c.is_empty());
    assert!(c.sum.iter().all(|&b| b == 0));
}

#[test]
fn collapse_truncates_to_shorter_stream() {
    let mut encoder = RatelessIBLT::new(symbols(&[1, 2, 3]));
    let long = stream_prefix(&mut encoder, 30);
    let short = stream_prefix(&mut encoder, 10);
    let collapsed = long.collapse(&short);
    assert_eq!(collapsed.coded_symbols.len(), 10);
    let collapsed_other_way = short.collapse(&long);
    assert_eq!(collapsed_other_way.coded_symbols.len(), 10);
    let combined = long.combine(&short);
    assert_eq!(combined.coded_symbols.len(), 10);
}

#[test]
fn combine_of_disjoint_encoders_streams_their_union() {
    let mut left = RatelessIBLT::new(symbols(&[1, 2, 3]));
    let mut right = RatelessIBLT::new(symbols(&[10, 20]));
    right.extend_coded_symbols(0);
    let union_stream = left.combine(&right);

    let mut union_encoder = RatelessIBLT::new(symbols(&[1, 2, 3, 10, 20]));
    for i in 0..union_stream.coded_symbols.len() {
        let expected = union_encoder.get_coded_symbol(i);
        let got = &union_stream.coded_symbols[i];
        assert_eq!(got.sum, expected.sum);
        assert_eq!(got.hash, expected.hash);
        assert_eq!(got.count, expected.count);
    }
}
