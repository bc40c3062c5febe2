//! The managed encoder, the unmanaged holder, and the operations on
//! whole blocks of coded symbols: positionwise combine and collapse, the
//! emptiness test, and the peeling decoder.

use vstd::prelude::*;
use crate::mapping::{
    RandomMapping, lemma_mapping_strictly_increasing, lemma_position_nondecreasing,
    lemma_position_strictly_increasing_below_max, lemma_state_first_step, lemma_state_unfold,
    spec_position, spec_state,
};
use crate::symbol::{
    CodedSymbol, CodedSymbolModel, Direction, PeelableResult, Symbol, apply_model, combine_model,
    collapse_model, empty_model, new_model, peelable_model,
};

verus! {

/// How many fresh positions an extension materialises at the least.
///
/// Iterating the set is the expensive step, so the encoder grows its
/// cached stream a block at a time, amortising one traversal over many
/// positions. The choice trades memory against repeated traversals and
/// never affects what any position holds.
pub const BLOCK_SIZE: usize = 1024;

/// Whether the mapping seeded with `h` ever yields position `i`.
pub open spec fn hits(h: u64, i: u64) -> bool {
    exists|k: nat| spec_position(h, k) == i
}

/// The model of the coded symbol that the multiset `set` induces at
/// stream position `i`: every symbol whose mapping hits `i`, folded in
/// set order into the zeroed model, in the `Add` direction.
pub open spec fn stream_model<T: Symbol>(set: Seq<T>, i: u64) -> CodedSymbolModel
    decreases set.len(),
{
    if set.len() == 0 {
        new_model(T::spec_length() as nat)
    } else {
        let rest = stream_model(set.drop_last(), i);
        if hits(set.last().spec_hash(), i) {
            apply_model(rest, set.last(), Direction::Add)
        } else {
            rest
        }
    }
}

/// The stream model's byte sum always has the fixed encoded length and
/// its count lies between zero and the number of symbols.
pub proof fn lemma_stream_model_bounds<T: Symbol>(set: Seq<T>, i: u64)
    ensures
        stream_model::<T>(set, i).sum.len() == T::spec_length(),
        0 <= stream_model::<T>(set, i).count <= set.len(),
    decreases set.len(),
{
    if set.len() > 0 {
        lemma_stream_model_bounds::<T>(set.drop_last(), i);
    }
}

/// Whether the mapping seeded with `h` yields position `i` within its
/// first `kcap` steps.
spec fn hits_below(h: u64, i: u64, kcap: nat) -> bool {
    exists|k: nat| k < kcap && spec_position(h, k) == i
}

/// At step `kprev` the mapping yields a position it never yielded at any
/// earlier step, as long as that position has not saturated.
proof fn lemma_position_fresh(h: u64, kprev: nat)
    requires
        spec_position(h, kprev) < u64::MAX,
    ensures
        !hits_below(h, spec_position(h, kprev), kprev),
{
    if hits_below(h, spec_position(h, kprev), kprev) {
        let kw = choose|kw: nat| kw < kprev && spec_position(h, kw) == spec_position(h, kprev);
        lemma_position_strictly_increasing_below_max(h, kw, kprev);
    }
}

/// Raising the step cap by one changes which positions are hit only at
/// the position yielded at the old cap.
proof fn lemma_hits_below_step(h: u64, i: u64, kprev: nat)
    requires
        spec_position(h, kprev) != i,
    ensures
        hits_below(h, i, kprev + 1) == hits_below(h, i, kprev),
{
    if hits_below(h, i, kprev + 1) {
        let kw = choose|kw: nat| kw < kprev + 1 && spec_position(h, kw) == i;
        assert(kw < kprev && spec_position(h, kw) == i);
    }
}

/// Once the mapping has yielded a position beyond `i`, no later step
/// comes back: hitting `i` at all is hitting it below the current step.
proof fn lemma_hits_settled(h: u64, i: u64, kcap: nat)
    requires
        i < spec_position(h, kcap),
    ensures
        hits(h, i) == hits_below(h, i, kcap),
{
    if hits(h, i) {
        let kw = choose|kw: nat| spec_position(h, kw) == i;
        if kw >= kcap {
            lemma_position_nondecreasing(h, kcap, kw);
            assert(false);
        }
        assert(kw < kcap && spec_position(h, kw) == i);
    }
}

/// Extending the folded prefix of the set by its `j`-th symbol folds
/// that symbol into the stream model exactly at the positions its
/// mapping hits.
proof fn lemma_stream_model_step<T: Symbol>(set: Seq<T>, j: int, i: u64)
    requires
        0 <= j < set.len(),
    ensures
        stream_model(set.take(j + 1), i) == (if hits(set[j].spec_hash(), i) {
            apply_model(stream_model(set.take(j), i), set[j], Direction::Add)
        } else {
            stream_model(set.take(j), i)
        }),
{
    assert(set.take(j + 1).drop_last() =~= set.take(j));
    assert(set.take(j + 1).last() == set[j]);
}


/// Folds one symbol into every coded symbol of `block` whose position
/// lies at or beyond `from` and is hit by the symbol's mapping. `base`
/// names the models the block holds at those positions on entry.
#[verifier::rlimit(100)]
fn apply_symbol_from<T: Symbol>(
    block: &mut Vec<CodedSymbol<T>>,
    item: &T,
    from: usize,
    direction: Direction,
    Ghost(base): Ghost<Seq<CodedSymbolModel>>,
)
    requires
        base.len() == old(block)@.len(),
        forall|i: int| from <= i < base.len() ==> (#[trigger] old(block)@[i])@ == base[i],
        forall|i: int|
            from <= i < base.len() ==> (#[trigger] base[i]).sum.len() == T::spec_length(),
        forall|i: int|
            from <= i < base.len() && hits(item.spec_hash(), i as u64) ==> {
                &&& (direction is Add ==> (#[trigger] base[i]).count < i64::MAX)
                &&& (direction is Remove ==> base[i].count > i64::MIN)
            },
    ensures
        final(block)@.len() == old(block)@.len(),
        forall|i: int| 0 <= i < from ==> (#[trigger] final(block)@[i]) == old(block)@[i],
        forall|i: int|
            from <= i < base.len() ==> (#[trigger] final(block)@[i])@ == (if hits(
                item.spec_hash(),
                i as u64,
            ) {
                apply_model(base[i], *item, direction)
            } else {
                base[i]
            }),
{
    let n = block.len();
    let ghost b0 = block@;
    let ghost h = item.spec_hash();
    let mut item_mapping = RandomMapping::new(item);
    let ghost mut k: nat = 1nat;
    proof {
        lemma_state_first_step(h);
    }
    let mut pos: u64 = item_mapping.next_index();
    while pos < n as u64
        invariant
            k >= 1,
            item_mapping.spec_prng() == spec_state(h, k).0,
            item_mapping.spec_last() == spec_state(h, k).1,
            pos == spec_position(h, (k - 1) as nat),
            h == item.spec_hash(),
            n == base.len(),
            block@.len() == n,
            forall|i: int| 0 <= i < from ==> (#[trigger] block@[i]) == b0[i],
            b0.len() == n,
            forall|i: int|
                from <= i < n ==> (#[trigger] base[i]).sum.len() == T::spec_length(),
            forall|i: int|
                from <= i < n && hits(h, i as u64) ==> {
                    &&& (direction is Add ==> (#[trigger] base[i]).count < i64::MAX)
                    &&& (direction is Remove ==> base[i].count > i64::MIN)
                },
            forall|i: int|
                from <= i < n ==> (#[trigger] block@[i])@ == (if hits_below(
                    h,
                    i as u64,
                    (k - 1) as nat,
                ) {
                    apply_model(base[i], *item, direction)
                } else {
                    base[i]
                }),
        decreases (if pos < n as u64 {
            n as int - pos as int
        } else {
            0int
        }),
    {
        let ghost kprev = (k - 1) as nat;
        proof {
            lemma_mapping_strictly_increasing(h, kprev);
        }
        if pos >= from as u64 {
            proof {
                lemma_position_fresh(h, kprev);
                assert(spec_position(h, kprev) == pos);
                assert(hits(h, pos));
            }
            let p_idx = pos as usize;
            block[p_idx].apply(item, direction);
            proof {
                assert(block@[p_idx as int]@ =~= apply_model(base[p_idx as int], *item, direction));
                assert(spec_position(h, kprev) == pos && kprev < kprev + 1);
                assert(hits_below(h, pos, kprev + 1));
                assert forall|i: int|
                    from <= i < n && i != pos implies (#[trigger] hits_below(h, i as u64, kprev + 1))
                    == hits_below(h, i as u64, kprev) by {
                    lemma_hits_below_step(h, i as u64, kprev);
                }
            }
        } else {
            proof {
                assert forall|i: int|
                    from <= i < n implies (#[trigger] hits_below(h, i as u64, kprev + 1))
                    == hits_below(h, i as u64, kprev) by {
                    lemma_hits_below_step(h, i as u64, kprev);
                }
            }
        }
        pos = item_mapping.next_index();
        proof {
            k = k + 1;
            assert((k - 1) as nat == kprev + 1);
            lemma_state_unfold(h, k);
        }
    }
    proof {
        assert forall|i: int| from <= i < n implies (#[trigger] block@[i])@ == (if hits(
            h,
            i as u64,
        ) {
            apply_model(base[i], *item, direction)
        } else {
            base[i]
        }) by {
            lemma_hits_settled(h, i as u64, (k - 1) as nat);
        }
    }
}


/// Every coded symbol of the block has the fixed encoded length.
pub open spec fn blocks_wf<T: Symbol>(block: Seq<CodedSymbol<T>>) -> bool {
    forall|i: int| 0 <= i < block.len() ==> (#[trigger] block[i]).sum@.len() == T::spec_length()
}

/// The models of a whole block of coded symbols, position by position.
pub open spec fn block_models<T: Symbol>(block: Seq<CodedSymbol<T>>) -> Seq<CodedSymbolModel> {
    block.map_values(|c: CodedSymbol<T>| c@)
}

/// Whether position `p` holds the first peelable coded symbol of `bv`.
pub open spec fn is_first_peelable<T: Symbol>(bv: Seq<CodedSymbolModel>, p: int) -> bool {
    &&& 0 <= p < bv.len()
    &&& peelable_model::<T>(bv[p])
    &&& forall|q: int| 0 <= q < p ==> !peelable_model::<T>(#[trigger] bv[q])
}

/// The direction that removes a peeled residue from the rest of the
/// stream: a local-only residue (count one) contributed `Add` at every
/// position, so it leaves by `Remove`; a remote-only one by `Add`.
pub open spec fn removal_direction(count: int) -> Direction {
    if count == 1 {
        Direction::Remove
    } else {
        Direction::Add
    }
}

/// The result a peel of the peelable model `m` reports: the decoded sum,
/// tagged local or remote by the sign of the count.
pub open spec fn peel_result_model<T: Symbol>(m: CodedSymbolModel) -> PeelableResult<T> {
    if m.count == 1 {
        PeelableResult::Local(T::spec_decode(m.sum))
    } else {
        PeelableResult::Remote(T::spec_decode(m.sum))
    }
}

/// The models of a block after the contribution of symbol `t` has been
/// folded, in direction `dir`, into every position its mapping hits.
pub open spec fn models_after_removal<T: Symbol>(
    bv: Seq<CodedSymbolModel>,
    t: T,
    dir: Direction,
) -> Seq<CodedSymbolModel> {
    Seq::new(
        bv.len(),
        |i: int|
            if hits(t.spec_hash(), i as u64) {
                apply_model(bv[i], t, dir)
            } else {
                bv[i]
            },
    )
}

/// Whether folding `t` out of the block keeps every affected count
/// within the signed 64-bit range.
pub open spec fn removal_in_range<T: Symbol>(
    bv: Seq<CodedSymbolModel>,
    t: T,
    dir: Direction,
) -> bool {
    forall|i: int|
        0 <= i < bv.len() && hits(t.spec_hash(), i as u64) ==> {
            &&& (dir is Add ==> (#[trigger] bv[i]).count < i64::MAX)
            &&& (dir is Remove ==> bv[i].count > i64::MIN)
        }
}

/// One successful peel: some position holds the first peelable coded
/// symbol, folding its decoded residue out stays in range, `r` reports
/// the residue, and `b` is the block with the residue folded out.
pub open spec fn peel_step<T: Symbol>(
    a: Seq<CodedSymbolModel>,
    r: PeelableResult<T>,
    b: Seq<CodedSymbolModel>,
) -> bool {
    exists|p: int|
        {
            &&& #[trigger] is_first_peelable::<T>(a, p)
            &&& removal_in_range(a, T::spec_decode(a[p].sum), removal_direction(a[p].count))
            &&& r == peel_result_model::<T>(a[p])
            &&& b == models_after_removal(a, T::spec_decode(a[p].sum), removal_direction(a[p].count))
        }
}

/// Whether any peel step can proceed from `bv`.
pub open spec fn can_peel<T: Symbol>(bv: Seq<CodedSymbolModel>) -> bool {
    exists|p: int|
        #[trigger] is_first_peelable::<T>(bv, p) && removal_in_range(
            bv,
            T::spec_decode(bv[p].sum),
            removal_direction(bv[p].count),
        )
}

/// A chain of peel steps from `a` to `b` that reports `rs`, in order.
pub open spec fn peel_chain<T: Symbol>(
    a: Seq<CodedSymbolModel>,
    rs: Seq<PeelableResult<T>>,
    b: Seq<CodedSymbolModel>,
) -> bool
    decreases rs.len(),
{
    if rs.len() == 0 {
        a == b
    } else {
        exists|mid: Seq<CodedSymbolModel>|
            #[trigger] peel_step(a, rs[0], mid) && peel_chain(mid, rs.drop_first(), b)
    }
}

/// A block has at most one first peelable position.
proof fn lemma_first_peelable_unique<T: Symbol>(bv: Seq<CodedSymbolModel>, p1: int, p2: int)
    requires
        is_first_peelable::<T>(bv, p1),
        is_first_peelable::<T>(bv, p2),
    ensures
        p1 == p2,
{
    if p1 < p2 {
        assert(!peelable_model::<T>(bv[p1]));
    }
    if p2 < p1 {
        assert(!peelable_model::<T>(bv[p2]));
    }
}

/// A chain extends by one further step at its end.
proof fn lemma_peel_chain_snoc<T: Symbol>(
    a: Seq<CodedSymbolModel>,
    rs: Seq<PeelableResult<T>>,
    m: Seq<CodedSymbolModel>,
    r: PeelableResult<T>,
    b: Seq<CodedSymbolModel>,
)
    requires
        peel_chain(a, rs, m),
        peel_step(m, r, b),
    ensures
        peel_chain(a, rs.push(r), b),
    decreases rs.len(),
{
    if rs.len() == 0 {
        assert(a == m);
        assert(rs.push(r)[0] == r);
        assert(rs.push(r).drop_first() =~= Seq::<PeelableResult<T>>::empty());
        assert(peel_chain(b, rs.push(r).drop_first(), b));
        assert(peel_step(a, rs.push(r)[0], b) && peel_chain(b, rs.push(r).drop_first(), b));
    } else {
        let mid = choose|mid: Seq<CodedSymbolModel>|
            #[trigger] peel_step(a, rs[0], mid) && peel_chain(mid, rs.drop_first(), m);
        lemma_peel_chain_snoc(mid, rs.drop_first(), m, r, b);
        assert(rs.push(r).drop_first() =~= rs.drop_first().push(r));
        assert(rs.push(r)[0] == rs[0]);
        assert(peel_step(a, rs.push(r)[0], mid) && peel_chain(mid, rs.push(r).drop_first(), b));
    }
}

/// Folding a residue out never changes the lengths of the byte sums.
proof fn lemma_removal_preserves_lengths<T: Symbol>(
    bv: Seq<CodedSymbolModel>,
    t: T,
    dir: Direction,
)
    ensures
        models_after_removal(bv, t, dir).len() == bv.len(),
        forall|i: int|
            0 <= i < bv.len() ==> (#[trigger] models_after_removal(bv, t, dir)[i]).sum.len()
                == bv[i].sum.len(),
{
}

/// The first peelable position of a block, scanning from position zero.
fn find_first_peelable<T: Symbol>(block: &Vec<CodedSymbol<T>>) -> (r: Option<usize>)
    requires
        blocks_wf(block@),
    ensures
        match r {
            Option::Some(p) => is_first_peelable::<T>(block_models(block@), p as int),
            Option::None => forall|q: int|
                0 <= q < block@.len() ==> !peelable_model::<T>((#[trigger] block@[q])@),
        },
{
    let mut i: usize = 0;
    while i < block.len()
        invariant
            i <= block@.len(),
            blocks_wf(block@),
            forall|q: int| 0 <= q < i ==> !peelable_model::<T>((#[trigger] block@[q])@),
        decreases block@.len() - i,
    {
        if block[i].is_peelable() {
            return Some(i);
        }
        i = i + 1;
    }
    None
}

/// Walks the mapping of `item` and reports whether folding it out in the
/// given direction keeps every affected count in range.
fn removal_in_range_check<T: Symbol>(
    block: &Vec<CodedSymbol<T>>,
    item: &T,
    direction: Direction,
) -> (r: bool)
    ensures
        r == removal_in_range(block_models(block@), *item, direction),
{
    let n = block.len();
    let ghost bv = block_models(block@);
    let ghost h = item.spec_hash();
    let mut item_mapping = RandomMapping::new(item);
    let ghost mut k: nat = 1nat;
    proof {
        lemma_state_first_step(h);
    }
    let mut pos: u64 = item_mapping.next_index();
    while pos < n as u64
        invariant
            k >= 1,
            item_mapping.spec_prng() == spec_state(h, k).0,
            item_mapping.spec_last() == spec_state(h, k).1,
            pos == spec_position(h, (k - 1) as nat),
            h == item.spec_hash(),
            n == block@.len(),
            bv == block_models(block@),
            forall|i: int|
                0 <= i < n && hits_below(h, i as u64, (k - 1) as nat) ==> {
                    &&& (direction is Add ==> (#[trigger] bv[i]).count < i64::MAX)
                    &&& (direction is Remove ==> bv[i].count > i64::MIN)
                },
        decreases (if pos < n as u64 {
            n as int - pos as int
        } else {
            0int
        }),
    {
        let ghost kprev = (k - 1) as nat;
        proof {
            lemma_mapping_strictly_increasing(h, kprev);
            assert(spec_position(h, kprev) == pos);
            assert(hits(h, pos));
        }
        let c = block[pos as usize].count;
        let out_of_range = match direction {
            Direction::Add => c == i64::MAX,
            Direction::Remove => c == i64::MIN,
        };
        if out_of_range {
            proof {
                assert(bv[pos as int] == block@[pos as int]@);
            }
            return false;
        }
        proof {
            assert(bv[pos as int] == block@[pos as int]@);
            assert forall|i: int|
                0 <= i < n && #[trigger] hits_below(h, i as u64, kprev + 1) implies {
                &&& (direction is Add ==> bv[i].count < i64::MAX)
                &&& (direction is Remove ==> bv[i].count > i64::MIN)
            } by {
                if i != pos {
                    lemma_hits_below_step(h, i as u64, kprev);
                }
            }
        }
        pos = item_mapping.next_index();
        proof {
            k = k + 1;
            lemma_state_unfold(h, k);
        }
    }
    proof {
        assert forall|i: int| 0 <= i < n && #[trigger] hits(h, i as u64) implies {
            &&& (direction is Add ==> bv[i].count < i64::MAX)
            &&& (direction is Remove ==> bv[i].count > i64::MIN)
        } by {
            lemma_hits_settled(h, i as u64, (k - 1) as nat);
        }
    }
    true
}

/// Folds a peeled residue out of the whole block: a local residue leaves
/// by `Remove`, a remote one by `Add`, at every position of the
/// residue's mapping.
pub fn remove_symbol_from_block<T: Symbol>(
    block: &mut Vec<CodedSymbol<T>>,
    symbol_result: PeelableResult<T>,
)
    requires
        !(symbol_result is NotPeelable),
        blocks_wf(old(block)@),
        (match symbol_result {
            PeelableResult::Local(t) => removal_in_range(
                block_models(old(block)@),
                t,
                Direction::Remove,
            ),
            PeelableResult::Remote(t) => removal_in_range(
                block_models(old(block)@),
                t,
                Direction::Add,
            ),
            PeelableResult::NotPeelable => true,
        }),
    ensures
        blocks_wf(final(block)@),
        final(block)@.len() == old(block)@.len(),
        (match symbol_result {
            PeelableResult::Local(t) => block_models(final(block)@) == models_after_removal(
                block_models(old(block)@),
                t,
                Direction::Remove,
            ),
            PeelableResult::Remote(t) => block_models(final(block)@) == models_after_removal(
                block_models(old(block)@),
                t,
                Direction::Add,
            ),
            PeelableResult::NotPeelable => true,
        }),
{
    let ghost bv = block_models(block@);
    let (symbol, direction): (T, Direction) = match symbol_result {
        PeelableResult::Local(symbol) => (symbol, Direction::Remove),
        PeelableResult::Remote(symbol) => (symbol, Direction::Add),
        PeelableResult::NotPeelable => {
            return ;
        },
    };
    apply_symbol_from(block, &symbol, 0, direction, Ghost(bv));
    proof {
        lemma_removal_preserves_lengths(bv, symbol, direction);
        assert(block_models(block@) =~= models_after_removal(bv, symbol, direction));
    }
}

/// Scans for the first peelable position, reports its residue, and folds
/// the residue out of the whole block. Reports `NotPeelable`, leaving
/// the block unchanged, when no position can be peeled, or when folding
/// the residue out would take a count beyond the signed 64-bit range.
pub fn peel_one_symbol<T: Symbol>(block: &mut Vec<CodedSymbol<T>>) -> (r: PeelableResult<T>)
    requires
        blocks_wf(old(block)@),
    ensures
        blocks_wf(final(block)@),
        final(block)@.len() == old(block)@.len(),
        r is NotPeelable ==> block_models(final(block)@) == block_models(old(block)@)
            && !can_peel::<T>(block_models(old(block)@)),
        !(r is NotPeelable) ==> peel_step::<T>(
            block_models(old(block)@),
            r,
            block_models(final(block)@),
        ),
{
    let ghost bv = block_models(block@);
    let first = find_first_peelable(block);
    match first {
        Option::None => {
            proof {
                if can_peel::<T>(bv) {
                    let p = choose|p: int|
                        #[trigger] is_first_peelable::<T>(bv, p) && removal_in_range(
                            bv,
                            T::spec_decode(bv[p].sum),
                            removal_direction(bv[p].count),
                        );
                    assert(bv[p] == block@[p]@);
                    assert(false);
                }
            }
            PeelableResult::NotPeelable
        },
        Option::Some(p) => {
            let result = block[p].peel_peek();
            let safe = match &result {
                PeelableResult::Local(t) => removal_in_range_check(block, t, Direction::Remove),
                PeelableResult::Remote(t) => removal_in_range_check(block, t, Direction::Add),
                PeelableResult::NotPeelable => false,
            };
            proof {
                assert(bv[p as int] == block@[p as int]@);
            }
            if !safe {
                proof {
                    if can_peel::<T>(bv) {
                        let p2 = choose|p2: int|
                            #[trigger] is_first_peelable::<T>(bv, p2) && removal_in_range(
                                bv,
                                T::spec_decode(bv[p2].sum),
                                removal_direction(bv[p2].count),
                            );
                        lemma_first_peelable_unique::<T>(bv, p as int, p2);
                        assert(false);
                    }
                }
                return PeelableResult::NotPeelable;
            }
            let result2 = block[p].peel_peek();
            remove_symbol_from_block(block, result2);
            proof {
                assert(is_first_peelable::<T>(bv, p as int) && removal_in_range(
                    bv,
                    T::spec_decode(bv[p as int].sum),
                    removal_direction(bv[p as int].count),
                ) && result == peel_result_model::<T>(bv[p as int]) && block_models(block@)
                    == models_after_removal(
                    bv,
                    T::spec_decode(bv[p as int].sum),
                    removal_direction(bv[p as int].count),
                ));
            }
            result
        },
    }
}

/// Peels until nothing more comes out, collecting the residues in peel
/// order. Stops after as many peels as the block has positions: streams
/// of a consistent encoder pair never peel more often than that, because
/// every peel of a true residue leaves its position empty for good.
fn peel_all_from_block<T: Symbol>(block: &mut Vec<CodedSymbol<T>>) -> (r: Vec<
    PeelableResult<T>,
>)
    requires
        blocks_wf(old(block)@),
    ensures
        blocks_wf(final(block)@),
        final(block)@.len() == old(block)@.len(),
        peel_chain::<T>(block_models(old(block)@), r@, block_models(final(block)@)),
        !can_peel::<T>(block_models(final(block)@)) || r@.len() >= old(block)@.len(),
{
    let mut peeled_symbols: Vec<PeelableResult<T>> = Vec::new();
    let ghost start = block_models(block@);
    let n = block.len();
    let mut fuel: usize = n;
    proof {
        assert(peeled_symbols@ =~= Seq::<PeelableResult<T>>::empty());
    }
    while fuel > 0
        invariant_except_break
            fuel <= n,
            n == start.len(),
            peeled_symbols@.len() + fuel == n,
            block@.len() == n,
            blocks_wf(block@),
            peel_chain::<T>(start, peeled_symbols@, block_models(block@)),
        ensures
            block@.len() == n,
            blocks_wf(block@),
            peel_chain::<T>(start, peeled_symbols@, block_models(block@)),
            !can_peel::<T>(block_models(block@)) || peeled_symbols@.len() >= n,
        decreases fuel,
    {
        let ghost pre = block_models(block@);
        let peeled_symbol = peel_one_symbol(block);
        match peeled_symbol {
            PeelableResult::NotPeelable => {
                break ;
            },
            _ => {
                proof {
                    lemma_peel_chain_snoc(
                        start,
                        peeled_symbols@,
                        pre,
                        peeled_symbol,
                        block_models(block@),
                    );
                }
                peeled_symbols.push(peeled_symbol);
                fuel = fuel - 1;
            },
        }
    }
    peeled_symbols
}

/// The holder of coded symbols received from elsewhere: it owns no set,
/// only the coded symbols appended to it, and hosts the positionwise
/// operations and the peeling decoder.
pub struct UnmanagedRatelessIBLT<T: Symbol> {
    pub coded_symbols: Vec<CodedSymbol<T>>,
}

/// The managed encoder: it owns a re-traversable copy of the user's set
/// and lazily materialises a prefix of the coded-symbol stream, a block
/// at a time, as consumers ask for positions.
pub struct RatelessIBLT<T: Symbol> {
    pub coded_symbols: Vec<CodedSymbol<T>>,
    pub set_symbols: Vec<T>,
}

impl<T: Symbol> RatelessIBLT<T> {
    /// The cached prefix agrees, position by position, with the stream
    /// that the owned set induces, and the set is small enough for a
    /// signed 64-bit count.
    pub open spec fn wf(self) -> bool {
        &&& self.set_symbols@.len() <= i64::MAX
        &&& forall|i: int|
            0 <= i < self.coded_symbols@.len() ==> (#[trigger] self.coded_symbols@[i])@
                == stream_model(self.set_symbols@, i as u64)
    }

    /// Constructs an encoder over a set of symbols and materialises the
    /// first block of the stream. The caller must build a fresh encoder
    /// if the set changes.
    pub fn new(set_symbols: Vec<T>) -> (r: Self)
        requires
            set_symbols@.len() <= i64::MAX,
        ensures
            r.wf(),
            r.set_symbols@ == set_symbols@,
            r.coded_symbols@.len() == BLOCK_SIZE,
    {
        let mut riblt = RatelessIBLT { coded_symbols: Vec::new(), set_symbols };
        riblt.extend_coded_symbols(0);
        riblt
    }

    /// Materialises coded symbols until position `index` exists: a no-op
    /// when it already does, and otherwise one traversal of the set that
    /// fills at least a whole further block. Positions already
    /// materialised are never changed.
    #[verifier::rlimit(100)]
    pub fn extend_coded_symbols(&mut self, index: usize)
        requires
            old(self).wf(),
            index >= old(self).coded_symbols@.len() ==> index < usize::MAX && old(
                self,
            ).coded_symbols@.len() + BLOCK_SIZE <= usize::MAX,
        ensures
            final(self).wf(),
            final(self).set_symbols@ == old(self).set_symbols@,
            final(self).coded_symbols@.len() > index,
            final(self).coded_symbols@.len() == (if index < old(self).coded_symbols@.len() {
                old(self).coded_symbols@.len() as int
            } else if index + 1 >= old(self).coded_symbols@.len() + BLOCK_SIZE {
                index + 1
            } else {
                old(self).coded_symbols@.len() + BLOCK_SIZE
            }),
            forall|i: int|
                0 <= i < old(self).coded_symbols@.len()
                    ==> (#[trigger] final(self).coded_symbols@[i])@ == old(self).coded_symbols@[i]@,
    {
        let current_len = self.coded_symbols.len();
        if index < current_len {
            return;
        }
        let extend_until = if index + 1 >= current_len + BLOCK_SIZE {
            index + 1
        } else {
            current_len + BLOCK_SIZE
        };
        let ghost set0 = self.set_symbols@;
        let ghost cs0 = self.coded_symbols@;

        while self.coded_symbols.len() < extend_until
            invariant
                current_len <= self.coded_symbols@.len() <= extend_until,
                self.set_symbols@ == set0,
                cs0.len() == current_len,
                forall|i: int| 0 <= i < current_len ==> self.coded_symbols@[i] == cs0[i],
                forall|i: int|
                    current_len <= i < self.coded_symbols@.len()
                        ==> (#[trigger] self.coded_symbols@[i])@ == new_model(
                        T::spec_length() as nat,
                    ),
            decreases extend_until - self.coded_symbols@.len(),
        {
            let fresh = CodedSymbol::new();
            proof {
                assert(fresh@ =~= new_model(T::spec_length() as nat));
            }
            self.coded_symbols.push(fresh);
        }
        proof {
            assert forall|i: int|
                0 <= i < current_len implies (#[trigger] self.coded_symbols@[i])@ == stream_model(
                set0,
                i as u64,
            ) by {
                assert(old(self).coded_symbols@[i]@ == stream_model(set0, i as u64));
                assert(self.coded_symbols@[i] == cs0[i]);
            }
        }

        let mut j: usize = 0;
        let ghost n_set = set0.len();
        while j < self.set_symbols.len()
            invariant
                j <= n_set,
                n_set == set0.len(),
                n_set <= i64::MAX,
                self.set_symbols@ == set0,
                self.coded_symbols@.len() == extend_until,
                current_len <= extend_until,
                forall|i: int|
                    0 <= i < current_len ==> (#[trigger] self.coded_symbols@[i])@ == stream_model(
                        set0,
                        i as u64,
                    ),
                forall|i: int|
                    current_len <= i < extend_until ==> (#[trigger] self.coded_symbols@[i])@
                        == stream_model(set0.take(j as int), i as u64),
            decreases n_set - j,
        {
            let item = &self.set_symbols[j];
            let ghost base = self.coded_symbols@.map_values(|c: CodedSymbol<T>| c@);
            proof {
                assert forall|i: int| current_len <= i < extend_until implies {
                    &&& (#[trigger] base[i]).sum.len() == T::spec_length()
                    &&& base[i].count < i64::MAX
                } by {
                    lemma_stream_model_bounds::<T>(set0.take(j as int), i as u64);
                }
            }
            apply_symbol_from(
                &mut self.coded_symbols,
                item,
                current_len,
                Direction::Add,
                Ghost(base),
            );
            proof {
                assert forall|i: int|
                    current_len <= i < extend_until implies (#[trigger] self.coded_symbols@[i])@
                    == stream_model(set0.take(j + 1), i as u64) by {
                    lemma_stream_model_step(set0, j as int, i as u64);
                }
            }
            j = j + 1;
        }
        proof {
            assert(set0.take(n_set as int) =~= set0);
        }
    }

    /// Returns the coded symbol at `index`, materialising it first when
    /// needed. What it returns is a function of the owned set and the
    /// index alone.
    pub fn get_coded_symbol(&mut self, index: usize) -> (r: CodedSymbol<T>)
        requires
            old(self).wf(),
            index >= old(self).coded_symbols@.len() ==> index < usize::MAX && old(
                self,
            ).coded_symbols@.len() + BLOCK_SIZE <= usize::MAX,
        ensures
            final(self).wf(),
            final(self).set_symbols@ == old(self).set_symbols@,
            final(self).coded_symbols@.len() > index,
            r@ == stream_model(old(self).set_symbols@, index as u64),
            r.sum@.len() == T::spec_length(),
    {
        if index >= self.coded_symbols.len() {
            self.extend_coded_symbols(index);
        }
        let r = self.coded_symbols[index].clone();
        proof {
            assert(r@ =~= stream_model(old(self).set_symbols@, index as u64));
            lemma_stream_model_bounds::<T>(old(self).set_symbols@, index as u64);
        }
        r
    }

    /// Joins this encoder's stream with another encoder's materialised
    /// stream, extending this one as far as the other first. The result
    /// is only meaningful when the two sets shared no element.
    pub fn combine(&mut self, other: &RatelessIBLT<T>) -> (r: UnmanagedRatelessIBLT<T>)
        requires
            old(self).wf(),
            other.wf(),
            old(self).set_symbols@.len() + other.set_symbols@.len() <= i64::MAX,
            other.coded_symbols@.len() >= old(self).coded_symbols@.len() ==> other.coded_symbols@.len()
                < usize::MAX && old(self).coded_symbols@.len() + BLOCK_SIZE <= usize::MAX,
        ensures
            final(self).wf(),
            final(self).set_symbols@ == old(self).set_symbols@,
            r.coded_symbols@.len() == other.coded_symbols@.len(),
            forall|i: int|
                0 <= i < r.coded_symbols@.len() ==> (#[trigger] r.coded_symbols@[i])@
                    == combine_model(
                    stream_model(old(self).set_symbols@, i as u64),
                    other.coded_symbols@[i]@,
                ),
            r.wf(),
    {
        self.extend_coded_symbols(other.coded_symbols.len());
        proof {
            assert forall|i: int|
                0 <= i < self.coded_symbols@.len() && i < other.coded_symbols@.len() implies {
                &&& (#[trigger] self.coded_symbols@[i]).sum@.len() == T::spec_length()
                &&& other.coded_symbols@[i].sum@.len() == T::spec_length()
                &&& i64::MIN <= self.coded_symbols@[i].count + other.coded_symbols@[i].count
                    <= i64::MAX
            } by {
                lemma_stream_model_bounds::<T>(self.set_symbols@, i as u64);
                lemma_stream_model_bounds::<T>(other.set_symbols@, i as u64);
            }
        }
        combine(&self.coded_symbols, &other.coded_symbols)
    }

    /// Subtracts a remote holder's stream from this encoder's, extending
    /// this one as far as the holder first; the result encodes the
    /// symmetric difference of the two sets.
    pub fn collapse(&mut self, other: &UnmanagedRatelessIBLT<T>) -> (r: UnmanagedRatelessIBLT<T>)
        requires
            old(self).wf(),
            other.wf(),
            forall|i: int|
                0 <= i < other.coded_symbols@.len() ==> i64::MIN <= stream_model(
                    old(self).set_symbols@,
                    i as u64,
                ).count - (#[trigger] other.coded_symbols@[i]).count <= i64::MAX,
            other.coded_symbols@.len() >= old(self).coded_symbols@.len() ==> other.coded_symbols@.len()
                < usize::MAX && old(self).coded_symbols@.len() + BLOCK_SIZE <= usize::MAX,
        ensures
            final(self).wf(),
            final(self).set_symbols@ == old(self).set_symbols@,
            r.coded_symbols@.len() == other.coded_symbols@.len(),
            forall|i: int|
                0 <= i < r.coded_symbols@.len() ==> (#[trigger] r.coded_symbols@[i])@
                    == collapse_model(
                    stream_model(old(self).set_symbols@, i as u64),
                    other.coded_symbols@[i]@,
                ),
            r.wf(),
    {
        self.extend_coded_symbols(other.coded_symbols.len());
        proof {
            assert forall|i: int|
                0 <= i < self.coded_symbols@.len() && i < other.coded_symbols@.len() implies {
                &&& (#[trigger] self.coded_symbols@[i]).sum@.len() == T::spec_length()
                &&& other.coded_symbols@[i].sum@.len() == T::spec_length()
                &&& i64::MIN <= self.coded_symbols@[i].count - other.coded_symbols@[i].count
                    <= i64::MAX
            } by {
                lemma_stream_model_bounds::<T>(self.set_symbols@, i as u64);
            }
        }
        collapse(&self.coded_symbols, &other.coded_symbols)
    }

    /// If possible, peels a single residue out of the cached stream.
    /// Peeling mutates the cache, which afterwards no longer matches the
    /// owned set.
    pub fn peel_one_symbol(&mut self) -> (r: PeelableResult<T>)
        requires
            blocks_wf(old(self).coded_symbols@),
        ensures
            blocks_wf(final(self).coded_symbols@),
            final(self).set_symbols@ == old(self).set_symbols@,
            final(self).coded_symbols@.len() == old(self).coded_symbols@.len(),
            r is NotPeelable ==> block_models(final(self).coded_symbols@) == block_models(
                old(self).coded_symbols@,
            ) && !can_peel::<T>(block_models(old(self).coded_symbols@)),
            !(r is NotPeelable) ==> peel_step::<T>(
                block_models(old(self).coded_symbols@),
                r,
                block_models(final(self).coded_symbols@),
            ),
    {
        peel_one_symbol(&mut self.coded_symbols)
    }

    /// Peels residues out of the cached stream until nothing more comes
    /// out. Expected on a collapsed holder rather than here, where the
    /// set itself is at hand; peeling mutates the cache, which
    /// afterwards no longer matches the owned set.
    pub fn peel_all_symbols(&mut self) -> (r: Vec<PeelableResult<T>>)
        requires
            blocks_wf(old(self).coded_symbols@),
        ensures
            blocks_wf(final(self).coded_symbols@),
            final(self).set_symbols@ == old(self).set_symbols@,
            final(self).coded_symbols@.len() == old(self).coded_symbols@.len(),
            peel_chain::<T>(
                block_models(old(self).coded_symbols@),
                r@,
                block_models(final(self).coded_symbols@),
            ),
            !can_peel::<T>(block_models(final(self).coded_symbols@)) || r@.len() >= old(
                self,
            ).coded_symbols@.len(),
    {
        peel_all_from_block(&mut self.coded_symbols)
    }

    /// Whether every materialised coded symbol is empty, materialising
    /// the first block first so that the answer reflects the set even
    /// before any position was asked for.
    pub fn is_empty(&mut self) -> (r: bool)
        requires
            old(self).wf(),
        ensures
            final(self).wf(),
            final(self).set_symbols@ == old(self).set_symbols@,
            final(self).coded_symbols@.len() >= 1,
            r == (forall|i: int|
                0 <= i < final(self).coded_symbols@.len() ==> empty_model(
                    (#[trigger] final(self).coded_symbols@[i])@,
                )),
    {
        self.extend_coded_symbols(0);
        is_empty(&self.coded_symbols)
    }
}

/// A consistent encoder's cached coded symbols all carry byte sums of
/// the fixed encoded length.
pub proof fn lemma_wf_blocks_wf<T: Symbol>(r: RatelessIBLT<T>)
    requires
        r.wf(),
    ensures
        blocks_wf(r.coded_symbols@),
{
    assert forall|i: int|
        0 <= i < r.coded_symbols@.len() implies (#[trigger] r.coded_symbols@[i]).sum@.len()
        == T::spec_length() by {
        lemma_stream_model_bounds::<T>(r.set_symbols@, i as u64);
    }
}

/// What a stream position holds is a function of the set alone, never of
/// the history of extensions that materialised it: two encoders over the
/// same set agree at every position that both have materialised.
pub proof fn lemma_position_history_independent<T: Symbol>(
    a: RatelessIBLT<T>,
    b: RatelessIBLT<T>,
    i: int,
)
    requires
        a.wf(),
        b.wf(),
        a.set_symbols@ == b.set_symbols@,
        0 <= i < a.coded_symbols@.len(),
        i < b.coded_symbols@.len(),
    ensures
        a.coded_symbols@[i]@ == b.coded_symbols@[i]@,
{
}

/// Positionwise combine of two blocks of coded symbols produced from two
/// distinct sets; the result has the length of the shorter block. The
/// result is only meaningful when the originating sets shared no element.
pub fn combine<T: Symbol>(block_a: &Vec<CodedSymbol<T>>, block_b: &Vec<CodedSymbol<T>>) -> (r:
    UnmanagedRatelessIBLT<T>)
    requires
        forall|i: int|
            0 <= i < block_a@.len() && i < block_b@.len() ==> {
                &&& (#[trigger] block_a@[i]).sum@.len() == T::spec_length()
                &&& block_b@[i].sum@.len() == T::spec_length()
                &&& i64::MIN <= block_a@[i].count + block_b@[i].count <= i64::MAX
            },
    ensures
        r.coded_symbols@.len() == (if block_a@.len() <= block_b@.len() {
            block_a@.len()
        } else {
            block_b@.len()
        }),
        forall|i: int|
            0 <= i < r.coded_symbols@.len() ==> (#[trigger] r.coded_symbols@[i])@ == combine_model(
                block_a@[i]@,
                block_b@[i]@,
            ),
        r.wf(),
{
    let n = if block_a.len() <= block_b.len() {
        block_a.len()
    } else {
        block_b.len()
    };
    let mut combined_block: Vec<CodedSymbol<T>> = Vec::new();
    let mut i: usize = 0;
    while i < n
        invariant
            i <= n,
            n == (if block_a@.len() <= block_b@.len() {
                block_a@.len()
            } else {
                block_b@.len()
            }),
            combined_block@.len() == i,
            forall|j: int|
                0 <= j < block_a@.len() && j < block_b@.len() ==> {
                    &&& (#[trigger] block_a@[j]).sum@.len() == T::spec_length()
                    &&& block_b@[j].sum@.len() == T::spec_length()
                    &&& i64::MIN <= block_a@[j].count + block_b@[j].count <= i64::MAX
                },
            forall|j: int|
                0 <= j < i ==> (#[trigger] combined_block@[j])@ == combine_model(
                    block_a@[j]@,
                    block_b@[j]@,
                ),
        decreases n - i,
    {
        let c = block_a[i].combine(&block_b[i]);
        combined_block.push(c);
        i = i + 1;
    }
    UnmanagedRatelessIBLT { coded_symbols: combined_block }
}

/// Positionwise collapse of a remote block out of a local block; the
/// result has the length of the shorter block and encodes the symmetric
/// difference of the two originating sets.
pub fn collapse<T: Symbol>(
    block_local: &Vec<CodedSymbol<T>>,
    block_remote: &Vec<CodedSymbol<T>>,
) -> (r: UnmanagedRatelessIBLT<T>)
    requires
        forall|i: int|
            0 <= i < block_local@.len() && i < block_remote@.len() ==> {
                &&& (#[trigger] block_local@[i]).sum@.len() == T::spec_length()
                &&& block_remote@[i].sum@.len() == T::spec_length()
                &&& i64::MIN <= block_local@[i].count - block_remote@[i].count <= i64::MAX
            },
    ensures
        r.coded_symbols@.len() == (if block_local@.len() <= block_remote@.len() {
            block_local@.len()
        } else {
            block_remote@.len()
        }),
        forall|i: int|
            0 <= i < r.coded_symbols@.len() ==> (#[trigger] r.coded_symbols@[i])@ == collapse_model(
                block_local@[i]@,
                block_remote@[i]@,
            ),
        r.wf(),
{
    let n = if block_local.len() <= block_remote.len() {
        block_local.len()
    } else {
        block_remote.len()
    };
    let mut combined_block: Vec<CodedSymbol<T>> = Vec::new();
    let mut i: usize = 0;
    while i < n
        invariant
            i <= n,
            n == (if block_local@.len() <= block_remote@.len() {
                block_local@.len()
            } else {
                block_remote@.len()
            }),
            combined_block@.len() == i,
            forall|j: int|
                0 <= j < block_local@.len() && j < block_remote@.len() ==> {
                    &&& (#[trigger] block_local@[j]).sum@.len() == T::spec_length()
                    &&& block_remote@[j].sum@.len() == T::spec_length()
                    &&& i64::MIN <= block_local@[j].count - block_remote@[j].count <= i64::MAX
                },
            forall|j: int|
                0 <= j < i ==> (#[trigger] combined_block@[j])@ == collapse_model(
                    block_local@[j]@,
                    block_remote@[j]@,
                ),
        decreases n - i,
    {
        let c = block_local[i].collapse(&block_remote[i]);
        combined_block.push(c);
        i = i + 1;
    }
    UnmanagedRatelessIBLT { coded_symbols: combined_block }
}

/// Whether every coded symbol of the block is empty. True of the empty
/// block.
pub fn is_empty<T: Symbol>(block: &Vec<CodedSymbol<T>>) -> (r: bool)
    ensures
        r == (forall|i: int| 0 <= i < block@.len() ==> empty_model((#[trigger] block@[i])@)),
{
    let mut i: usize = 0;
    while i < block.len()
        invariant
            i <= block@.len(),
            forall|j: int| 0 <= j < i ==> empty_model((#[trigger] block@[j])@),
        decreases block@.len() - i,
    {
        if !block[i].is_empty() {
            return false;
        }
        i = i + 1;
    }
    true
}

impl<T: Symbol> UnmanagedRatelessIBLT<T> {
    /// Every held coded symbol has the fixed encoded length.
    pub open spec fn wf(self) -> bool {
        blocks_wf(self.coded_symbols@)
    }

    /// The empty holder.
    pub fn new() -> (r: Self)
        ensures
            r.coded_symbols@.len() == 0,
            r.wf(),
    {
        UnmanagedRatelessIBLT { coded_symbols: Vec::new() }
    }

    /// Positionwise combine with another holder, truncated to the
    /// shorter of the two.
    pub fn combine(&self, other: &UnmanagedRatelessIBLT<T>) -> (r: UnmanagedRatelessIBLT<T>)
        requires
            self.wf(),
            other.wf(),
            forall|i: int|
                0 <= i < self.coded_symbols@.len() && i < other.coded_symbols@.len()
                    ==> i64::MIN <= (#[trigger] self.coded_symbols@[i]).count
                    + other.coded_symbols@[i].count <= i64::MAX,
        ensures
            r.coded_symbols@.len() == (if self.coded_symbols@.len() <= other.coded_symbols@.len() {
                self.coded_symbols@.len()
            } else {
                other.coded_symbols@.len()
            }),
            forall|i: int|
                0 <= i < r.coded_symbols@.len() ==> (#[trigger] r.coded_symbols@[i])@
                    == combine_model(self.coded_symbols@[i]@, other.coded_symbols@[i]@),
            r.wf(),
    {
        combine(&self.coded_symbols, &other.coded_symbols)
    }

    /// Positionwise collapse of a remote holder out of this one,
    /// truncated to the shorter of the two.
    pub fn collapse(&self, other: &UnmanagedRatelessIBLT<T>) -> (r: UnmanagedRatelessIBLT<T>)
        requires
            self.wf(),
            other.wf(),
            forall|i: int|
                0 <= i < self.coded_symbols@.len() && i < other.coded_symbols@.len()
                    ==> i64::MIN <= (#[trigger] self.coded_symbols@[i]).count
                    - other.coded_symbols@[i].count <= i64::MAX,
        ensures
            r.coded_symbols@.len() == (if self.coded_symbols@.len() <= other.coded_symbols@.len() {
                self.coded_symbols@.len()
            } else {
                other.coded_symbols@.len()
            }),
            forall|i: int|
                0 <= i < r.coded_symbols@.len() ==> (#[trigger] r.coded_symbols@[i])@
                    == collapse_model(self.coded_symbols@[i]@, other.coded_symbols@[i]@),
            r.wf(),
    {
        collapse(&self.coded_symbols, &other.coded_symbols)
    }

    /// If possible, peels a single residue out of the held block.
    pub fn peel_one_symbol(&mut self) -> (r: PeelableResult<T>)
        requires
            old(self).wf(),
        ensures
            final(self).wf(),
            final(self).coded_symbols@.len() == old(self).coded_symbols@.len(),
            r is NotPeelable ==> block_models(final(self).coded_symbols@) == block_models(
                old(self).coded_symbols@,
            ) && !can_peel::<T>(block_models(old(self).coded_symbols@)),
            !(r is NotPeelable) ==> peel_step::<T>(
                block_models(old(self).coded_symbols@),
                r,
                block_models(final(self).coded_symbols@),
            ),
    {
        peel_one_symbol(&mut self.coded_symbols)
    }

    /// Peels residues until nothing more comes out, collecting them in
    /// peel order; call [`Self::is_empty`] afterwards to see whether the
    /// whole block was drained. A block that still holds more residues
    /// than it has positions is left for a longer stream to finish.
    pub fn peel_all_symbols(&mut self) -> (r: Vec<PeelableResult<T>>)
        requires
            old(self).wf(),
        ensures
            final(self).wf(),
            final(self).coded_symbols@.len() == old(self).coded_symbols@.len(),
            peel_chain::<T>(
                block_models(old(self).coded_symbols@),
                r@,
                block_models(final(self).coded_symbols@),
            ),
            !can_peel::<T>(block_models(final(self).coded_symbols@)) || r@.len() >= old(
                self,
            ).coded_symbols@.len(),
    {
        peel_all_from_block(&mut self.coded_symbols)
    }

    /// Appends one received coded symbol to the held block.
    pub fn add_coded_symbol(&mut self, other: &CodedSymbol<T>)
        requires
            old(self).wf(),
            other.sum@.len() == T::spec_length(),
        ensures
            final(self).wf(),
            final(self).coded_symbols@.len() == old(self).coded_symbols@.len() + 1,
            forall|i: int|
                0 <= i < old(self).coded_symbols@.len()
                    ==> (#[trigger] final(self).coded_symbols@[i])@ == old(self).coded_symbols@[i]@,
            final(self).coded_symbols@.last()@ == other@,
    {
        self.coded_symbols.push(other.clone());
    }

    /// Whether every held coded symbol is empty. A holder with no coded
    /// symbols counts as empty.
    pub fn is_empty(&self) -> (r: bool)
        ensures
            r == (forall|i: int|
                0 <= i < self.coded_symbols@.len() ==> empty_model(
                    (#[trigger] self.coded_symbols@[i])@,
                )),
    {
        is_empty(&self.coded_symbols)
    }
}

} // verus!

