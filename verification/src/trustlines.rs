//! The decisions of the trustline cleaner: which credit assets a
//! destination account must trust before it can receive a sweep, which
//! balances a source account pays out, which trustlines it closes and in
//! what batches, and when the pass loop over one account stops.

use vstd::prelude::*;

use crate::config::{all_digits, parse_unsigned};
use crate::text::{digits_value, is_ascii_digit, str_eq, trim_chars, trim_text, chars_of};

verus! {

/// Most operations in one transaction.
pub const MAX_OPS_PER_TX: usize = 50;

/// Most sweep-and-close passes over one account.
pub const MAX_CLEANER_PASSES: u32 = 20;

/// A credit asset: its code and its issuer.
#[derive(Debug)]
pub struct CreditAsset {
    pub code: String,
    pub issuer: String,
}

/// What an account balance is held in.
#[derive(Debug)]
pub enum BalanceKind {
    Native,
    Credit(CreditAsset),
    PoolShare([u8; 32]),
}

/// One balance of an account, in stroops.
#[derive(Debug)]
pub struct BalanceEntry {
    pub kind: BalanceKind,
    pub balance_stroops: i64,
}

/// A payment of `amount` stroops of `asset` to the destination.
#[derive(Debug)]
pub struct Payment {
    pub asset: CreditAsset,
    pub amount: i64,
}

/// Two credit assets with the same code and issuer.
pub open spec fn same_asset(a: CreditAsset, b: CreditAsset) -> bool {
    a.code@ == b.code@ && a.issuer@ == b.issuer@
}

/// The credit asset of a credit balance.
pub open spec fn asset_of(e: BalanceEntry) -> CreditAsset {
    match e.kind {
        BalanceKind::Credit(a) => a,
        _ => vstd::pervasive::arbitrary(),
    }
}

/// A balance held through a trustline (anything but the native one).
pub open spec fn is_trustline(e: BalanceEntry) -> bool {
    !(e.kind is Native)
}

/// A credit balance with something in it, which a sweep pays out.
pub open spec fn is_sweepable(e: BalanceEntry) -> bool {
    e.kind is Credit && e.balance_stroops > 0
}

/// A trustline with nothing in it, which can be closed.
pub open spec fn is_closable(e: BalanceEntry) -> bool {
    is_trustline(e) && e.balance_stroops <= 0
}

/// A trustline that still holds a balance.
pub open spec fn holds_balance(e: BalanceEntry) -> bool {
    is_trustline(e) && e.balance_stroops > 0
}

/// How many of `entries` satisfy `p`.
pub open spec fn count_where(entries: Seq<BalanceEntry>, p: spec_fn(BalanceEntry) -> bool) -> nat
    decreases entries.len(),
{
    if entries.len() == 0 {
        0
    } else {
        count_where(entries.drop_last(), p) + if p(entries.last()) {
            1nat
        } else {
            0nat
        }
    }
}

/// A copy of a credit asset.
fn copy_asset(a: &CreditAsset) -> (r: CreditAsset)
    ensures
        same_asset(r, *a),
{
    CreditAsset { code: a.code.clone(), issuer: a.issuer.clone() }
}

/// How many trustlines `entries` holds, or, with `positive_only`, how many
/// of them hold a balance.
fn count_trustlines_where(entries: &[BalanceEntry], positive_only: bool) -> (r: usize)
    ensures
        !positive_only ==> r == count_where(entries@, |e: BalanceEntry| is_trustline(e)),
        positive_only ==> r == count_where(entries@, |e: BalanceEntry| holds_balance(e)),
{
    let ghost p = if positive_only {
        |e: BalanceEntry| holds_balance(e)
    } else {
        |e: BalanceEntry| is_trustline(e)
    };
    let mut n: usize = 0;
    let mut i: usize = 0;
    while i < entries.len()
        invariant
            i <= entries@.len(),
            n <= i,
            n == count_where(entries@.take(i as int), p),
            p == (if positive_only {
                |e: BalanceEntry| holds_balance(e)
            } else {
                |e: BalanceEntry| is_trustline(e)
            }),
        decreases entries.len() - i,
    {
        proof {
            assert(entries@.take(i + 1).drop_last() =~= entries@.take(i as int));
        }
        let e = &entries[i];
        let counted = match &e.kind {
            BalanceKind::Native => false,
            _ => !positive_only || e.balance_stroops > 0,
        };
        if counted {
            n = n + 1;
        }
        i = i + 1;
    }
    proof {
        assert(entries@.take(i as int) =~= entries@);
    }
    n
}

/// The number of trustlines among `entries`.
pub fn trustline_count(entries: &[BalanceEntry]) -> (r: usize)
    ensures
        r == count_where(entries@, |e: BalanceEntry| is_trustline(e)),
{
    count_trustlines_where(entries, false)
}

/// Some balance among the first `n` of `sources` is a positive one in `a`.
pub open spec fn wanted_within(sources: Seq<BalanceEntry>, n: int, a: CreditAsset) -> bool {
    exists|i: int| 0 <= i < n && #[trigger] is_sweepable(sources[i]) && same_asset(asset_of(sources[i]), a)
}

/// No two assets of `list` are the same.
pub open spec fn assets_distinct(list: Seq<CreditAsset>) -> bool {
    forall|a: int, b: int| 0 <= a < b < list.len() ==> !same_asset(#[trigger] list[a], #[trigger] list[b])
}

/// In `sources`, a positive balance in `x` comes before any positive
/// balance in `y`.
pub open spec fn seen_before(sources: Seq<BalanceEntry>, x: CreditAsset, y: CreditAsset) -> bool {
    exists|i: int|
        0 <= i < sources.len() && #[trigger] is_sweepable(sources[i]) && same_asset(asset_of(sources[i]), x)
            && forall|j: int|
            0 <= j <= i ==> !(#[trigger] is_sweepable(sources[j]) && same_asset(asset_of(sources[j]), y))
}

/// An asset first met at position `n` (not held, not yet listed) comes
/// after every asset listed from the first `n` balances.
proof fn lemma_new_asset_follows(
    sources: Seq<BalanceEntry>,
    held: Seq<CreditAsset>,
    before: Seq<CreditAsset>,
    n: int,
    x: CreditAsset,
)
    requires
        0 <= n <= sources.len(),
        forall|k: int| 0 <= k < before.len() ==> wanted_within(sources, n, #[trigger] before[k]),
        forall|j: int|
            0 <= j < n && #[trigger] is_sweepable(sources[j]) && !contains_asset_spec(held, asset_of(sources[j]))
                ==> contains_asset_spec(before, asset_of(sources[j])),
        !contains_asset_spec(held, x),
        !contains_asset_spec(before, x),
    ensures
        forall|k: int| 0 <= k < before.len() ==> seen_before(sources, #[trigger] before[k], x),
{
    assert forall|k: int| 0 <= k < before.len() implies seen_before(sources, #[trigger] before[k], x) by {
        assert(wanted_within(sources, n, before[k]));
        let w = choose|w: int|
            0 <= w < n && #[trigger] is_sweepable(sources[w]) && same_asset(asset_of(sources[w]), before[k]);
        assert forall|j: int| 0 <= j <= w implies !(#[trigger] is_sweepable(sources[j]) && same_asset(
            asset_of(sources[j]),
            x,
        )) by {
            if is_sweepable(sources[j]) && same_asset(asset_of(sources[j]), x) {
                if contains_asset_spec(held, asset_of(sources[j])) {
                    let h = choose|h: int| 0 <= h < held.len() && #[trigger] same_asset(held[h], asset_of(sources[j]));
                    assert(same_asset(held[h], x));
                }
                assert(contains_asset_spec(before, asset_of(sources[j])));
                let h = choose|h: int| 0 <= h < before.len() && #[trigger] same_asset(before[h], asset_of(sources[j]));
                assert(same_asset(before[h], x));
            }
        }
    }
}

/// The credit assets that the destination must trust before a sweep: each
/// asset held with a positive balance in some source account (`sources`
/// lists the balances of all of them) and not among `held`, once each, in
/// the order in which the balances first show them.
pub fn missing_trustlines(sources: &[BalanceEntry], held: &[CreditAsset]) -> (r: Vec<CreditAsset>)
    ensures
        forall|k: int|
            0 <= k < r@.len() ==> wanted_within(sources@, sources@.len() as int, #[trigger] r@[k])
                && !contains_asset_spec(held@, r@[k]),
        forall|i: int|
            0 <= i < sources@.len() && #[trigger] is_sweepable(sources@[i]) && !contains_asset_spec(
                held@,
                asset_of(sources@[i]),
            ) ==> contains_asset_spec(r@, asset_of(sources@[i])),
        assets_distinct(r@),
        forall|a: int, b: int| 0 <= a < b < r@.len() ==> seen_before(sources@, #[trigger] r@[a], #[trigger] r@[b]),
{
    let mut out: Vec<CreditAsset> = Vec::new();
    let mut i: usize = 0;
    while i < sources.len()
        invariant
            i <= sources@.len(),
            forall|k: int|
                0 <= k < out@.len() ==> wanted_within(sources@, i as int, #[trigger] out@[k])
                    && !contains_asset_spec(held@, out@[k]),
            forall|j: int|
                0 <= j < i && #[trigger] is_sweepable(sources@[j]) && !contains_asset_spec(
                    held@,
                    asset_of(sources@[j]),
                ) ==> contains_asset_spec(out@, asset_of(sources@[j])),
            assets_distinct(out@),
            forall|a: int, b: int|
                0 <= a < b < out@.len() ==> seen_before(sources@, #[trigger] out@[a], #[trigger] out@[b]),
        decreases sources.len() - i,
    {
        let e = &sources[i];
        let ghost before = out@;
        if let BalanceKind::Credit(asset) = &e.kind {
            if e.balance_stroops > 0 && !contains_asset(held, asset) && !contains_asset(out.as_slice(), asset) {
                proof {
                    lemma_new_asset_follows(sources@, held@, before, i as int, *asset);
                }
                out.push(copy_asset(asset));
                proof {
                    assert forall|a: int, b: int| 0 <= a < b < out@.len() implies seen_before(
                        sources@,
                        #[trigger] out@[a],
                        #[trigger] out@[b],
                    ) by {
                        assert(out@[a] == before[a]);
                        if b < before.len() {
                            assert(out@[b] == before[b]);
                        } else {
                            assert(seen_before(sources@, before[a], *asset));
                            let w = choose|w: int|
                                0 <= w < sources@.len() && #[trigger] is_sweepable(sources@[w]) && same_asset(
                                    asset_of(sources@[w]),
                                    before[a],
                                ) && forall|j: int|
                                    0 <= j <= w ==> !(#[trigger] is_sweepable(sources@[j]) && same_asset(
                                        asset_of(sources@[j]),
                                        *asset,
                                    ));
                            assert forall|j: int| 0 <= j <= w implies !(#[trigger] is_sweepable(sources@[j]) && same_asset(
                                asset_of(sources@[j]),
                                out@[b],
                            )) by {
                                if is_sweepable(sources@[j]) && same_asset(asset_of(sources@[j]), out@[b]) {
                                    assert(same_asset(asset_of(sources@[j]), *asset));
                                }
                            }
                        }
                    }
                    assert(is_sweepable(sources@[i as int]));
                    assert(same_asset(out@[before.len() as int], asset_of(sources@[i as int])));
                    assert forall|k: int| 0 <= k < out@.len() implies wanted_within(
                        sources@,
                        i + 1,
                        #[trigger] out@[k],
                    ) && !contains_asset_spec(held@, out@[k]) by {
                        if k < before.len() {
                            assert(out@[k] == before[k]);
                            assert(wanted_within(sources@, i as int, before[k]));
                        } else {
                            assert(same_asset(asset_of(sources@[i as int]), out@[k]));
                            if contains_asset_spec(held@, out@[k]) {
                                let h = choose|h: int| 0 <= h < held@.len() && #[trigger] same_asset(held@[h], out@[k]);
                                assert(same_asset(held@[h], *asset));
                            }
                        }
                    }
                    assert forall|j: int|
                        0 <= j < i + 1 && #[trigger] is_sweepable(sources@[j]) && !contains_asset_spec(
                            held@,
                            asset_of(sources@[j]),
                        ) implies contains_asset_spec(out@, asset_of(sources@[j])) by {
                        if j < i {
                            assert(contains_asset_spec(before, asset_of(sources@[j])));
                            let h = choose|h: int|
                                0 <= h < before.len() && #[trigger] same_asset(before[h], asset_of(sources@[j]));
                            assert(out@[h] == before[h]);
                        } else {
                            assert(same_asset(out@[before.len() as int], asset_of(sources@[j])));
                        }
                    }
                    assert forall|a: int, b: int| 0 <= a < b < out@.len() implies !same_asset(
                        #[trigger] out@[a],
                        #[trigger] out@[b],
                    ) by {
                        assert(out@[a] == before[a]);
                        if b < before.len() {
                            assert(out@[b] == before[b]);
                        } else if same_asset(out@[a], out@[b]) {
                            assert(same_asset(before[a], *asset));
                        }
                    }
                }
            } else {
                proof {
                    assert forall|k: int| 0 <= k < out@.len() implies wanted_within(
                        sources@,
                        i + 1,
                        #[trigger] out@[k],
                    ) && !contains_asset_spec(held@, out@[k]) by {
                        assert(wanted_within(sources@, i as int, out@[k]));
                    }
                }
            }
        } else {
            proof {
                assert forall|k: int| 0 <= k < out@.len() implies wanted_within(
                    sources@,
                    i + 1,
                    #[trigger] out@[k],
                ) && !contains_asset_spec(held@, out@[k]) by {
                    assert(wanted_within(sources@, i as int, out@[k]));
                }
            }
        }
        i = i + 1;
    }
    out
}

/// Some asset of `list` is `a`.
pub open spec fn contains_asset_spec(list: Seq<CreditAsset>, a: CreditAsset) -> bool {
    exists|h: int| 0 <= h < list.len() && #[trigger] same_asset(list[h], a)
}

/// Whether some asset of `list` is `a`.
fn contains_asset(list: &[CreditAsset], a: &CreditAsset) -> (r: bool)
    ensures
        r == contains_asset_spec(list@, *a),
{
    let mut i: usize = 0;
    while i < list.len()
        invariant
            i <= list@.len(),
            forall|h: int| 0 <= h < i ==> !same_asset(#[trigger] list@[h], *a),
        decreases list.len() - i,
    {
        if str_eq(list[i].code.as_str(), a.code.as_str()) && str_eq(list[i].issuer.as_str(), a.issuer.as_str()) {
            assert(same_asset(list@[i as int], *a));
            return true;
        }
        i = i + 1;
    }
    false
}


/// The payment that sweeps a balance: its asset and its whole amount.
pub open spec fn pays(p: Payment, e: BalanceEntry) -> bool {
    same_asset(p.asset, asset_of(e)) && p.amount == e.balance_stroops
}

/// The payments of a sweep, in the order of the balances: one for each
/// credit balance with something in it, when sweeping; none otherwise.
pub fn sweep_payments(entries: &[BalanceEntry], sweep: bool) -> (r: Vec<Payment>)
    ensures
        !sweep ==> r@.len() == 0,
        sweep ==> r@.len() == entries@.filter(|e: BalanceEntry| is_sweepable(e)).len(),
        sweep ==> forall|k: int|
            0 <= k < r@.len() ==> pays(#[trigger] r@[k], entries@.filter(|e: BalanceEntry| is_sweepable(e))[k]),
{
    let mut out: Vec<Payment> = Vec::new();
    if !sweep {
        return out;
    }
    let ghost pred = |e: BalanceEntry| is_sweepable(e);
    let mut i: usize = 0;
    while i < entries.len()
        invariant
            i <= entries@.len(),
            pred == (|e: BalanceEntry| is_sweepable(e)),
            out@.len() == entries@.take(i as int).filter(pred).len(),
            forall|k: int| 0 <= k < out@.len() ==> pays(#[trigger] out@[k], entries@.take(i as int).filter(pred)[k]),
        decreases entries.len() - i,
    {
        proof {
            reveal(Seq::filter);
            assert(entries@.take(i + 1).drop_last() =~= entries@.take(i as int));
        }
        let e = &entries[i];
        if let BalanceKind::Credit(asset) = &e.kind {
            if e.balance_stroops > 0 {
                out.push(Payment { asset: copy_asset(asset), amount: e.balance_stroops });
            }
        }
        i = i + 1;
    }
    proof {
        assert(entries@.take(i as int) =~= entries@);
    }
    out
}

/// The positions of the closable trustlines among the first `n` balances,
/// in order.
pub open spec fn closable_positions(entries: Seq<BalanceEntry>, n: nat) -> Seq<usize>
    decreases n,
{
    if n == 0 {
        Seq::empty()
    } else {
        let before = closable_positions(entries, (n - 1) as nat);
        if is_closable(entries[n - 1]) {
            before.push((n - 1) as usize)
        } else {
            before
        }
    }
}

/// The positions of the trustlines to close: those with nothing in them,
/// credit and pool-share alike, in order.
pub fn close_targets(entries: &[BalanceEntry]) -> (r: Vec<usize>)
    ensures
        r@ == closable_positions(entries@, entries@.len()),
{
    let mut out: Vec<usize> = Vec::new();
    let mut i: usize = 0;
    while i < entries.len()
        invariant
            i <= entries@.len(),
            out@ == closable_positions(entries@, i as nat),
        decreases entries.len() - i,
    {
        let e = &entries[i];
        let closable = match &e.kind {
            BalanceKind::Native => false,
            _ => e.balance_stroops <= 0,
        };
        if closable {
            out.push(i);
        }
        i = i + 1;
    }
    out
}

/// The batch ranges of `count` operations, `max` at most to a transaction:
/// consecutive, in order, each full but the last.
pub fn op_batches(count: usize, max: usize) -> (r: Vec<(usize, usize)>)
    requires
        max > 0,
    ensures
        r@.len() == (count + max - 1) / (max as int),
        forall|k: int|
            0 <= k < r@.len() ==> (#[trigger] r@[k]).0 == k * max && r@[k].1 == (if (k + 1) * max < count {
                (k + 1) * max
            } else {
                count as int
            }),
{
    let mut out: Vec<(usize, usize)> = Vec::new();
    let mut start: usize = 0;
    assert(out@.len() * max == 0);
    while start < count
        invariant
            max > 0,
            start <= count,
            out@.len() > 0 ==> (out@.len() - 1) * max < count,
            start == (if out@.len() * max < count {
                out@.len() * max
            } else {
                count as int
            }),
            forall|k: int|
                0 <= k < out@.len() ==> (#[trigger] out@[k]).0 == k * max && out@[k].1 == (if (k + 1) * max < count {
                    (k + 1) * max
                } else {
                    count as int
                }),
        decreases count - start,
    {
        let end: usize = if count - start > max {
            start + max
        } else {
            count
        };
        proof {
            vstd::arithmetic::mul::lemma_mul_is_distributive_add_other_way(max as int, out@.len() as int, 1);
        }
        out.push((start, end));
        start = end;
    }
    proof {
        let n = out@.len() as int;
        let m = max as int;
        assert((count + m - 1) / m == n) by {
            if n == 0 {
                assert(count == 0);
                vstd::arithmetic::div_mod::lemma_basic_div(m - 1, m);
            } else {
                assert(out@[n - 1].0 == (n - 1) * m);
                assert((n - 1) * m < count <= n * m) by {
                    vstd::arithmetic::mul::lemma_mul_is_distributive_add_other_way(m, n - 1, 1);
                }
                assert(n * m == (n - 1) * m + m) by {
                    vstd::arithmetic::mul::lemma_mul_is_distributive_add_other_way(m, n - 1, 1);
                }
                assert(0 <= count + m - 1 - n * m < m);
                vstd::arithmetic::div_mod::lemma_fundamental_div_mod_converse_div(count + m - 1, m, n, count + m - 1 - n * m);
            }
        }
    }
    out
}


/// Where a pass over one account stands: about to sweep (on the balances
/// just read), or about to close (on the balances read after the sweep).
#[derive(Debug, Clone, Copy, PartialEq, Eq, Structural)]
pub enum PassStage {
    Sweep,
    Close,
}

/// The cleaner's progress over one account: the pass (from 1) and its stage.
#[derive(Debug, Clone, Copy, PartialEq, Eq, Structural)]
pub struct CleanerState {
    pub pass: u32,
    pub stage: PassStage,
}

/// Why the cleaner is done with an account.
#[derive(Debug, Clone, Copy, PartialEq, Eq, Structural)]
pub enum CleanerFinish {
    /// No trustline is left.
    Clean,
    /// Nothing can be closed; this many trustlines still hold a balance.
    KeptWithBalance(usize),
    /// Nothing can be closed and nothing holds a balance.
    NothingClosable,
    /// Every pass was used.
    PassesUsedUp,
}

/// What the cleaner asks for next.
#[derive(Debug)]
pub enum CleanerAction {
    /// Make these payments to the destination, then read the balances again.
    Pay(Vec<Payment>),
    /// Close the trustlines at these positions of the balances, in
    /// transactions of these ranges of them, then read the balances again.
    Close { targets: Vec<usize>, batches: Vec<(usize, usize)> },
    /// Stop.
    Finish(CleanerFinish),
}

/// How far the cleaner is from using up its passes: two steps per pass
/// left, one more before the sweep of the current pass.
pub open spec fn cleaner_measure(s: CleanerState) -> int {
    2 * (MAX_CLEANER_PASSES + 1 - s.pass) + if s.stage == PassStage::Sweep {
        1int
    } else {
        0int
    }
}

/// The cleaner before its first pass over an account.
pub fn initial_cleaner_state() -> (r: CleanerState)
    ensures
        r == (CleanerState { pass: 1, stage: PassStage::Sweep }),
{
    CleanerState { pass: 1, stage: PassStage::Sweep }
}

/// One decision of the cleaner, on the balances just read (`sweep` says
/// whether balances are paid out): past the last pass it stops; at the
/// sweep stage it stops when no trustline is left, else it pays out the
/// credit balances and moves to the close stage; at the close stage it
/// closes the empty trustlines, in transactions of `MAX_OPS_PER_TX`, and
/// starts the next pass, or stops when none is empty.
pub fn cleaner_step(state: CleanerState, entries: &[BalanceEntry], sweep: bool) -> (r: (CleanerState, CleanerAction))
    requires
        state.pass < u32::MAX,
    ensures
        state.stage == PassStage::Sweep && state.pass > MAX_CLEANER_PASSES ==> r.0 == state && r.1 matches CleanerAction::Finish(
            CleanerFinish::PassesUsedUp,
        ),
        state.stage == PassStage::Sweep && state.pass <= MAX_CLEANER_PASSES && count_where(
            entries@,
            |e: BalanceEntry| is_trustline(e),
        ) == 0 ==> r.0 == state && r.1 matches CleanerAction::Finish(CleanerFinish::Clean),
        state.stage == PassStage::Sweep && state.pass <= MAX_CLEANER_PASSES && count_where(
            entries@,
            |e: BalanceEntry| is_trustline(e),
        ) > 0 ==> r.0 == (CleanerState { pass: state.pass, stage: PassStage::Close }) && (r.1 matches CleanerAction::Pay(
            p,
        ) && (!sweep ==> p@.len() == 0) && (sweep ==> p@.len() == entries@.filter(
            |e: BalanceEntry| is_sweepable(e),
        ).len() && forall|k: int|
            0 <= k < p@.len() ==> pays(#[trigger] p@[k], entries@.filter(|e: BalanceEntry| is_sweepable(e))[k]))),
        state.stage == PassStage::Close && closable_positions(entries@, entries@.len()).len() == 0 ==> r.0 == state && (
        r.1 matches CleanerAction::Finish(f) && f == (if count_where(entries@, |e: BalanceEntry| holds_balance(e)) > 0 {
            CleanerFinish::KeptWithBalance(count_where(entries@, |e: BalanceEntry| holds_balance(e)) as usize)
        } else {
            CleanerFinish::NothingClosable
        })),
        state.stage == PassStage::Close && closable_positions(entries@, entries@.len()).len() > 0 ==> r.0 == (CleanerState {
            pass: (state.pass + 1) as u32,
            stage: PassStage::Sweep,
        }) && (r.1 matches CleanerAction::Close { targets, batches } && targets@ == closable_positions(
            entries@,
            entries@.len(),
        ) && batches@.len() == (targets@.len() + MAX_OPS_PER_TX - 1) / (MAX_OPS_PER_TX as int) && forall|k: int|
            0 <= k < batches@.len() ==> (#[trigger] batches@[k]).0 == k * MAX_OPS_PER_TX && batches@[k].1 == (if (k + 1)
                * MAX_OPS_PER_TX < targets@.len() {
                (k + 1) * MAX_OPS_PER_TX
            } else {
                targets@.len() as int
            })),
        !(r.1 is Finish) ==> cleaner_measure(r.0) < cleaner_measure(state) && (state.pass <= MAX_CLEANER_PASSES
            ==> cleaner_measure(r.0) >= 0),
{
    match state.stage {
        PassStage::Sweep => {
            if state.pass > MAX_CLEANER_PASSES {
                return (state, CleanerAction::Finish(CleanerFinish::PassesUsedUp));
            }
            if trustline_count(entries) == 0 {
                return (state, CleanerAction::Finish(CleanerFinish::Clean));
            }
            let payments = sweep_payments(entries, sweep);
            (CleanerState { pass: state.pass, stage: PassStage::Close }, CleanerAction::Pay(payments))
        },
        PassStage::Close => {
            let targets = close_targets(entries);
            if targets.len() == 0 {
                let kept = count_trustlines_where(entries, true);
                let finish = if kept > 0 {
                    CleanerFinish::KeptWithBalance(kept)
                } else {
                    CleanerFinish::NothingClosable
                };
                return (state, CleanerAction::Finish(finish));
            }
            let batches = op_batches(targets.len(), MAX_OPS_PER_TX);
            (CleanerState { pass: state.pass + 1, stage: PassStage::Sweep }, CleanerAction::Close { targets, batches })
        },
    }
}


/// What `str::parse::<i64>` makes of a text: an optional sign, then one or
/// more ASCII digits, within the range of `i64`.
pub open spec fn parse_i64_text(s: Seq<char>) -> Option<int> {
    if s.len() > 0 && s[0] == '-' {
        let d = s.drop_first();
        if d.len() == 0 || !all_digits(d) || digits_value(d) > 0x8000_0000_0000_0000 {
            None
        } else {
            Some(-(digits_value(d) as int))
        }
    } else {
        match parse_unsigned(s, 0x7fff_ffff_ffff_ffff) {
            Some(v) => Some(v as int),
            None => None,
        }
    }
}

/// Parse an `i64` as `str::parse` does.
fn parse_i64_chars(c: &[char]) -> (r: Option<i64>)
    ensures
        match r {
            Some(v) => parse_i64_text(c@) == Some(v as int),
            None => parse_i64_text(c@) is None,
        },
{
    let neg = c.len() > 0 && c[0] == '-';
    let start: usize = if c.len() > 0 && (c[0] == '-' || c[0] == '+') {
        1
    } else {
        0
    };
    let ghost d = c@.skip(start as int);
    proof {
        if !neg {
            assert(crate::config::unsigned_digits(c@) =~= d);
        } else {
            assert(c@.drop_first() =~= d);
        }
    }
    if start == c.len() {
        return None;
    }
    let limit: u128 = if neg {
        0x8000_0000_0000_0000
    } else {
        0x7fff_ffff_ffff_ffff
    };
    let mut value: u128 = 0;
    let mut i: usize = start;
    while i < c.len()
        invariant
            start <= i <= c@.len(),
            d == c@.skip(start as int),
            neg == (c@.len() > 0 && c@[0] == '-'),
            !neg ==> crate::config::unsigned_digits(c@) == d,
            neg ==> c@.drop_first() == d,
            limit == (if neg { 0x8000_0000_0000_0000u128 } else { 0x7fff_ffff_ffff_ffffu128 }),
            forall|j: int| start <= j < i ==> is_ascii_digit(#[trigger] c@[j]),
            value == (if digits_value(c@.subrange(start as int, i as int)) > limit {
                limit + 1
            } else {
                digits_value(c@.subrange(start as int, i as int)) as int
            }),
        decreases c.len() - i,
    {
        let ch = c[i];
        proof {
            assert(c@.subrange(start as int, i + 1).drop_last() =~= c@.subrange(start as int, i as int));
        }
        if !('0' <= ch && ch <= '9') {
            proof {
                let k: int = i - start;
                assert(d[k] == ch && !is_ascii_digit(d[k]));
                assert(!all_digits(d));
            }
            return None;
        }
        let digit = (ch as u32 - 48) as u128;
        let next = value * 10 + digit;
        value = if next > limit {
            limit + 1
        } else {
            next
        };
        i = i + 1;
    }
    proof {
        assert(c@.subrange(start as int, i as int) =~= d);
        assert(all_digits(d));
    }
    if value > limit {
        return None;
    }
    if neg {
        Some((0 - (value as i128)) as i64)
    } else {
        Some(value as i64)
    }
}


/// Why a balance text does not give a stroop amount.
#[derive(Debug, Clone, Copy, PartialEq, Eq, Structural)]
pub enum BalanceTextError {
    /// The part before the point is not an `i64`.
    WholePart,
    /// The first seven digits after the point are not an `i64`.
    FracPart,
    /// The amount in stroops does not fit in `i64`.
    Overflow,
}

/// `i` is the first point of `b`.
pub open spec fn first_point_at(b: Seq<char>, i: int) -> bool {
    0 <= i < b.len() && b[i] == '.' && forall|j: int| 0 <= j < i ==> b[j] != '.'
}

/// The text before the first point and the text after it (all of it and
/// nothing, without a point).
pub open spec fn split_at_point(b: Seq<char>) -> (Seq<char>, Seq<char>) {
    if exists|i: int| first_point_at(b, i) {
        let i = choose|i: int| first_point_at(b, i);
        (b.take(i), b.skip(i + 1))
    } else {
        (b, Seq::empty())
    }
}

/// The fraction as seven digits: its first seven characters, padded with
/// zeros on the right.
pub open spec fn seven_digits(f: Seq<char>) -> Seq<char> {
    let t = if f.len() > 7 {
        f.take(7)
    } else {
        f
    };
    t + Seq::new((7 - t.len()) as nat, |_i: int| '0')
}

/// What a Horizon balance text is in stroops: 0 for an empty (after
/// trimming) or `0` text; else the whole part times 10^7 plus the first
/// seven digits of the fraction.
pub open spec fn balance_stroops_result(balance: Seq<char>) -> Result<i64, BalanceTextError> {
    let b = trim_text(balance);
    if b.len() == 0 || b == seq!['0'] {
        Ok(0)
    } else {
        let (w, f) = split_at_point(b);
        match parse_i64_text(w) {
            None => Err(BalanceTextError::WholePart),
            Some(wv) => match parse_i64_text(seven_digits(f)) {
                None => Err(BalanceTextError::FracPart),
                Some(fv) => if wv * 10_000_000 < i64::MIN || wv * 10_000_000 > i64::MAX || wv * 10_000_000 + fv
                    < i64::MIN || wv * 10_000_000 + fv > i64::MAX {
                    Err(BalanceTextError::Overflow)
                } else {
                    Ok((wv * 10_000_000 + fv) as i64)
                },
            },
        }
    }
}

/// A Horizon balance text (seven decimals) in stroops.
pub fn balance_to_stroops(balance: &str) -> (r: Result<i64, BalanceTextError>)
    ensures
        r == balance_stroops_result(balance@),
{
    let raw = chars_of(balance);
    let b = trim_chars(raw.as_slice());
    if b.len() == 0 || (b.len() == 1 && b[0] == '0') {
        proof {
            if b@.len() == 1 {
                assert(b@ =~= seq!['0']);
            }
        }
        return Ok(0);
    }
    proof {
        assert(b@ != seq!['0']);
    }
    let mut i: usize = 0;
    while i < b.len() && b[i] != '.'
        invariant
            i <= b@.len(),
            forall|j: int| 0 <= j < i ==> b@[j] != '.',
        decreases b.len() - i,
    {
        i = i + 1;
    }
    let mut whole: Vec<char> = Vec::new();
    let mut frac: Vec<char> = Vec::new();
    let mut k: usize = 0;
    while k < i
        invariant
            k <= i <= b@.len(),
            whole@ == b@.take(k as int),
        decreases i - k,
    {
        whole.push(b[k]);
        proof {
            assert(b@.take(k + 1) =~= b@.take(k as int).push(b@[k as int]));
        }
        k = k + 1;
    }
    if i < b.len() {
        let mut m: usize = i + 1;
        while m < b.len() && frac.len() < 7
            invariant
                i < b@.len(),
                i + 1 <= m <= b@.len(),
                frac@ == b@.subrange(i + 1, m as int),
                frac@.len() == m - (i + 1),
                frac@.len() <= 7,
            decreases b.len() - m,
        {
            frac.push(b[m]);
            proof {
                assert(b@.subrange(i + 1, m + 1) =~= b@.subrange(i + 1, m as int).push(b@[m as int]));
            }
            m = m + 1;
        }
    }
    let ghost f = if i < b@.len() { b@.skip(i + 1) } else { Seq::<char>::empty() };
    proof {
        if i < b@.len() {
            assert(first_point_at(b@, i as int));
            let c = choose|c: int| first_point_at(b@, c);
            assert(c == i) by {
                if c < i {
                    assert(b@[c] != '.');
                } else if c > i {
                    assert(b@[i as int] != '.');
                }
            }
            assert(split_at_point(b@) == (b@.take(i as int), f));
        } else {
            assert(whole@ =~= b@);
            assert(!exists|c: int| first_point_at(b@, c));
        }
        if f.len() > 7 {
            assert(frac@ =~= f.take(7));
        } else {
            assert(frac@ =~= f);
        }
        assert(frac@ =~= seven_digits(f).take(frac@.len() as int));
    }
    while frac.len() < 7
        invariant
            frac@.len() <= 7,
            frac@.len() >= (if f.len() > 7 { 7 } else { f.len() }),
            frac@ == seven_digits(f).take(frac@.len() as int),
        decreases 7 - frac.len(),
    {
        frac.push('0');
        proof {
            let t = if f.len() > 7 { f.take(7) } else { f };
            assert(frac@ =~= seven_digits(f).take(frac@.len() as int));
        }
    }
    proof {
        assert(frac@ =~= seven_digits(f));
    }
    let wv = match parse_i64_chars(whole.as_slice()) {
        Some(v) => v,
        None => {
            return Err(BalanceTextError::WholePart);
        },
    };
    let fv = match parse_i64_chars(frac.as_slice()) {
        Some(v) => v,
        None => {
            return Err(BalanceTextError::FracPart);
        },
    };
    match wv.checked_mul(10_000_000) {
        Some(scaled) => match scaled.checked_add(fv) {
            Some(total) => Ok(total),
            None => Err(BalanceTextError::Overflow),
        },
        None => Err(BalanceTextError::Overflow),
    }
}

} // verus!
