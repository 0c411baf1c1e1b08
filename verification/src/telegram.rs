//! The hourly profit / balance report sent to Telegram.

use vstd::prelude::*;
use vstd::string::{StringExecFns, StringSliceAdditionalSpecFns};

use crate::decimal::{decimal_text, push_decimal, push_signed, signed_text};
use crate::profit::{format_xlm4, format_xlm4_u, xlm4_text, ProfitWindow, RecentTx};
use crate::stats::{sat_bps, sat_mul_bps, ArbStatsSnapshot, BridgeStatsSnapshot};
use crate::text::{bytes_lt, lemma_bytes_lt_total, lemma_bytes_lt_trans, place_bytes, BytePlace};

verus! {

/// A count in decimal.
pub open spec fn dec(n: u64) -> Seq<char> {
    decimal_text(n as nat)
}

/// An unsigned stroop amount in XLM with four decimals (taken as `i128`).
pub open spec fn xlm4u(stroops: u128) -> Seq<char> {
    xlm4_text((stroops as i128) as int)
}

/// One accounting window under its label.
pub open spec fn window_text(label: Seq<char>, w: ProfitWindow) -> Seq<char> {
    label + "\n· succeeded: "@ + dec(w.succeeded) + "\n· failed: "@ + dec(w.failed) + "\n· unknown: "@ + dec(
        w.unknown,
    ) + "\n· submitted: "@ + dec(w.submitted) + "\n· gross profit: `"@ + xlm4u(w.gross_profit_stroops)
        + "` XLM\n· est. fees: `"@ + xlm4u(w.fee_stroops) + "` XLM\n· net: `"@ + xlm4_text(w.net_value()) + "` XLM"@
}

/// The net value of a window is an `i128`.
pub open spec fn window_net_ok(w: ProfitWindow) -> bool {
    i128::MIN <= w.net_value() <= i128::MAX
}

fn format_window(label: &str, w: &ProfitWindow) -> (r: String)
    requires
        window_net_ok(*w),
    ensures
        r@ == window_text(label@, *w),
{
    let mut out = String::new();
    out.append(label);
    out.append("\n· succeeded: ");
    push_decimal(&mut out, w.succeeded as u128);
    out.append("\n· failed: ");
    push_decimal(&mut out, w.failed as u128);
    out.append("\n· unknown: ");
    push_decimal(&mut out, w.unknown as u128);
    out.append("\n· submitted: ");
    push_decimal(&mut out, w.submitted as u128);
    out.append("\n· gross profit: `");
    out.append(format_xlm4_u(w.gross_profit_stroops).as_str());
    out.append("` XLM\n· est. fees: `");
    out.append(format_xlm4_u(w.fee_stroops).as_str());
    out.append("` XLM\n· net: `");
    out.append(format_xlm4(w.net_profit_stroops()).as_str());
    out.append("` XLM");
    proof {
        assert(out@ =~= window_text(label@, *w));
    }
    out
}

/// The bytes of the first twelve (or fewer) bytes of a hash, as text.
pub open spec fn hash_prefix(hash: Seq<char>) -> Seq<char> {
    let b = vstd::utf8::encode_utf8(hash);
    vstd::utf8::decode_utf8(b.take(if b.len() < 12 { b.len() as int } else { 12 }))
}

/// The twelve-byte cut of a hash falls on a character boundary.
pub open spec fn hash_cut_ok(hash: Seq<char>) -> bool {
    let b = vstd::utf8::encode_utf8(hash);
    vstd::utf8::is_char_boundary(b, if b.len() < 12 { b.len() as int } else { 12 })
}

/// Profit less fee of a recent transaction, each taken as an `i128`.
pub open spec fn tx_net(tx: RecentTx) -> int {
    (tx.gross_profit as i128) - (tx.fee as i128)
}

/// One line per recent success.
pub open spec fn recent_line(tx: RecentTx) -> Seq<char> {
    "\n· "@ + xlm4u(tx.amount_in) + " XLM → net `"@ + xlm4_text(tx_net(tx)) + "` | `"@ + hash_prefix(tx.hash@) + "`"@
}

pub open spec fn recent_lines(recent: Seq<RecentTx>) -> Seq<char>
    decreases recent.len(),
{
    if recent.len() == 0 {
        Seq::empty()
    } else {
        recent_lines(recent.drop_last()) + recent_line(recent.last())
    }
}

/// The recent successes, or `(none)`.
pub open spec fn recent_text(recent: Seq<RecentTx>) -> Seq<char> {
    if recent.len() == 0 {
        "Recent SUCCESS: (none)"@
    } else {
        "Recent SUCCESS:"@ + recent_lines(recent)
    }
}

/// Every recent line can be written: its net is an `i128` and its hash cut
/// is on a character boundary.
pub open spec fn recent_ok(recent: Seq<RecentTx>) -> bool {
    forall|i: int|
        0 <= i < recent.len() ==> #[trigger] hash_cut_ok(recent[i].hash@) && i128::MIN <= tx_net(recent[i])
            <= i128::MAX
}

fn hash_cut(hash: &str) -> (r: &str)
    requires
        hash_cut_ok(hash@),
    ensures
        r@ == hash_prefix(hash@),
{
    let n = if hash.as_bytes().len() < 12 {
        hash.as_bytes().len()
    } else {
        12
    };
    proof {
        assert(hash.spec_bytes() == vstd::utf8::encode_utf8(hash@));
    }
    let (head, _) = hash.split_at(n);
    proof {
        vstd::utf8::encode_utf8_decode_utf8(head@);
        assert(head.spec_bytes() =~= vstd::utf8::encode_utf8(hash@).take(n as int));
    }
    head
}

fn format_recent_line(tx: &RecentTx) -> (r: String)
    requires
        hash_cut_ok(tx.hash@),
        i128::MIN <= tx_net(*tx) <= i128::MAX,
    ensures
        r@ == recent_line(*tx),
{
    let net = tx.gross_profit as i128 - tx.fee as i128;
    let mut out = String::new();
    out.append("\n· ");
    out.append(format_xlm4_u(tx.amount_in).as_str());
    out.append(" XLM → net `");
    out.append(format_xlm4(net).as_str());
    out.append("` | `");
    out.append(hash_cut(tx.hash.as_str()));
    out.append("`");
    proof {
        assert(out@ =~= recent_line(*tx));
    }
    out
}

fn format_recent(recent: &Vec<RecentTx>) -> (r: String)
    requires
        recent_ok(recent@),
    ensures
        r@ == recent_text(recent@),
{
    if recent.len() == 0 {
        return "Recent SUCCESS: (none)".to_owned();
    }
    let mut out = String::new();
    out.append("Recent SUCCESS:");
    let mut i: usize = 0;
    while i < recent.len()
        invariant
            i <= recent@.len(),
            recent_ok(recent@),
            out@ == "Recent SUCCESS:"@ + recent_lines(recent@.take(i as int)),
        decreases recent.len() - i,
    {
        let tx = &recent[i];
        proof {
            assert(hash_cut_ok(recent@[i as int].hash@));
            assert(recent@.take(i + 1).drop_last() =~= recent@.take(i as int));
        }
        let line = format_recent_line(tx);
        out.append(line.as_str());
        proof {
            assert(out@ =~= "Recent SUCCESS:"@ + recent_lines(recent@.take(i + 1)));
        }
        i = i + 1;
    }
    proof {
        assert(recent@.take(i as int) =~= recent@);
    }
    out
}

/// `a` ranks above `b`: more opportunities, then more evaluations, then
/// the smaller name.
pub open spec fn ranks_above(a: BridgeStatsSnapshot, b: BridgeStatsSnapshot) -> bool {
    a.opportunities > b.opportunities || (a.opportunities == b.opportunities && (a.evaluated > b.evaluated || (
    a.evaluated == b.evaluated && bytes_lt(a.key(), b.key()))))
}

/// Row index `x` put into the ranked indices `s` after every row it does
/// not rank above (so rows that tie keep their order).
pub open spec fn insert_ranked(rows: Seq<BridgeStatsSnapshot>, s: Seq<int>, x: int) -> Seq<int>
    decreases s.len(),
{
    if s.len() == 0 {
        seq![x]
    } else if ranks_above(rows[x], rows[s.last()]) {
        insert_ranked(rows, s.drop_last(), x).push(s.last())
    } else {
        s.push(x)
    }
}

/// The indices of the first `n` rows that saw an evaluation, in rank order
/// (a stable sort).
pub open spec fn ranked(rows: Seq<BridgeStatsSnapshot>, n: nat) -> Seq<int>
    decreases n,
{
    if n == 0 {
        Seq::empty()
    } else {
        let prev = ranked(rows, (n - 1) as nat);
        if rows[n - 1].evaluated > 0 {
            insert_ranked(rows, prev, n - 1)
        } else {
            prev
        }
    }
}

/// Quote failures per evaluation, in basis points.
pub open spec fn quote_fail_bps(row: BridgeStatsSnapshot) -> int {
    sat_bps(row.quote_failed) / (if row.evaluated > 1 { row.evaluated as int } else { 1 })
}

pub open spec fn bridge_line(row: BridgeStatsSnapshot) -> Seq<char> {
    "\n· "@ + row.bridge@ + ": eval="@ + dec(row.evaluated) + " opp="@ + dec(row.opportunities) + " unprof="@ + dec(
        row.unprofitable_quotes,
    ) + " quote_fail="@ + dec(row.quote_failed) + " ("@ + decimal_text(quote_fail_bps(row) as nat) + " bps)"@
}

pub open spec fn bridge_lines(rows: Seq<BridgeStatsSnapshot>, idx: Seq<int>) -> Seq<char>
    decreases idx.len(),
{
    if idx.len() == 0 {
        Seq::empty()
    } else {
        bridge_lines(rows, idx.drop_last()) + bridge_line(rows[idx.last()])
    }
}

/// The six best-ranked bridges that saw an evaluation, or a note that none
/// did.
pub open spec fn bridge_text(rows: Seq<BridgeStatsSnapshot>) -> Seq<char> {
    let r = ranked(rows, rows.len());
    if r.len() == 0 {
        "🧭 Bridge funnel: (no scans yet)"@
    } else {
        "🧭 Bridge funnel (top 6):"@ + bridge_lines(rows, r.take(if r.len() < 6 { r.len() as int } else { 6 }))
    }
}

/// Inserting at the place found from the end: after the rows that `x` does
/// not rank above.
proof fn lemma_insert_at(rows: Seq<BridgeStatsSnapshot>, s: Seq<int>, x: int, p: int)
    requires
        0 <= p <= s.len(),
        forall|j: int| p <= j < s.len() ==> ranks_above(rows[x], #[trigger] rows[s[j]]),
        p == 0 || !ranks_above(rows[x], rows[s[p - 1]]),
    ensures
        insert_ranked(rows, s, x) == s.take(p).push(x) + s.skip(p),
    decreases s.len() - p,
{
    if p == s.len() {
        assert(s.take(p) =~= s);
        assert(s.skip(p) =~= Seq::<int>::empty());
        if s.len() > 0 {
            assert(s.last() == s[p - 1]);
        }
        assert(s.take(p).push(x) + s.skip(p) =~= s.push(x));
    } else {
        let d = s.drop_last();
        assert(ranks_above(rows[x], rows[s[s.len() - 1]]));
        assert forall|j: int| p <= j < d.len() implies ranks_above(rows[x], #[trigger] rows[d[j]]) by {
            assert(d[j] == s[j]);
            assert(ranks_above(rows[x], rows[s[j]]));
        }
        if p > 0 {
            assert(d[p - 1] == s[p - 1]);
        }
        lemma_insert_at(rows, d, x, p);
        assert(d.take(p) =~= s.take(p));
        assert(d.skip(p).push(s.last()) =~= s.skip(p));
        assert(d.take(p).push(x) + d.skip(p) + seq![s.last()] =~= s.take(p).push(x) + s.skip(p));
        assert((d.take(p).push(x) + d.skip(p)).push(s.last()) =~= d.take(p).push(x) + d.skip(p) + seq![s.last()]);
    }
}

/// A row that ranks above another ranks above every row that the other
/// does not rank above.
proof fn lemma_ranks_above_chain(a: BridgeStatsSnapshot, b: BridgeStatsSnapshot, c: BridgeStatsSnapshot)
    requires
        ranks_above(a, b),
        !ranks_above(c, b),
    ensures
        ranks_above(a, c),
{
    lemma_bytes_lt_total(a.key(), c.key());
    lemma_bytes_lt_total(b.key(), c.key());
    lemma_bytes_lt_total(a.key(), b.key());
    if bytes_lt(a.key(), b.key()) && bytes_lt(b.key(), c.key()) {
        lemma_bytes_lt_trans(a.key(), b.key(), c.key());
    }
}

/// Inserting keeps the rank order, and adds just `x`.
proof fn lemma_insert_ranked(rows: Seq<BridgeStatsSnapshot>, s: Seq<int>, x: int)
    requires
        forall|i: int, j: int| 0 <= i < j < s.len() ==> !ranks_above(#[trigger] rows[s[j]], #[trigger] rows[s[i]]),
    ensures
        insert_ranked(rows, s, x).len() == s.len() + 1,
        forall|i: int, j: int|
            0 <= i < j < s.len() + 1 ==> !ranks_above(
                #[trigger] rows[insert_ranked(rows, s, x)[j]],
                #[trigger] rows[insert_ranked(rows, s, x)[i]],
            ),
        forall|k: int| 0 <= k < s.len() + 1 ==> #[trigger] insert_ranked(rows, s, x)[k] == x || s.contains(
            insert_ranked(rows, s, x)[k],
        ),
        insert_ranked(rows, s, x).contains(x),
        forall|k: int| 0 <= k < s.len() ==> insert_ranked(rows, s, x).contains(#[trigger] s[k]),
        insert_ranked(rows, s, x).to_multiset() =~= s.to_multiset().insert(x),
    decreases s.len(),
{
    let t = insert_ranked(rows, s, x);
    if s.len() == 0 {
        assert(t =~= seq![x]);
        assert(t[0] == x);
        broadcast use {vstd::seq_lib::group_to_multiset_ensures, vstd::multiset::group_multiset_axioms};
    } else if ranks_above(rows[x], rows[s.last()]) {
        let d = s.drop_last();
        let last = s.last();
        assert forall|i: int, j: int| 0 <= i < j < d.len() implies !ranks_above(#[trigger] rows[d[j]], #[trigger] rows[d[i]]) by {
            assert(d[i] == s[i] && d[j] == s[j]);
        }
        lemma_insert_ranked(rows, d, x);
        let u = insert_ranked(rows, d, x);
        assert(t == u.push(last));
        assert forall|i: int, j: int| 0 <= i < j < s.len() + 1 implies !ranks_above(#[trigger] rows[t[j]], #[trigger] rows[t[i]]) by {
            if j == s.len() {
                assert(t[j] == last);
                assert(t[i] == u[i]);
                if u[i] == x {
                    lemma_bytes_lt_total(rows[x].key(), rows[last].key());
                } else {
                    assert(d.contains(u[i]));
                    let m = choose|m: int| 0 <= m < d.len() && d[m] == u[i];
                    assert(s[m] == d[m]);
                    assert(!ranks_above(rows[s[s.len() - 1]], rows[s[m]]));
                }
            } else {
                assert(t[i] == u[i] && t[j] == u[j]);
            }
        }
        assert forall|k: int| 0 <= k < s.len() + 1 implies #[trigger] t[k] == x || s.contains(t[k]) by {
            if k == s.len() {
                assert(t[k] == s[s.len() - 1]);
            } else {
                assert(t[k] == u[k]);
                if u[k] != x {
                    let m = choose|m: int| 0 <= m < d.len() && d[m] == u[k];
                    assert(s[m] == d[m]);
                }
            }
        }
        assert(u.contains(x));
        let mx = choose|m: int| 0 <= m < u.len() && u[m] == x;
        assert(t[mx] == x);
        assert forall|k: int| 0 <= k < s.len() implies t.contains(#[trigger] s[k]) by {
            if k == s.len() - 1 {
                assert(t[s.len() as int] == s[k]);
            } else {
                assert(d[k] == s[k]);
                assert(u.contains(d[k]));
                let m = choose|m: int| 0 <= m < u.len() && u[m] == d[k];
                assert(t[m] == u[m]);
            }
        }
        assert(s =~= d.push(last));
        broadcast use {vstd::seq_lib::group_to_multiset_ensures, vstd::multiset::group_multiset_axioms};
        assert(t.to_multiset() =~= u.to_multiset().insert(last));
        assert(s.to_multiset() =~= d.to_multiset().insert(last));
    } else {
        assert(t == s.push(x));
        assert forall|i: int, j: int| 0 <= i < j < s.len() + 1 implies !ranks_above(#[trigger] rows[t[j]], #[trigger] rows[t[i]]) by {
            if j == s.len() {
                assert(t[j] == x);
                assert(t[i] == s[i]);
                if ranks_above(rows[x], rows[s[i]]) {
                    if i < s.len() - 1 {
                        assert(!ranks_above(rows[s[s.len() - 1]], rows[s[i]]));
                        lemma_ranks_above_chain(rows[x], rows[s[i]], rows[s[s.len() - 1]]);
                    }
                }
            } else {
                assert(t[i] == s[i] && t[j] == s[j]);
            }
        }
        assert forall|k: int| 0 <= k < s.len() + 1 implies #[trigger] t[k] == x || s.contains(t[k]) by {
            if k < s.len() {
                assert(t[k] == s[k]);
            }
        }
        assert(t[s.len() as int] == x);
        assert forall|k: int| 0 <= k < s.len() implies t.contains(#[trigger] s[k]) by {
            assert(t[k] == s[k]);
        }
        broadcast use {vstd::seq_lib::group_to_multiset_ensures, vstd::multiset::group_multiset_axioms};
    }
}

/// The bridge funnel's ranking: the rows that saw an evaluation, each
/// once, with no row ranking above one listed before it.
pub proof fn lemma_bridge_ranking(rows: Seq<BridgeStatsSnapshot>, n: nat)
    requires
        n <= rows.len(),
    ensures
        forall|i: int, j: int|
            0 <= i < j < ranked(rows, n).len() ==> !ranks_above(
                #[trigger] rows[ranked(rows, n)[j]],
                #[trigger] rows[ranked(rows, n)[i]],
            ),
        forall|k: int|
            0 <= k < ranked(rows, n).len() ==> 0 <= #[trigger] ranked(rows, n)[k] < n && rows[ranked(rows, n)[k]].evaluated
                > 0,
        forall|m: int| 0 <= m < n && rows[m].evaluated > 0 ==> #[trigger] ranked(rows, n).to_multiset().count(m) == 1,
        forall|m: int| !(0 <= m < n && rows[m].evaluated > 0) ==> #[trigger] ranked(rows, n).to_multiset().count(m) == 0,
    decreases n,
{
    broadcast use {vstd::seq_lib::group_to_multiset_ensures, vstd::multiset::group_multiset_axioms};
    if n > 0 {
        lemma_bridge_ranking(rows, (n - 1) as nat);
        let prev = ranked(rows, (n - 1) as nat);
        if rows[n - 1].evaluated > 0 {
            lemma_insert_ranked(rows, prev, n - 1);
            let t = ranked(rows, n);
            assert forall|k: int| 0 <= k < t.len() implies 0 <= #[trigger] t[k] < n && rows[t[k]].evaluated > 0 by {
                if t[k] != n - 1 {
                    assert(prev.contains(t[k]));
                    let m = choose|m: int| 0 <= m < prev.len() && prev[m] == t[k];
                }
            }
        }
    }
}

fn ranks_above_exec(a: &BridgeStatsSnapshot, b: &BridgeStatsSnapshot) -> (r: bool)
    ensures
        r == ranks_above(*a, *b),
{
    if a.opportunities != b.opportunities {
        return a.opportunities > b.opportunities;
    }
    if a.evaluated != b.evaluated {
        return a.evaluated > b.evaluated;
    }
    match place_bytes(a.bridge.as_str().as_bytes(), b.bridge.as_str().as_bytes()) {
        BytePlace::Before => true,
        _ => false,
    }
}

/// The rank order of the rows that saw an evaluation.
fn rank_rows(rows: &[BridgeStatsSnapshot]) -> (r: Vec<usize>)
    ensures
        r@.len() == ranked(rows@, rows@.len()).len(),
        forall|k: int| 0 <= k < r@.len() ==> r@[k] as int == #[trigger] ranked(rows@, rows@.len())[k],
        forall|k: int| 0 <= k < r@.len() ==> r@[k] < rows@.len(),
{
    let mut out: Vec<usize> = Vec::new();
    let mut i: usize = 0;
    while i < rows.len()
        invariant
            i <= rows@.len(),
            out@.len() == ranked(rows@, i as nat).len(),
            forall|k: int| 0 <= k < out@.len() ==> out@[k] as int == #[trigger] ranked(rows@, i as nat)[k],
            forall|k: int| 0 <= k < out@.len() ==> out@[k] < i,
        decreases rows.len() - i,
    {
        if rows[i].evaluated > 0 {
            let ghost s = ranked(rows@, i as nat);
            let mut p: usize = out.len();
            while p > 0 && ranks_above_exec(&rows[i], &rows[out[p - 1]])
                invariant
                    p <= out@.len(),
                    i < rows@.len(),
                    out@.len() == s.len(),
                    forall|k: int| 0 <= k < out@.len() ==> out@[k] as int == #[trigger] s[k],
                    forall|k: int| 0 <= k < out@.len() ==> out@[k] < i,
                    forall|j: int| p <= j < s.len() ==> ranks_above(rows@[i as int], #[trigger] rows@[s[j]]),
                decreases p,
            {
                p = p - 1;
            }
            proof {
                lemma_insert_at(rows@, s, i as int, p as int);
            }
            out.insert(p, i);
            proof {
                let t = s.take(p as int).push(i as int) + s.skip(p as int);
                assert(ranked(rows@, (i + 1) as nat) == insert_ranked(rows@, s, i as int));
                assert forall|k: int| 0 <= k < out@.len() implies out@[k] as int == #[trigger] t[k] by {
                    if k < p {
                        assert(out@[k] as int == s[k]);
                    } else if k > p {
                        assert(out@[k] as int == s[k - 1]);
                    }
                }
            }
        }
        i = i + 1;
    }
    out
}

fn format_bridge_line(row: &BridgeStatsSnapshot) -> (r: String)
    ensures
        r@ == bridge_line(*row),
{
    let evaluated: u64 = if row.evaluated > 1 {
        row.evaluated
    } else {
        1
    };
    let bps = sat_mul_bps(row.quote_failed) / evaluated;
    let mut out = String::new();
    out.append("\n· ");
    out.append(row.bridge.as_str());
    out.append(": eval=");
    push_decimal(&mut out, row.evaluated as u128);
    out.append(" opp=");
    push_decimal(&mut out, row.opportunities as u128);
    out.append(" unprof=");
    push_decimal(&mut out, row.unprofitable_quotes as u128);
    out.append(" quote_fail=");
    push_decimal(&mut out, row.quote_failed as u128);
    out.append(" (");
    push_decimal(&mut out, bps as u128);
    out.append(" bps)");
    proof {
        assert(out@ =~= bridge_line(*row));
    }
    out
}

fn format_bridge_breakdown(rows: &[BridgeStatsSnapshot]) -> (r: String)
    ensures
        r@ == bridge_text(rows@),
{
    let order = rank_rows(rows);
    let ghost rk = ranked(rows@, rows@.len());
    if order.len() == 0 {
        return "🧭 Bridge funnel: (no scans yet)".to_owned();
    }
    let shown: usize = if order.len() < 6 {
        order.len()
    } else {
        6
    };
    let mut out = String::new();
    out.append("🧭 Bridge funnel (top 6):");
    let mut k: usize = 0;
    while k < shown
        invariant
            shown <= order@.len(),
            order@.len() == rk.len(),
            shown == (if rk.len() < 6 { rk.len() as int } else { 6 }),
            forall|j: int| 0 <= j < order@.len() ==> order@[j] as int == #[trigger] rk[j],
            forall|j: int| 0 <= j < order@.len() ==> order@[j] < rows@.len(),
            k <= shown,
            out@ == "🧭 Bridge funnel (top 6):"@ + bridge_lines(rows@, rk.take(k as int)),
        decreases shown - k,
    {
        let line = format_bridge_line(&rows[order[k]]);
        out.append(line.as_str());
        proof {
            assert(rk.take(k + 1).drop_last() =~= rk.take(k as int));
            assert(rk.take(k + 1).last() == rk[k as int]);
            assert(out@ =~= "🧭 Bridge funnel (top 6):"@ + bridge_lines(rows@, rk.take(k + 1)));
        }
        k = k + 1;
    }
    out
}

/// `a + b`, saturating at `u128::MAX`.
pub open spec fn sat_add(a: u128, b: u128) -> u128 {
    if a + b > u128::MAX {
        u128::MAX
    } else {
        (a + b) as u128
    }
}

/// The caller balances that were read, summed (saturating).
pub open spec fn caller_total(callers: Seq<(usize, String, Option<u128>)>) -> u128
    decreases callers.len(),
{
    if callers.len() == 0 {
        0
    } else {
        let t = caller_total(callers.drop_last());
        match callers.last().2 {
            Some(b) => sat_add(t, b),
            None => t,
        }
    }
}

/// One line per caller account: its balance, or `(err)` when it could not
/// be read.
pub open spec fn caller_lines(callers: Seq<(usize, String, Option<u128>)>) -> Seq<char>
    decreases callers.len(),
{
    if callers.len() == 0 {
        Seq::empty()
    } else {
        let c = callers.last();
        caller_lines(callers.drop_last()) + "idx="@ + decimal_text(c.0 as nat) + match c.2 {
            Some(b) => ": `"@ + xlm4u(b) + "` XLM\n"@,
            None => ": `(err)`\n"@,
        }
    }
}

/// The vault balance, or `(n/a)`.
pub open spec fn vault_text(vault_xlm: Option<u128>) -> Seq<char> {
    match vault_xlm {
        Some(v) => "🏦 Vault XLM: `"@ + xlm4u(v) + "` XLM"@,
        None => "🏦 Vault XLM: `(n/a)`"@,
    }
}

/// The session's quote-to-simulation funnel.
pub open spec fn funnel_text(f: ArbStatsSnapshot) -> Seq<char> {
    "🔎 Quote→sim funnel (session):\n· quote_failed: "@ + dec(f.quote_failed) + "\n· unprofitable: "@ + dec(
        f.unprofitable_quotes,
    ) + "\n· opportunities: "@ + dec(f.opportunities) + "\n· prepared: "@ + dec(f.txs_prepared) + " ("@
        + decimal_text(f.prepare_rate_value() as nat) + " bps)\n· sim_profit_rejected: "@ + dec(
        f.txs_sim_profit_rejected,
    ) + " ("@ + decimal_text(f.sim_reject_rate_value() as nat) + " bps)\n· discards: size="@ + dec(
        f.discard_size_unprofitable,
    ) + " below_quoted="@ + dec(f.discard_below_quoted) + " fee="@ + dec(f.discard_fee_gate) + " probe="@ + dec(
        f.discard_probe_unprofitable,
    ) + "\n· avg quote−sim gap: `"@ + signed_text(f.avg_quote_sim_gap_bps as int) + "` bps (n="@ + dec(
        f.quote_sim_gap_samples,
    ) + ")"@
}

/// The whole report.
pub open spec fn report_text(
    vault_xlm: Option<u128>,
    callers: Seq<(usize, String, Option<u128>)>,
    hour: ProfitWindow,
    session: ProfitWindow,
    recent: Seq<RecentTx>,
    funnel: ArbStatsSnapshot,
    bridges: Seq<BridgeStatsSnapshot>,
) -> Seq<char> {
    let total = caller_total(callers);
    let grand = sat_add(
        match vault_xlm {
            Some(v) => v,
            None => 0,
        },
        total,
    );
    "📊 LumAgg Arb Monitor\n\n"@ + vault_text(vault_xlm) + "\n\n"@ + window_text("⏱ Last hour:"@, hour) + "\n\n"@
        + window_text("📈 Session:"@, session) + "\n\n"@ + recent_text(recent) + "\n\n"@ + funnel_text(funnel)
        + "\n\n"@ + bridge_text(bridges) + "\n\n"@ + caller_block_text(callers) + "\n✅ Grand Total: `"@ + xlm4u(
        grand,
    ) + "` XLM"@
}

/// The caller accounts and their total.
pub open spec fn caller_block_text(callers: Seq<(usize, String, Option<u128>)>) -> Seq<char> {
    "👛 Caller Accounts:\n"@ + caller_lines(callers) + "💰 Total Caller XLM: `"@ + xlm4u(caller_total(callers))
        + "` XLM"@
}

fn format_vault(vault_xlm: Option<u128>) -> (r: String)
    ensures
        r@ == vault_text(vault_xlm),
{
    let mut out = String::new();
    match vault_xlm {
        Some(v) => {
            out.append("🏦 Vault XLM: `");
            out.append(format_xlm4_u(v).as_str());
            out.append("` XLM");
        },
        None => {
            out.append("🏦 Vault XLM: `(n/a)`");
        },
    }
    proof {
        assert(out@ =~= vault_text(vault_xlm));
    }
    out
}

fn format_caller_block(callers: &[(usize, String, Option<u128>)]) -> (r: (String, u128))
    ensures
        r.0@ == caller_block_text(callers@),
        r.1 == caller_total(callers@),
{
    let mut out = String::new();
    out.append("👛 Caller Accounts:\n");
    let (lines, total) = format_callers(callers);
    out.append(lines.as_str());
    out.append("💰 Total Caller XLM: `");
    out.append(format_xlm4_u(total).as_str());
    out.append("` XLM");
    proof {
        assert(out@ =~= caller_block_text(callers@));
    }
    (out, total)
}

fn format_funnel(f: &ArbStatsSnapshot) -> (r: String)
    ensures
        r@ == funnel_text(*f),
{
    let mut out = String::new();
    out.append("🔎 Quote→sim funnel (session):\n· quote_failed: ");
    push_decimal(&mut out, f.quote_failed as u128);
    out.append("\n· unprofitable: ");
    push_decimal(&mut out, f.unprofitable_quotes as u128);
    out.append("\n· opportunities: ");
    push_decimal(&mut out, f.opportunities as u128);
    out.append("\n· prepared: ");
    push_decimal(&mut out, f.txs_prepared as u128);
    out.append(" (");
    push_decimal(&mut out, f.prepare_rate_bps() as u128);
    out.append(" bps)\n· sim_profit_rejected: ");
    push_decimal(&mut out, f.txs_sim_profit_rejected as u128);
    out.append(" (");
    push_decimal(&mut out, f.sim_reject_rate_bps() as u128);
    out.append(" bps)\n· discards: size=");
    push_decimal(&mut out, f.discard_size_unprofitable as u128);
    out.append(" below_quoted=");
    push_decimal(&mut out, f.discard_below_quoted as u128);
    out.append(" fee=");
    push_decimal(&mut out, f.discard_fee_gate as u128);
    out.append(" probe=");
    push_decimal(&mut out, f.discard_probe_unprofitable as u128);
    out.append("\n· avg quote−sim gap: `");
    push_signed(&mut out, f.avg_quote_sim_gap_bps);
    out.append("` bps (n=");
    push_decimal(&mut out, f.quote_sim_gap_samples as u128);
    out.append(")");
    proof {
        assert(out@ =~= funnel_text(*f));
    }
    out
}

/// The caller lines and their total.
fn format_callers(callers: &[(usize, String, Option<u128>)]) -> (r: (String, u128))
    ensures
        r.0@ == caller_lines(callers@),
        r.1 == caller_total(callers@),
{
    let mut out = String::new();
    let mut total: u128 = 0;
    let mut i: usize = 0;
    while i < callers.len()
        invariant
            i <= callers@.len(),
            out@ == caller_lines(callers@.take(i as int)),
            total == caller_total(callers@.take(i as int)),
        decreases callers.len() - i,
    {
        let c = &callers[i];
        proof {
            assert(callers@.take(i + 1).drop_last() =~= callers@.take(i as int));
            assert(callers@.take(i + 1).last() == callers@[i as int]);
        }
        out.append("idx=");
        push_decimal(&mut out, c.0 as u128);
        match c.2 {
            Some(b) => {
                total = total.saturating_add(b);
                out.append(": `");
                out.append(format_xlm4_u(b).as_str());
                out.append("` XLM\n");
            },
            None => {
                out.append(": `(err)`\n");
            },
        }
        proof {
            assert(out@ =~= caller_lines(callers@.take(i + 1)));
        }
        i = i + 1;
    }
    proof {
        assert(callers@.take(i as int) =~= callers@);
    }
    (out, total)
}

/// The hourly report: vault and caller balances, the last hour and the
/// session, the recent successes, the session funnel and the six
/// best-ranked bridges.
pub fn format_report(
    vault_xlm: Option<u128>,
    callers: &[(usize, String, Option<u128>)],
    hour: &ProfitWindow,
    session: &ProfitWindow,
    recent: &Vec<RecentTx>,
    funnel: &ArbStatsSnapshot,
    bridge_breakdown: &[BridgeStatsSnapshot],
) -> (r: String)
    requires
        window_net_ok(*hour),
        window_net_ok(*session),
        recent_ok(recent@),
    ensures
        r@ == report_text(vault_xlm, callers@, *hour, *session, recent@, *funnel, bridge_breakdown@),
{
    let vault = format_vault(vault_xlm);
    let hour_text = format_window("⏱ Last hour:", hour);
    let session_text = format_window("📈 Session:", session);
    let recent_block = format_recent(recent);
    let funnel_block = format_funnel(funnel);
    let bridge_block = format_bridge_breakdown(bridge_breakdown);
    let (caller_block, total) = format_caller_block(callers);
    let vault_amount: u128 = match vault_xlm {
        Some(v) => v,
        None => 0,
    };
    let grand = format_xlm4_u(vault_amount.saturating_add(total));
    let mut out = String::new();
    out.append("📊 LumAgg Arb Monitor\n\n");
    out.append(vault.as_str());
    out.append("\n\n");
    out.append(hour_text.as_str());
    out.append("\n\n");
    out.append(session_text.as_str());
    out.append("\n\n");
    out.append(recent_block.as_str());
    out.append("\n\n");
    out.append(funnel_block.as_str());
    out.append("\n\n");
    out.append(bridge_block.as_str());
    out.append("\n\n");
    out.append(caller_block.as_str());
    out.append("\n✅ Grand Total: `");
    out.append(grand.as_str());
    out.append("` XLM");
    proof {
        assert(out@ =~= report_text(vault_xlm, callers@, *hour, *session, recent@, *funnel, bridge_breakdown@));
    }
    out
}

} // verus!
