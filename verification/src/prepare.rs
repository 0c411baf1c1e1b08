//! Preparing a transaction: the allowance expiry of the vault, the cached
//! latest ledger, and what a failed simulation's event log says was received.

use std::time::Instant;

use vstd::prelude::*;

use crate::clock::{clock_millis, instant_now};
use crate::text::{
    chars_eq, chars_of, contains_chars, has_substring, leading_number, lines_of, nth_piece, nth_piece_chars,
    parse_leading_number, text_lines, trim_chars, trim_text, views_of,
};

verus! {

/// Successful simulate + assemble: unsigned XDR and on-chain return value
/// (`base_total`).
#[derive(Debug, Clone)]
pub struct PreparedSimulation {
    pub unsigned_tx_xdr: String,
    pub amount_out: u128,
    /// Declared inclusion + `min_resource_fee` (stroops).
    pub estimated_fee_stroops: u128,
    /// Simulated Soroban `min_resource_fee` only (stroops).
    pub resource_fee_stroops: u128,
}

/// Ledgers between the latest ledger and the expiry of the vault's reclaim
/// allowance (~100k, well under the typical entry lifetime).
pub const VAULT_ALLOWANCE_LEDGER_CUSHION: u32 = 100_000;

/// How long a cached latest ledger stays valid, in milliseconds.
pub const LATEST_LEDGER_CACHE_TTL_MS: u128 = 60_000;

/// The allowance expiry ledger: `latest_ledger + cushion`, saturating.
pub fn vault_allowance_expiration(latest_ledger: u32) -> (r: u32)
    ensures
        r == (if latest_ledger + VAULT_ALLOWANCE_LEDGER_CUSHION > u32::MAX {
            u32::MAX as int
        } else {
            latest_ledger + VAULT_ALLOWANCE_LEDGER_CUSHION
        }),
{
    latest_ledger.saturating_add(VAULT_ALLOWANCE_LEDGER_CUSHION)
}

/// The latest ledger sequence seen, with when it was seen.
pub struct LatestLedgerCache {
    epoch: Instant,
    entry: Option<(u32, u128)>,
}

impl LatestLedgerCache {
    /// The cached sequence and the time it was stored (milliseconds since
    /// the cache was made).
    pub closed spec fn entry(&self) -> Option<(u32, u128)> {
        self.entry
    }

    /// An empty cache.
    pub fn new() -> (r: Self)
        ensures
            r.entry() is None,
    {
        LatestLedgerCache { epoch: instant_now(), entry: None }
    }

    /// What the cache answers at `now_ms`: the sequence when it is younger
    /// than the time-to-live then.
    pub open spec fn cached_value(&self, now_ms: u128) -> Option<u32> {
        match self.entry() {
            Some((seq, at)) => if (if now_ms >= at { now_ms - at } else { 0 }) < LATEST_LEDGER_CACHE_TTL_MS {
                Some(seq)
            } else {
                None
            },
            None => None,
        }
    }

    /// The cached sequence when it is younger than the time-to-live at
    /// `now_ms`.
    pub fn cached_at(&self, now_ms: u128) -> (r: Option<u32>)
        ensures
            r == self.cached_value(now_ms),
    {
        match self.entry {
            Some((seq, at)) => {
                let age: u128 = if now_ms >= at {
                    now_ms - at
                } else {
                    0
                };
                if age < LATEST_LEDGER_CACHE_TTL_MS {
                    Some(seq)
                } else {
                    None
                }
            },
            None => None,
        }
    }

    /// The cached sequence when it is still fresh on the clock: the answer
    /// of `cached_at` at the time read from the clock.
    pub fn cached(&self) -> (r: Option<u32>)
        ensures
            exists|now_ms: u128| r == #[trigger] self.cached_value(now_ms),
    {
        let now = clock_millis(&self.epoch);
        self.cached_at(now)
    }

    /// Remember `seq` as seen now.
    pub fn store(&mut self, seq: u32)
        ensures
            final(self).entry() matches Some((s, at)) && s == seq,
    {
        let now = clock_millis(&self.epoch);
        self.entry = Some((seq, now));
    }
}

/// The topics of an event line: after the first `topics:[`, up to the next
/// `]`.
pub open spec fn topics_of(line: Seq<char>) -> Option<Seq<char>> {
    match nth_piece(line, "topics:["@, 1) {
        Some(after) => nth_piece(after, "]"@, 0),
        None => None,
    }
}

/// The number at the start of what follows the first `data:` of a line.
pub open spec fn data_amount(line: Seq<char>) -> Option<u128> {
    match nth_piece(line, "data:"@, 1) {
        Some(rest) => leading_number(rest),
        None => None,
    }
}

/// The amount of a transfer line of `token` from anyone but `excluded` to
/// `aggregator`: a line naming the token's contract and a transfer topic,
/// whose topics read `transfer, FROM, TO, ...`.
pub open spec fn transfer_amount(
    line: Seq<char>,
    token: Seq<char>,
    aggregator: Seq<char>,
    excluded: Option<Seq<char>>,
) -> Option<u128> {
    if !has_substring(line, "contract:"@ + token) || !has_substring(line, "topics:[transfer,"@) {
        None
    } else {
        match topics_of(line) {
            Some(t) => match (nth_piece(t, ","@, 0), nth_piece(t, ","@, 1), nth_piece(t, ","@, 2)) {
                (Some(p0), Some(p1), Some(p2)) => if trim_text(p0) != "transfer"@ || trim_text(p2) != aggregator || (
                excluded matches Some(c) && trim_text(p1) == c) {
                    None
                } else {
                    data_amount(line)
                },
                _ => None,
            },
            None => None,
        }
    }
}

/// Line `i` is the first of its text.
pub open spec fn first_of_its_text(lines: Seq<Seq<char>>, i: int) -> bool {
    forall|j: int| 0 <= j < i ==> lines[j] != lines[i]
}

/// Over the first `k` lines, each distinct line counted once: whether a
/// transfer was seen, and the saturating sum of the amounts.
pub open spec fn transfer_total(
    lines: Seq<Seq<char>>,
    token: Seq<char>,
    aggregator: Seq<char>,
    excluded: Option<Seq<char>>,
    k: nat,
) -> (bool, u128)
    decreases k,
{
    if k == 0 {
        (false, 0)
    } else {
        let (saw, total) = transfer_total(lines, token, aggregator, excluded, (k - 1) as nat);
        if !first_of_its_text(lines, k - 1) {
            (saw, total)
        } else {
            match transfer_amount(lines[k - 1], token, aggregator, excluded) {
                Some(a) => (true, if total + a > u128::MAX {
                    u128::MAX
                } else {
                    (total + a) as u128
                }),
                None => (saw, total),
            }
        }
    }
}

/// The sum of the distinct transfers of `token` to `aggregator` (excluding
/// those from `excluded`) in an event log, when there is one.
pub open spec fn received_value(
    log: Seq<char>,
    token: Seq<char>,
    aggregator: Seq<char>,
    excluded: Option<Seq<char>>,
) -> Option<u128> {
    let lines = text_lines(log);
    let (saw, total) = transfer_total(lines, token, aggregator, excluded, lines.len());
    if saw {
        Some(total)
    } else {
        None
    }
}

/// The amount of the last pool swap return among the first `k` lines.
pub open spec fn last_swap_return(lines: Seq<Seq<char>>, k: nat) -> Option<u128>
    decreases k,
{
    if k == 0 {
        None
    } else {
        let line = lines[k - 1];
        if has_substring(line, "topics:[fn_return, swap]"@) && has_substring(line, "data:"@) && data_amount(
            line,
        ) is Some {
            data_amount(line)
        } else {
            last_swap_return(lines, (k - 1) as nat)
        }
    }
}

/// The bridge received by the first leg: the distinct bridge-token transfers
/// to the aggregator, else the last pool swap return.
pub open spec fn bridge_received_value(log: Seq<char>, bridge_token: Seq<char>, aggregator: Seq<char>) -> Option<u128> {
    match received_value(log, bridge_token, aggregator, None) {
        Some(total) => Some(total),
        None => last_swap_return(text_lines(log), text_lines(log).len()),
    }
}

/// Every line has a first line of the same text, at or before it.
proof fn lemma_first_of_text_exists(lines: Seq<Seq<char>>, i: int)
    requires
        0 <= i < lines.len(),
    ensures
        exists|j: int| 0 <= j <= i && lines[j] == lines[i] && #[trigger] first_of_its_text(lines, j),
    decreases i,
{
    if !first_of_its_text(lines, i) {
        let j = choose|j: int| 0 <= j < i && lines[j] == lines[i];
        lemma_first_of_text_exists(lines, j);
        let m = choose|m: int| 0 <= m <= j && lines[m] == lines[j] && #[trigger] first_of_its_text(lines, m);
        assert(lines[m] == lines[i]);
    } else {
        assert(first_of_its_text(lines, i));
    }
}

/// Over the first `k` lines a transfer is seen exactly when some line is a
/// transfer (a repeated line is counted at its first occurrence).
proof fn lemma_transfer_seen(
    lines: Seq<Seq<char>>,
    token: Seq<char>,
    aggregator: Seq<char>,
    excluded: Option<Seq<char>>,
    k: nat,
)
    requires
        k <= lines.len(),
    ensures
        transfer_total(lines, token, aggregator, excluded, k).0 <==> exists|i: int|
            0 <= i < k && #[trigger] transfer_amount(lines[i], token, aggregator, excluded) is Some,
    decreases k,
{
    if k > 0 {
        lemma_transfer_seen(lines, token, aggregator, excluded, (k - 1) as nat);
        let last = k - 1;
        if transfer_amount(lines[last], token, aggregator, excluded) is Some && !first_of_its_text(lines, last) {
            lemma_first_of_text_exists(lines, last);
            let j = choose|j: int| 0 <= j <= last && lines[j] == lines[last] && #[trigger] first_of_its_text(lines, j);
            assert(j < last);
            assert(transfer_amount(lines[j], token, aggregator, excluded) is Some);
        }
    }
}

/// The bridge received by the first leg, read the way the doc comment puts
/// it: when some line is a transfer of the bridge token to the aggregator,
/// the sum of the distinct such transfers; otherwise the amount of the last
/// pool swap return, if any.
pub proof fn lemma_bridge_received_cases(log: Seq<char>, bridge_token: Seq<char>, aggregator: Seq<char>)
    ensures
        (exists|i: int|
            0 <= i < text_lines(log).len() && #[trigger] transfer_amount(text_lines(log)[i], bridge_token, aggregator, None)
                is Some) ==> received_value(log, bridge_token, aggregator, None) is Some && bridge_received_value(
            log,
            bridge_token,
            aggregator,
        ) == received_value(log, bridge_token, aggregator, None),
        !(exists|i: int|
            0 <= i < text_lines(log).len() && #[trigger] transfer_amount(text_lines(log)[i], bridge_token, aggregator, None)
                is Some) ==> bridge_received_value(log, bridge_token, aggregator) == last_swap_return(
            text_lines(log),
            text_lines(log).len(),
        ),
{
    lemma_transfer_seen(text_lines(log), bridge_token, aggregator, None, text_lines(log).len());
}

/// The number after the first `data:` of a line.
fn data_amount_of(line: &[char]) -> (r: Option<u128>)
    ensures
        r == data_amount(line@),
{
    let marker = chars_of("data:");
    proof {
        reveal_strlit("data:");
    }
    match nth_piece_chars(line, marker.as_slice(), 1) {
        Some(rest) => parse_leading_number(rest.as_slice()),
        None => None,
    }
}

/// The amount of a transfer line, per `transfer_amount`.
fn transfer_amount_of(line: &[char], tag: &[char], aggregator: &[char], excluded: &Option<Vec<char>>) -> (r: Option<
    u128,
>)
    requires
        tag@.len() >= 9,
        tag@.take(9) == "contract:"@,
    ensures
        r == transfer_amount(
            line@,
            tag@.skip(9),
            aggregator@,
            match excluded {
                Some(c) => Some(c@),
                None => None,
            },
        ),
{
    proof {
        reveal_strlit("contract:");
        reveal_strlit("topics:[");
        reveal_strlit("]");
        reveal_strlit(",");
        assert(tag@ =~= "contract:"@ + tag@.skip(9));
    }
    let transfer_topic = chars_of("topics:[transfer,");
    if !contains_chars(line, tag) || !contains_chars(line, transfer_topic.as_slice()) {
        return None;
    }
    let topics_marker = chars_of("topics:[");
    let close = chars_of("]");
    let comma = chars_of(",");
    let after = match nth_piece_chars(line, topics_marker.as_slice(), 1) {
        Some(a) => a,
        None => return None,
    };
    let topics = match nth_piece_chars(after.as_slice(), close.as_slice(), 0) {
        Some(t) => t,
        None => return None,
    };
    let p0 = match nth_piece_chars(topics.as_slice(), comma.as_slice(), 0) {
        Some(p) => p,
        None => return None,
    };
    let p1 = match nth_piece_chars(topics.as_slice(), comma.as_slice(), 1) {
        Some(p) => p,
        None => return None,
    };
    let p2 = match nth_piece_chars(topics.as_slice(), comma.as_slice(), 2) {
        Some(p) => p,
        None => return None,
    };
    let t0 = trim_chars(p0.as_slice());
    let t1 = trim_chars(p1.as_slice());
    let t2 = trim_chars(p2.as_slice());
    let transfer_word = chars_of("transfer");
    if !chars_eq(t0.as_slice(), transfer_word.as_slice()) || !chars_eq(t2.as_slice(), aggregator) {
        return None;
    }
    match excluded {
        Some(c) => {
            if chars_eq(t1.as_slice(), c.as_slice()) {
                return None;
            }
        },
        None => {},
    }
    data_amount_of(line)
}

/// Sum the distinct transfers of a token to the aggregator in an event log.
fn received_total(log: &str, token: &str, aggregator: &str, excluded: Option<&str>) -> (r: Option<u128>)
    ensures
        r == received_value(
            log@,
            token@,
            aggregator@,
            match excluded {
                Some(c) => Some(c@),
                None => None,
            },
        ),
{
    let text = chars_of(log);
    let lines = lines_of(text.as_slice());
    let mut tag = chars_of("contract:");
    let token_chars = chars_of(token);
    let mut t: usize = 0;
    while t < token_chars.len()
        invariant
            t <= token_chars@.len(),
            tag@ == "contract:"@ + token_chars@.take(t as int),
        decreases token_chars.len() - t,
    {
        tag.push(token_chars[t]);
        proof {
            assert(token_chars@.take(t + 1) =~= token_chars@.take(t as int).push(token_chars@[t as int]));
        }
        t = t + 1;
    }
    proof {
        reveal_strlit("contract:");
        assert(token_chars@.take(t as int) =~= token_chars@);
        assert(tag@.skip(9) =~= token@);
        assert(tag@.take(9) =~= "contract:"@);
    }
    let agg = chars_of(aggregator);
    let excluded_chars: Option<Vec<char>> = match excluded {
        Some(c) => Some(chars_of(c)),
        None => None,
    };
    let ghost ex = match excluded {
        Some(c) => Some(c@),
        None => None::<Seq<char>>,
    };
    let ghost ls = views_of(lines@);
    let mut saw = false;
    let mut total: u128 = 0;
    let mut i: usize = 0;
    while i < lines.len()
        invariant
            i <= lines@.len(),
            ls == views_of(lines@),
            ls == text_lines(log@),
            tag@.len() >= 9,
            tag@.take(9) == "contract:"@,
            tag@.skip(9) == token@,
            agg@ == aggregator@,
            ex == (match excluded_chars {
                Some(c) => Some(c@),
                None => None,
            }),
            (saw, total) == transfer_total(ls, token@, aggregator@, ex, i as nat),
        decreases lines.len() - i,
    {
        let mut first = true;
        let mut j: usize = 0;
        while j < i
            invariant
                j <= i < lines@.len(),
                ls == views_of(lines@),
                first == (forall|q: int| 0 <= q < j ==> ls[q] != ls[i as int]),
            decreases i - j,
        {
            proof {
                assert(ls[j as int] == lines@[j as int]@);
                assert(ls[i as int] == lines@[i as int]@);
            }
            if chars_eq(lines[j].as_slice(), lines[i].as_slice()) {
                first = false;
            }
            j = j + 1;
        }
        proof {
            assert(first == first_of_its_text(ls, i as int));
        }
        if first {
            match transfer_amount_of(lines[i].as_slice(), tag.as_slice(), agg.as_slice(), &excluded_chars) {
                Some(a) => {
                    saw = true;
                    total = total.saturating_add(a);
                },
                None => {},
            }
        }
        i = i + 1;
    }
    if saw {
        Some(total)
    } else {
        None
    }
}

/// Sum unique token transfers to `aggregator` for `token` (dedup identical
/// lines).
fn parse_token_received_by_aggregator(error: &str, token: &str, aggregator: &str) -> (r: Option<u128>)
    ensures
        r == received_value(error@, token@, aggregator@, None),
{
    received_total(error, token, aggregator, None)
}

/// Bridge output from leg_out: sum deduped bridge-token transfers to the
/// aggregator, or fall back to the last `fn_return, swap` before leg_back.
pub fn parse_bridge_received_from_sim_error(error: &str, bridge_token: &str, aggregator: &str) -> (r: Option<u128>)
    ensures
        r == bridge_received_value(error@, bridge_token@, aggregator@),
{
    if let Some(total) = parse_token_received_by_aggregator(error, bridge_token, aggregator) {
        return Some(total);
    }
    let text = chars_of(error);
    let lines = lines_of(text.as_slice());
    let ghost ls = views_of(lines@);
    let swap_return = chars_of("topics:[fn_return, swap]");
    let data = chars_of("data:");
    let mut last: Option<u128> = None;
    let mut i: usize = 0;
    while i < lines.len()
        invariant
            i <= lines@.len(),
            ls == views_of(lines@),
            ls == text_lines(error@),
            swap_return@ == "topics:[fn_return, swap]"@,
            data@ == "data:"@,
            last == last_swap_return(ls, i as nat),
        decreases lines.len() - i,
    {
        let line = lines[i].as_slice();
        if contains_chars(line, swap_return.as_slice()) && contains_chars(line, data.as_slice()) {
            match data_amount_of(line) {
                Some(a) => {
                    last = Some(a);
                },
                None => {},
            }
        }
        i = i + 1;
    }
    last
}

/// Base token returned by leg_back pool swaps (transfers into aggregator),
/// excluding the initial caller→aggregator principal pull.
pub fn parse_base_received_from_sim_error(error: &str, base_token: &str, aggregator: &str, caller: &str) -> (r: Option<
    u128,
>)
    ensures
        r == received_value(error@, base_token@, aggregator@, Some(caller@)),
{
    received_total(error, base_token, aggregator, Some(caller))
}

} // verus!
