//! The metrics sink.
//!
//! An explicitly constructed, passed-by-reference sink; the indexer's
//! driver holds a handle, never process-wide shared state.  It carries
//! three throughput counters, three processing-time metrics (exposed as
//! observation count and summed duration, measured in whole microseconds
//! handed in by the driver), and two gauges.  `gather` renders the text
//! exposition format — one `name value` line per series — with exact
//! decimal rendering.

use vstd::prelude::*;
use vstd::string::StrSliceExecFns;
use vstd::string::StringSliceAdditionalSpecFns;
use crate::commitment::push_bytes;

verus! {

/// The decimal digits of `n`, most significant first.
pub open spec fn dec_u64(n: nat) -> Seq<u8>
    decreases n,
{
    if n < 10 {
        seq![(n + 48) as u8]
    } else {
        dec_u64(n / 10) + seq![(n % 10 + 48) as u8]
    }
}

/// The decimal rendering of a signed value: a minus sign, then digits.
pub open spec fn dec_i64(x: int) -> Seq<u8> {
    if x >= 0 {
        dec_u64(x as nat)
    } else {
        seq![45u8] + dec_u64((-x) as nat)
    }
}

/// Append the decimal digits of `x`.
pub fn push_decimal(out: &mut Vec<u8>, x: u64)
    ensures
        final(out)@ == old(out)@ + dec_u64(x as nat),
{
    if x < 10 {
        out.push((x + 48) as u8);
        proof {
            assert(old(out)@ + dec_u64(x as nat) =~= out@);
        }
        return ;
    }
    let mut cur: u64 = x;
    let mut rev: Vec<u8> = Vec::new();
    while cur >= 10
        invariant
            dec_u64(x as nat) == dec_u64(cur as nat) + rev@.reverse(),
        decreases cur,
    {
        let d = (cur % 10 + 48) as u8;
        proof {
            assert(dec_u64(cur as nat) == dec_u64(cur as nat / 10) + seq![d]);
            assert(rev@.push(d).reverse() =~= seq![d] + rev@.reverse());
            assert(dec_u64(cur as nat / 10) + (seq![d] + rev@.reverse()) =~= (dec_u64(
                cur as nat / 10,
            ) + seq![d]) + rev@.reverse());
        }
        rev.push(d);
        cur = cur / 10;
    }
    let d = (cur + 48) as u8;
    proof {
        assert(dec_u64(cur as nat) =~= seq![d]);
    }
    out.push(d);
    let ghost mid = out@;
    let mut i: usize = rev.len();
    proof {
        assert(mid + rev@.reverse().take(0) =~= mid);
    }
    while i > 0
        invariant
            i <= rev@.len(),
            out@ == mid + rev@.reverse().take(rev@.len() - i),
        decreases i,
    {
        i = i - 1;
        let b = rev[i];
        proof {
            let r = rev@.reverse();
            let k = rev@.len() - i - 1;
            assert(r[k as int] == rev@[i as int]);
            assert(r.take(k + 1) =~= r.take(k as int).push(b));
            assert(mid + r.take(k + 1) =~= (mid + r.take(k as int)).push(b));
        }
        out.push(b);
    }
    proof {
        assert(rev@.reverse().take(rev@.len() as int) =~= rev@.reverse());
        assert(old(out)@ + (seq![d] + rev@.reverse()) =~= (old(out)@ + seq![d]) + rev@.reverse());
        assert(dec_u64(x as nat) =~= seq![d] + rev@.reverse());
    }
}

/// Append the decimal rendering of a signed value.
pub fn push_decimal_i64(out: &mut Vec<u8>, x: i64)
    ensures
        final(out)@ == old(out)@ + dec_i64(x as int),
{
    if x >= 0 {
        push_decimal(out, x as u64);
    } else {
        out.push(45u8);
        let magnitude: u64 = if x == i64::MIN {
            9223372036854775808u64
        } else {
            (-x) as u64
        };
        push_decimal(out, magnitude);
        proof {
            assert((old(out)@ + seq![45u8]) + dec_u64(magnitude as nat) =~= old(out)@ + (seq![45u8]
                + dec_u64(magnitude as nat)));
        }
    }
}

/// Append a metric label's bytes.
pub fn push_label(out: &mut Vec<u8>, s: &str)
    ensures
        final(out)@ == old(out)@ + s.spec_bytes(),
{
    push_bytes(out, s.as_bytes());
}

/// Compare two strings by their characters.
pub fn str_eq_chars(s: &str, t: &str) -> (r: bool)
    ensures
        r == (s@ == t@),
{
    let n = s.unicode_len();
    if n != t.unicode_len() {
        return false;
    }
    let mut i: usize = 0;
    while i < n
        invariant
            n == s@.len(),
            n == t@.len(),
            i <= n,
            forall|k: int| 0 <= k < i ==> s@[k] == t@[k],
        decreases n - i,
    {
        if s.get_char(i) != t.get_char(i) {
            return false;
        }
        i = i + 1;
    }
    proof {
        assert(s@ =~= t@);
    }
    true
}

/// The status gauge encoding: running is 1, error is 2, anything else 0.
pub open spec fn spec_status_code(s: Seq<char>) -> i64 {
    if s == "running"@ {
        1
    } else if s == "error"@ {
        2
    } else {
        0
    }
}

/// Saturating counter bump.
pub open spec fn sat_inc(x: u64) -> u64 {
    if x < u64::MAX {
        (x + 1) as u64
    } else {
        x
    }
}

/// Saturating sum accumulation.
pub open spec fn sat_add(x: u64, d: u64) -> u64 {
    if x + d <= u64::MAX {
        (x + d) as u64
    } else {
        u64::MAX
    }
}

/// The sink's abstract state: every series it exposes.
pub struct MetricsView {
    pub processed_blocks: u64,
    pub processed_transactions: u64,
    pub processed_accounts: u64,
    pub block_time_count: u64,
    pub block_time_sum: u64,
    pub transaction_time_count: u64,
    pub transaction_time_sum: u64,
    pub account_time_count: u64,
    pub account_time_sum: u64,
    pub last_processed_slot: i64,
    pub indexer_status: i64,
}

/// The full text exposition of the sink's state.
pub open spec fn spec_gather(v: MetricsView) -> Seq<u8> {
    "processed_blocks_total ".spec_bytes() + dec_u64(v.processed_blocks as nat)
        + "\n".spec_bytes() + "processed_transactions_total ".spec_bytes() + dec_u64(
        v.processed_transactions as nat,
    ) + "\n".spec_bytes() + "processed_accounts_total ".spec_bytes() + dec_u64(
        v.processed_accounts as nat,
    ) + "\n".spec_bytes() + "block_processing_time_microseconds_count ".spec_bytes() + dec_u64(
        v.block_time_count as nat,
    ) + "\n".spec_bytes() + "block_processing_time_microseconds_sum ".spec_bytes() + dec_u64(
        v.block_time_sum as nat,
    ) + "\n".spec_bytes() + "transaction_processing_time_microseconds_count ".spec_bytes()
        + dec_u64(v.transaction_time_count as nat) + "\n".spec_bytes()
        + "transaction_processing_time_microseconds_sum ".spec_bytes() + dec_u64(
        v.transaction_time_sum as nat,
    ) + "\n".spec_bytes() + "account_processing_time_microseconds_count ".spec_bytes() + dec_u64(
        v.account_time_count as nat,
    ) + "\n".spec_bytes() + "account_processing_time_microseconds_sum ".spec_bytes() + dec_u64(
        v.account_time_sum as nat,
    ) + "\n".spec_bytes() + "last_processed_slot ".spec_bytes() + dec_i64(
        v.last_processed_slot as int,
    ) + "\n".spec_bytes() + "indexer_status ".spec_bytes() + dec_i64(v.indexer_status as int)
        + "\n".spec_bytes()
}

/// The counters, processing-time accumulators and gauges the indexing
/// loop reports.
pub struct PrometheusMetrics {
    processed_blocks: u64,
    processed_transactions: u64,
    processed_accounts: u64,
    block_time_count: u64,
    block_time_sum: u64,
    transaction_time_count: u64,
    transaction_time_sum: u64,
    account_time_count: u64,
    account_time_sum: u64,
    last_processed_slot: i64,
    indexer_status: i64,
}

impl View for PrometheusMetrics {
    type V = MetricsView;

    closed spec fn view(&self) -> MetricsView {
        MetricsView {
            processed_blocks: self.processed_blocks,
            processed_transactions: self.processed_transactions,
            processed_accounts: self.processed_accounts,
            block_time_count: self.block_time_count,
            block_time_sum: self.block_time_sum,
            transaction_time_count: self.transaction_time_count,
            transaction_time_sum: self.transaction_time_sum,
            account_time_count: self.account_time_count,
            account_time_sum: self.account_time_sum,
            last_processed_slot: self.last_processed_slot,
            indexer_status: self.indexer_status,
        }
    }
}

impl PrometheusMetrics {
    /// A fresh sink: every series at zero.
    pub fn new() -> (r: PrometheusMetrics)
        ensures
            r@ == (MetricsView {
                processed_blocks: 0u64,
                processed_transactions: 0u64,
                processed_accounts: 0u64,
                block_time_count: 0u64,
                block_time_sum: 0u64,
                transaction_time_count: 0u64,
                transaction_time_sum: 0u64,
                account_time_count: 0u64,
                account_time_sum: 0u64,
                last_processed_slot: 0i64,
                indexer_status: 0i64,
            }),
    {
        PrometheusMetrics {
            processed_blocks: 0,
            processed_transactions: 0,
            processed_accounts: 0,
            block_time_count: 0,
            block_time_sum: 0,
            transaction_time_count: 0,
            transaction_time_sum: 0,
            account_time_count: 0,
            account_time_sum: 0,
            last_processed_slot: 0,
            indexer_status: 0,
        }
    }

    /// Count one processed block; the counter saturates at its limit.
    pub fn increment_processed_blocks(&mut self)
        ensures
            final(self)@ == (MetricsView {
                processed_blocks: sat_inc(old(self)@.processed_blocks),
                ..old(self)@
            }),
    {
        if self.processed_blocks < u64::MAX {
            self.processed_blocks = self.processed_blocks + 1;
        }
    }

    /// Count one processed transaction; the counter saturates.
    pub fn increment_processed_transactions(&mut self)
        ensures
            final(self)@ == (MetricsView {
                processed_transactions: sat_inc(old(self)@.processed_transactions),
                ..old(self)@
            }),
    {
        if self.processed_transactions < u64::MAX {
            self.processed_transactions = self.processed_transactions + 1;
        }
    }

    /// Count one processed account; the counter saturates.
    pub fn increment_processed_accounts(&mut self)
        ensures
            final(self)@ == (MetricsView {
                processed_accounts: sat_inc(old(self)@.processed_accounts),
                ..old(self)@
            }),
    {
        if self.processed_accounts < u64::MAX {
            self.processed_accounts = self.processed_accounts + 1;
        }
    }

    /// Record one block's processing time, in whole microseconds.
    pub fn observe_block_processing_time(&mut self, micros: u64)
        ensures
            final(self)@ == (MetricsView {
                block_time_count: sat_inc(old(self)@.block_time_count),
                block_time_sum: sat_add(old(self)@.block_time_sum, micros),
                ..old(self)@
            }),
    {
        if self.block_time_count < u64::MAX {
            self.block_time_count = self.block_time_count + 1;
        }
        if self.block_time_sum <= u64::MAX - micros {
            self.block_time_sum = self.block_time_sum + micros;
        } else {
            self.block_time_sum = u64::MAX;
        }
    }

    /// Record one transaction's processing time, in whole microseconds.
    pub fn observe_transaction_processing_time(&mut self, micros: u64)
        ensures
            final(self)@ == (MetricsView {
                transaction_time_count: sat_inc(old(self)@.transaction_time_count),
                transaction_time_sum: sat_add(old(self)@.transaction_time_sum, micros),
                ..old(self)@
            }),
    {
        if self.transaction_time_count < u64::MAX {
            self.transaction_time_count = self.transaction_time_count + 1;
        }
        if self.transaction_time_sum <= u64::MAX - micros {
            self.transaction_time_sum = self.transaction_time_sum + micros;
        } else {
            self.transaction_time_sum = u64::MAX;
        }
    }

    /// Record one account's processing time, in whole microseconds.
    pub fn observe_account_processing_time(&mut self, micros: u64)
        ensures
            final(self)@ == (MetricsView {
                account_time_count: sat_inc(old(self)@.account_time_count),
                account_time_sum: sat_add(old(self)@.account_time_sum, micros),
                ..old(self)@
            }),
    {
        if self.account_time_count < u64::MAX {
            self.account_time_count = self.account_time_count + 1;
        }
        if self.account_time_sum <= u64::MAX - micros {
            self.account_time_sum = self.account_time_sum + micros;
        } else {
            self.account_time_sum = u64::MAX;
        }
    }

    /// Record the last processed slot.
    pub fn set_last_processed_slot(&mut self, slot: i64)
        ensures
            final(self)@ == (MetricsView { last_processed_slot: slot, ..old(self)@ }),
    {
        self.last_processed_slot = slot;
    }

    /// Record the loop's status by name.
    pub fn set_indexer_status(&mut self, status: &str)
        ensures
            final(self)@ == (MetricsView {
                indexer_status: spec_status_code(status@),
                ..old(self)@
            }),
    {
        let code: i64 = if str_eq_chars(status, "running") {
            1
        } else if str_eq_chars(status, "error") {
            2
        } else {
            0
        };
        self.indexer_status = code;
    }

    /// Render every series in the text exposition format; reading
    /// modifies nothing.
    pub fn gather(&self) -> (r: Vec<u8>)
        ensures
            r@ == spec_gather(self@),
    {
        let mut out: Vec<u8> = Vec::new();
        push_label(&mut out, "processed_blocks_total ");
        push_decimal(&mut out, self.processed_blocks);
        push_label(&mut out, "\n");
        push_label(&mut out, "processed_transactions_total ");
        push_decimal(&mut out, self.processed_transactions);
        push_label(&mut out, "\n");
        push_label(&mut out, "processed_accounts_total ");
        push_decimal(&mut out, self.processed_accounts);
        push_label(&mut out, "\n");
        push_label(&mut out, "block_processing_time_microseconds_count ");
        push_decimal(&mut out, self.block_time_count);
        push_label(&mut out, "\n");
        push_label(&mut out, "block_processing_time_microseconds_sum ");
        push_decimal(&mut out, self.block_time_sum);
        push_label(&mut out, "\n");
        push_label(&mut out, "transaction_processing_time_microseconds_count ");
        push_decimal(&mut out, self.transaction_time_count);
        push_label(&mut out, "\n");
        push_label(&mut out, "transaction_processing_time_microseconds_sum ");
        push_decimal(&mut out, self.transaction_time_sum);
        push_label(&mut out, "\n");
        push_label(&mut out, "account_processing_time_microseconds_count ");
        push_decimal(&mut out, self.account_time_count);
        push_label(&mut out, "\n");
        push_label(&mut out, "account_processing_time_microseconds_sum ");
        push_decimal(&mut out, self.account_time_sum);
        push_label(&mut out, "\n");
        push_label(&mut out, "last_processed_slot ");
        push_decimal_i64(&mut out, self.last_processed_slot);
        push_label(&mut out, "\n");
        push_label(&mut out, "indexer_status ");
        push_decimal_i64(&mut out, self.indexer_status);
        push_label(&mut out, "\n");
        proof {
            assert(out@ =~= spec_gather(self@));
        }
        out
    }
}

} // verus!
