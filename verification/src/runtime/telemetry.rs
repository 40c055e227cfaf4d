//! Built-in observability: per-route request counters, arena and reload
//! metrics, rendered in Prometheus text format for `/metrics`.
use vstd::prelude::*;
use crate::compiler::compile::{lemma_text_lt_strict, lemma_text_lt_total, lemma_text_lt_trans, text_lt, text_lt_exec};
use crate::text::{decimal, push_str, str_eq, string_of, u64_to_string};

verus! {

/// `x + 1`, wrapping at `u64::MAX` as an atomic counter does.
pub open spec fn inc64(x: u64) -> u64 {
    if x == u64::MAX {
        0
    } else {
        (x + 1) as u64
    }
}

/// `x + y` modulo 2^64.
pub open spec fn add64(x: u64, y: u64) -> u64 {
    if x + y > u64::MAX {
        (x + y - 0x1_0000_0000_0000_0000) as u64
    } else {
        (x + y) as u64
    }
}

fn inc64_exec(x: u64) -> (r: u64)
    ensures
        r == inc64(x),
{
    if x == u64::MAX {
        0
    } else {
        x + 1
    }
}

fn add64_exec(x: u64, y: u64) -> (r: u64)
    ensures
        r == add64(x, y),
{
    if y > u64::MAX - x {
        y - (u64::MAX - x) - 1
    } else {
        x + y
    }
}

/// A duration in microseconds, clamped to what a `u64` holds.
pub open spec fn clamp_micros(m: u128) -> u64 {
    if m > u64::MAX as u128 {
        u64::MAX
    } else {
        m as u64
    }
}

fn clamp_micros_exec(m: u128) -> (r: u64)
    ensures
        r == clamp_micros(m),
{
    if m > u64::MAX as u128 {
        u64::MAX
    } else {
        m as u64
    }
}

// ---------------------------------------------------------------------------
// Arena metrics
// ---------------------------------------------------------------------------

/// Process-wide arena statistics, used to hold the memory contract:
/// arenas are created per request and fully reclaimed at request end.
#[derive(Debug)]
pub struct ArenaMetrics {
    /// Arenas currently alive. Must return to 0 once requests drain.
    active: usize,
    /// Requests whose arena has been dropped.
    completed: u64,
    /// Cumulative bytes ever arena-allocated.
    total_bytes: u64,
}

/// `x + 1` and `x - 1`, wrapping as an atomic `usize` counter does.
pub open spec fn inc_usize(x: usize) -> usize {
    if x == usize::MAX {
        0
    } else {
        (x + 1) as usize
    }
}

pub open spec fn dec_usize(x: usize) -> usize {
    if x == 0 {
        usize::MAX
    } else {
        (x - 1) as usize
    }
}

impl ArenaMetrics {
    pub closed spec fn active_spec(&self) -> usize {
        self.active
    }

    pub closed spec fn completed_spec(&self) -> u64 {
        self.completed
    }

    pub closed spec fn total_bytes_spec(&self) -> u64 {
        self.total_bytes
    }

    pub fn new() -> (r: ArenaMetrics)
        ensures
            r.active_spec() == 0,
            r.completed_spec() == 0,
            r.total_bytes_spec() == 0,
    {
        ArenaMetrics { active: 0, completed: 0, total_bytes: 0 }
    }

    pub fn active(&self) -> (r: usize)
        ensures
            r == self.active_spec(),
    {
        self.active
    }

    pub fn completed(&self) -> (r: u64)
        ensures
            r == self.completed_spec(),
    {
        self.completed
    }

    pub fn total_bytes(&self) -> (r: u64)
        ensures
            r == self.total_bytes_spec(),
    {
        self.total_bytes
    }

    /// A metered request arena was created.
    pub fn arena_opened(&mut self)
        ensures
            final(self).active_spec() == inc_usize(old(self).active_spec()),
            final(self).completed_spec() == old(self).completed_spec(),
            final(self).total_bytes_spec() == old(self).total_bytes_spec(),
    {
        self.active = if self.active == usize::MAX {
            0
        } else {
            self.active + 1
        };
    }

    /// A metered request arena that allocated `bytes` was reclaimed.
    pub fn arena_closed(&mut self, bytes: usize)
        ensures
            final(self).active_spec() == dec_usize(old(self).active_spec()),
            final(self).completed_spec() == inc64(old(self).completed_spec()),
            final(self).total_bytes_spec() == add64(old(self).total_bytes_spec(), bytes as u64),
    {
        self.total_bytes = add64_exec(self.total_bytes, bytes as u64);
        self.completed = inc64_exec(self.completed);
        self.active = if self.active == 0 {
            usize::MAX
        } else {
            self.active - 1
        };
    }
}

/// Reclaiming an arena undoes its creation in the live count: once every
/// request that opened an arena has closed it, the count is back where it
/// started.
pub proof fn lemma_arena_balance(active: usize)
    ensures
        dec_usize(inc_usize(active)) == active,
        inc_usize(dec_usize(active)) == active,
{
}

/// The live-arena count after `events`, from `active`: `true` is an arena
/// opened (`arena_opened`), `false` one reclaimed (`arena_closed`).
pub open spec fn active_after(active: usize, events: Seq<bool>) -> usize
    decreases events.len(),
{
    if events.len() == 0 {
        active
    } else {
        active_after(
            if events[0] {
                inc_usize(active)
            } else {
                dec_usize(active)
            },
            events.drop_first(),
        )
    }
}

/// Arenas opened minus arenas reclaimed in `events`.
pub open spec fn open_balance(events: Seq<bool>) -> int
    decreases events.len(),
{
    if events.len() == 0 {
        0
    } else {
        (if events[0] {
            1int
        } else {
            -1int
        }) + open_balance(events.drop_first())
    }
}

proof fn lemma_active_after(active: usize, events: Seq<bool>)
    requires
        forall|k: int| 0 <= k <= events.len() ==> 0 <= active + #[trigger] open_balance(events.take(k)) <= usize::MAX,
    ensures
        active_after(active, events) == active + open_balance(events),
    decreases events.len(),
{
    if events.len() > 0 {
        let rest = events.drop_first();
        assert(events.take(1).drop_first() =~= Seq::<bool>::empty());
        assert(0 <= active + open_balance(events.take(1)) <= usize::MAX);
        let step: int = if events[0] {
            1
        } else {
            -1
        };
        assert(open_balance(events.take(1)) == step + open_balance(events.take(1).drop_first()));
        let next = if events[0] {
            inc_usize(active)
        } else {
            dec_usize(active)
        };
        assert(next == active + step);
        assert forall|k: int| 0 <= k <= rest.len() implies 0 <= next + #[trigger] open_balance(rest.take(k)) <= usize::MAX by {
            let t = events.take(k + 1);
            assert(t.drop_first() =~= rest.take(k));
            assert(t[0] == events[0]);
            assert(open_balance(t) == step + open_balance(t.drop_first()));
            assert(0 <= active + open_balance(t) <= usize::MAX);
        }
        lemma_active_after(next, rest);
        assert(events.take(events.len() as int) =~= events);
    }
}

/// Arenas fully drain: when every reclaim follows the opening of its arena
/// (no prefix of `events` reclaims more than it opened, nor holds more live
/// arenas than the counter can count), the live count from a fresh
/// `ArenaMetrics` is the number of arenas still open, so 0 once every
/// opened arena was reclaimed.
pub proof fn lemma_arenas_drain(events: Seq<bool>)
    requires
        forall|k: int| 0 <= k <= events.len() ==> 0 <= #[trigger] open_balance(events.take(k)) <= usize::MAX,
    ensures
        active_after(0, events) == open_balance(events),
        open_balance(events) == 0 ==> active_after(0, events) == 0,
{
    lemma_active_after(0, events);
}

// ---------------------------------------------------------------------------
// Request telemetry
// ---------------------------------------------------------------------------

/// Counters of one (method, path, status) row.
pub struct HttpRow {
    pub method: String,
    pub path: String,
    pub status: u16,
    pub count: u64,
    pub micros_total: u64,
    pub micros_max: u64,
}

pub struct RowM {
    pub method: Seq<char>,
    pub path: Seq<char>,
    pub status: u16,
    pub count: u64,
    pub micros_total: u64,
    pub micros_max: u64,
}

impl HttpRow {
    pub open spec fn model(&self) -> RowM {
        RowM {
            method: self.method@,
            path: self.path@,
            status: self.status,
            count: self.count,
            micros_total: self.micros_total,
            micros_max: self.micros_max,
        }
    }
}

/// The order rows are listed in: by path, then method, then status.
pub open spec fn key_lt(a: RowM, b: RowM) -> bool {
    ||| text_lt(a.path, b.path)
    ||| a.path == b.path && text_lt(a.method, b.method)
    ||| a.path == b.path && a.method == b.method && a.status < b.status
}

pub open spec fn same_key(a: RowM, b: RowM) -> bool {
    a.path == b.path && a.method == b.method && a.status == b.status
}

pub open spec fn rows_sorted(rows: Seq<RowM>) -> bool {
    forall|i: int, j: int| 0 <= i < j < rows.len() ==> key_lt(#[trigger] rows[i], #[trigger] rows[j])
}

pub open spec fn new_row(method: Seq<char>, path: Seq<char>, status: u16, micros: u64) -> RowM {
    RowM { method, path, status, count: 1, micros_total: micros, micros_max: micros }
}

pub open spec fn bumped(r: RowM, micros: u64) -> RowM {
    RowM {
        count: inc64(r.count),
        micros_total: add64(r.micros_total, micros),
        micros_max: if r.micros_max < micros {
            micros
        } else {
            r.micros_max
        },
        ..r
    }
}

/// The rows after one request was recorded: its row bumped, or a new row
/// put in its place in the order.
pub open spec fn recorded(
    rows: Seq<RowM>,
    method: Seq<char>,
    path: Seq<char>,
    status: u16,
    micros: u64,
) -> Seq<RowM>
    decreases rows.len(),
{
    let n = new_row(method, path, status, micros);
    if rows.len() == 0 {
        seq![n]
    } else if same_key(rows[0], n) {
        seq![bumped(rows[0], micros)] + rows.drop_first()
    } else if key_lt(n, rows[0]) {
        seq![n] + rows
    } else {
        seq![rows[0]] + recorded(rows.drop_first(), method, path, status, micros)
    }
}

/// Process-wide telemetry: per-route request counters and reload counters.
pub struct Telemetry {
    rows: Vec<HttpRow>,
    hot_reloads: u64,
    hot_reload_micros_total: u64,
}

impl Telemetry {
    #[verifier::type_invariant]
    spec fn sorted(&self) -> bool {
        rows_sorted(self.rows@.map_values(|r: HttpRow| r.model()))
    }

    /// The per-route rows, in (path, method, status) order.
    pub closed spec fn rows_spec(&self) -> Seq<RowM> {
        self.rows@.map_values(|r: HttpRow| r.model())
    }

    pub closed spec fn reloads_spec(&self) -> u64 {
        self.hot_reloads
    }

    pub closed spec fn reload_micros_spec(&self) -> u64 {
        self.hot_reload_micros_total
    }

    pub fn new() -> (r: Telemetry)
        ensures
            r.rows_spec().len() == 0,
            r.reloads_spec() == 0,
            r.reload_micros_spec() == 0,
    {
        let t = Telemetry { rows: Vec::new(), hot_reloads: 0, hot_reload_micros_total: 0 };
        assert(t.rows@.map_values(|r: HttpRow| r.model()) =~= Seq::<RowM>::empty());
        t
    }

    /// The place of the row for (method, path, status): its index, and
    /// whether the row is there already.
    fn find_slot(&self, method: &str, path: &str, status: u16) -> (r: (usize, bool))
        ensures
            r.0 <= self.rows_spec().len(),
            forall|j: int| 0 <= j < r.0 ==> key_lt(#[trigger] self.rows_spec()[j], new_row(method@, path@, status, 0)),
            r.1 ==> r.0 < self.rows_spec().len() && same_key(self.rows_spec()[r.0 as int], new_row(method@, path@, status, 0)),
            !r.1 && r.0 < self.rows_spec().len() ==> key_lt(new_row(method@, path@, status, 0), self.rows_spec()[r.0 as int]),
    {
        let ghost rm = self.rows_spec();
        let ghost n = new_row(method@, path@, status, 0);
        let mut k: usize = 0;
        while k < self.rows.len()
            invariant
                k <= self.rows@.len(),
                rm == self.rows_spec(),
                rm.len() == self.rows@.len(),
                n == new_row(method@, path@, status, 0),
                forall|j: int| 0 <= j < k ==> key_lt(#[trigger] rm[j], n),
            decreases self.rows.len() - k,
        {
            let r = &self.rows[k];
            assert(rm[k as int] == r.model());
            let same_path = str_eq(r.path.as_str(), path);
            let same_method = str_eq(r.method.as_str(), method);
            if same_path && same_method && r.status == status {
                return (k, true);
            }
            let before = text_lt_exec(r.path.as_str(), path) || (same_path && (text_lt_exec(
                r.method.as_str(),
                method,
            ) || (same_method && r.status < status)));
            if !before {
                proof {
                    lemma_key_lt_total(rm[k as int], n);
                }
                return (k, false);
            }
            k = k + 1;
        }
        (k, false)
    }

    /// Records one served request.
    pub fn record_request(&mut self, method: &str, path: &str, status: u16, micros: u128)
        ensures
            final(self).rows_spec() == recorded(
                old(self).rows_spec(),
                method@,
                path@,
                status,
                clamp_micros(micros),
            ),
            final(self).reloads_spec() == old(self).reloads_spec(),
            final(self).reload_micros_spec() == old(self).reload_micros_spec(),
    {
        proof {
            use_type_invariant(&*self);
        }
        let m = clamp_micros_exec(micros);
        let ghost rm = self.rows_spec();
        let ghost n = new_row(method@, path@, status, m);
        let (k, found) = self.find_slot(method, path, status);
        proof {
            lemma_recorded_split(rm, method@, path@, status, m, k as int);
        }
        let mut rows: Vec<HttpRow> = Vec::new();
        std::mem::swap(&mut rows, &mut self.rows);
        assert(rows@.map_values(|r: HttpRow| r.model()) == rm);
        if found {
            let mut row = rows.remove(k);
            assert(row.model() == rm[k as int]);
            row.count = inc64_exec(row.count);
            row.micros_total = add64_exec(row.micros_total, m);
            if row.micros_max < m {
                row.micros_max = m;
            }
            assert(row.model() == bumped(rm[k as int], m));
            rows.insert(k, row);
            proof {
                let nm = rows@.map_values(|r: HttpRow| r.model());
                assert(rm.skip(k as int).drop_first() =~= rm.skip(k + 1));
                assert(nm =~= rm.take(k as int) + recorded(rm.skip(k as int), method@, path@, status, m));
                lemma_recorded_sorted(rm, method@, path@, status, m);
            }
        } else {
            let row = HttpRow {
                method: string_of(method),
                path: string_of(path),
                status,
                count: 1,
                micros_total: m,
                micros_max: m,
            };
            assert(row.model() == n);
            rows.insert(k, row);
            proof {
                let nm = rows@.map_values(|r: HttpRow| r.model());
                assert(nm =~= rm.insert(k as int, n));
                if (k as int) < rm.len() {
                    lemma_key_lt_strict(n, rm[k as int]);
                    assert(rm.skip(k as int)[0] == rm[k as int]);
                    assert(recorded(rm.skip(k as int), method@, path@, status, m) == seq![n] + rm.skip(k as int));
                } else {
                    assert(rm.skip(k as int) =~= Seq::<RowM>::empty());
                }
                assert(nm =~= rm.take(k as int) + recorded(rm.skip(k as int), method@, path@, status, m));
                lemma_recorded_sorted(rm, method@, path@, status, m);
            }
        }
        self.rows = rows;
    }
    /// Records one successful hot reload that took `micros`.
    pub fn record_reload(&mut self, micros: u128)
        ensures
            final(self).rows_spec() == old(self).rows_spec(),
            final(self).reloads_spec() == inc64(old(self).reloads_spec()),
            final(self).reload_micros_spec() == add64(
                old(self).reload_micros_spec(),
                clamp_micros(micros),
            ),
    {
        proof {
            use_type_invariant(&*self);
        }
        self.hot_reloads = inc64_exec(self.hot_reloads);
        let m = clamp_micros_exec(micros);
        self.hot_reload_micros_total = add64_exec(self.hot_reload_micros_total, m);
    }

    pub fn hot_reloads(&self) -> (r: u64)
        ensures
            r == self.reloads_spec(),
    {
        self.hot_reloads
    }

    fn push_request_lines(&self, out: &mut String)
        ensures
            final(out)@ == old(out)@ + request_lines(self.rows_spec()),
    {
        let ghost rm = self.rows_spec();
        let ghost o = out@;
        let mut i: usize = 0;
        assert(rm.take(0) =~= Seq::<RowM>::empty());
        assert(o + request_lines(rm.take(0)) =~= o);
        while i < self.rows.len()
            invariant
                i <= self.rows@.len(),
                rm == self.rows_spec(),
                rm.len() == self.rows@.len(),
                out@ == o + request_lines(rm.take(i as int)),
            decreases self.rows.len() - i,
        {
            let r = &self.rows[i];
            push_str(out, "rustjvm_http_requests_total{method=\"");
            push_str(out, r.method.as_str());
            push_str(out, "\",path=\"");
            push_str(out, r.path.as_str());
            push_str(out, "\",status=\"");
            push_decimal_str(out, r.status as u64);
            push_str(out, "\"} ");
            push_decimal_str(out, r.count);
            push_str(out, "\n");
            assert(rm.take(i + 1).drop_last() =~= rm.take(i as int));
            assert(rm.take(i + 1).last() == r.model());
            assert(out@ =~= o + request_lines(rm.take(i + 1)));
            i = i + 1;
        }
        assert(rm.take(rm.len() as int) =~= rm);
    }

    fn push_latency_lines(&self, out: &mut String)
        ensures
            final(out)@ == old(out)@ + latency_lines(self.rows_spec()),
    {
        let ghost rm = self.rows_spec();
        let ghost o = out@;
        let mut i: usize = 0;
        assert(rm.take(0) =~= Seq::<RowM>::empty());
        assert(o + latency_lines(rm.take(0)) =~= o);
        while i < self.rows.len()
            invariant
                i <= self.rows@.len(),
                rm == self.rows_spec(),
                rm.len() == self.rows@.len(),
                out@ == o + latency_lines(rm.take(i as int)),
            decreases self.rows.len() - i,
        {
            let r = &self.rows[i];
            push_latency_line(out, r);
            assert(rm.take(i + 1).drop_last() =~= rm.take(i as int));
            assert(rm.take(i + 1).last() == r.model());
            assert(out@ =~= o + latency_lines(rm.take(i + 1)));
            i = i + 1;
        }
        assert(rm.take(rm.len() as int) =~= rm);
    }

    /// Prometheus text exposition format.
    pub fn render_prometheus(&self, arena: &ArenaMetrics) -> (r: String)
        ensures
            r@ == prometheus_text(
                self.rows_spec(),
                arena.active_spec() as nat,
                arena.completed_spec() as nat,
                arena.total_bytes_spec() as nat,
                self.reloads_spec() as nat,
                self.reload_micros_spec() as nat,
            ),
    {
        let mut out = string_of(
            "# HELP rustjvm_http_requests_total Total HTTP requests served.\n# TYPE rustjvm_http_requests_total counter\n",
        );
        self.push_request_lines(&mut out);
        push_str(
            &mut out,
            "# HELP rustjvm_http_request_duration_microseconds Request latency.\n# TYPE rustjvm_http_request_duration_microseconds summary\n",
        );
        self.push_latency_lines(&mut out);
        push_str(
            &mut out,
            "# HELP rustjvm_arena_active Request arenas currently alive.\n# TYPE rustjvm_arena_active gauge\nrustjvm_arena_active ",
        );
        push_decimal_str(&mut out, arena.active() as u64);
        push_str(
            &mut out,
            "\n# HELP rustjvm_arena_completed_total Requests whose arena was reclaimed.\n# TYPE rustjvm_arena_completed_total counter\nrustjvm_arena_completed_total ",
        );
        push_decimal_str(&mut out, arena.completed());
        push_str(
            &mut out,
            "\n# HELP rustjvm_arena_bytes_total Cumulative arena-allocated bytes.\n# TYPE rustjvm_arena_bytes_total counter\nrustjvm_arena_bytes_total ",
        );
        push_decimal_str(&mut out, arena.total_bytes());
        push_str(
            &mut out,
            "\n# HELP rustjvm_hot_reloads_total Successful LiveRust swaps.\n# TYPE rustjvm_hot_reloads_total counter\nrustjvm_hot_reloads_total ",
        );
        push_decimal_str(&mut out, self.hot_reloads);
        push_str(&mut out, "\nrustjvm_hot_reload_duration_microseconds_sum ");
        push_decimal_str(&mut out, self.hot_reload_micros_total);
        push_str(&mut out, "\n");
        proof {
            assert(out@ =~= prometheus_text(
                self.rows_spec(),
                arena.active_spec() as nat,
                arena.completed_spec() as nat,
                arena.total_bytes_spec() as nat,
                self.reloads_spec() as nat,
                self.reload_micros_spec() as nat,
            ));
        }
        out
    }
}

fn push_latency_line(out: &mut String, r: &HttpRow)
    ensures
        final(out)@ == old(out)@ + latency_line(r.model()),
{
    let ghost o = out@;
    let mut labels = string_of("method=\"");
    push_str(&mut labels, r.method.as_str());
    push_str(&mut labels, "\",path=\"");
    push_str(&mut labels, r.path.as_str());
    push_str(&mut labels, "\"");
    assert(labels@ =~= row_labels(r.model()));
    push_str(out, "rustjvm_http_request_duration_microseconds_count{");
    push_str(out, labels.as_str());
    push_str(out, "} ");
    push_decimal_str(out, r.count);
    push_str(out, "\n");
    push_str(out, "rustjvm_http_request_duration_microseconds_sum{");
    push_str(out, labels.as_str());
    push_str(out, "} ");
    push_decimal_str(out, r.micros_total);
    push_str(out, "\n");
    push_str(out, "rustjvm_http_request_duration_microseconds_max{");
    push_str(out, labels.as_str());
    push_str(out, "} ");
    push_decimal_str(out, r.micros_max);
    push_str(out, "\n");
    assert(out@ =~= o + latency_line(r.model()));
}

fn push_decimal_str(out: &mut String, n: u64)
    ensures
        final(out)@ == old(out)@ + decimal(n as nat),
{
    let s = u64_to_string(n);
    push_str(out, s.as_str());
}

/// The request-count line of one row.
pub open spec fn request_line(r: RowM) -> Seq<char> {
    "rustjvm_http_requests_total{method=\""@ + r.method + "\",path=\""@ + r.path
        + "\",status=\""@ + decimal(r.status as nat) + "\"} "@ + decimal(r.count as nat) + "\n"@
}

pub open spec fn request_lines(rows: Seq<RowM>) -> Seq<char>
    decreases rows.len(),
{
    if rows.len() == 0 {
        Seq::empty()
    } else {
        request_lines(rows.drop_last()) + request_line(rows.last())
    }
}

pub open spec fn row_labels(r: RowM) -> Seq<char> {
    "method=\""@ + r.method + "\",path=\""@ + r.path + "\""@
}

/// The latency summary lines of one row.
pub open spec fn latency_line(r: RowM) -> Seq<char> {
    "rustjvm_http_request_duration_microseconds_count{"@ + row_labels(r) + "} "@ + decimal(
        r.count as nat,
    ) + "\n"@ + "rustjvm_http_request_duration_microseconds_sum{"@ + row_labels(r) + "} "@
        + decimal(r.micros_total as nat) + "\n"@
        + "rustjvm_http_request_duration_microseconds_max{"@ + row_labels(r) + "} "@ + decimal(
        r.micros_max as nat,
    ) + "\n"@
}

pub open spec fn latency_lines(rows: Seq<RowM>) -> Seq<char>
    decreases rows.len(),
{
    if rows.len() == 0 {
        Seq::empty()
    } else {
        latency_lines(rows.drop_last()) + latency_line(rows.last())
    }
}

/// The `/metrics` text.
pub open spec fn prometheus_text(
    rows: Seq<RowM>,
    arena_active: nat,
    arena_completed: nat,
    arena_bytes: nat,
    reloads: nat,
    reload_micros: nat,
) -> Seq<char> {
    "# HELP rustjvm_http_requests_total Total HTTP requests served.\n# TYPE rustjvm_http_requests_total counter\n"@
        + request_lines(rows)
        + "# HELP rustjvm_http_request_duration_microseconds Request latency.\n# TYPE rustjvm_http_request_duration_microseconds summary\n"@
        + latency_lines(rows)
        + "# HELP rustjvm_arena_active Request arenas currently alive.\n# TYPE rustjvm_arena_active gauge\nrustjvm_arena_active "@
        + decimal(arena_active)
        + "\n# HELP rustjvm_arena_completed_total Requests whose arena was reclaimed.\n# TYPE rustjvm_arena_completed_total counter\nrustjvm_arena_completed_total "@
        + decimal(arena_completed)
        + "\n# HELP rustjvm_arena_bytes_total Cumulative arena-allocated bytes.\n# TYPE rustjvm_arena_bytes_total counter\nrustjvm_arena_bytes_total "@
        + decimal(arena_bytes)
        + "\n# HELP rustjvm_hot_reloads_total Successful LiveRust swaps.\n# TYPE rustjvm_hot_reloads_total counter\nrustjvm_hot_reloads_total "@
        + decimal(reloads) + "\nrustjvm_hot_reload_duration_microseconds_sum "@ + decimal(
        reload_micros,
    ) + "\n"@
}

proof fn lemma_key_lt_strict(a: RowM, b: RowM)
    ensures
        !key_lt(a, a),
        key_lt(a, b) ==> !key_lt(b, a) && !same_key(a, b),
{
    lemma_text_lt_strict(a.path, b.path);
    lemma_text_lt_strict(a.method, b.method);
}

proof fn lemma_key_lt_trans(a: RowM, b: RowM, c: RowM)
    requires
        key_lt(a, b),
        key_lt(b, c),
    ensures
        key_lt(a, c),
{
    if text_lt(a.path, b.path) && text_lt(b.path, c.path) {
        lemma_text_lt_trans(a.path, b.path, c.path);
    }
    if a.path == b.path && b.path == c.path && text_lt(a.method, b.method) && text_lt(b.method, c.method) {
        lemma_text_lt_trans(a.method, b.method, c.method);
    }
}

proof fn lemma_key_lt_total(a: RowM, b: RowM)
    ensures
        same_key(a, b) || key_lt(a, b) || key_lt(b, a),
{
    if a.path != b.path {
        lemma_text_lt_total(a.path, b.path);
    } else if a.method != b.method {
        lemma_text_lt_total(a.method, b.method);
    }
}

/// Recording skips the rows ordered before the new key.
proof fn lemma_recorded_split(rows: Seq<RowM>, method: Seq<char>, path: Seq<char>, status: u16, micros: u64, k: int)
    requires
        0 <= k <= rows.len(),
        forall|j: int| 0 <= j < k ==> key_lt(#[trigger] rows[j], new_row(method, path, status, 0)),
    ensures
        recorded(rows, method, path, status, micros) == rows.take(k) + recorded(rows.skip(k), method, path, status, micros),
    decreases k,
{
    if k == 0 {
        assert(rows.skip(0) =~= rows);
        assert(rows.take(0) + recorded(rows, method, path, status, micros) =~= recorded(rows, method, path, status, micros));
    } else {
        let n = new_row(method, path, status, micros);
        assert(key_lt(rows[0], new_row(method, path, status, 0)));
        lemma_key_lt_strict(rows[0], n);
        let rest = rows.drop_first();
        assert forall|j: int| 0 <= j < k - 1 implies key_lt(#[trigger] rest[j], new_row(method, path, status, 0)) by {
            assert(rest[j] == rows[j + 1]);
        }
        lemma_recorded_split(rest, method, path, status, micros, k - 1);
        assert(rest.skip(k - 1) =~= rows.skip(k));
        assert(rows.take(k) =~= seq![rows[0]] + rest.take(k - 1));
        assert(recorded(rows, method, path, status, micros) =~= rows.take(k) + recorded(rows.skip(k), method, path, status, micros));
    }
}

/// Recording a request keeps the rows in (path, method, status) order,
/// one row per key.
pub proof fn lemma_recorded_sorted(rows: Seq<RowM>, method: Seq<char>, path: Seq<char>, status: u16, micros: u64)
    requires
        rows_sorted(rows),
    ensures
        rows_sorted(recorded(rows, method, path, status, micros)),
    decreases rows.len(),
{
    let n = new_row(method, path, status, micros);
    let r = recorded(rows, method, path, status, micros);
    if rows.len() == 0 {
    } else if same_key(rows[0], n) {
        assert forall|i: int, j: int| 0 <= i < j < r.len() implies key_lt(#[trigger] r[i], #[trigger] r[j]) by {
            if i == 0 {
                assert(key_lt(rows[0], rows[j]));
            } else {
                assert(key_lt(rows[i], rows[j]));
            }
        }
    } else if key_lt(n, rows[0]) {
        assert forall|i: int, j: int| 0 <= i < j < r.len() implies key_lt(#[trigger] r[i], #[trigger] r[j]) by {
            if i == 0 {
                if j > 1 {
                    assert(key_lt(rows[0], rows[j - 1]));
                    lemma_key_lt_trans(n, rows[0], rows[j - 1]);
                }
            } else {
                assert(key_lt(rows[i - 1], rows[j - 1]));
            }
        }
    } else {
        lemma_key_lt_total(rows[0], n);
        let rest = rows.drop_first();
        assert forall|i: int, j: int| 0 <= i < j < rest.len() implies key_lt(#[trigger] rest[i], #[trigger] rest[j]) by {
            assert(key_lt(rows[i + 1], rows[j + 1]));
        }
        lemma_recorded_sorted(rest, method, path, status, micros);
        let tail = recorded(rest, method, path, status, micros);
        lemma_recorded_members(rest, method, path, status, micros);
        assert forall|i: int, j: int| 0 <= i < j < r.len() implies key_lt(#[trigger] r[i], #[trigger] r[j]) by {
            if i == 0 {
                assert(r[j] == tail[j - 1]);
                let t = tail[j - 1];
                if same_key(t, n) {
                } else {
                    let q = choose|q: int| 0 <= q < rest.len() && same_key(#[trigger] rest[q], t);
                    assert(key_lt(rows[0], rows[q + 1]));
                }
            } else {
                assert(r[i] == tail[i - 1]);
                assert(r[j] == tail[j - 1]);
            }
        }
    }
}

/// Every row after recording has the new key or the key of an earlier row.
proof fn lemma_recorded_members(rows: Seq<RowM>, method: Seq<char>, path: Seq<char>, status: u16, micros: u64)
    ensures
        forall|i: int| 0 <= i < recorded(rows, method, path, status, micros).len() ==>
            same_key(#[trigger] recorded(rows, method, path, status, micros)[i], new_row(method, path, status, micros))
            || exists|q: int| 0 <= q < rows.len() && same_key(#[trigger] rows[q], recorded(rows, method, path, status, micros)[i]),
    decreases rows.len(),
{
    let n = new_row(method, path, status, micros);
    let r = recorded(rows, method, path, status, micros);
    if rows.len() == 0 {
    } else if same_key(rows[0], n) {
        assert forall|i: int| 0 <= i < r.len() implies same_key(#[trigger] r[i], n)
            || exists|q: int| 0 <= q < rows.len() && same_key(#[trigger] rows[q], r[i]) by {
            if i == 0 {
                assert(same_key(rows[0], r[0]));
            } else {
                assert(same_key(rows[i], r[i]));
            }
        }
    } else if key_lt(n, rows[0]) {
        assert forall|i: int| 0 <= i < r.len() implies same_key(#[trigger] r[i], n)
            || exists|q: int| 0 <= q < rows.len() && same_key(#[trigger] rows[q], r[i]) by {
            if i > 0 {
                assert(same_key(rows[i - 1], r[i]));
            }
        }
    } else {
        let rest = rows.drop_first();
        lemma_recorded_members(rest, method, path, status, micros);
        let tail = recorded(rest, method, path, status, micros);
        assert forall|i: int| 0 <= i < r.len() implies same_key(#[trigger] r[i], n)
            || exists|q: int| 0 <= q < rows.len() && same_key(#[trigger] rows[q], r[i]) by {
            if i == 0 {
                assert(same_key(rows[0], r[0]));
            } else {
                assert(r[i] == tail[i - 1]);
                if !same_key(tail[i - 1], n) {
                    let q = choose|q: int| 0 <= q < rest.len() && same_key(#[trigger] rest[q], tail[i - 1]);
                    assert(same_key(rows[q + 1], r[i]));
                }
            }
        }
    }
}

/// The row of `rows` with the key of `k`, if any.
pub open spec fn row_for(rows: Seq<RowM>, k: RowM) -> Option<RowM>
    decreases rows.len(),
{
    if rows.len() == 0 {
        None
    } else if same_key(rows[0], k) {
        Some(rows[0])
    } else {
        row_for(rows.drop_first(), k)
    }
}

proof fn lemma_no_row_below(rows: Seq<RowM>, k: RowM)
    requires
        rows_sorted(rows),
        rows.len() > 0 ==> key_lt(k, rows[0]),
    ensures
        row_for(rows, k) is None,
    decreases rows.len(),
{
    if rows.len() > 0 {
        lemma_key_lt_strict(k, rows[0]);
        let rest = rows.drop_first();
        assert forall|i: int, j: int| 0 <= i < j < rest.len() implies key_lt(#[trigger] rest[i], #[trigger] rest[j]) by {
            assert(key_lt(rows[i + 1], rows[j + 1]));
        }
        if rest.len() > 0 {
            assert(key_lt(rows[0], rows[1]));
            lemma_key_lt_trans(k, rows[0], rest[0]);
        }
        lemma_no_row_below(rest, k);
    }
}

/// Recording a request bumps the counters of its own (method, path,
/// status) row, or starts that row at a count of 1, and leaves the
/// counters of every other row as they were.
pub proof fn lemma_record_counts(
    rows: Seq<RowM>,
    method: Seq<char>,
    path: Seq<char>,
    status: u16,
    micros: u64,
    other: RowM,
)
    requires
        rows_sorted(rows),
    ensures
        row_for(recorded(rows, method, path, status, micros), new_row(method, path, status, 0))
            == Some(
            match row_for(rows, new_row(method, path, status, 0)) {
                Some(r) => bumped(r, micros),
                None => new_row(method, path, status, micros),
            },
        ),
        !same_key(other, new_row(method, path, status, 0)) ==> row_for(
            recorded(rows, method, path, status, micros),
            other,
        ) == row_for(rows, other),
    decreases rows.len(),
{
    let n = new_row(method, path, status, micros);
    let k = new_row(method, path, status, 0);
    let r = recorded(rows, method, path, status, micros);
    if rows.len() == 0 {
        assert(r.drop_first() =~= Seq::<RowM>::empty());
        assert(r[0] == n);
        assert(row_for(r.drop_first(), other) is None);
    } else if same_key(rows[0], n) {
        assert(r.drop_first() =~= rows.drop_first());
        assert(r[0] == bumped(rows[0], micros));
    } else if key_lt(n, rows[0]) {
        assert(r.drop_first() =~= rows);
        assert(r[0] == n);
        lemma_no_row_below(rows, k);
    } else {
        let rest = rows.drop_first();
        assert forall|i: int, j: int| 0 <= i < j < rest.len() implies key_lt(#[trigger] rest[i], #[trigger] rest[j]) by {
            assert(key_lt(rows[i + 1], rows[j + 1]));
        }
        lemma_record_counts(rest, method, path, status, micros, other);
        assert(r.drop_first() =~= recorded(rest, method, path, status, micros));
    }
}

} // verus!
