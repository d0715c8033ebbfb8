//! CPU utilization sampling: the `cpu` line of `/proc/stat` and the
//! decisions of the sampler (baseline, too soon, idle, measured deltas).
//! Clock readings are monotonic nanoseconds taken by the caller.

use vstd::prelude::*;
use vstd::string::*;
use crate::text::{
    first_line, first_line_spec, parse_u64, parse_u64_spec, split_whitespace_exec, starts_with,
    starts_with_str, ws_tokens,
};

verus! {

broadcast use vstd::string::group_string_axioms;

/// CPU time counters of the `cpu` line of `/proc/stat` (Linux).
#[derive(Debug, Clone, Copy, Default)]
pub struct CpuTime {
    pub user: u64,
    pub nice: u64,
    pub system: u64,
    pub idle: u64,
    pub iowait: u64,
    pub irq: u64,
    pub softirq: u64,
    pub steal: u64,
}

/// Sum of all CPU time categories.
pub open spec fn cpu_total(t: CpuTime) -> int {
    t.user + t.nice + t.system + t.idle + t.iowait + t.irq + t.softirq + t.steal
}

/// Errors of reading the `cpu` line.
#[derive(Debug, Clone, Copy, PartialEq, Eq, Structural)]
pub enum CpuStatError {
    /// The text has no line.
    Empty,
    /// The first line does not start with `cpu `.
    InvalidFormat,
    /// The first line has fewer than nine fields.
    InsufficientFields,
    /// Field number `k` (1 to 8: user, nice, system, idle, iowait, irq,
    /// softirq, steal) is not an unsigned 64-bit number.
    InvalidField(usize),
}

/// The name of counter field `k` (1 to 8).
pub open spec fn field_name(k: int) -> Seq<char> {
    if k == 1 {
        "user"@
    } else if k == 2 {
        "nice"@
    } else if k == 3 {
        "system"@
    } else if k == 4 {
        "idle"@
    } else if k == 5 {
        "iowait"@
    } else if k == 6 {
        "irq"@
    } else if k == 7 {
        "softirq"@
    } else {
        "steal"@
    }
}

impl CpuStatError {
    /// The human-readable message of the error.
    pub fn message(&self) -> (r: String)
        ensures
            r@ == match *self {
                CpuStatError::Empty => "Empty /proc/stat"@,
                CpuStatError::InvalidFormat => "Invalid /proc/stat format"@,
                CpuStatError::InsufficientFields => "Insufficient fields in /proc/stat cpu line"@,
                CpuStatError::InvalidField(k) => "Invalid "@ + field_name(k as int) + " time"@,
            },
    {
        let mut m = String::new();
        match self {
            CpuStatError::Empty => m.append("Empty /proc/stat"),
            CpuStatError::InvalidFormat => m.append("Invalid /proc/stat format"),
            CpuStatError::InsufficientFields => m.append("Insufficient fields in /proc/stat cpu line"),
            CpuStatError::InvalidField(k) => {
                m.append("Invalid ");
                let k = *k;
                if k == 1 {
                    m.append("user");
                } else if k == 2 {
                    m.append("nice");
                } else if k == 3 {
                    m.append("system");
                } else if k == 4 {
                    m.append("idle");
                } else if k == 5 {
                    m.append("iowait");
                } else if k == 6 {
                    m.append("irq");
                } else if k == 7 {
                    m.append("softirq");
                } else {
                    m.append("steal");
                }
                m.append(" time");
            },
        }
        m
    }
}

/// The first of fields `from..9` of a token list that is not a `u64`.
pub open spec fn first_bad_field(t: Seq<Seq<char>>, from: nat) -> Option<nat>
    decreases 9 - from,
{
    if from >= 9 {
        None
    } else if parse_u64_spec(t[from as int]) is None {
        Some(from)
    } else {
        first_bad_field(t, from + 1)
    }
}

/// The counter of field `k` of a token list.
pub open spec fn field_value(t: Seq<Seq<char>>, k: int) -> u64 {
    parse_u64_spec(t[k]).unwrap()
}

/// What the `cpu` line of a `/proc/stat` text gives.
pub open spec fn proc_stat_spec(content: Seq<char>) -> Result<CpuTime, CpuStatError> {
    match first_line_spec(content) {
        None => Err(CpuStatError::Empty),
        Some(l) => if !starts_with(l, "cpu "@) {
            Err(CpuStatError::InvalidFormat)
        } else if ws_tokens(l).len() < 9 {
            Err(CpuStatError::InsufficientFields)
        } else {
            let t = ws_tokens(l);
            match first_bad_field(t, 1) {
                Some(k) => Err(CpuStatError::InvalidField(k as usize)),
                None => Ok(
                    CpuTime {
                        user: field_value(t, 1),
                        nice: field_value(t, 2),
                        system: field_value(t, 3),
                        idle: field_value(t, 4),
                        iowait: field_value(t, 5),
                        irq: field_value(t, 6),
                        softirq: field_value(t, 7),
                        steal: field_value(t, 8),
                    },
                ),
            }
        },
    }
}

proof fn lemma_first_bad_field_none(t: Seq<Seq<char>>, from: nat, k: int)
    requires
        first_bad_field(t, from) is None,
        from <= k < 9,
    ensures
        parse_u64_spec(t[k]) is Some,
    decreases 9 - from,
{
    if from < k {
        lemma_first_bad_field_none(t, from + 1, k);
    }
}

impl CpuTime {
    /// Read the counters from the text of `/proc/stat`: its first line must
    /// be `cpu USER NICE SYSTEM IDLE IOWAIT IRQ SOFTIRQ STEAL ...`.
    pub fn parse_proc_stat(content: &str) -> (r: Result<CpuTime, CpuStatError>)
        ensures
            r == proc_stat_spec(content@),
    {
        let line = match first_line(content) {
            Some(l) => l,
            None => return Err(CpuStatError::Empty),
        };
        if !starts_with_str(line, "cpu ") {
            return Err(CpuStatError::InvalidFormat);
        }
        let parts = split_whitespace_exec(line);
        let ghost t = parts@.map_values(|p: &str| p@);
        if parts.len() < 9 {
            return Err(CpuStatError::InsufficientFields);
        }
        let mut vals: Vec<u64> = Vec::new();
        let mut k: usize = 1;
        while k < 9
            invariant
                1 <= k <= 9,
                parts@.len() >= 9,
                t == parts@.map_values(|p: &str| p@),
                t == ws_tokens(line@),
                first_line_spec(content@) == Some(line@),
                starts_with(line@, "cpu "@),
                vals@.len() == k - 1,
                forall|j: int| 1 <= j < k ==> parse_u64_spec(#[trigger] t[j]) == Some(vals@[j - 1]),
                first_bad_field(t, 1) == first_bad_field(t, k as nat),
            decreases 9 - k,
        {
            match parse_u64(parts[k]) {
                Some(v) => {
                    proof {
                        assert(t[k as int] == parts@[k as int]@);
                    }
                    vals.push(v);
                },
                None => {
                    proof {
                        assert(t[k as int] == parts@[k as int]@);
                        assert(first_bad_field(t, k as nat) == Some(k as nat));
                    }
                    return Err(CpuStatError::InvalidField(k));
                },
            }
            k = k + 1;
        }
        let r = CpuTime {
            user: vals[0],
            nice: vals[1],
            system: vals[2],
            idle: vals[3],
            iowait: vals[4],
            irq: vals[5],
            softirq: vals[6],
            steal: vals[7],
        };
        proof {
            assert(parse_u64_spec(t[1]) == Some(vals@[0]));
            assert(parse_u64_spec(t[2]) == Some(vals@[1]));
            assert(parse_u64_spec(t[3]) == Some(vals@[2]));
            assert(parse_u64_spec(t[4]) == Some(vals@[3]));
            assert(parse_u64_spec(t[5]) == Some(vals@[4]));
            assert(parse_u64_spec(t[6]) == Some(vals@[5]));
            assert(parse_u64_spec(t[7]) == Some(vals@[6]));
            assert(parse_u64_spec(t[8]) == Some(vals@[7]));
        }
        Ok(r)
    }

    /// Total CPU time (all categories).
    pub fn total(&self) -> (r: u64)
        requires
            cpu_total(*self) <= u64::MAX,
        ensures
            r == cpu_total(*self),
    {
        self.user + self.nice + self.system + self.idle + self.iowait + self.irq + self.softirq
            + self.steal
    }
}

/// Counter increases between two samples (each counter difference saturates
/// at zero): user time (user + nice), system time (system + irq + softirq),
/// I/O wait, and the total.
#[derive(Debug, Clone, Copy, PartialEq, Eq, Structural)]
pub struct CpuDeltas {
    pub user: u64,
    pub system: u64,
    pub iowait: u64,
    pub total: u64,
}

/// `a - b`, or zero when `b` is larger.
pub open spec fn sat_sub(a: int, b: int) -> int {
    if a >= b {
        a - b
    } else {
        0
    }
}

/// The deltas from sample `last` to sample `cur`.
pub open spec fn deltas_spec(cur: CpuTime, last: CpuTime) -> CpuDeltas {
    CpuDeltas {
        user: (sat_sub(cur.user as int, last.user as int) + sat_sub(cur.nice as int, last.nice as int)) as u64,
        system: (sat_sub(cur.system as int, last.system as int) + sat_sub(
            cur.irq as int,
            last.irq as int,
        ) + sat_sub(cur.softirq as int, last.softirq as int)) as u64,
        iowait: sat_sub(cur.iowait as int, last.iowait as int) as u64,
        total: sat_sub(cpu_total(cur), cpu_total(last)) as u64,
    }
}

impl CpuDeltas {
    /// The deltas from sample `last` to sample `cur`.
    pub fn between(cur: &CpuTime, last: &CpuTime) -> (r: Self)
        requires
            cpu_total(*cur) <= u64::MAX,
            cpu_total(*last) <= u64::MAX,
        ensures
            r == deltas_spec(*cur, *last),
    {
        let user = cur.user.saturating_sub(last.user) + cur.nice.saturating_sub(last.nice);
        let system = cur.system.saturating_sub(last.system) + cur.irq.saturating_sub(last.irq)
            + cur.softirq.saturating_sub(last.softirq);
        let iowait = cur.iowait.saturating_sub(last.iowait);
        let total = cur.total().saturating_sub(last.total());
        CpuDeltas { user, system, iowait, total }
    }
}

/// When no counter went backwards between two samples, the user, system and
/// iowait deltas together are at most the total delta, so each share of the
/// total, and their sum, lies between 0 and 100 percent.
pub proof fn law_deltas_within_total(cur: CpuTime, last: CpuTime)
    requires
        cpu_total(cur) <= u64::MAX,
        cpu_total(last) <= u64::MAX,
        cur.user >= last.user,
        cur.nice >= last.nice,
        cur.system >= last.system,
        cur.idle >= last.idle,
        cur.iowait >= last.iowait,
        cur.irq >= last.irq,
        cur.softirq >= last.softirq,
        cur.steal >= last.steal,
    ensures
        deltas_spec(cur, last).user + deltas_spec(cur, last).system + deltas_spec(cur, last).iowait
            <= deltas_spec(cur, last).total,
        deltas_spec(cur, last).total == cpu_total(cur) - cpu_total(last),
{
}

/// When no counter went backwards, the deltas split the elapsed CPU time:
/// user time is the user and nice increases, system time the system, irq and
/// softirq increases, iowait its own increase, and these three with the idle
/// and steal increases make up the total delta exactly (idle and steal are
/// in no reported share).
pub proof fn law_deltas_partition_total(cur: CpuTime, last: CpuTime)
    requires
        cpu_total(cur) <= u64::MAX,
        cpu_total(last) <= u64::MAX,
        cur.user >= last.user,
        cur.nice >= last.nice,
        cur.system >= last.system,
        cur.idle >= last.idle,
        cur.iowait >= last.iowait,
        cur.irq >= last.irq,
        cur.softirq >= last.softirq,
        cur.steal >= last.steal,
    ensures
        deltas_spec(cur, last).user == (cur.user - last.user) + (cur.nice - last.nice),
        deltas_spec(cur, last).system == (cur.system - last.system) + (cur.irq - last.irq) + (
        cur.softirq - last.softirq),
        deltas_spec(cur, last).iowait == cur.iowait - last.iowait,
        deltas_spec(cur, last).user + deltas_spec(cur, last).system + deltas_spec(cur, last).iowait
            + (cur.idle - last.idle) + (cur.steal - last.steal) == deltas_spec(cur, last).total,
{
}

/// What one sampling step gives.
#[derive(Debug, Clone, Copy, PartialEq, Eq, Structural)]
pub enum CpuSample {
    /// First sample: stored as the baseline, nothing to report.
    Baseline,
    /// Less than four fifths of the interval since the last sample: skipped.
    TooSoon,
    /// No CPU time passed between the samples (all utilization zero).
    Idle,
    /// Counter increases since the last sample (the total is non-zero).
    Measured(CpuDeltas),
}

/// Minimum sampling interval: one second, in nanoseconds.
pub const CPU_SAMPLE_INTERVAL_NS: u64 = 1_000_000_000;

/// CPU monitor with a minimum sampling interval.
pub struct CpuMonitor {
    last_sample: Option<CpuTime>,
    last_sample_time: u64,
    min_interval: u64,
}

impl CpuMonitor {
    /// The last stored sample.
    pub closed spec fn last_spec(&self) -> Option<CpuTime> {
        self.last_sample
    }

    /// When the last sample was stored (monotonic nanoseconds).
    pub closed spec fn last_time_spec(&self) -> u64 {
        self.last_sample_time
    }

    /// The minimum interval (nanoseconds).
    pub closed spec fn interval_spec(&self) -> u64 {
        self.min_interval
    }

    /// Stored samples have totals that fit in a `u64`.
    pub closed spec fn wf(&self) -> bool {
        match self.last_sample {
            Some(t) => cpu_total(t) <= u64::MAX,
            None => true,
        }
    }

    /// Create a monitor with a one-second minimum interval, at clock reading `now`.
    pub fn new(now: u64) -> (r: Self)
        ensures
            r.wf(),
            r.last_spec() is None,
            r.last_time_spec() == now,
            r.interval_spec() == CPU_SAMPLE_INTERVAL_NS,
    {
        CpuMonitor { last_sample: None, last_sample_time: now, min_interval: CPU_SAMPLE_INTERVAL_NS }
    }

    fn step(&mut self, now: u64, current: CpuTime, force: bool) -> (r: CpuSample)
        requires
            old(self).wf(),
            cpu_total(current) <= u64::MAX,
        ensures
            final(self).wf(),
            final(self).interval_spec() == old(self).interval_spec(),
            step_spec(*old(self), now, current, force, r, *final(self)),
    {
        match self.last_sample {
            None => {
                self.last_sample = Some(current);
                self.last_sample_time = now;
                CpuSample::Baseline
            },
            Some(last) => {
                let elapsed = now.saturating_sub(self.last_sample_time);
                if !force && elapsed < self.min_interval / 5 * 4 + self.min_interval % 5 * 4 / 5 {
                    return CpuSample::TooSoon;
                }
                let d = CpuDeltas::between(&current, &last);
                self.last_sample = Some(current);
                self.last_sample_time = now;
                if d.total == 0 {
                    CpuSample::Idle
                } else {
                    CpuSample::Measured(d)
                }
            },
        }
    }

    /// Sample at clock reading `now` with the counters `current`: the first
    /// sample is the baseline; a sample less than four fifths of the
    /// interval after the last one is skipped; otherwise the deltas since the
    /// last sample are reported and `current` becomes the last sample.
    pub fn sample(&mut self, now: u64, current: CpuTime) -> (r: CpuSample)
        requires
            old(self).wf(),
            cpu_total(current) <= u64::MAX,
        ensures
            final(self).wf(),
            final(self).interval_spec() == old(self).interval_spec(),
            step_spec(*old(self), now, current, false, r, *final(self)),
    {
        self.step(now, current, false)
    }

    /// Sample regardless of the interval (a first sample is still only the baseline).
    pub fn sample_now(&mut self, now: u64, current: CpuTime) -> (r: CpuSample)
        requires
            old(self).wf(),
            cpu_total(current) <= u64::MAX,
        ensures
            final(self).wf(),
            final(self).interval_spec() == old(self).interval_spec(),
            step_spec(*old(self), now, current, true, r, *final(self)),
    {
        self.step(now, current, true)
    }
}

/// Four fifths of an interval (`Duration * 4 / 5`, exact in nanoseconds).
pub open spec fn four_fifths(d: u64) -> int {
    d * 4 / 5
}

/// One sampling step from monitor `m` at clock reading `now` with counters
/// `cur` (`force` skips the interval test) gives `r` and monitor `m2`.
pub open spec fn step_spec(m: CpuMonitor, now: u64, cur: CpuTime, force: bool, r: CpuSample, m2: CpuMonitor) -> bool {
    match m.last_spec() {
        None => r == CpuSample::Baseline && m2.last_spec() == Some(cur) && m2.last_time_spec() == now,
        Some(last) => if !force && sat_sub(now as int, m.last_time_spec() as int) < four_fifths(
            m.interval_spec(),
        ) {
            r == CpuSample::TooSoon && m2 == m
        } else {
            &&& m2.last_spec() == Some(cur)
            &&& m2.last_time_spec() == now
            &&& r == if deltas_spec(cur, last).total == 0 {
                CpuSample::Idle
            } else {
                CpuSample::Measured(deltas_spec(cur, last))
            }
        },
    }
}

} // verus!
