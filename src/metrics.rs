use vstd::prelude::*;

use crate::decimal::Decimal;
use crate::error::ParseError;
use crate::fields::{
    count_of, pair_outcome, pair_value, parse_count, parse_percent, parse_slashy_values,
    percent_of,
};

verus! {

/// One container's statistics as the runtime prints them, one text field each.
#[derive(Clone, Debug)]
pub struct DockerContainerStats {
    /// Block device bytes read and written, e.g. `1.1GB / 473MB`.
    pub block_io: String,
    /// CPU usage, e.g. `0.41%`.
    pub cpu_perc: String,
    /// Short container reference.
    pub container: String,
    /// Runtime-assigned id.
    pub id: String,
    /// Memory usage, e.g. `69.07%`.
    pub mem_perc: String,
    /// Memory used and its limit, e.g. `707.3MiB / 1GiB`.
    pub mem_usage: String,
    /// Display name.
    pub name: String,
    /// Network bytes received and sent, e.g. `13.4MB / 2.32MB`.
    pub net_io: String,
    /// Number of processes, e.g. `79`.
    pub pids: String,
}

/// One container's statistics, read into numbers.
#[derive(Clone, Debug)]
pub struct ContainerMetrics {
    pub name: String,
    pub id: String,
    pub container: String,
    pub pids: u64,
    pub cpu_usage_percent: Decimal,
    pub mem_usage_percent: Decimal,
    pub block_input_bytes: u64,
    pub block_output_bytes: u64,
    pub mem_usage_bytes: u64,
    pub mem_limit_bytes: u64,
    pub net_input_bytes: u64,
    pub net_output_bytes: u64,
}

/// A measured field of `DockerContainerStats`.
#[derive(Clone, Copy, Debug, PartialEq, Eq, Structural)]
pub enum Field {
    BlockIo,
    MemUsage,
    NetIo,
    Pids,
    CpuPerc,
    MemPerc,
}

/// The first field of a record that could not be read, and why.
#[derive(Clone, Debug, PartialEq, Eq)]
pub struct NormalizeError {
    pub field: Field,
    pub cause: ParseError,
}

/// Every measured field of `s` can be read.
pub open spec fn record_valid(s: DockerContainerStats) -> bool {
    &&& pair_value(s.block_io@) is Some
    &&& pair_value(s.mem_usage@) is Some
    &&& pair_value(s.net_io@) is Some
    &&& count_of(s.pids@) is Some
    &&& percent_of(s.cpu_perc@) is Some
    &&& percent_of(s.mem_perc@) is Some
}

/// `m` holds the identity of `s` verbatim and the value of each of its measured fields.
pub open spec fn metrics_from(s: DockerContainerStats, m: ContainerMetrics) -> bool {
    &&& m.name@ == s.name@
    &&& m.id@ == s.id@
    &&& m.container@ == s.container@
    &&& pair_value(s.block_io@) == Some((m.block_input_bytes as nat, m.block_output_bytes as nat))
    &&& pair_value(s.mem_usage@) == Some((m.mem_usage_bytes as nat, m.mem_limit_bytes as nat))
    &&& pair_value(s.net_io@) == Some((m.net_input_bytes as nat, m.net_output_bytes as nat))
    &&& count_of(s.pids@) == Some(m.pids)
    &&& percent_of(s.cpu_perc@) == Some(m.cpu_usage_percent@)
    &&& percent_of(s.mem_perc@) == Some(m.mem_usage_percent@)
}

/// `e` names the first field of `s`, in the order block I/O, memory usage, network I/O,
/// process count, CPU percent, memory percent, that cannot be read, with its failure.
pub open spec fn normalize_error_of(s: DockerContainerStats, e: NormalizeError) -> bool {
    if pair_value(s.block_io@) is None {
        e.field == Field::BlockIo && pair_outcome(s.block_io@, Err(e.cause))
    } else if pair_value(s.mem_usage@) is None {
        e.field == Field::MemUsage && pair_outcome(s.mem_usage@, Err(e.cause))
    } else if pair_value(s.net_io@) is None {
        e.field == Field::NetIo && pair_outcome(s.net_io@, Err(e.cause))
    } else if count_of(s.pids@) is None {
        e.field == Field::Pids && e.cause == ParseError::MalformedCount
    } else if percent_of(s.cpu_perc@) is None {
        e.field == Field::CpuPerc && e.cause == ParseError::MalformedPercent
    } else {
        e.field == Field::MemPerc && e.cause == ParseError::MalformedPercent
    }
}

impl ContainerMetrics {
    /// Reads every field of `stat`; fails, with no partial record, on the first field that
    /// cannot be read.
    pub fn new(stat: &DockerContainerStats) -> (r: Result<ContainerMetrics, NormalizeError>)
        ensures
            r is Ok <==> record_valid(*stat),
            r matches Ok(m) ==> metrics_from(*stat, m),
            r matches Err(e) ==> normalize_error_of(*stat, e),
    {
        let (block_input_bytes, block_output_bytes) = match parse_slashy_values(
            stat.block_io.as_str(),
        ) {
            Ok(p) => p,
            Err(cause) => {
                return Err(NormalizeError { field: Field::BlockIo, cause });
            },
        };
        let (mem_usage_bytes, mem_limit_bytes) = match parse_slashy_values(
            stat.mem_usage.as_str(),
        ) {
            Ok(p) => p,
            Err(cause) => {
                return Err(NormalizeError { field: Field::MemUsage, cause });
            },
        };
        let (net_input_bytes, net_output_bytes) = match parse_slashy_values(stat.net_io.as_str()) {
            Ok(p) => p,
            Err(cause) => {
                return Err(NormalizeError { field: Field::NetIo, cause });
            },
        };
        let pids = match parse_count(stat.pids.as_str()) {
            Ok(v) => v,
            Err(cause) => {
                return Err(NormalizeError { field: Field::Pids, cause });
            },
        };
        let cpu_usage_percent = match parse_percent(stat.cpu_perc.clone()) {
            Ok(v) => v,
            Err(cause) => {
                return Err(NormalizeError { field: Field::CpuPerc, cause });
            },
        };
        let mem_usage_percent = match parse_percent(stat.mem_perc.clone()) {
            Ok(v) => v,
            Err(cause) => {
                return Err(NormalizeError { field: Field::MemPerc, cause });
            },
        };
        Ok(
            ContainerMetrics {
                name: stat.name.clone(),
                id: stat.id.clone(),
                container: stat.container.clone(),
                pids,
                cpu_usage_percent,
                mem_usage_percent,
                block_input_bytes,
                block_output_bytes,
                mem_usage_bytes,
                mem_limit_bytes,
                net_input_bytes,
                net_output_bytes,
            },
        )
    }

    /// The label values of every metric of this container: name, id, container.
    pub fn labels(&self) -> (r: [&str; 3])
        ensures
            r[0]@ == self.name@,
            r[1]@ == self.id@,
            r[2]@ == self.container@,
    {
        [self.name.as_str(), self.id.as_str(), self.container.as_str()]
    }
}

/// A normalized record holds exactly what the field parsers return on its raw fields:
/// each pair is the `Ok` outcome of `parse_slashy_values`, the count that of
/// `parse_count`, and each percentage that of `parse_percent`.
pub proof fn lemma_metrics_agree_with_field_parsers(s: DockerContainerStats, m: ContainerMetrics)
    requires
        metrics_from(s, m),
    ensures
        pair_outcome(s.block_io@, Ok((m.block_input_bytes, m.block_output_bytes))),
        pair_outcome(s.mem_usage@, Ok((m.mem_usage_bytes, m.mem_limit_bytes))),
        pair_outcome(s.net_io@, Ok((m.net_input_bytes, m.net_output_bytes))),
        count_of(s.pids@) == Some(m.pids),
        percent_of(s.cpu_perc@) == Some(m.cpu_usage_percent@),
        percent_of(s.mem_perc@) == Some(m.mem_usage_percent@),
{
}

/// Each of `ms` holds what the record of `ss` at its place holds.
pub open spec fn all_metrics_from(ss: Seq<DockerContainerStats>, ms: Seq<ContainerMetrics>) -> bool {
    &&& ss.len() == ms.len()
    &&& forall|j: int| 0 <= j < ms.len() ==> metrics_from(#[trigger] ss[j], ms[j])
}

/// The records of `s` that can be read, in their order.
pub open spec fn kept(s: Seq<DockerContainerStats>) -> Seq<DockerContainerStats>
    decreases s.len(),
{
    if s.len() == 0 {
        Seq::empty()
    } else if record_valid(s.last()) {
        kept(s.drop_last()).push(s.last())
    } else {
        kept(s.drop_last())
    }
}

/// How many records of `s` cannot be read.
pub open spec fn malformed_count(s: Seq<DockerContainerStats>) -> nat
    decreases s.len(),
{
    if s.len() == 0 {
        0
    } else if record_valid(s.last()) {
        malformed_count(s.drop_last())
    } else {
        malformed_count(s.drop_last()) + 1
    }
}

/// Skipping the malformed records loses exactly those: of `N` records, `M` of them
/// malformed, `N - M` are kept.
pub proof fn lemma_kept_len(s: Seq<DockerContainerStats>)
    ensures
        kept(s).len() + malformed_count(s) == s.len(),
    decreases s.len(),
{
    if s.len() > 0 {
        lemma_kept_len(s.drop_last());
    }
}

/// Reads every record of one sampling pass, skipping those that cannot be read. Returns
/// the metrics of the readable records, in their order, and for each skipped record, in
/// increasing order of index, its index and the reason.
pub fn build_snapshot(stats: &Vec<DockerContainerStats>) -> (r: (
    Vec<ContainerMetrics>,
    Vec<(usize, NormalizeError)>,
))
    ensures
        r.0.len() == kept(stats@).len(),
        r.0.len() == stats.len() - malformed_count(stats@),
        all_metrics_from(kept(stats@), r.0@),
        r.1.len() == malformed_count(stats@),
        forall|k: int|
            0 <= k < r.1.len() ==> #[trigger] r.1[k].0 < stats.len() && !record_valid(
                stats[r.1[k].0 as int],
            ) && normalize_error_of(stats[r.1[k].0 as int], r.1[k].1),
        forall|k1: int, k2: int|
            0 <= k1 < k2 < r.1.len() ==> #[trigger] r.1[k1].0 < #[trigger] r.1[k2].0,
{
    let mut out: Vec<ContainerMetrics> = Vec::new();
    let mut skipped: Vec<(usize, NormalizeError)> = Vec::new();
    let n = stats.len();
    for i in 0..n
        invariant
            n == stats.len(),
            all_metrics_from(kept(stats@.take(i as int)), out@),
            skipped.len() == malformed_count(stats@.take(i as int)),
            forall|k: int|
                0 <= k < skipped.len() ==> #[trigger] skipped[k].0 < i && !record_valid(
                    stats[skipped[k].0 as int],
                ) && normalize_error_of(stats[skipped[k].0 as int], skipped[k].1),
            forall|k1: int, k2: int|
                0 <= k1 < k2 < skipped.len() ==> #[trigger] skipped[k1].0 < #[trigger] skipped[k2].0,
    {
        let ghost pre = stats@.take(i as int);
        let ghost next = stats@.take(i + 1);
        assert(next.drop_last() =~= pre);
        assert(next.last() == stats[i as int]);
        match ContainerMetrics::new(&stats[i]) {
            Ok(m) => {
                out.push(m);
                assert(kept(next) == kept(pre).push(stats[i as int]));
                assert(malformed_count(next) == malformed_count(pre));
                assert forall|j: int| 0 <= j < out@.len() implies metrics_from(
                    #[trigger] kept(next)[j],
                    out@[j],
                ) by {
                    if j < out@.len() - 1 {
                        assert(kept(next)[j] == kept(pre)[j]);
                    }
                }
            },
            Err(e) => {
                skipped.push((i, e));
                assert(kept(next) == kept(pre));
                assert(malformed_count(next) == malformed_count(pre) + 1);
            },
        }
    }
    assert(stats@.take(n as int) =~= stats@);
    proof {
        lemma_kept_len(stats@);
    }
    (out, skipped)
}

} // verus!
