use docker_stats_exporter::decimal::Decimal;
use docker_stats_exporter::error::ParseError;
use docker_stats_exporter::fields::{parse_count, parse_percent, parse_slashy_values};
use docker_stats_exporter::metrics::{build_snapshot, ContainerMetrics, DockerContainerStats, Field, NormalizeError};

fn paperless() -> DockerContainerStats {
    DockerContainerStats {
        block_io: "1.1GB / 473MB".to_string(),
        cpu_perc: "0.41%".to_string(),
        container: "9db408e1b7b7".to_string(),
        id: "9db408e1b7b7".to_string(),
        mem_perc: "69.07%".to_string(),
        mem_usage: "707.3MiB / 1GiB".to_string(),
        name: "paperless".to_string(),
        net_io: "13.4MB / 2.32MB".to_string(),
        pids: "79".to_string(),
    }
}

#[test]
fn normalizes_sample_record() {
    let m = ContainerMetrics::new(&paperless()).unwrap();
    assert_eq!(m.name, "paperless");
    assert_eq!(m.id, "9db408e1b7b7");
    assert_eq!(m.container, "9db408e1b7b7");
    assert_eq!(m.pids, 79);
    assert_eq!(
        m.cpu_usage_percent,
        Decimal {
            negative: false,
            integer: vec!['0'],
            fraction: vec!['4', '1'],
            exponent_negative: false,
            exponent: vec![],
        }
    );
    assert_eq!(
        m.mem_usage_percent,
        Decimal {
            negative: false,
            integer: vec!['6', '9'],
            fraction: vec!['0', '7'],
            exponent_negative: false,
            exponent: vec![],
        }
    );
    assert_eq!(m.block_input_bytes, 1_100_000_000);
    assert_eq!(m.block_output_bytes, 473_000_000);
    assert_eq!(m.net_input_bytes, 13_400_000);
    assert_eq!(m.net_output_bytes, 2_320_000);
    assert_eq!(m.mem_usage_bytes, 741_657_805);
    assert_eq!(m.mem_limit_bytes, 1_073_741_824);
}

#[test]
fn normalized_fields_match_field_parsers() {
    let s = paperless();
    let m = ContainerMetrics::new(&s).unwrap();
    assert_eq!(Ok(m.pids), parse_count(&s.pids));
    assert_eq!(Ok(m.cpu_usage_percent.clone()), parse_percent(s.cpu_perc.clone()));
    assert_eq!(Ok(m.mem_usage_percent.clone()), parse_percent(s.mem_perc.clone()));
    assert_eq!(Ok((m.block_input_bytes, m.block_output_bytes)), parse_slashy_values(&s.block_io));
    assert_eq!(Ok((m.mem_usage_bytes, m.mem_limit_bytes)), parse_slashy_values(&s.mem_usage));
    assert_eq!(Ok((m.net_input_bytes, m.net_output_bytes)), parse_slashy_values(&s.net_io));
}

#[test]
fn malformed_count_names_field() {
    let mut s = paperless();
    s.pids = "N/A".to_string();
    let e = ContainerMetrics::new(&s).unwrap_err();
    assert_eq!(e, NormalizeError { field: Field::Pids, cause: ParseError::MalformedCount });
}

#[test]
fn first_malformed_field_is_reported() {
    let mut s = paperless();
    s.cpu_perc = "fast".to_string();
    s.net_io = "13.4MB".to_string();
    let e = ContainerMetrics::new(&s).unwrap_err();
    assert_eq!(e, NormalizeError { field: Field::NetIo, cause: ParseError::MalformedPair });

    let mut s = paperless();
    s.mem_perc = "69.07".to_string();
    let e = ContainerMetrics::new(&s).unwrap_err();
    assert_eq!(e, NormalizeError { field: Field::MemPerc, cause: ParseError::MalformedPercent });

    let mut s = paperless();
    s.mem_usage = "707.3MiB / 1ZiB".to_string();
    let e = ContainerMetrics::new(&s).unwrap_err();
    assert_eq!(
        e,
        NormalizeError { field: Field::MemUsage, cause: ParseError::UnknownUnit("ZiB".to_string()) }
    );
}

#[test]
fn labels_are_identity_fields() {
    let mut s = paperless();
    s.id = "abc".to_string();
    s.container = "def".to_string();
    let m = ContainerMetrics::new(&s).unwrap();
    assert_eq!(m.labels(), ["paperless", "abc", "def"]);
}

#[test]
fn snapshot_skips_malformed_records() {
    let mut bad = paperless();
    bad.block_io = "lots".to_string();
    let mut other = paperless();
    other.name = "other".to_string();
    let stats = vec![paperless(), bad.clone(), other, bad];
    let (metrics, skipped) = build_snapshot(&stats);
    assert_eq!(metrics.len(), 2);
    assert_eq!(metrics[0].name, "paperless");
    assert_eq!(metrics[1].name, "other");
    assert_eq!(skipped.len(), 2);
    assert_eq!(skipped[0].0, 1);
    assert_eq!(skipped[1].0, 3);
    assert_eq!(skipped[0].1.field, Field::BlockIo);
}

#[test]
fn empty_snapshot() {
    let (metrics, skipped) = build_snapshot(&Vec::new());
    assert!(metrics.is_empty());
    assert!(skipped.is_empty());
}
