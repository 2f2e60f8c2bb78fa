use zfs_exporter::config::{default_interval, default_true, Config, Dataset, Pool, Snapshot};
use zfs_exporter::options::Options;
use zfs_exporter::pattern::CompiledPattern;
use zfs_exporter::scraper::{
    capacity_command, list_datasets_command, list_datasets_recursive_command, list_pools_command,
    pool_stats_command, snapshot_list_command, DatasetAnswers, GaugeWrite, Metric, Scraper,
};
use zfs_exporter::stats::{
    aggregate_snapshots, health_code, parse_pool_line, read_dataset_stats, PoolStats, ScrapeError,
};
use zfs_exporter::text::{parse_i64, split_on, str_eq};

fn strings(v: &[&str]) -> Vec<String> {
    v.iter().map(|s| s.to_string()).collect()
}

fn empty_config() -> Config {
    Config {
        snapshots: Vec::new(),
        datasets: Vec::new(),
        pools: Vec::new(),
        listen: String::from("[::1]:9150"),
        all_pools: false,
        all_datasets: false,
        interval: default_interval(),
    }
}

#[test]
fn defaults() {
    assert!(default_true());
    assert_eq!(default_interval(), 60_000);
    let o = Options { config: String::from("/etc/prometheus/zfs-exporter.toml") };
    assert_eq!(o.config, "/etc/prometheus/zfs-exporter.toml");
}

#[test]
fn split_on_fields() {
    let f = split_on("a\tb\tc", '\t');
    assert_eq!(f, strings(&["a", "b", "c"]));
    assert_eq!(split_on("", '\t'), strings(&[""]));
    assert_eq!(split_on("a\t", '\t'), strings(&["a", ""]));
    assert_eq!(split_on("\ta", '\t'), strings(&["", "a"]));
    assert_eq!(split_on("tank@snap1", '@'), strings(&["tank", "snap1"]));
}

#[test]
fn str_eq_works() {
    assert!(str_eq("abc", "abc"));
    assert!(!str_eq("abc", "abd"));
    assert!(!str_eq("abc", "abcd"));
}

#[test]
fn parse_i64_accepts_integers() {
    assert_eq!(parse_i64("0"), Some(0));
    assert_eq!(parse_i64("1000"), Some(1000));
    assert_eq!(parse_i64("-42"), Some(-42));
    assert_eq!(parse_i64("+5"), Some(5));
    assert_eq!(parse_i64("9223372036854775807"), Some(i64::MAX));
    assert_eq!(parse_i64("-9223372036854775808"), Some(i64::MIN));
}

#[test]
fn parse_i64_rejects_junk() {
    assert_eq!(parse_i64(""), None);
    assert_eq!(parse_i64("-"), None);
    assert_eq!(parse_i64("+"), None);
    assert_eq!(parse_i64("12a3"), None);
    assert_eq!(parse_i64("9223372036854775808"), None);
    assert_eq!(parse_i64("-9223372036854775809"), None);
    assert_eq!(parse_i64(" 1"), None);
}

#[test]
fn health_mapping_is_total() {
    assert_eq!(health_code("ONLINE"), 0);
    assert_eq!(health_code("DEGRADED"), 1);
    assert_eq!(health_code("FAULTED"), 2);
    assert_eq!(health_code("OFFLINE"), 3);
    assert_eq!(health_code("UNAVAIL"), 4);
    assert_eq!(health_code("REMOVED"), 5);
    assert_eq!(health_code("SUSPENDED"), 6);
    assert_eq!(health_code("weird-status"), -1);
    assert_eq!(health_code(""), -1);
}

#[test]
fn pool_line_parses() {
    assert_eq!(
        parse_pool_line("300\t100\t200\tONLINE"),
        Ok(PoolStats { size: 300, alloc: 100, free: 200, health: 0 })
    );
    assert_eq!(
        parse_pool_line("300\t100\t200\tSOMETHING"),
        Ok(PoolStats { size: 300, alloc: 100, free: 200, health: -1 })
    );
}

#[test]
fn pool_line_malformed_rows_fail() {
    assert_eq!(parse_pool_line("300\t100"), Err(ScrapeError::ParseLine));
    assert_eq!(parse_pool_line("abc\t100\t200\tONLINE"), Err(ScrapeError::ParseInt));
    assert_eq!(parse_pool_line("300\tx\t200\tONLINE"), Err(ScrapeError::ParseInt));
    assert_eq!(parse_pool_line(""), Err(ScrapeError::ParseInt));
}

#[test]
fn capacity_rows_in_either_order() {
    let a = read_dataset_stats(&strings(&["ds\tused\t1000", "ds\tavailable\t2000"]));
    assert_eq!(a, Ok((1000, 2000)));
    let b = read_dataset_stats(&strings(&["ds\tavailable\t2000", "ds\tused\t1000"]));
    assert_eq!(b, Ok((1000, 2000)));
    let c = read_dataset_stats(&strings(&[
        "ds\tused\t1000",
        "ds\tavailable\t2000",
        "ds\tquota\t99",
    ]));
    assert_eq!(c, Ok((1000, 2000)));
}

#[test]
fn capacity_malformed_rows_fail() {
    assert_eq!(
        read_dataset_stats(&strings(&["ds\tused"])),
        Err(ScrapeError::ParseLine)
    );
    assert_eq!(
        read_dataset_stats(&strings(&["ds\tused\tabc"])),
        Err(ScrapeError::ParseInt)
    );
}

fn test_pattern() -> CompiledPattern {
    CompiledPattern::compile("^(?P<id>snap[0-9]+)-(?P<label>[A-Za-z]+)$").unwrap()
}

fn agg(lines: &[&str]) -> Result<Vec<(String, i64)>, ScrapeError> {
    aggregate_snapshots(&strings(lines), &test_pattern())
}

#[test]
fn aggregation_takes_max_per_label() {
    let r = agg(&["a@snap1-X\t100", "a@snap2-X\t200", "a@snap3-Y\t50"]).unwrap();
    assert_eq!(r, vec![("X".to_string(), 200), ("Y".to_string(), 50)]);
}

#[test]
fn aggregation_is_order_independent() {
    let base = agg(&["a@snap1-X\t100", "a@snap2-X\t200", "a@snap3-Y\t50"]).unwrap();
    let permuted = agg(&["a@snap3-Y\t50", "a@snap2-X\t200", "a@snap1-X\t100"]).unwrap();
    let duplicated = agg(&[
        "a@snap2-X\t200",
        "a@snap1-X\t100",
        "a@snap2-X\t200",
        "a@snap3-Y\t50",
    ])
    .unwrap();
    let to_pairs = |v: Vec<(String, i64)>| {
        let mut v: Vec<(String, i64)> = v;
        v.sort();
        v
    };
    let want = vec![("X".to_string(), 200), ("Y".to_string(), 50)];
    assert_eq!(to_pairs(base), want);
    assert_eq!(to_pairs(permuted), want);
    assert_eq!(to_pairs(duplicated), want);
}

#[test]
fn aggregation_skips_non_matching_rows() {
    let r = agg(&["a@other\t100", "a@snap1-X\t7"]).unwrap();
    assert_eq!(r, vec![("X".to_string(), 7)]);
}

#[test]
fn aggregation_malformed_rows_fail() {
    assert_eq!(agg(&["a@snap1-X"]), Err(ScrapeError::ParseLine));
    assert_eq!(agg(&["a@snap1-X\tnope"]), Err(ScrapeError::ParseInt));
    assert_eq!(agg(&["nosnapname\t100"]), Err(ScrapeError::NoSnapshotName));
}

#[test]
fn missing_capture_groups_fail_per_matching_row() {
    let no_id = CompiledPattern::compile("^(?P<label>[A-Za-z]+)$").unwrap();
    let r = aggregate_snapshots(&strings(&["a@X\t1"]), &no_id);
    assert_eq!(r, Err(ScrapeError::NoIdCapture));
    let no_label = CompiledPattern::compile("^(?P<id>[A-Za-z]+)$").unwrap();
    let r = aggregate_snapshots(&strings(&["a@X\t1"]), &no_label);
    assert_eq!(r, Err(ScrapeError::NoLabelCapture));
}

#[test]
fn bad_pattern_fails_startup() {
    let mut config = empty_config();
    config.snapshots.push(Snapshot {
        name: "daily".to_string(),
        match_string: "(".to_string(),
    });
    let r = Scraper::from_config(config, None, None, Vec::new());
    assert!(matches!(r, Err(ScrapeError::BadPattern)));
}

#[test]
fn unresolved_pattern_reference_fails_startup() {
    let mut config = empty_config();
    config.datasets.push(Dataset {
        name: "tank".to_string(),
        snapshots: strings(&["nope"]),
        recurse: false,
    });
    let r = Scraper::from_config(config, None, None, Vec::new());
    match r {
        Err(ScrapeError::UnknownPattern(n)) => assert_eq!(n, "nope"),
        other => panic!("expected UnknownPattern, got {:?}", other.is_ok()),
    }
}

#[test]
fn recursive_expansion_assigns_children_and_root() {
    let mut config = empty_config();
    config.snapshots.push(Snapshot {
        name: "daily".to_string(),
        match_string: "^(?P<id>snap[0-9]+)-(?P<label>[A-Za-z]+)$".to_string(),
    });
    config.datasets.push(Dataset {
        name: "root".to_string(),
        snapshots: strings(&["daily"]),
        recurse: true,
    });
    let answers = vec![strings(&["root/a", "root/b", "root"])];
    let s = Scraper::from_config(config, None, None, answers).unwrap();
    assert_eq!(s.dataset_count(), 3);
    let mut names: Vec<String> = Vec::new();
    for i in 0..s.dataset_count() {
        assert_eq!(s.dataset_watched_count(i), 1);
        names.push(s.dataset_name(i).clone());
    }
    names.sort();
    assert_eq!(names, strings(&["root", "root/a", "root/b"]));
}

#[test]
fn discovery_seeds_pools_and_datasets() {
    let mut config = empty_config();
    config.all_pools = true;
    config.all_datasets = true;
    config.pools.push(Pool { name: "extra".to_string() });
    let s = Scraper::from_config(
        config,
        Some(strings(&["tank", "backup"])),
        Some(strings(&["tank", "tank/home"])),
        Vec::new(),
    )
    .unwrap();
    assert_eq!(s.pool_count(), 3);
    assert_eq!(s.dataset_count(), 2);
}

#[test]
fn pool_scenario_emits_four_gauges() {
    let mut config = empty_config();
    config.pools.push(Pool { name: "tank".to_string() });
    let s = Scraper::from_config(config, None, None, Vec::new()).unwrap();
    let writes = s
        .update(&Vec::new(), &vec![strings(&["300\t100\t200\tONLINE"])])
        .unwrap();
    let want = |metric: Metric, value: i64| GaugeWrite {
        metric,
        labels: strings(&["tank"]),
        value,
    };
    assert_eq!(
        writes,
        vec![
            want(Metric::PoolSize, 300),
            want(Metric::PoolAllocated, 100),
            want(Metric::PoolFree, 200),
            want(Metric::PoolHealth, 0),
        ]
    );
}

#[test]
fn dataset_pass_emits_capacity_and_snapshot_gauges() {
    let mut config = empty_config();
    config.snapshots.push(Snapshot {
        name: "daily".to_string(),
        match_string: "^(?P<id>snap[0-9]+)-(?P<label>[A-Za-z]+)$".to_string(),
    });
    config.datasets.push(Dataset {
        name: "tank/home".to_string(),
        snapshots: strings(&["daily"]),
        recurse: false,
    });
    let s = Scraper::from_config(config, None, None, Vec::new()).unwrap();
    let answers = vec![DatasetAnswers {
        capacity: strings(&["tank/home\tused\t1000", "tank/home\tavailable\t2000"]),
        snapshots: vec![strings(&[
            "tank/home@snap1-X\t100",
            "tank/home@snap2-X\t200",
            "tank/home@snap3-Y\t50",
        ])],
    }];
    let writes = s.update(&answers, &Vec::new()).unwrap();
    assert_eq!(
        writes,
        vec![
            GaugeWrite {
                metric: Metric::DatasetUsed,
                labels: strings(&["tank/home"]),
                value: 1000,
            },
            GaugeWrite {
                metric: Metric::DatasetAvailable,
                labels: strings(&["tank/home"]),
                value: 2000,
            },
            GaugeWrite {
                metric: Metric::DatasetLatestSnapshot,
                labels: strings(&["tank/home", "X"]),
                value: 200,
            },
            GaugeWrite {
                metric: Metric::DatasetLatestSnapshot,
                labels: strings(&["tank/home", "Y"]),
                value: 50,
            },
        ]
    );
}

#[test]
fn update_aborts_on_malformed_row() {
    let mut config = empty_config();
    config.pools.push(Pool { name: "tank".to_string() });
    let s = Scraper::from_config(config, None, None, Vec::new()).unwrap();
    let r = s.update(&Vec::new(), &vec![strings(&["300\t100"])]);
    assert_eq!(r, Err(ScrapeError::ParseLine));
}

#[test]
fn command_shapes() {
    let c = list_pools_command();
    assert_eq!(c.program, "zpool");
    assert_eq!(c.args, strings(&["list", "-H", "-o", "name"]));
    let c = list_datasets_command();
    assert_eq!(c.program, "zfs");
    assert_eq!(c.args, strings(&["list", "-H", "-o", "name", "-t", "filesystem"]));
    let c = list_datasets_recursive_command("tank");
    assert_eq!(
        c.args,
        strings(&["list", "-H", "-o", "name", "-t", "filesystem", "-r", "tank"])
    );
    let c = snapshot_list_command("tank/home");
    assert_eq!(
        c.args,
        strings(&["list", "-H", "-o", "name,creation", "-p", "-t", "snapshot", "tank/home"])
    );
    let c = capacity_command("tank/home");
    assert_eq!(c.args, strings(&["get", "-H", "used,available", "-p", "tank/home"]));
    let c = pool_stats_command("tank");
    assert_eq!(c.program, "zpool");
    assert_eq!(
        c.args,
        strings(&["list", "-p", "-H", "-o", "size,alloc,free,health", "tank"])
    );
}

#[test]
fn pattern_source_is_kept() {
    let p = test_pattern();
    assert_eq!(p.source().as_str(), "^(?P<id>snap[0-9]+)-(?P<label>[A-Za-z]+)$");
}
