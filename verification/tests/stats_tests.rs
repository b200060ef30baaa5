use dutopia::stats::{age_bucket, parse_age_pair, sanitize_mtime, AgeCfg, UserStats};

#[test]
fn userstats_update_accumulates_correctly() {
    let mut stats = UserStats::default();
    stats.update(100, 100, 0, 1000, 2000);
    stats.update(200, 0, 200, 3000, 4000);

    assert_eq!(stats.file_count, 2);
    assert_eq!(stats.file_size, 300);
    assert_eq!(stats.disk_size, 100);
    assert_eq!(stats.linked_size, 200);
    assert_eq!(stats.latest_atime, 3000);
    assert_eq!(stats.latest_mtime, 4000);
}

#[test]
fn userstats_update_keeps_latest_times() {
    let mut stats = UserStats::default();
    stats.update(100, 100, 0, 5000, 6000);
    stats.update(200, 200, 0, 3000, 8000);
    stats.update(300, 300, 0, 7000, 4000);

    assert_eq!(stats.latest_atime, 7000);
    assert_eq!(stats.latest_mtime, 8000);
}

#[test]
fn userstats_update_order_does_not_matter() {
    // the two step orders land in the same cell
    let mut a = UserStats::default();
    a.update(100, 100, 0, 1000, 2000);
    a.update(200, 0, 200, 3000, 4000);

    let mut b = UserStats::default();
    b.update(200, 0, 200, 3000, 4000);
    b.update(100, 100, 0, 1000, 2000);

    assert_eq!(a, b);
}

#[test]
fn userstats_update_saturates() {
    let mut stats = UserStats::default();
    stats.update(u64::MAX, u64::MAX, u64::MAX, 1, 1);
    stats.update(u64::MAX, 5, 5, 2, 2);
    assert_eq!(stats.file_size, u64::MAX);
    assert_eq!(stats.disk_size, u64::MAX);
    assert_eq!(stats.linked_size, u64::MAX);
}

#[test]
fn age_bucket_categorizes_correctly() {
    let cfg = AgeCfg { young: 60, old: 600 };
    let now = 1_000_000_000;

    assert_eq!(age_bucket(now, now - 30 * 86_400, cfg), 0);
    assert_eq!(age_bucket(now, now - 59 * 86_400, cfg), 0);
    assert_eq!(age_bucket(now, now - 60 * 86_400, cfg), 1);
    assert_eq!(age_bucket(now, now - 100 * 86_400, cfg), 1);
    assert_eq!(age_bucket(now, now - 599 * 86_400, cfg), 1);
    assert_eq!(age_bucket(now, now - 600 * 86_400, cfg), 2);
    assert_eq!(age_bucket(now, now - 700 * 86_400, cfg), 2);
    assert_eq!(age_bucket(now, 0, cfg), 2);
    assert_eq!(age_bucket(now, -1, cfg), 2);
}

#[test]
fn age_bucket_boundary_conditions() {
    let cfg = AgeCfg { young: 60, old: 600 };
    let now = 1_000_000_000;

    assert_eq!(age_bucket(now, now - 60 * 86_400, cfg), 1);
    assert_eq!(age_bucket(now, now - 60 * 86_400 + 1, cfg), 0);
    assert_eq!(age_bucket(now, now - 600 * 86_400, cfg), 2);
    assert_eq!(age_bucket(now, now - 600 * 86_400 + 1, cfg), 1);
}

#[test]
fn age_bucket_young_minus_one_day_is_recent() {
    let cfg = AgeCfg { young: 60, old: 600 };
    let now = 1_000_000_000;
    // an age of exactly young - 1 days stays in the recent bucket,
    // old - 1 days stays middling
    assert_eq!(age_bucket(now, now - 59 * 86_400, cfg), 0);
    assert_eq!(age_bucket(now, now - 599 * 86_400, cfg), 1);
}

#[test]
fn sanitize_mtime_handles_future_dates() {
    let now = 1_000_000_000;

    assert_eq!(sanitize_mtime(now, now - 1000), now - 1000);
    assert_eq!(sanitize_mtime(now, now + 3600), now + 3600);
    assert_eq!(sanitize_mtime(now, now + 86_399), now + 86_399);
    assert_eq!(sanitize_mtime(now, now + 86_400), now + 86_400);
    assert_eq!(sanitize_mtime(now, now + 86_401), 0);
    assert_eq!(sanitize_mtime(now, now + 2 * 86_400), 0);
    assert_eq!(sanitize_mtime(now, now + 365 * 86_400), 0);
}

#[test]
fn age_cfg_default_values() {
    let cfg = AgeCfg::default();
    assert_eq!(cfg.young, 60);
    assert_eq!(cfg.old, 600);
}

#[test]
fn age_cfg_from_args_uses_provided_values() {
    let args = Some((30i64, 365i64));
    let cfg = AgeCfg::from_args(&args);
    assert_eq!(cfg.young, 30);
    assert_eq!(cfg.old, 365);
}

#[test]
fn age_cfg_from_args_uses_defaults_when_none() {
    let cfg = AgeCfg::from_args(&None);
    assert_eq!(cfg.young, 60);
    assert_eq!(cfg.old, 600);
}

#[test]
fn age_pair_parses_and_validates() {
    assert_eq!(parse_age_pair(b"60,600").unwrap(), (60, 600));
    assert_eq!(parse_age_pair(b" 30 , 365 ").unwrap(), (30, 365));
    assert!(parse_age_pair(b"60").is_err());
    assert!(parse_age_pair(b"60,600,900").is_err());
    assert!(parse_age_pair(b"x,600").is_err());
    assert!(parse_age_pair(b"600,60").is_err());
    assert!(parse_age_pair(b"-5,600").is_err());
}
