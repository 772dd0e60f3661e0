use git_ai::upgrade::{
    current_timestamp, determine_action, is_newer_version, semver_from_tag,
    should_check_for_updates, should_check_for_updates_at, ChannelRelease, UpdateCache,
    UpdateChannel, UpgradeAction, UPDATE_CHECK_INTERVAL_HOURS,
};

#[test]
fn test_is_newer_version() {
    assert!(!is_newer_version("1.0.0", "1.0.0"));
    assert!(!is_newer_version("1.0.10", "1.0.10"));

    assert!(is_newer_version("1.0.1", "1.0.0"));
    assert!(is_newer_version("1.0.11", "1.0.10"));
    assert!(!is_newer_version("1.0.0", "1.0.1"));
    assert!(!is_newer_version("1.0.10", "1.0.11"));

    assert!(is_newer_version("1.1.0", "1.0.0"));
    assert!(!is_newer_version("1.0.0", "1.1.0"));

    assert!(is_newer_version("2.0.0", "1.0.0"));
    assert!(is_newer_version("2.0.0", "1.9.9"));
    assert!(!is_newer_version("1.9.9", "2.0.0"));

    assert!(is_newer_version("1.0.0.1", "1.0.0"));
    assert!(!is_newer_version("1.0.0", "1.0.0.1"));

    assert!(is_newer_version("1.10.0", "1.9.0"));
    assert!(is_newer_version("1.0.100", "1.0.99"));
    assert!(is_newer_version("100.200.300", "100.200.299"));
}

#[test]
fn test_semver_from_tag_strips_prefix_and_suffix() {
    assert_eq!(semver_from_tag("v1.2.3"), "1.2.3");
    assert_eq!(semver_from_tag("1.2.3"), "1.2.3");
    assert_eq!(semver_from_tag("v1.2.3-next-abc"), "1.2.3");
}

#[test]
fn test_should_check_for_updates_respects_interval() {
    let now = current_timestamp();
    let mut cache = UpdateCache::new(UpdateChannel::Latest);
    cache.last_checked_at = now;
    assert!(!should_check_for_updates(UpdateChannel::Latest, Some(&cache)));

    let stale_offset = (UPDATE_CHECK_INTERVAL_HOURS * 3600) + 10;
    cache.last_checked_at = now.saturating_sub(stale_offset);
    assert!(should_check_for_updates(UpdateChannel::Latest, Some(&cache)));

    assert!(should_check_for_updates(UpdateChannel::Latest, None));
}

#[test]
fn test_should_check_for_updates_verifies_channel() {
    let now = current_timestamp();
    let mut cache = UpdateCache::new(UpdateChannel::Latest);
    cache.last_checked_at = now;

    assert!(!should_check_for_updates(UpdateChannel::Latest, Some(&cache)));

    assert!(should_check_for_updates(UpdateChannel::Next, Some(&cache)));
}

#[test]
fn check_due_exactly_after_the_interval() {
    let mut cache = UpdateCache::new(UpdateChannel::Next);
    cache.last_checked_at = 1_000;
    let interval = UPDATE_CHECK_INTERVAL_HOURS * 3600;
    assert!(!should_check_for_updates_at(1_000 + interval, UpdateChannel::Next, Some(&cache)));
    assert!(should_check_for_updates_at(1_001 + interval, UpdateChannel::Next, Some(&cache)));
    assert!(!should_check_for_updates_at(10, UpdateChannel::Next, Some(&cache)));
    cache.last_checked_at = 0;
    assert!(should_check_for_updates_at(0, UpdateChannel::Next, Some(&cache)));
}

#[test]
fn version_parts_skip_unreadable_pieces() {
    assert!(!is_newer_version("1.x.2", "1.2"));
    assert!(is_newer_version("1.3", "1.x.2"));
    assert!(!is_newer_version("", "0.0"));
    assert_eq!(semver_from_tag("  vv2.0.1+build "), "2.0.1");
}

#[test]
fn determine_action_covers_each_case() {
    let release = ChannelRelease { tag: "v2.0.0".to_string(), semver: "2.0.0".to_string() };
    assert_eq!(determine_action(true, &release, "2.0.0"), UpgradeAction::ForceReinstall);
    assert_eq!(determine_action(false, &release, "2.0.0"), UpgradeAction::AlreadyLatest);
    assert_eq!(determine_action(false, &release, "1.9.9"), UpgradeAction::UpgradeAvailable);
    assert_eq!(determine_action(false, &release, "2.0.1"), UpgradeAction::RunningNewerVersion);
}
