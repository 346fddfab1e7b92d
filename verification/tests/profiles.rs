use pureclash::profiles::{
    builtin_row_active, profile_detail, profile_list_rows, profile_row_state, ProfileListRow, ProfileMeta, ProfileSource,
};

fn meta(url: Option<&str>, updated_at: u64, interval: u64, last_attempt: u64) -> ProfileMeta {
    ProfileMeta {
        id: "p1".to_string(),
        name: "Home".to_string(),
        url: url.map(|u| u.to_string()),
        updated_at,
        update_interval_minutes: interval,
        last_auto_attempt_at: last_attempt,
    }
}

#[test]
fn empty_list_has_only_the_builtin_row() {
    assert_eq!(profile_list_rows(0, None), vec![ProfileListRow::Builtin]);
}

#[test]
fn rows_follow_the_profiles_in_order() {
    assert_eq!(
        profile_list_rows(3, None),
        vec![
            ProfileListRow::Builtin,
            ProfileListRow::Profile(0),
            ProfileListRow::Profile(1),
            ProfileListRow::Profile(2),
        ]
    );
}

#[test]
fn editor_opens_below_the_edited_profile() {
    assert_eq!(
        profile_list_rows(3, Some(1)),
        vec![
            ProfileListRow::Builtin,
            ProfileListRow::Profile(0),
            ProfileListRow::Profile(1),
            ProfileListRow::Editor,
            ProfileListRow::Profile(2),
        ]
    );
    assert_eq!(
        profile_list_rows(2, Some(1)),
        vec![ProfileListRow::Builtin, ProfileListRow::Profile(0), ProfileListRow::Profile(1), ProfileListRow::Editor]
    );
}

#[test]
fn editor_of_a_missing_profile_is_not_shown() {
    assert_eq!(
        profile_list_rows(2, Some(5)),
        vec![ProfileListRow::Builtin, ProfileListRow::Profile(0), ProfileListRow::Profile(1)]
    );
}

#[test]
fn subscription_row_state() {
    let m = meta(Some("https://example.com/sub"), 1_700_000_000, 60, 1_700_000_100);
    let s = profile_row_state(&Some("p1".to_string()), &m, false, false);
    assert!(s.active);
    assert_eq!(s.source, ProfileSource::Subscription);
    assert_eq!(s.updated, Some("2023-11-14".to_string()));
    assert_eq!(s.auto_interval_minutes, Some(60));
    assert!(s.auto_update_failed);
    assert!(!s.locked);
    assert!(s.has_link_actions);
    assert!(!s.edit_dimmed);
}

#[test]
fn local_row_state() {
    let m = meta(None, 0, 0, 0);
    let s = profile_row_state(&Some("other".to_string()), &m, false, true);
    assert!(!s.active);
    assert_eq!(s.source, ProfileSource::Local);
    assert_eq!(s.updated, None);
    assert_eq!(s.auto_interval_minutes, None);
    assert!(!s.auto_update_failed);
    assert!(!s.has_link_actions);
    assert!(s.edit_dimmed);
}

#[test]
fn no_active_profile_means_no_active_row() {
    let m = meta(Some("u"), 5, 0, 5);
    let s = profile_row_state(&None, &m, true, false);
    assert!(!s.active);
    assert!(s.locked);
    assert!(s.edit_dimmed);
    assert!(!s.auto_update_failed);
}

#[test]
fn detail_joins_the_parts() {
    assert_eq!(profile_detail("Subscription · 2023-11-14", None, None), "Subscription · 2023-11-14");
    assert_eq!(
        profile_detail("Subscription · 2023-11-14", Some("every 60 min"), None),
        "Subscription · 2023-11-14 · every 60 min"
    );
    assert_eq!(
        profile_detail("Local · never", None, Some("auto update failed")),
        "Local · never · auto update failed"
    );
    assert_eq!(profile_detail("a", Some("b"), Some("c")), "a · b · c");
}

#[test]
fn builtin_row_is_active_only_without_an_active_profile() {
    assert!(builtin_row_active(&None));
    assert!(!builtin_row_active(&Some("p1".to_string())));
}

#[test]
fn at_most_one_row_is_active() {
    let profiles = vec![
        ProfileMeta { id: "a".to_string(), ..meta(None, 0, 0, 0) },
        ProfileMeta { id: "b".to_string(), ..meta(None, 0, 0, 0) },
        ProfileMeta { id: "c".to_string(), ..meta(None, 0, 0, 0) },
    ];
    for active in [None, Some("a".to_string()), Some("b".to_string()), Some("z".to_string())] {
        let mut count = if builtin_row_active(&active) { 1 } else { 0 };
        for p in &profiles {
            if profile_row_state(&active, p, false, false).active {
                count += 1;
            }
        }
        let expected = if active.as_deref() == Some("z") { 0 } else { 1 };
        assert_eq!(count, expected);
    }
}
