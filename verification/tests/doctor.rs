use squishi::content_detect::ContentKind;
use squishi::doctor::{
    check_binary_identity, check_hook_proxy_signal, check_magika_loads, check_model_cache_location,
    check_semantic_dedup_loads, format_age, run, Check, DoctorReport, Facts, HomeFacts, Status,
};
use squishi::json::Json;
use squishi::report::check_line;

fn home_facts() -> HomeFacts {
    HomeFacts {
        cache_dir: "/home/someone/.cache/huggingface/hub".to_string(),
        cache_exists: true,
        model_present: false,
        skill_dir: "/home/someone/.harness/skills/squishi".to_string(),
        hook_files_present: true,
        last_firing: Some(7200),
    }
}

fn facts() -> Facts {
    Facts {
        program: Ok("/usr/bin/squishi".to_string()),
        version: "1.2.3".to_string(),
        sample_kind: None,
        dedup_load: None,
        home: Some(home_facts()),
        hf_home_set: false,
    }
}

#[test]
fn binary_identity_check_passes_and_reports_a_real_path() {
    let check = check_binary_identity(&Ok("/usr/bin/squishi".to_string()), "1.2.3");
    assert_eq!(check.status, Status::Pass);
    assert!(check.message.contains("squishi v"));
    assert_eq!(check.message, "running /usr/bin/squishi (squishi v1.2.3)");
}

#[test]
fn an_unknown_program_path_is_a_warning() {
    let check = check_binary_identity(&Err("no such file".to_string()), "1.2.3");
    assert_eq!(check.status, Status::Warn);
    assert_eq!(check.message, "could not resolve current_exe: no such file");
}

#[test]
fn magika_check_is_skipped_in_quick_mode() {
    let check = check_magika_loads(true, &None);
    assert_eq!(check.status, Status::Skipped);
}

#[test]
fn magika_check_passes_only_where_the_sample_is_taken_for_rust() {
    let rust = check_magika_loads(false, &Some(ContentKind::Other("rust".to_string())));
    assert_eq!(rust.status, Status::Pass);
    let other = check_magika_loads(false, &Some(ContentKind::Other("c".to_string())));
    assert_eq!(other.status, Status::Fail);
    assert!(other.message.ends_with("sample as Other(\"c\")"));
    let plain = check_magika_loads(false, &Some(ContentKind::PlainText));
    assert_eq!(plain.status, Status::Fail);
}

#[test]
fn semantic_dedup_check_is_skipped_in_quick_mode() {
    let check = check_semantic_dedup_loads(true, &None);
    assert_eq!(check.status, Status::Skipped);
}

#[test]
fn semantic_dedup_check_follows_the_load() {
    let loaded = check_semantic_dedup_loads(false, &Some(Ok(())));
    assert_eq!(loaded.status, Status::Pass);
    let failed = check_semantic_dedup_loads(false, &Some(Err("offline".to_string())));
    assert_eq!(failed.status, Status::Fail);
    assert_eq!(failed.message, "semantic dedup failed to load: offline");
}

#[test]
fn model_cache_location_check_reports_a_real_path_under_home() {
    let check = check_model_cache_location(&Some(home_facts()), false);
    assert!(matches!(check.status, Status::Pass | Status::Warn));
    assert!(check.message.starts_with("/home/someone"));
    let absent = HomeFacts { cache_exists: false, ..home_facts() };
    let check = check_model_cache_location(&Some(absent), true);
    assert_eq!(check.status, Status::Warn);
    assert!(check.message.contains("HF_HOME is set"));
    assert_eq!(check_model_cache_location(&None, false).status, Status::Warn);
}

#[test]
fn the_hook_signal_tells_what_was_seen() {
    let seen = check_hook_proxy_signal(&Some(home_facts()));
    assert_eq!(seen.status, Status::Pass);
    assert_eq!(
        seen.message,
        "hook files present; last observed firing 2h ago (proxy signal only, not a registration \
         guarantee — see issue #84439)"
    );
    let never = HomeFacts { last_firing: None, ..home_facts() };
    assert_eq!(check_hook_proxy_signal(&Some(never)).status, Status::Warn);
    let absent = HomeFacts { hook_files_present: false, ..home_facts() };
    let check = check_hook_proxy_signal(&Some(absent));
    assert_eq!(check.status, Status::Warn);
    assert!(check.message.starts_with("hook files not found at /home/someone"));
    assert!(check.message.ends_with(
        " — this is a proxy signal, not a registration check (see issue #84439)"
    ));
    assert_eq!(check_hook_proxy_signal(&None).status, Status::Warn);
}

#[test]
fn report_has_failures_reflects_real_check_statuses() {
    let report = DoctorReport {
        checks: vec![
            Check {
                name: "a".to_string(),
                status: Status::Pass,
                message: "ok".to_string(),
            },
            Check {
                name: "b".to_string(),
                status: Status::Warn,
                message: "meh".to_string(),
            },
        ],
    };
    assert!(!report.has_failures());

    let mut with_failure = report.clone();
    with_failure.checks.push(Check {
        name: "c".to_string(),
        status: Status::Fail,
        message: "broken".to_string(),
    });
    assert!(with_failure.has_failures());
}

#[test]
fn to_json_produces_the_expected_shape() {
    let report = DoctorReport {
        checks: vec![Check {
            name: "x".to_string(),
            status: Status::Fail,
            message: "quote \" and backslash \\".to_string(),
        }],
    };
    let json = report.to_json();
    let Some(Json::Array(checks)) = json.get("checks") else {
        panic!("no checks");
    };
    assert_eq!(checks.len(), 1);
    assert_eq!(checks[0].get_text("name"), Some("x"));
    assert_eq!(checks[0].get_text("status"), Some("fail"));
    assert_eq!(checks[0].get_text("message"), Some("quote \" and backslash \\"));
}

#[test]
fn run_in_quick_mode_never_loads_either_model() {
    let report = run(true, &facts());
    assert_eq!(report.checks.len(), 5);
    let skipped = report
        .checks
        .iter()
        .filter(|c| c.status == Status::Skipped)
        .count();
    assert_eq!(skipped, 2);
    assert!(!report.has_failures());
}

#[test]
fn a_full_run_fails_where_a_model_does() {
    let mut broken = facts();
    broken.sample_kind = Some(ContentKind::Other("rust".to_string()));
    broken.dedup_load = Some(Err("offline".to_string()));
    let report = run(false, &broken);
    assert_eq!(report.checks.len(), 5);
    assert_eq!(report.checks[1].status, Status::Pass);
    assert_eq!(report.checks[3].status, Status::Fail);
    assert!(report.has_failures());
}

#[test]
fn ages_are_told_in_the_largest_unit() {
    assert_eq!(format_age(59), "59s");
    assert_eq!(format_age(60), "1m");
    assert_eq!(format_age(3599), "59m");
    assert_eq!(format_age(86399), "23h");
    assert_eq!(format_age(172800), "2d");
}

#[test]
fn a_check_on_a_line() {
    let check = Check {
        name: "x".to_string(),
        status: Status::Skipped,
        message: "later".to_string(),
    };
    assert_eq!(check_line(&check), "SKIP  x: later");
}
