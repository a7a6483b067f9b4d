use covgate::error::CovgateError;
use covgate::git::{
    record_base_action, record_base_start, RecordAction, RecordStart, branch_from_marker, branch_marker_text, discover_base_ref, find_first_resolved_base_ref, refresh_by_branch,
    repo_root_from_output, trim_text, untracked_from_output,
};

#[test]
fn first_resolved_base_ref_returns_first_match() {
    let resolved = find_first_resolved_base_ref(|candidate| {
        Ok(match candidate {
            "origin/HEAD" => None,
            "origin/main" => None,
            _ => Some("later".to_string()),
        })
    })
    .expect("base-ref scan should succeed");

    assert_eq!(resolved, Some(("origin/master", "later".to_string())));
}

#[test]
fn first_resolved_base_ref_returns_none_when_nothing_resolves() {
    let resolved = find_first_resolved_base_ref(|_| Ok(None)).expect("empty base-ref scan should succeed");

    assert_eq!(resolved, None);
}

#[test]
fn first_resolved_base_ref_stops_at_the_first_failure() {
    let error = find_first_resolved_base_ref(|candidate| {
        if candidate == "origin/main" {
            Err(CovgateError::new("git is missing"))
        } else {
            Ok(None)
        }
    })
    .expect_err("a failing lookup should stop the scan");
    assert_eq!(error.to_string(), "git is missing");
}

#[test]
fn discover_base_prefers_standard_refs_over_recorded_ref() {
    let base = discover_base_ref(|candidate| {
        Ok(match candidate {
            "main" => Some("abc".to_string()),
            "refs/worktree/covgate/base" => Some("recorded".to_string()),
            _ => None,
        })
    })
    .expect("discovery should succeed");
    assert_eq!(base, Some("main".to_string()));
}

#[test]
fn discover_base_falls_back_to_recorded_ref() {
    let base = discover_base_ref(|candidate| {
        Ok(match candidate {
            "refs/worktree/covgate/base" => Some("recorded".to_string()),
            _ => None,
        })
    })
    .expect("discovery should succeed");
    assert_eq!(base, Some("refs/worktree/covgate/base".to_string()));
}

#[test]
fn git_output_is_trimmed() {
    assert_eq!(trim_text("  /repo/root\n"), "/repo/root");
    assert_eq!(repo_root_from_output(" /repo \n"), Some("/repo".to_string()));
    assert_eq!(repo_root_from_output(" \n\t"), None);
}

#[test]
fn untracked_listing_is_the_lines_of_trimmed_output() {
    assert_eq!(
        untracked_from_output("a.rs\n  b c.rs\nlast.rs \n\n"),
        vec!["a.rs".to_string(), "  b c.rs".to_string(), "last.rs".to_string()]
    );
    assert!(untracked_from_output("").is_empty());
}

#[test]
fn recorded_branch_marker_reads_back() {
    let text = branch_marker_text("feature/task");
    assert_eq!(text, "feature/task\n");
    assert_eq!(branch_from_marker(&text), Some("feature/task".to_string()));
    assert_eq!(branch_from_marker("  \n"), None);
}

#[test]
fn record_base_refreshes_only_when_branch_changes() {
    let main = Some("main".to_string());
    let feature = Some("feature".to_string());
    assert_eq!(refresh_by_branch(&main, &main), Some(false));
    assert_eq!(refresh_by_branch(&main, &feature), Some(true));
    assert_eq!(refresh_by_branch(&None, &feature), None);
    assert_eq!(refresh_by_branch(&main, &None), None);
}

#[test]
fn record_base_records_a_first_base_for_the_current_branch() {
    let feature = Some("feature".to_string());
    match record_base_action(&feature, false, &None, None) {
        RecordAction::Record { mark, refreshed } => {
            assert_eq!(mark, feature);
            assert!(!refreshed);
        }
        other => panic!("unexpected action {other:?}"),
    }
}

#[test]
fn record_base_is_idempotent_on_the_same_branch() {
    let feature = Some("feature".to_string());
    match record_base_action(&feature, true, &feature, None) {
        RecordAction::Keep { mark } => assert_eq!(mark, None),
        other => panic!("unexpected action {other:?}"),
    }
}

#[test]
fn record_base_refreshes_after_branch_switch() {
    let main = Some("main".to_string());
    let feature = Some("feature".to_string());
    match record_base_action(&main, true, &feature, None) {
        RecordAction::Record { mark, refreshed } => {
            assert_eq!(mark, main);
            assert!(refreshed);
        }
        other => panic!("unexpected action {other:?}"),
    }
}

#[test]
fn record_base_asks_about_ancestry_when_a_branch_is_unknown() {
    let main = Some("main".to_string());
    assert!(matches!(record_base_action(&main, true, &None, None), RecordAction::CheckAncestor));
    match record_base_action(&main, true, &None, Some(true)) {
        RecordAction::Keep { mark } => assert_eq!(mark, main),
        other => panic!("unexpected action {other:?}"),
    }
    match record_base_action(&None, true, &main, Some(false)) {
        RecordAction::Record { mark, refreshed } => {
            assert_eq!(mark, None);
            assert!(refreshed);
        }
        other => panic!("unexpected action {other:?}"),
    }
}

#[test]
fn record_base_is_unnecessary_when_a_standard_ref_resolves() {
    match record_base_start(Some(("origin/main", "abc123".to_string()))) {
        RecordStart::Unnecessary { base_ref, sha } => {
            assert_eq!(base_ref, "origin/main");
            assert_eq!(sha, "abc123");
        }
        RecordStart::Proceed => panic!("a resolved standard ref makes recording unnecessary"),
    }
    assert!(matches!(record_base_start(None), RecordStart::Proceed));
}
