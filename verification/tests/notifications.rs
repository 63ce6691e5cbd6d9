use sutra::model::{Environment, State, UnitStatus};
use sutra::notifications::{higher_priority_sound, state_variant_eq, unit_key};
use sutra::notifications::{Action, Notifier, ProcessOutput};

fn unit(name: &str, state: State) -> UnitStatus {
    UnitStatus {
        name: name.to_string(),
        state,
        detail: None,
    }
}

fn unit_with_detail(name: &str, state: State, detail: &str) -> UnitStatus {
    UnitStatus {
        name: name.to_string(),
        state,
        detail: Some(detail.to_string()),
    }
}

fn env(id: &str, units: Vec<UnitStatus>) -> Environment {
    Environment {
        id: id.to_string(),
        dir: format!("/tmp/{}", id),
        pid: 1,
        ports: Vec::new(),
        started: 0,
        alive: true,
        units,
    }
}

fn sound_of(out: &ProcessOutput) -> Option<(&'static str, String)> {
    match &out.action {
        Some(Action::SoundAndSpeak { sound, text }) => Some((sound, text.clone())),
        Some(Action::Shutdown) => panic!("a diff cycle never asks the worker to stop"),
        None => None,
    }
}

#[test]
fn first_process_never_enqueues() {
    let mut n = Notifier::new();
    let snapshot = vec![env("aa11", vec![unit("server", State::Failed)])];
    let out = n.process(&snapshot);
    assert!(out.action.is_none());
    assert!(out.notifications.is_empty());
}

#[test]
fn detail_only_changes_are_silent() {
    let mut n = Notifier::new();
    let s1 = vec![env(
        "aa11",
        vec![unit_with_detail("server", State::Building, "step 1")],
    )];
    let s2 = vec![env(
        "aa11",
        vec![unit_with_detail("server", State::Building, "step 2")],
    )];
    n.process(&s1);
    let out = n.process(&s2);
    assert!(out.action.is_none());
    assert!(out.notifications.is_empty());
}

#[test]
fn repeated_snapshots_never_refire() {
    let mut n = Notifier::new();
    let s1 = vec![env("aa11", vec![unit("server", State::Running)])];
    let s2 = vec![env("aa11", vec![unit("server", State::Failed)])];
    n.process(&s1);
    assert!(n.process(&s2).action.is_some());
    assert!(n.process(&s2).action.is_none());
    assert!(n.process(&s2).action.is_none());
}

#[test]
fn transitions_into_silent_states_never_alert() {
    let mut n = Notifier::new();
    let s1 = vec![env(
        "aa11",
        vec![
            unit("a", State::Running),
            unit("b", State::Building),
            unit("c", State::Ready),
        ],
    )];
    let s2 = vec![env(
        "aa11",
        vec![
            unit("a", State::Stopped),
            unit("b", State::Absent),
            unit("c", State::Other("gone".to_string())),
        ],
    )];
    n.process(&s1);
    let out = n.process(&s2);
    assert!(out.action.is_none());
    assert!(out.notifications.is_empty());
}

#[test]
fn a_new_unit_appearing_is_a_transition() {
    let mut n = Notifier::new();
    let s1 = vec![env("aa11", vec![unit("server", State::Running)])];
    let s2 = vec![env(
        "aa11",
        vec![unit("server", State::Running), unit("vite", State::Ready)],
    )];
    n.process(&s1);
    let out = n.process(&s2);
    let (sound, text) = sound_of(&out).expect("a new unit alerts");
    assert_eq!(sound, "Ping");
    assert_eq!(text, "vite ready");
    assert_eq!(out.notifications.len(), 1);
    assert_eq!(out.notifications[0].title, "sutra \u{2014} vite");
    assert_eq!(out.notifications[0].body, "ready");
}

#[test]
fn failed_and_starting_in_one_cycle_batch_into_one_failed_alert() {
    let mut n = Notifier::new();
    let s1 = vec![env(
        "aa11",
        vec![unit("server", State::Running), unit("vite", State::Running)],
    )];
    let s2 = vec![env(
        "aa11",
        vec![unit("server", State::Failed), unit("vite", State::Starting)],
    )];
    n.process(&s1);
    let out = n.process(&s2);
    let (sound, text) = sound_of(&out).expect("two transitions alert once");
    assert_eq!(sound, "Basso", "the failure sound wins the priority contest");
    assert!(text.contains("server failed"));
    assert!(text.contains("vite starting"));
    assert_eq!(text, "server failed, vite starting");
    assert_eq!(out.notifications.len(), 2);
}

#[test]
fn global_mute_suppresses_sound_but_not_notifications() {
    let mut n = Notifier::new();
    let s1 = vec![env("aa11", vec![unit("server", State::Running)])];
    let s2 = vec![env("aa11", vec![unit("server", State::Failed)])];
    let s3 = vec![env("aa11", vec![unit("server", State::Ready)])];
    n.process(&s1);
    n.toggle_global_mute();
    assert!(n.global_mute);
    let out = n.process(&s2);
    assert!(out.action.is_none(), "muted cycles enqueue nothing");
    assert_eq!(out.notifications.len(), 1, "notifications still dispatch");
    n.toggle_global_mute();
    assert!(!n.global_mute);
    let out = n.process(&s3);
    assert!(out.action.is_some(), "unmuting restores sound alerts");
}

#[test]
fn unit_mute_suppresses_only_that_unit() {
    let mut n = Notifier::new();
    let s1 = vec![env(
        "aa11",
        vec![unit("server", State::Running), unit("vite", State::Running)],
    )];
    let s2 = vec![env(
        "aa11",
        vec![unit("server", State::Failed), unit("vite", State::Ready)],
    )];
    n.process(&s1);
    n.toggle_unit_mute("aa11", "server");
    assert!(n.is_unit_muted("aa11", "server"));
    assert!(!n.is_unit_muted("aa11", "vite"));
    let out = n.process(&s2);
    let (sound, text) = sound_of(&out).expect("the unmuted unit still alerts");
    assert_eq!(sound, "Ping", "the muted failure no longer wins");
    assert_eq!(text, "vite ready");
    assert_eq!(out.notifications.len(), 2, "muting sound leaves notifications alone");
}

#[test]
fn unit_mute_toggles_back_off() {
    let mut n = Notifier::new();
    n.toggle_unit_mute("aa11", "server");
    assert!(n.is_unit_muted("aa11", "server"));
    n.toggle_unit_mute("aa11", "server");
    assert!(!n.is_unit_muted("aa11", "server"));
}

#[test]
fn notifications_off_suppresses_only_notifications() {
    let mut n = Notifier::new();
    let s1 = vec![env("aa11", vec![unit("server", State::Running)])];
    let s2 = vec![env("aa11", vec![unit("server", State::Failed)])];
    n.process(&s1);
    n.toggle_global_notifications();
    assert!(n.global_notifications_off);
    let out = n.process(&s2);
    assert!(out.notifications.is_empty());
    let (sound, _) = sound_of(&out).expect("sound still plays");
    assert_eq!(sound, "Basso");
}

#[test]
fn unit_notifications_toggle() {
    let mut n = Notifier::new();
    let s1 = vec![env(
        "aa11",
        vec![unit("server", State::Running), unit("vite", State::Running)],
    )];
    let s2 = vec![env(
        "aa11",
        vec![unit("server", State::Failed), unit("vite", State::Ready)],
    )];
    n.process(&s1);
    n.toggle_unit_notifications("aa11", "server");
    assert!(n.is_unit_notifications_off("aa11", "server"));
    let out = n.process(&s2);
    assert_eq!(out.notifications.len(), 1);
    assert_eq!(out.notifications[0].title, "sutra \u{2014} vite");
}

#[test]
fn batching_joins_phrases_in_snapshot_order() {
    let mut n = Notifier::new();
    let s1 = vec![env(
        "aa11",
        vec![
            unit("a", State::Starting),
            unit("b", State::Starting),
            unit("c", State::Starting),
        ],
    )];
    let s2 = vec![env(
        "aa11",
        vec![
            unit("a", State::Building),
            unit("b", State::Ready),
            unit("c", State::Running),
        ],
    )];
    n.process(&s1);
    let out = n.process(&s2);
    let (sound, text) = sound_of(&out).expect("three transitions alert once");
    assert_eq!(sound, "Ping");
    assert_eq!(text, "a building, b ready, c running");
}

#[test]
fn same_unit_name_in_two_environments_is_two_keys() {
    let mut n = Notifier::new();
    let s1 = vec![
        env("aa11", vec![unit("server", State::Running)]),
        env("bb22", vec![unit("server", State::Running)]),
    ];
    let s2 = vec![
        env("aa11", vec![unit("server", State::Failed)]),
        env("bb22", vec![unit("server", State::Ready)]),
    ];
    n.process(&s1);
    n.toggle_unit_mute("aa11", "server");
    let out = n.process(&s2);
    let (sound, text) = sound_of(&out).expect("the other environment's unit still alerts");
    assert_eq!(sound, "Ping");
    assert_eq!(text, "server ready");
}

#[test]
fn state_variant_eq_compares_kinds_and_other_tokens() {
    assert!(state_variant_eq(&State::Running, &State::Running));
    assert!(!state_variant_eq(&State::Running, &State::Ready));
    assert!(state_variant_eq(
        &State::Other("a".to_string()),
        &State::Other("a".to_string())
    ));
    assert!(!state_variant_eq(
        &State::Other("a".to_string()),
        &State::Other("b".to_string())
    ));
    assert!(!state_variant_eq(&State::Absent, &State::Stopped));
}

#[test]
fn sound_priorities() {
    assert_eq!(higher_priority_sound("Ping", "Basso"), "Basso");
    assert_eq!(higher_priority_sound("Basso", "Submarine"), "Basso");
    assert_eq!(higher_priority_sound("Submarine", "Ping"), "Ping");
    assert_eq!(higher_priority_sound("Ping", "Ping"), "Ping");
    assert_eq!(higher_priority_sound("Submarine", "Submarine"), "Submarine");
}

#[test]
fn unit_keys_join_with_a_nul_byte() {
    assert_eq!(unit_key("aa11", "server"), "aa11\u{0}server");
}

#[test]
fn default_engine_is_fresh() {
    let mut n = Notifier::default();
    assert!(!n.global_mute);
    assert!(!n.global_notifications_off);
    let out = n.process(&vec![env("aa11", vec![unit("server", State::Failed)])]);
    assert!(out.action.is_none());
}

#[test]
fn rewritten_status_file_scenario() {
    // A registry with one live environment whose status file first reads
    // `running`, then is rewritten to `failed: build error`.
    let pid = nix::unistd::getpid().as_raw() as u32;
    let meta = format!("DIR=/tmp/proj\nPID={}\n", pid);
    let first = vec![
        sutra::model::RegistryFile {
            name: "aa11".to_string(),
            content: meta.clone(),
        },
        sutra::model::RegistryFile {
            name: "aa11.server.status".to_string(),
            content: "running".to_string(),
        },
    ];
    let second = vec![
        sutra::model::RegistryFile {
            name: "aa11".to_string(),
            content: meta,
        },
        sutra::model::RegistryFile {
            name: "aa11.server.status".to_string(),
            content: "failed: build error".to_string(),
        },
    ];
    let mut n = Notifier::new();
    let snapshot = sutra::model::scan_all(&first);
    assert!(snapshot[0].alive);
    let out = n.process(&snapshot);
    assert!(out.action.is_none(), "the first scan is a silent baseline");
    let snapshot = sutra::model::scan_all(&second);
    let out = n.process(&snapshot);
    let (sound, text) = sound_of(&out).expect("the rewrite alerts exactly once");
    assert_eq!(sound, "Basso");
    assert!(text.contains("failed"));
}
