use sutra::model::Environment;
use sutra::model::RegistryFile;
use sutra::model::State;
use sutra::model::UnitStatus;
use sutra::model::{format_elapsed, is_meta_file, parse_meta, scan_all};
use sutra::strutil::{parse_u16, parse_u32, parse_u64, u64_to_string};

fn file(name: &str, content: &str) -> RegistryFile {
    RegistryFile {
        name: name.to_string(),
        content: content.to_string(),
    }
}

fn own_pid() -> u32 {
    nix::unistd::getpid().as_raw() as u32
}

#[test]
fn state_parse_recognizes_the_six_labels() {
    assert_eq!(State::parse("starting"), State::Starting);
    assert_eq!(State::parse("building"), State::Building);
    assert_eq!(State::parse("running"), State::Running);
    assert_eq!(State::parse("ready"), State::Ready);
    assert_eq!(State::parse("failed"), State::Failed);
    assert_eq!(State::parse("stopped"), State::Stopped);
}

#[test]
fn state_parse_keeps_unknown_tokens() {
    assert_eq!(State::parse("exploding"), State::Other("exploding".to_string()));
    assert_eq!(State::parse(""), State::Other(String::new()));
    // Matching is case-sensitive.
    assert_eq!(State::parse("Running"), State::Other("Running".to_string()));
}

#[test]
fn state_label_roundtrip_for_all_six_states() {
    for label in ["starting", "building", "running", "ready", "failed", "stopped"] {
        assert_eq!(State::parse(label).label(), label);
    }
}

#[test]
fn state_label_roundtrip_for_other_keeps_the_raw_string() {
    assert_eq!(State::parse("on fire").label(), "on fire");
    assert_eq!(State::Other("x".to_string()).label(), "x");
    assert_eq!(State::Absent.label(), "");
}

#[test]
fn state_display_indicators() {
    assert_eq!(State::Absent.display_indicator(), "\u{25cb}");
    assert_eq!(State::Starting.display_indicator(), "\u{25cc}");
    assert_eq!(State::Building.display_indicator(), "\u{25d1}");
    assert_eq!(State::Running.display_indicator(), "\u{25cf}");
    assert_eq!(State::Ready.display_indicator(), "\u{25cf}");
    assert_eq!(State::Failed.display_indicator(), "\u{2717}");
    assert_eq!(State::Stopped.display_indicator(), "\u{25cb}");
    assert_eq!(State::Other("x".to_string()).display_indicator(), "\u{25c6}");
}

#[test]
fn state_is_active() {
    assert!(State::Starting.is_active());
    assert!(State::Building.is_active());
    assert!(State::Running.is_active());
    assert!(State::Ready.is_active());
    assert!(!State::Absent.is_active());
    assert!(!State::Failed.is_active());
    assert!(!State::Stopped.is_active());
    assert!(!State::Other("x".to_string()).is_active());
}

#[test]
fn unit_status_empty_content_is_absent_with_no_detail() {
    let u = UnitStatus::parse("server", "");
    assert_eq!(u.name, "server");
    assert_eq!(u.state, State::Absent);
    assert_eq!(u.detail, None);

    let u = UnitStatus::parse("server", "  \n\t ");
    assert_eq!(u.state, State::Absent);
    assert_eq!(u.detail, None);
}

#[test]
fn unit_status_splits_once_on_colon_space() {
    let u = UnitStatus::parse("server", "failed: build error");
    assert_eq!(u.state, State::Failed);
    assert_eq!(u.detail, Some("build error".to_string()));

    let u = UnitStatus::parse("server", "building: a: b");
    assert_eq!(u.state, State::Building);
    assert_eq!(u.detail, Some("a: b".to_string()));

    let u = UnitStatus::parse("server", "running");
    assert_eq!(u.state, State::Running);
    assert_eq!(u.detail, None);
}

#[test]
fn unit_status_trims_whitespace() {
    let u = UnitStatus::parse("vite", "  ready \n");
    assert_eq!(u.state, State::Ready);
    assert_eq!(u.detail, None);
}

#[test]
fn meta_parse_reads_the_known_keys() {
    let m = parse_meta("DIR=/home/u/proj\nPID=42\nSTARTED=1700000000\n");
    assert_eq!(m.dir, Some("/home/u/proj".to_string()));
    assert_eq!(m.pid, Some(42));
    assert_eq!(m.started, Some(1700000000));
    assert!(m.ports.is_empty());
}

#[test]
fn meta_parse_lowercases_port_keys() {
    let m = parse_meta("DIR=/x\nPID=1\nSERVER_PORT=3000\nVITE_PORT=5173\n");
    assert_eq!(m.ports.len(), 2);
    assert!(m.ports.contains(&("server".to_string(), 3000)));
    assert!(m.ports.contains(&("vite".to_string(), 5173)));
}

#[test]
fn meta_parse_skips_bad_values() {
    let m = parse_meta("PID=abc\nSERVER_PORT=notaport\nSTARTED=xyz\n");
    assert_eq!(m.pid, None);
    assert_eq!(m.started, None);
    assert!(m.ports.is_empty());
}

#[test]
fn meta_parse_last_occurrence_wins() {
    let m = parse_meta("PID=5\nPID=6\n");
    assert_eq!(m.pid, Some(6));
    // A later unparseable value clears an earlier good one.
    let m = parse_meta("PID=5\nPID=zz\n");
    assert_eq!(m.pid, None);
}

#[test]
fn meta_file_names_are_bare_hex() {
    assert!(is_meta_file("df79fed95eebc05d"));
    assert!(is_meta_file("ABC123"));
    assert!(!is_meta_file(""));
    assert!(!is_meta_file(".df79fed95eebc05d"));
    assert!(!is_meta_file("df79.server.status"));
    assert!(!is_meta_file("xyz"));
}

#[test]
fn malformed_meta_without_pid_is_excluded_from_scan() {
    let files = vec![
        file("aa11", "DIR=/tmp/one\n"),
        file("bb22", "DIR=/tmp/two\nPID=1\n"),
    ];
    let envs = scan_all(&files);
    assert_eq!(envs.len(), 1);
    assert_eq!(envs[0].id, "bb22");
}

#[test]
fn meta_without_dir_is_excluded_from_scan() {
    let files = vec![file("aa11", "PID=1\n")];
    assert!(scan_all(&files).is_empty());
}

#[test]
fn scan_builds_environments_with_their_units() {
    let pid = own_pid();
    let files = vec![
        file("aa11", &format!("DIR=/tmp/proj\nPID={}\nSTARTED=7\n", pid)),
        file("aa11.server.status", "running"),
        file("aa11.vite.status", "building: deps"),
        file("notes.txt", "not a registry file"),
    ];
    let envs = scan_all(&files);
    assert_eq!(envs.len(), 1);
    let e = &envs[0];
    assert_eq!(e.id, "aa11");
    assert_eq!(e.dir, "/tmp/proj");
    assert_eq!(e.pid, pid);
    assert_eq!(e.started, 7);
    assert!(e.alive, "the scanning process itself is alive");
    assert_eq!(e.units.len(), 2);
    assert_eq!(e.units[0].name, "server");
    assert_eq!(e.units[0].state, State::Running);
    assert_eq!(e.units[1].name, "vite");
    assert_eq!(e.units[1].state, State::Building);
    assert_eq!(e.units[1].detail, Some("deps".to_string()));
}

#[test]
fn scan_probes_liveness_of_bogus_pids_as_dead() {
    let files = vec![file("aa11", "DIR=/x\nPID=4000000000\n")];
    let envs = scan_all(&files);
    assert_eq!(envs.len(), 1);
    assert!(!envs[0].alive);
}

#[test]
fn scan_accepts_legacy_dot_prefixed_status_files() {
    let files = vec![
        file("aa11", "DIR=/x\nPID=1\n"),
        file(".aa11.worker.status", "ready"),
    ];
    let envs = scan_all(&files);
    assert_eq!(envs.len(), 1);
    assert_eq!(envs[0].units.len(), 1);
    assert_eq!(envs[0].units[0].name, "worker");
    assert_eq!(envs[0].units[0].state, State::Ready);
}

#[test]
fn scan_sorts_environments_by_directory_and_units_by_name() {
    let files = vec![
        file("bb22", "DIR=/tmp/zeta\nPID=1\n"),
        file("aa11", "DIR=/tmp/alpha\nPID=1\n"),
        file("bb22.zz.status", "ready"),
        file("bb22.aa.status", "ready"),
    ];
    let envs = scan_all(&files);
    assert_eq!(envs.len(), 2);
    assert_eq!(envs[0].dir, "/tmp/alpha");
    assert_eq!(envs[1].dir, "/tmp/zeta");
    assert_eq!(envs[1].units[0].name, "aa");
    assert_eq!(envs[1].units[1].name, "zz");
}

#[test]
fn port_lookup_uses_lowercased_unit_names() {
    let files = vec![file("aa11", "DIR=/x\nPID=1\nSERVER_PORT=3000\n")];
    let envs = scan_all(&files);
    assert_eq!(envs[0].port_for("server"), Some(3000));
    assert_eq!(envs[0].port_for("SERVER"), None);
    assert_eq!(envs[0].port_for("vite"), None);
}

#[test]
fn display_name_is_the_last_path_component() {
    let mut e = Environment {
        id: "aa11".to_string(),
        dir: "/home/u/proj".to_string(),
        pid: 1,
        ports: Vec::new(),
        started: 0,
        alive: false,
        units: Vec::new(),
    };
    assert_eq!(e.display_name(), "proj");
    e.dir = "/a/b/".to_string();
    assert_eq!(e.display_name(), "b");
    e.dir = "/".to_string();
    assert_eq!(e.display_name(), "unknown");
    e.dir = "a/..".to_string();
    assert_eq!(e.display_name(), "unknown");
    e.dir = String::new();
    assert_eq!(e.display_name(), "unknown");
}

#[test]
fn elapsed_formats_by_magnitude() {
    assert_eq!(format_elapsed(0), "0s");
    assert_eq!(format_elapsed(45), "45s");
    assert_eq!(format_elapsed(59), "59s");
    assert_eq!(format_elapsed(60), "1m");
    assert_eq!(format_elapsed(3599), "59m");
    assert_eq!(format_elapsed(3600), "1h 0m");
    assert_eq!(format_elapsed(3660), "1h 1m");
    assert_eq!(format_elapsed(86399), "23h 59m");
    assert_eq!(format_elapsed(86400), "1d");
    assert_eq!(format_elapsed(200000), "2d");
}

#[test]
fn elapsed_string_measures_from_the_start_time() {
    let e = Environment {
        id: "aa11".to_string(),
        dir: "/x".to_string(),
        pid: 1,
        ports: Vec::new(),
        started: 0,
        alive: false,
        units: Vec::new(),
    };
    // Started at the epoch: by now that is days.
    assert!(e.elapsed_string().ends_with('d'));
}

#[test]
fn number_parsing_follows_parse_semantics() {
    assert_eq!(parse_u32("42"), Some(42));
    assert_eq!(parse_u32("+42"), Some(42));
    assert_eq!(parse_u32(""), None);
    assert_eq!(parse_u32("+"), None);
    assert_eq!(parse_u32("-1"), None);
    assert_eq!(parse_u32(" 1"), None);
    assert_eq!(parse_u32("4294967295"), Some(u32::MAX));
    assert_eq!(parse_u32("4294967296"), None);
    assert_eq!(parse_u16("65535"), Some(u16::MAX));
    assert_eq!(parse_u16("65536"), None);
    assert_eq!(parse_u64("18446744073709551615"), Some(u64::MAX));
    assert_eq!(parse_u64("18446744073709551616"), None);
}

#[test]
fn numbers_format_in_decimal() {
    assert_eq!(u64_to_string(0), "0");
    assert_eq!(u64_to_string(7), "7");
    assert_eq!(u64_to_string(1234567890), "1234567890");
    assert_eq!(u64_to_string(u64::MAX), "18446744073709551615");
}
