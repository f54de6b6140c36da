use umbriel_vram_booster::display::{loggable, printable};
use umbriel_vram_booster::follower::{subscription, Attempt, Follower};
use umbriel_vram_booster::json::{field_of, Json};
use umbriel_vram_booster::sockets::{
    socket_in_runtime_dir, umbriel_socket_path, SocketFile, SocketPlan,
};
use umbriel_vram_booster::status::{
    command, format_val, human_bytes, status_lines, Command, PropValue, Status,
};
use umbriel_vram_booster::tracker::{Action, Tracker, RECHECK, RETRY};
use umbriel_vram_booster::umbriel::{
    judge_message, pick_window, read_windows, take_line, window_from, Line, Window,
};

const MILLI: u64 = 1_000_000;
const SECOND: u64 = 1000 * MILLI;

fn windows(data: &str) -> Option<Vec<Window>> {
    read_windows(Some(data.to_string()))
}

#[test]
fn pick_window_uses_active_and_native_pid_only() {
    let snap = windows(
        r#"[
            {"app_id": "kitty", "focused": true, "active": false, "pid": 11},
            {"app_id": "org.mozilla.firefox", "focused": true, "active": true, "pid": 22, "xwayland": false},
            {"app_id": "steam", "focused": true, "active": false, "pid": -1, "xwayland": true}
        ]"#,
    );
    assert_eq!(
        pick_window(&snap),
        Some((Some(22), "org.mozilla.firefox".to_string()))
    );
    let x11 =
        windows(r#"[{"app_id": "steam_app_1", "active": true, "pid": 4242, "xwayland": true}]"#);
    assert_eq!(pick_window(&x11), Some((None, "steam_app_1".to_string())));
    let bare = windows(r#"[{"active": true, "pid": -1}]"#);
    assert_eq!(pick_window(&bare), None);
    assert_eq!(pick_window(&windows("[]")), None);
    assert_eq!(pick_window(&windows("null")), None);
    let pid_only = windows(r#"[{"active": true, "pid": 7}]"#);
    assert_eq!(pick_window(&pid_only), Some((Some(7), String::new())));
}

#[test]
fn a_window_is_picked_from_plain_values() {
    let w = |active, pid, xwayland, app_id: &str| Window {
        active,
        pid,
        xwayland,
        app_id: app_id.to_string(),
    };
    // the first active one decides, even where there is nothing to take of it
    assert_eq!(
        pick_window(&Some(vec![
            w(true, None, false, ""),
            w(true, Some(5), false, "x")
        ])),
        None
    );
    assert_eq!(
        pick_window(&Some(vec![w(true, Some(4294967296), false, "x")])),
        Some((None, "x".to_string()))
    );
    assert_eq!(
        pick_window(&Some(vec![w(true, Some(4294967295), false, "x")])),
        Some((Some(4294967295), "x".to_string()))
    );
    assert_eq!(
        pick_window(&Some(vec![w(true, Some(0), false, "x")])),
        Some((None, "x".to_string()))
    );
    assert_eq!(pick_window(&None), None);
}

#[test]
fn a_window_takes_only_values_of_the_right_type() {
    let w = window_from(
        Some(Json::Str("true".to_string())),
        Some(Json::Number(Some(9))),
        Some(Json::Bool(true)),
        Some(Json::Null),
    );
    assert!(!w.active);
    assert_eq!(w.pid, Some(9));
    assert!(w.xwayland);
    assert_eq!(w.app_id, "");
    let ws = windows(r#"[{"active": 1, "pid": 1.5, "app_id": 3}, 4]"#).unwrap();
    assert_eq!(ws.len(), 2);
    assert!(!ws[0].active && ws[0].pid.is_none() && ws[0].app_id.is_empty());
    assert!(!ws[1].active && ws[1].app_id.is_empty());
    let ws = windows(r#"[{"app_id": "a\"bé", "pid": 9007199254740993}]"#).unwrap();
    assert_eq!(ws[0].app_id, "a\"b\u{e9}");
    assert_eq!(ws[0].pid, Some(9007199254740993));
    assert!(windows("{}").is_none());
    assert!(windows("not json").is_none());
    assert!(read_windows(None).is_none());
}

#[test]
fn a_message_is_judged_by_its_members() {
    let windows = || Some(Json::Str("windows".to_string()));
    assert!(matches!(
        judge_message(Some(Json::Str("no".to_string())), windows(), None),
        Line::Rejected(m) if m == "no"
    ));
    assert!(matches!(
        judge_message(Some(Json::Null), windows(), Some("[]".to_string())),
        Line::Snapshot(Some(d)) if d == "[]"
    ));
    assert!(matches!(
        judge_message(None, windows(), None),
        Line::Snapshot(None)
    ));
    assert!(matches!(
        judge_message(None, Some(Json::Str("workspaces".to_string())), None),
        Line::Ignored
    ));
    let object = Json::Object(vec![
        ("a".to_string(), "1".to_string()),
        ("b".to_string(), "2".to_string()),
    ]);
    assert_eq!(field_of(&object, "b").as_deref(), Some("2"));
    assert_eq!(field_of(&object, "c"), None);
    assert_eq!(field_of(&Json::Array(vec!["1".to_string()]), "a"), None);
}

#[test]
fn a_rejected_subscription_ends_the_read_with_the_reason() {
    let line = "{\"err\":\"unknown subscription event: windows\"}\n";
    assert!(matches!(
        take_line(true, line),
        Line::Rejected(m) if m == "unknown subscription event: windows"
    ));
}

#[test]
fn only_the_newest_snapshot_of_a_stream_matters() {
    let mut newest = None;
    let mut lines = vec!["{\"ok\":true}\n".to_string(), "not json\n".to_string()];
    for n in 0..100 {
        lines.push(format!("{{\"event\":\"windows\",\"data\":[{{\"n\":{n}}}]}}\n"));
    }
    lines.push("{\"event\":\"workspaces\",\"data\":[]}\n".to_string());
    for line in &lines {
        match take_line(true, line) {
            Line::Snapshot(data) => newest = data,
            Line::Ignored => {}
            _ => panic!("{line} ended the stream"),
        }
    }
    assert_eq!(newest.as_deref(), Some("[{\"n\":99}]"));
    assert!(matches!(take_line(true, ""), Line::Closed));
}

#[test]
fn a_stream_that_cannot_be_read_on_ends() {
    assert!(matches!(take_line(false, "{}\n"), Line::Failed));
    assert!(matches!(
        take_line(true, "{\"event\":\"windows\"}"),
        Line::Unterminated
    ));
    assert!(matches!(
        take_line(true, "{\"event\":\"windows\"}\n"),
        Line::Snapshot(None)
    ));
}

fn snapshot(app_id: &str, pid: i64) -> Option<Vec<Window>> {
    windows(&format!(
        "[{{\"app_id\": \"{app_id}\", \"active\": true, \"pid\": {pid}}}]"
    ))
}

#[test]
fn tracker_skips_a_boosted_window_until_it_is_due_for_a_recheck() {
    let mut t = Tracker::default();
    let t0 = 1000 * SECOND;
    let snap = snapshot("firefox", 22);

    let Action::Boost { key, pid, .. } = t.next(&snap, t0) else {
        panic!("first snapshot must boost");
    };
    assert_eq!(pid, Some(22));
    t.record(key, true, t0);

    assert_eq!(t.next(&snap, t0 + SECOND), Action::Skip);

    // due for a check: no re-resolution, and the next snapshot right after
    // is quiet again rather than checking on every event from then on
    let due = t0 + RECHECK + MILLI;
    assert!(matches!(t.next(&snap, due), Action::Verify { .. }));
    assert_eq!(t.next(&snap, due + MILLI), Action::Skip);
}

#[test]
fn tracker_retries_a_failed_window_on_a_timer_not_every_snapshot() {
    let mut t = Tracker::default();
    let t0 = 0;
    let snap = snapshot("kitty", -1);

    let Action::Boost { key, .. } = t.next(&snap, t0) else {
        panic!("first snapshot must be tried");
    };
    t.record(key, false, t0);

    // a title change a moment later must not trigger another scan
    assert_eq!(t.next(&snap, t0 + 50 * MILLI), Action::Skip);
    assert!(matches!(
        t.next(&snap, t0 + RETRY + MILLI),
        Action::Boost { .. }
    ));
}

#[test]
fn tracker_acts_on_a_new_window_at_once_and_clears_on_an_empty_snapshot() {
    let mut t = Tracker::default();
    let t0 = 7;
    let Action::Boost { key, .. } = t.next(&snapshot("firefox", 22), t0) else {
        panic!("must boost");
    };
    t.record(key, true, t0);

    assert!(matches!(
        t.next(&snapshot("kitty", 33), t0),
        Action::Boost { .. }
    ));
    assert_eq!(t.next(&windows("[]"), t0), Action::Clear);
    // after a clear the previous window is not remembered
    assert!(matches!(
        t.next(&snapshot("firefox", 22), t0),
        Action::Boost { .. }
    ));
}

#[test]
fn a_manual_call_makes_the_next_snapshot_start_afresh() {
    let mut t = Tracker::default();
    let snap = snapshot("firefox", 22);
    t.record("pid:22".to_string(), true, 0);
    assert_eq!(t.next_after(false, &snap, 1), Action::Skip);
    assert_eq!(
        t.next_after(true, &snap, 1),
        Action::Boost {
            pid: Some(22),
            app_id: "firefox".to_string(),
            key: "pid:22".to_string()
        }
    );
}

#[test]
fn a_boost_that_is_gone_is_retried_shortly() {
    let mut t = Tracker::default();
    let snap = snapshot("firefox", -1);
    t.record("app:firefox".to_string(), true, 0);
    t.checked("app:firefox".to_string(), true, 1);
    assert_eq!(t.next(&snap, 1), Action::Skip);
    t.checked("app:firefox".to_string(), false, 1);
    assert_eq!(t.next(&snap, RETRY), Action::Skip);
    assert!(matches!(t.next(&snap, RETRY + 1), Action::Boost { .. }));
}

fn file(name: &str, modified: Option<i128>) -> SocketFile {
    SocketFile {
        name: name.as_bytes().to_vec(),
        modified,
    }
}

fn derived(display: Option<&str>) -> Option<String> {
    match umbriel_socket_path(
        None,
        Some("/run/user/1000".to_string()),
        display.map(str::to_string),
    ) {
        SocketPlan::In { dir, derived } => {
            assert_eq!(dir, "/run/user/1000");
            derived
        }
        _ => panic!("the runtime dir was not looked at"),
    }
}

#[test]
fn socket_falls_back_to_the_scan_when_the_derived_one_is_missing() {
    let live = "umbriel-wayland-2.sock";
    assert_eq!(
        socket_in_runtime_dir(derived(Some("wayland-1")), false, Some(vec![])),
        None
    );

    // a stale or foreign WAYLAND_DISPLAY must not hide the live socket
    let found = || Some(live.as_bytes().to_vec());
    let listed = || Some(vec![file(live, Some(1))]);
    assert_eq!(
        socket_in_runtime_dir(derived(Some("wayland-0")), false, listed()),
        found()
    );
    assert_eq!(derived(Some("/tmp/wl.sock")), None);
    assert_eq!(
        socket_in_runtime_dir(derived(Some("/tmp/wl.sock")), false, listed()),
        found()
    );
    assert_eq!(socket_in_runtime_dir(derived(None), false, listed()), found());

    assert_eq!(
        socket_in_runtime_dir(derived(Some("wayland-1")), true, listed()),
        Some(b"umbriel-wayland-1.sock".to_vec())
    );
}

#[test]
fn the_newest_socket_is_taken_and_an_explicit_one_first() {
    assert_eq!(
        socket_in_runtime_dir(
            None,
            false,
            Some(vec![
                file("umbriel-a.sock", Some(5)),
                file("other.sock", Some(9)),
                file("umbriel-b.sock", Some(7)),
                file("umbriel-c.sock", None),
                file("umbriel-d.sock", Some(7)),
                file("umbriel-e.sock.lock", Some(9)),
            ])
        ),
        Some(b"umbriel-d.sock".to_vec())
    );
    assert_eq!(socket_in_runtime_dir(None, true, None), None);
    assert_eq!(derived(Some("")), None);
    assert!(matches!(
        umbriel_socket_path(Some("/s".to_string()), None, None),
        SocketPlan::At(p) if p == "/s"
    ));
    assert!(matches!(
        umbriel_socket_path(None, None, Some("wayland-1".to_string())),
        SocketPlan::Nowhere
    ));
}

#[test]
fn waiting_backs_off_to_a_minute() {
    let mut f = Follower::default();
    let mut waits = Vec::new();
    let mut warns = 0;
    for _ in 0..7 {
        let p = f.after(Attempt::NoSocket);
        waits.push(p.wait);
        warns += usize::from(p.warn);
    }
    assert_eq!(waits, vec![3, 6, 12, 24, 48, 60, 60]);
    assert_eq!(warns, 1);
    assert!(!f.after(Attempt::NotConnected).warn);
    let p = f.after(Attempt::Closed { rejected: false });
    assert_eq!((p.wait, p.warn), (3, false));
    let p = f.after(Attempt::NotSubscribed);
    assert_eq!((p.wait, p.warn), (6, true));
    let p = f.after(Attempt::Closed { rejected: true });
    assert_eq!((p.wait, p.warn), (60, true));
    let p = f.after(Attempt::NotConnected);
    assert_eq!((p.wait, p.warn), (60, true));
    assert_eq!(
        subscription(),
        "{\"cmd\":\"subscribe\",\"events\":[\"windows\"]}\n"
    );
}

#[test]
fn no_socket_and_no_connection_back_off_alike() {
    let mut f = Follower::default();
    let mut seen = Vec::new();
    for connects in [false, true, true, false, true, false, true] {
        let p = f.after(if connects {
            Attempt::NotConnected
        } else {
            Attempt::NoSocket
        });
        seen.push((p.wait, p.warn));
    }
    assert_eq!(
        seen,
        vec![
            (3, true),
            (6, false),
            (12, false),
            (24, false),
            (48, false),
            (60, false),
            (60, false)
        ]
    );
}

#[test]
fn loggable_strips_control_characters_and_caps_the_length() {
    assert_eq!(loggable("a\nb\x1b[31mc"), "ab[31mc");
    let unit = format!("app-{}.scope", "x".repeat(245));
    assert_eq!(unit.len(), 255);
    assert_eq!(loggable(&unit), unit);
    assert_eq!(
        loggable(&"y".repeat(300)),
        format!("{}\u{2026}", "y".repeat(255))
    );
}

#[test]
fn what_is_logged_is_logged_again_as_it_is() {
    for raw in ["plain", "a\tb", &"z".repeat(256), &"\u{85}q".repeat(300)] {
        let once = loggable(raw);
        assert_eq!(loggable(&once), once);
        assert!(once.chars().count() <= 256);
        assert!(!once.chars().any(char::is_control));
    }
}

#[test]
fn a_window_is_remembered_by_its_pid_or_else_by_its_app_id() {
    let key = |data: &str| match Tracker::default().next(&windows(data), 0) {
        Action::Boost { key, .. } => key,
        _ => panic!("must boost"),
    };
    assert_eq!(key(r#"[{"active": true, "pid": 22, "app_id": "a"}]"#), "pid:22");
    assert_eq!(key(r#"[{"active": true, "pid": 22}]"#), "pid:22");
    assert_eq!(key(r#"[{"active": true, "app_id": "pid:22"}]"#), "app:pid:22");
}

#[test]
fn printable_strips_every_control_character() {
    for c in 0..0x3000 {
        if let Some(c) = char::from_u32(c) {
            let expected = if c.is_control() {
                "ab".to_string()
            } else {
                format!("a{c}b")
            };
            assert_eq!(printable(&format!("a{c}b")), expected);
        }
    }
}

#[test]
fn sizes_are_printed_as_floats_would_be() {
    assert_eq!(human_bytes(8573157376), "8573157376 (8176 MiB, 7.98 GiB)");
    assert_eq!(human_bytes(7715841638), "7715841638 (7358 MiB, 7.19 GiB)");
    assert_eq!(human_bytes(0), "0 (0 MiB)");
    assert_eq!(human_bytes(1073741823), "1073741823 (1023 MiB)");
    // half a hundredth goes to the even one
    assert_eq!(
        human_bytes(1152 << 20),
        "1207959552 (1152 MiB, 1.12 GiB)"
    );
    let mut sizes = vec![u64::MAX, u64::MAX / 3];
    for mib in 1000..9000u64 {
        sizes.push((mib << 20) + mib);
    }
    for shift in 30..64 {
        sizes.push(1 << shift);
        sizes.push((1 << shift) | (1 << (shift - 10)));
    }
    for b in sizes {
        let mb = b / (1024 * 1024);
        let gb = mb as f64 / 1024.0;
        let expected = if gb >= 1.0 {
            format!("{b} ({mb} MiB, {gb:.2} GiB)")
        } else {
            format!("{b} ({mb} MiB)")
        };
        assert_eq!(human_bytes(b), expected);
    }
}

#[test]
fn values_are_printed_by_type() {
    let text = |s: &str| PropValue::Text(s.to_string());
    assert_eq!(format_val(&text("")), "(none)");
    assert_eq!(format_val(&text("a\x1b[0mb")), "a[0mb");
    assert_eq!(format_val(&PropValue::Number(42)), "42");
    assert_eq!(format_val(&PropValue::Other("0.90".to_string())), "0.90");
}

#[test]
fn the_status_is_laid_out_as_documented() {
    let text = |s: &str| Some(PropValue::Text(s.to_string()));
    let cgroup = "/sys/fs/cgroup/user.slice/user-1000.slice/user@1000.service/app.slice/app-flatpak-org.mozilla.firefox-1126565164.scope";
    let mut status = Status {
        following: text("/run/user/1000/umbriel-wayland-1.sock"),
        drm_key: text("drm/0000:2d:00.0/vram"),
        vram_total: 8573157376,
        boost_percent: "90".to_string(),
        boosted_bytes: 7715841638,
        session_low: 8573157376,
        app_ceiling: 0,
        current_unit: text("app-flatpak-org.mozilla.firefox-1126565164.scope"),
        boosted_cgroup: text(cgroup),
    };
    assert_eq!(
        status_lines(&status).join("\n"),
        format!(
            "=== Umbriel VRAM Booster Status ===\n\
             Daemon:           running\n\
             Following:        /run/user/1000/umbriel-wayland-1.sock\n\
             DRM key:          drm/0000:2d:00.0/vram\n\
             VRAM total:       8573157376 (8176 MiB, 7.98 GiB)\n\
             Boost ratio:      90%\n\
             Boosted bytes:    7715841638 (7358 MiB, 7.19 GiB)\n\
             Session low:      8573157376 (8176 MiB, 7.98 GiB)\n\
             App ceiling:      off\n\
             Current unit:     app-flatpak-org.mozilla.firefox-1126565164.scope\n\
             Boosted cgroup:   {cgroup}"
        )
    );
    status.following = text("");
    status.drm_key = None;
    status.current_unit = None;
    status.boosted_cgroup = text("");
    let lines = status_lines(&status);
    assert_eq!(
        lines[2],
        "Following:        (not connected - waiting for Umbriel)"
    );
    assert_eq!(lines[3], "DRM key:          ?");
    assert_eq!(lines[9], "Current unit:     (none)");
    assert_eq!(lines[10], "Boosted cgroup:   (none)");
    status.following = None;
    assert_eq!(status_lines(&status)[2], lines[2]);
}

#[test]
fn help_and_version_are_the_only_arguments() {
    let ask = |a: &str| command(Some(a.to_string()));
    assert_eq!(command(None), Command::Status);
    assert_eq!(ask("--help"), Command::Help);
    assert_eq!(ask("-h"), Command::Help);
    assert_eq!(ask("--version"), Command::Version);
    assert_eq!(ask("-V"), Command::Version);
    assert_eq!(ask("-v"), Command::Unknown);
    assert_eq!(ask(""), Command::Unknown);
}
