use umbriel_vram_booster::app_search::{
    find_app_scope_for_app_id, AppIdQuery, AppIdReply, MAX_COMMS,
};
use umbriel_vram_booster::focus::{focus_window, own_unit, pid_comm, plan_focus, source, Lookup};
use umbriel_vram_booster::matcher::{
    app_unit_core, comm_matches_app_id, environ_has_game_id, name_matches_app_id, name_tokens,
    steam_app_id, unescape_unit_name, unit_core, unit_matches_app_id,
};
use umbriel_vram_booster::pid_search::{find_app_scope_for_pid, PidQuery, PidReply, PidSearch};
use umbriel_vram_booster::resolve::{apply_focus, ResolveQuery, ResolveReply};
use umbriel_vram_booster::scope::unit_label;
use umbriel_vram_booster::tree::Entry;
use umbriel_vram_booster::units::app_slice_units;

#[test]
fn unescape_unit_name_decodes_hex() {
    assert_eq!(unescape_unit_name("code\\x2doss"), "code-oss");
    assert_eq!(unescape_unit_name("plain"), "plain");
    assert_eq!(unescape_unit_name("bad\\x2"), "bad\\x2");
}

#[test]
fn unescaping_goes_by_bytes() {
    assert_eq!(unescape_unit_name("\\xc3\\xa9"), "\u{e9}");
    assert_eq!(unescape_unit_name("a\\xffb"), "a\u{fffd}b");
    assert_eq!(unescape_unit_name("\\x2D\\x5cx2d"), "-\\x2d");
    assert_eq!(unescape_unit_name("\\xg0\\"), "\\xg0\\");
    assert_eq!(unescape_unit_name("\\x+f"), "\\x+f");
    assert_eq!(unescape_unit_name("a\\x+5b"), "a\\x+5b");
    assert_eq!(unescape_unit_name("\u{e9}\\x41"), "\u{e9}A");
    assert_eq!(unescape_unit_name(""), "");
}

#[test]
fn app_unit_core_strips_framing() {
    assert_eq!(
        app_unit_core("app-org.mozilla.firefox@1b2c.service").as_deref(),
        Some("org.mozilla.firefox")
    );
    assert_eq!(
        app_unit_core("app-gnome-org.mozilla.firefox-1234.scope").as_deref(),
        Some("gnome-org.mozilla.firefox")
    );
    assert_eq!(
        app_unit_core("app-code\\x2doss@x.service").as_deref(),
        Some("code-oss")
    );
    assert_eq!(
        app_unit_core("leyen-ly5550-1757000000-3.scope").as_deref(),
        Some("leyen-ly5550")
    );
    assert_eq!(
        app_unit_core("run-p13576-i46132.scope").as_deref(),
        Some("run-p13576-i46132")
    );
    assert_eq!(app_unit_core("app-foo.socket"), None);
}

#[test]
fn a_core_is_what_the_name_leaves() {
    assert_eq!(unit_core("dbus-foo.service").as_deref(), Some("foo"));
    assert_eq!(unit_core("dbus-:1.2-a-b@0.service").as_deref(), Some("a-b"));
    assert_eq!(unit_core("app-1-2-3.scope").as_deref(), Some("1"));
    assert_eq!(unit_core("app-x-.scope").as_deref(), Some("x-"));
    assert_eq!(unit_core(".service").as_deref(), Some(""));
    assert_eq!(unit_core("x.scope.service").as_deref(), Some("x.scope"));
}

#[test]
fn unit_matches_app_id_by_token() {
    assert!(unit_matches_app_id(
        "app-org.mozilla.firefox@1b2c.service",
        "firefox"
    ));
    assert!(unit_matches_app_id(
        "app-firefox@1b2c.service",
        "org.mozilla.firefox"
    ));
    assert!(unit_matches_app_id(
        "app-gnome-org.mozilla.firefox-1234.scope",
        "Firefox"
    ));
    assert!(unit_matches_app_id(
        "app-code\\x2doss@x.service",
        "code-oss"
    ));
    assert!(unit_matches_app_id("app-steam@x.service", "steam_app_123"));
    assert!(unit_matches_app_id(
        "app-flatpak-org.mozilla.firefox-1126565164.scope",
        "org.mozilla.firefox"
    ));
    assert!(unit_matches_app_id(
        "dbus-:1.2-org.gnome.Loupe@0.service",
        "org.gnome.Loupe"
    ));
    assert!(!unit_matches_app_id(
        "app-steam@x.service",
        "org.kde.dolphin"
    ));
    assert!(!unit_matches_app_id("app-steam@x.service", ""));
    assert!(unit_matches_app_id("dbus.service", "dbus"));
}

#[test]
fn tokens_are_what_identifies() {
    assert_eq!(
        name_tokens("steam_app_ly5550"),
        vec!["steam_app_ly5550", "steam", "ly5550"]
    );
    assert_eq!(
        name_tokens("flatpak-org.Mozilla.Firefox"),
        vec![
            "flatpak-org.mozilla.firefox",
            "org.mozilla.firefox",
            "firefox"
        ]
    );
    assert_eq!(name_tokens("App"), Vec::<String>::new());
    assert_eq!(name_tokens("ab"), Vec::<String>::new());
    // two characters, though four bytes
    assert_eq!(name_tokens("\u{e9}\u{e9}"), Vec::<String>::new());
    assert_eq!(name_tokens("-abc-abc-"), vec!["-abc-abc-", "abc"]);
    // the case of an id does not matter
    assert_eq!(name_tokens("A-Foo_BAR.baz"), name_tokens("a-foo_bar.BAZ"));
    assert!(name_matches_app_id("app-my-id@r.service", "my-id"));
}

#[test]
fn environ_game_id_keys() {
    let env = b"HOME=/h\0GAMEID=umu-ly5550\0STEAM_COMPAT_APP_ID=ly5550\0";
    assert!(environ_has_game_id(env, "ly5550"));
    assert!(!environ_has_game_id(env, "ly5551"));
    assert!(!environ_has_game_id(b"PATH=/bin\0", "ly5550"));
    assert_eq!(steam_app_id("steam_app_ly5550"), Some("ly5550"));
    assert_eq!(steam_app_id("steam_app_"), None);
    assert_eq!(steam_app_id("firefox"), None);
}

#[test]
fn a_variable_must_be_text_and_its_value_whole() {
    assert!(environ_has_game_id(b"SteamAppId=7", "7"));
    assert!(environ_has_game_id(b"SteamGameId=umu-7\0", "7"));
    assert!(!environ_has_game_id(b"SteamAppId=77\0", "7"));
    assert!(!environ_has_game_id(b"SteamAppId\0", ""));
    assert!(environ_has_game_id(b"SteamAppId=\0", ""));
    assert!(environ_has_game_id(b"GAMEID=a=b\0", "a=b"));
    assert!(!environ_has_game_id(b"\xffGAMEID=7\0", "7"));
    assert!(environ_has_game_id(b"X=\xff\0GAMEID=\xc3\xa9\0", "\u{e9}"));
    assert!(!environ_has_game_id(b"", "7"));
}

#[test]
fn a_command_name_is_cut_to_fifteen_bytes() {
    assert!(comm_matches_app_id("Firefox\n", "org.mozilla.firefox"));
    assert!(comm_matches_app_id("averylongcomman", "averylongcommand"));
    assert!(!comm_matches_app_id("averylongcomma", "averylongcommand"));
    assert!(!comm_matches_app_id("averylongcommam", "averylongcommand"));
    assert!(!comm_matches_app_id(" \n", "firefox"));
    assert!(!comm_matches_app_id("firefox", ""));
}

fn dir(name: &str) -> Entry {
    Entry {
        name: name.as_bytes().to_vec(),
        is_dir: Some(true),
    }
}

const SLICE: &str = "app-dbus\\x2d:1.2\\x2dorg.gnome.Loupe.slice";

/// What `app.slice` lists in these tests.
fn listing(place: &str) -> Option<Vec<Entry>> {
    if place == "/app" {
        Some(vec![
            dir("app-flatpak-org.mozilla.firefox-1.scope"),
            dir(SLICE),
            dir("leyen-0-1.scope"),
            dir("app-steam@x.service"),
            Entry {
                name: b"cgroup.procs".to_vec(),
                is_dir: Some(false),
            },
            Entry {
                name: b"odd".to_vec(),
                is_dir: None,
            },
        ])
    } else if place == format!("/app/{SLICE}") {
        Some(vec![dir("dbus-:1.2-org.gnome.Loupe@0.service")])
    } else {
        None
    }
}

#[test]
fn app_slice_units_descends_into_slices() {
    let mut walk = app_slice_units();
    while let Some(place) = walk.next() {
        walk.answer(listing(&place.path_below("/app")));
    }
    let units: Vec<String> = walk.units().iter().map(|p| p.label()).collect();
    assert_eq!(
        units,
        vec![
            "dbus-:1.2-org.gnome.Loupe@0.service".to_string(),
            "app-flatpak-org.mozilla.firefox-1.scope".to_string(),
            "app-steam@x.service".to_string(),
            "leyen-0-1.scope".to_string(),
        ]
    );
    assert_eq!(
        search("org.gnome.Loupe").0.map(|p| unit_label(&p).to_string()),
        Some("dbus-:1.2-org.gnome.Loupe@0.service".to_string())
    );
    assert_eq!(
        search("org.mozilla.firefox").0.map(|p| unit_label(&p).to_string()),
        Some("app-flatpak-org.mozilla.firefox-1.scope".to_string())
    );
    assert_eq!(search("Alacritty").0, None);
}

/// Answer one query of a search by app id.
fn answer(query: AppIdQuery) -> AppIdReply {
    match query {
        AppIdQuery::List { place } => AppIdReply::List(listing(&place.path_below("/app"))),
        AppIdQuery::Procs { place } => AppIdReply::Procs(match place.label().as_str() {
            "leyen-0-1.scope" => Some("10\n11\n".to_string()),
            "app-steam@x.service" => Some("20\n".to_string()),
            "app-flatpak-org.mozilla.firefox-1.scope" => Some(format!("{}99\n", "30\n".repeat(MAX_COMMS))),
            _ => None,
        }),
        AppIdQuery::Environ { pid } => AppIdReply::Environ(match pid.as_str() {
            "11" => Some(b"A=b\0GAMEID=umu-ly5550\0".to_vec()),
            "20" => Some(b"SteamAppId=7\0".to_vec()),
            _ => None,
        }),
        AppIdQuery::Comm { pid } => AppIdReply::Comm(match pid.as_str() {
            "10" => Some("launcher\n".to_string()),
            "11" => Some("mygame\n".to_string()),
            "20" => Some("mygame\n".to_string()),
            "99" => Some("beyond\n".to_string()),
            _ => None,
        }),
        AppIdQuery::Done { .. } => unreachable!(),
    }
}

fn search(app_id: &str) -> (Option<String>, usize) {
    let mut s = find_app_scope_for_app_id("/app", app_id);
    loop {
        match s.next() {
            AppIdQuery::Done { unit, matches } => return (unit, matches),
            query => s.answer(answer(query)),
        }
    }
}

#[test]
fn a_game_is_found_by_its_id_before_any_name() {
    // by name this would be the Steam client
    assert_eq!(
        search("steam_app_ly5550"),
        (Some("/app/leyen-0-1.scope".to_string()), 1)
    );
    // no process carries the id: the name decides
    assert_eq!(
        search("steam_app_other"),
        (Some("/app/app-steam@x.service".to_string()), 1)
    );
}

#[test]
fn a_command_name_is_the_last_resort() {
    assert_eq!(
        search("mygame"),
        (Some("/app/app-steam@x.service".to_string()), 2)
    );
    // only so many processes of a unit are looked at
    assert_eq!(search("beyond"), (None, 0));
    assert_eq!(search(""), (None, 0));
}

#[test]
fn a_search_that_runs_out_of_time_finds_nothing() {
    let mut s = find_app_scope_for_app_id("/app", "org.mozilla.firefox");
    s.answer(answer(s.next()));
    s.answer(AppIdReply::Expired);
    assert!(matches!(
        s.next(),
        AppIdQuery::Done {
            unit: None,
            matches: 0
        }
    ));
}

const UNIT: &str = "/user.slice/user-1000.slice/user@1000.service/app.slice/app-x.scope";

/// Answer a search by process: 1 has the children 2 and 3, 3 has 4, and 4 is
/// in a unit.
fn answer_pid(query: PidQuery) -> PidReply {
    match query {
        PidQuery::Cgroup { pid: 4 } => PidReply::Cgroup(Some(format!("0::{UNIT}/deeper\n"))),
        PidQuery::Cgroup { pid: 9 } => PidReply::Cgroup(None),
        PidQuery::Cgroup { .. } => PidReply::Cgroup(Some("0::/init.scope\n".to_string())),
        PidQuery::Tasks { pid } => {
            PidReply::Tasks(Some(vec![pid.to_string(), "junk".to_string()]))
        }
        PidQuery::Children { pid: 1, tid: 1 } => PidReply::Children(Some("2 3 ".to_string())),
        PidQuery::Children { pid: 3, tid: 3 } => PidReply::Children(Some("9 4".to_string())),
        PidQuery::Children { .. } => PidReply::Children(None),
        PidQuery::Done { .. } => unreachable!(),
    }
}

fn run(mut s: PidSearch) -> Option<String> {
    loop {
        match s.next() {
            PidQuery::Done { unit } => return unit,
            query => s.answer(answer_pid(query)),
        }
    }
}

#[test]
fn a_descendant_in_a_unit_is_found_within_the_depth() {
    let unit = Some(format!("/sys/fs/cgroup{UNIT}"));
    assert_eq!(run(find_app_scope_for_pid(4, 0)), unit);
    assert_eq!(run(find_app_scope_for_pid(1, 2)), unit);
    assert_eq!(run(find_app_scope_for_pid(1, 1)), None);
    assert_eq!(run(find_app_scope_for_pid(9, 3)), None);
}

#[test]
fn only_so_many_children_are_looked_at() {
    let mut s = find_app_scope_for_pid(1, 1);
    let mut looked = 0;
    loop {
        let reply = match s.next() {
            PidQuery::Done { unit } => {
                assert_eq!(unit, None);
                break;
            }
            PidQuery::Cgroup { .. } => {
                looked += 1;
                PidReply::Cgroup(None)
            }
            PidQuery::Tasks { .. } => PidReply::Tasks(Some(vec!["1".to_string(), "5".to_string()])),
            PidQuery::Children { .. } => PidReply::Children(Some("7 ".repeat(50))),
        };
        s.answer(reply);
    }
    assert_eq!(looked, 1 + 64);
    let mut s = find_app_scope_for_pid(1, 1);
    s.answer(PidReply::Expired);
    assert!(matches!(s.next(), PidQuery::Done { unit: None }));
}

#[test]
fn a_live_pid_decides_alone() {
    let alive = || Some("0::/x\n".to_string());
    assert_eq!(plan_focus(Some(5), alive(), "firefox"), Lookup::Pid(5));
    assert_eq!(plan_focus(Some(5), None, "firefox"), Lookup::AppId);
    assert_eq!(
        plan_focus(Some(5), Some("1:cpu:/\n".to_string()), "firefox"),
        Lookup::AppId
    );
    assert_eq!(plan_focus(None, alive(), ""), Lookup::Nothing);
    assert_eq!(plan_focus(Some(5), None, ""), Lookup::Nothing);
}

#[test]
fn only_the_users_own_units_are_boosted() {
    let root = "/sys/fs/cgroup/user.slice/user-1000.slice";
    let own = format!("{root}/a.scope");
    assert_eq!(own_unit(Some(own.clone()), root), Some(own));
    assert_eq!(
        own_unit(
            Some("/sys/fs/cgroup/user.slice/user-1001.slice/a.scope".to_string()),
            root
        ),
        None
    );
    assert_eq!(own_unit(None, root), None);
}

#[test]
fn a_window_is_named_for_the_log() {
    assert_eq!(
        source(Some(7), "a\nb", "fire\x07fox"),
        "pid=7 (ab) app_id=firefox"
    );
    assert_eq!(source(None, "ignored", "x"), "app_id=x");
    assert_eq!(pid_comm(Some(" firefox\n".to_string())), "firefox");
    assert_eq!(pid_comm(None), "");
}

#[test]
fn a_manual_call_may_leave_out_the_pid() {
    assert_eq!(focus_window("-1", " firefox "), (None, "firefox".to_string()));
    assert_eq!(focus_window(" 12\n", ""), (Some(12), String::new()));
    assert_eq!(focus_window("0", "x").0, None);
    assert_eq!(focus_window("4294967296", "x").0, None);
}

fn resolve(pid: Option<u32>, app_id: &str, root: &str) -> (Option<String>, Option<String>, String) {
    let mut r = apply_focus(root, "/app", pid, app_id);
    loop {
        let reply = match r.next() {
            ResolveQuery::Done {
                unit,
                foreign,
                source,
                ..
            } => return (unit, foreign, source),
            ResolveQuery::Cgroup { pid: 8 } => ResolveReply::Content(None),
            ResolveQuery::Cgroup { .. } => ResolveReply::Content(Some("0::/x\n".to_string())),
            ResolveQuery::Comm { .. } => ResolveReply::Content(Some("launcher\n".to_string())),
            ResolveQuery::Process(q) => ResolveReply::Process(answer_pid(q)),
            ResolveQuery::AppId(q) => ResolveReply::AppId(answer(q)),
        };
        r.answer(reply);
    }
}

#[test]
fn a_window_is_resolved_by_its_process_or_its_app_id() {
    let root = "/sys/fs/cgroup/user.slice/user-1000.slice";
    let unit = format!("/sys/fs/cgroup{UNIT}");
    assert_eq!(
        resolve(Some(1), "org.mozilla.firefox", root),
        (
            Some(unit.clone()),
            None,
            "pid=1 (launcher) app_id=org.mozilla.firefox".to_string()
        )
    );
    // a live process outside app.slice is no licence to guess
    assert_eq!(resolve(Some(2), "org.mozilla.firefox", root).0, None);
    // another user's unit
    let other = "/sys/fs/cgroup/user.slice/user-1001.slice";
    assert_eq!(
        resolve(Some(4), "x", other),
        (None, Some(unit), "pid=4 (launcher) app_id=x".to_string())
    );
    let firefox = "/app/app-flatpak-org.mozilla.firefox-1.scope".to_string();
    assert_eq!(
        resolve(None, "org.mozilla.firefox", "/app"),
        (
            Some(firefox.clone()),
            None,
            "app_id=org.mozilla.firefox".to_string()
        )
    );
    // the process is gone
    assert_eq!(
        resolve(Some(8), "org.mozilla.firefox", "/app"),
        (
            Some(firefox),
            None,
            "pid=8 () app_id=org.mozilla.firefox".to_string()
        )
    );
    assert_eq!(resolve(None, "", "/app").0, None);
}

#[test]
fn a_lookup_that_does_not_come_back_resolves_nothing() {
    let mut r = apply_focus("/", "/app", Some(1), "firefox");
    r.answer(ResolveReply::Content(Some("0::/x\n".to_string())));
    r.answer(ResolveReply::Content(Some("comm".to_string())));
    r.answer(ResolveReply::GivenUp);
    assert!(matches!(
        r.next(),
        ResolveQuery::Done { unit: None, source, .. } if source == "pid=1 () app_id=firefox"
    ));
}

#[test]
fn white_space_and_case_are_those_of_the_language() {
    for c in (0..0x11000).filter_map(char::from_u32) {
        let raw = format!("{c}x{c}y{c}");
        assert_eq!(pid_comm(Some(raw.clone())), raw.trim());
        let id = format!("ab{c}cd");
        if c != '-' && c != '.' && c != '_' {
            assert_eq!(name_tokens(&id), vec![id.to_ascii_lowercase()]);
        }
    }
}

#[test]
fn units_come_in_the_order_of_their_paths() {
    let names: [&[u8]; 7] = [b"b", b"a.slice", b"a-b", b"a", b"\xff", b"A", b"a.slicf"];
    let inner: [&[u8]; 3] = [b"z", b"\xc3\xa9", b"!"];
    let entries = |names: &[&[u8]]| {
        Some(
            names
                .iter()
                .map(|n| Entry {
                    name: n.to_vec(),
                    is_dir: Some(true),
                })
                .collect::<Vec<_>>(),
        )
    };
    let mut walk = app_slice_units();
    while let Some(place) = walk.next() {
        walk.answer(match place.names.len() {
            0 => entries(&names),
            _ => entries(&inner),
        });
    }
    // a walk that is over stays where it is
    walk.answer(entries(&names));
    let found: Vec<Vec<Vec<u8>>> = walk.units().into_iter().map(|p| p.names).collect();
    let mut expected: Vec<Vec<Vec<u8>>> = names
        .iter()
        .filter(|n| **n != b"a.slice".as_slice())
        .map(|n| vec![n.to_vec()])
        .chain(inner.iter().map(|n| vec![b"a.slice".to_vec(), n.to_vec()]))
        .collect();
    expected.sort();
    assert_eq!(found, expected);
}

#[test]
fn a_search_that_is_over_stays_over() {
    let mut s = find_app_scope_for_app_id("/app", "mygame");
    loop {
        match s.next() {
            AppIdQuery::Done { .. } => break,
            query => s.answer(answer(query)),
        }
    }
    s.answer(AppIdReply::Expired);
    assert!(matches!(
        s.next(),
        AppIdQuery::Done { unit: Some(u), matches: 2 } if u == "/app/app-steam@x.service"
    ));
}
