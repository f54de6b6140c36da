use umbriel_vram_booster::dmem::{
    choose_gpu, dmem_entry, dmem_low_has_value, entry_body, low_job, parse_dmem_capacity, value_job,
    WriteOutcome,
};
use umbriel_vram_booster::scope::{
    app_unit_cgroup, cgroup_path, is_app_scope, starts_with, unit_label, user_scope,
};
use umbriel_vram_booster::slices::{
    ceiling_setting, protection_setting, SliceReply, SliceRequest, SliceSetting, SliceState,
};

const KEY: &str = "drm/0000:2d:00.0/vram";

#[test]
fn parse_dmem_capacity_picks_drm_entries() {
    let content = "drm/0000:2d:00.0/vram 8573157376\ndrm/0000:2d:00.0/gtt 0\nsystem 12345\n";
    let entries = parse_dmem_capacity(content);
    assert_eq!(
        entries,
        vec![("drm/0000:2d:00.0/vram".to_string(), 8573157376)]
    );
}

#[test]
fn parse_dmem_capacity_ignores_malformed() {
    assert!(parse_dmem_capacity("").is_empty());
    assert!(parse_dmem_capacity("drm/x/vram notanumber\njunk\n").is_empty());
}

#[test]
fn capacity_keeps_numbers_as_they_are_written() {
    assert_eq!(
        parse_dmem_capacity("  drm/a\t+7 rest\r\ndrm/b 18446744073709551615\n"),
        vec![
            ("drm/a".to_string(), 7),
            ("drm/b".to_string(), 18446744073709551615)
        ]
    );
    assert!(parse_dmem_capacity("drm/b 18446744073709551616\ndrm/c -1\n").is_empty());
}

#[test]
fn is_app_scope_exact_component_only() {
    assert!(is_app_scope(
        "/sys/fs/cgroup/user.slice/user-1000.slice/user@1000.service/app.slice/app-foo.scope"
    ));
    assert!(!is_app_scope("/sys/fs/cgroup/user.slice/session.slice"));
    // substring that is not an exact path component must not match
    assert!(!is_app_scope("/sys/fs/cgroup/my-app.slice-x/foo"));
}

#[test]
fn app_unit_cgroup_stops_at_the_unit() {
    let app = "/sys/fs/cgroup/user.slice/user-1000.slice/user@1000.service/app.slice";
    let unit = format!("{app}/app-foo.scope");
    assert_eq!(app_unit_cgroup(&unit), Some(unit.clone()));
    // a cgroup a delegated unit made for itself resolves to the unit
    assert_eq!(
        app_unit_cgroup(&format!("{unit}/container/payload")),
        Some(unit)
    );
    let dbus = format!(
        "{app}/app-dbus\\x2d:1.2\\x2dorg.gnome.Loupe.slice/dbus-:1.2-org.gnome.Loupe@0.service"
    );
    assert_eq!(app_unit_cgroup(&dbus), Some(dbus.clone()));
    // a slice is never the unit, nor is anything outside app.slice
    assert_eq!(app_unit_cgroup(&format!("{app}/app-x.slice")), None);
    assert_eq!(app_unit_cgroup(app), None);
    assert_eq!(
        app_unit_cgroup("/sys/fs/cgroup/user.slice/user-1000.slice/session-2.scope"),
        None
    );
}

#[test]
fn a_unit_ends_where_its_name_does() {
    assert_eq!(
        app_unit_cgroup("/app.slice/xy").as_deref(),
        Some("/app.slice/xy")
    );
    assert_eq!(
        app_unit_cgroup("/app.slice/x/y").as_deref(),
        Some("/app.slice/x")
    );
    assert_eq!(
        app_unit_cgroup("/app.slice/x/y/app.slice/z").as_deref(),
        Some("/app.slice/x")
    );
}

#[test]
fn dmem_low_has_value_matches_exact_key_and_value() {
    let body = "drm/0000:2d:00.0/vram 7715841638\n";
    assert!(dmem_low_has_value(
        body,
        "drm/0000:2d:00.0/vram",
        7715841638
    ));
    assert!(!dmem_low_has_value(body, "drm/0000:2d:00.0/vram", 0));
    assert!(!dmem_low_has_value(body, "drm/other/vram", 7715841638));
    assert!(!dmem_low_has_value("", "drm/0000:2d:00.0/vram", 7715841638));
}

#[test]
fn dmem_entry_is_the_first_for_the_key() {
    assert_eq!(
        dmem_entry("drm/a max\ndrm/b 5\ndrm/a 3\n", "drm/a").as_deref(),
        Some("max")
    );
    assert_eq!(dmem_entry("drm/a\n", "drm/a"), None);
    assert_eq!(dmem_entry("drm/a 1\n", "drm/b"), None);
}

#[test]
fn the_largest_gpu_is_chosen_unless_one_is_named() {
    let content = "drm/a/vram 10\ndrm/b/vram 30\ndrm/c/vram 30\ndrm/d/vram 20\n";
    assert_eq!(choose_gpu(content, None), Ok(("drm/c/vram".to_string(), 30)));
    assert_eq!(
        choose_gpu(content, Some("drm/d/vram")),
        Ok(("drm/d/vram".to_string(), 20))
    );
    assert_eq!(
        choose_gpu("drm/a 1\ndrm/b 2\n", Some("drm/x")),
        Err("DRM_KEY=drm/x is not in dmem.capacity, which lists: drm/a, drm/b".to_string())
    );
    assert_eq!(
        choose_gpu("system 5\n", Some("drm/x")),
        Err(
            "no drm entries in /sys/fs/cgroup/dmem.capacity. Is dmemcg-booster.service running?"
                .to_string()
        )
    );
}

#[test]
fn a_write_is_read_back() {
    let body = entry_body(KEY, "7715841638");
    assert_eq!(body, "drm/0000:2d:00.0/vram 7715841638\n");
    assert!(dmem_low_has_value(&body, KEY, 7715841638));
    assert!(!dmem_low_has_value(&body, KEY, 7715841639));
    assert!(!dmem_low_has_value(&body, "drm/other/vram", 7715841638));
    assert_eq!(dmem_entry(&body, KEY).as_deref(), Some("7715841638"));
}

#[test]
fn a_write_that_climbs_is_refused() {
    let job = low_job("/sys/fs/cgroup/x", KEY, 90).unwrap();
    assert_eq!(job.file, "/sys/fs/cgroup/x/dmem.low");
    assert_eq!(job.body, "drm/0000:2d:00.0/vram 90\n");
    assert!(!job.nonblock);
    assert!(low_job("/sys/fs/cgroup/../x", KEY, 90).is_none());
    let job = value_job("/a", "dmem.max", KEY, "max").unwrap();
    assert_eq!(job.file, "/a/dmem.max");
    assert_eq!(job.body, "drm/0000:2d:00.0/vram max\n");
    assert!(job.nonblock);
    assert!(value_job("/a..", "dmem.max", KEY, "max").is_none());
}

#[test]
fn a_cgroup_file_names_the_unified_path() {
    assert_eq!(
        cgroup_path("1:name=systemd:/x\n0::/user.slice/a.scope \n0::/b\n").as_deref(),
        Some("/sys/fs/cgroup/user.slice/a.scope")
    );
    assert_eq!(cgroup_path("1:cpu:/x\n"), None);
    assert_eq!(cgroup_path(""), None);
}

#[test]
fn a_label_is_the_last_component() {
    assert_eq!(unit_label("/a/b/app-x.scope"), "app-x.scope");
    assert_eq!(unit_label("plain"), "plain");
    assert_eq!(unit_label("/a/"), "");
}

#[test]
fn the_users_scope_is_theirs_alone() {
    let s = user_scope(1000);
    assert_eq!(s.user_root, "/sys/fs/cgroup/user.slice/user-1000.slice");
    assert_eq!(
        s.app_slice,
        "/sys/fs/cgroup/user.slice/user-1000.slice/user@1000.service/app.slice"
    );
    assert_eq!(
        s.session_slice,
        "/sys/fs/cgroup/user.slice/user-1000.slice/user@1000.service/session.slice"
    );
    assert!(starts_with(&s.app_slice, &s.user_root));
    assert!(!starts_with(
        "/sys/fs/cgroup/user.slice/user-10001.slice/x",
        &user_scope(1000).user_root
    ));
    // as paths are compared, component by component
    for (path, root) in [
        ("/a/b/c", "/a/b"),
        ("/a//b/./c", "/a/b"),
        ("/a/bc", "/a/b"),
        ("/a", "/a/b"),
        ("a/b", "/a"),
        ("/a/../b", "/a"),
        ("./a", "a"),
    ] {
        assert_eq!(
            starts_with(path, root),
            std::path::Path::new(path).starts_with(root),
            "{path} {root}"
        );
    }
}

/// Run one operation on a setting whose file holds `file`.
fn drive(setting: &mut SliceSetting, first: SliceRequest, file: &mut Option<String>) -> bool {
    let mut request = first;
    loop {
        let reply = match request {
            SliceRequest::Done { changed } => return changed,
            SliceRequest::Read { file: name, .. } => {
                assert_eq!(name, setting.file());
                SliceReply::Content(file.clone())
            }
            SliceRequest::Write { dir, file: name, value } => {
                let job = value_job(&dir, &name, KEY, &value).unwrap();
                SliceReply::Written(match file {
                    Some(body) => {
                        *body = job.body;
                        WriteOutcome::Wrote
                    }
                    None => WriteOutcome::Missing,
                })
            }
        };
        request = setting.resume(KEY, reply);
    }
}

/// A setting goes where the file is unset, stays off one someone else set, and
/// is put back only while it is this daemon's.
#[test]
fn a_slice_setting_goes_only_where_nobody_else_set_one() {
    for (mut setting, unset) in [
        (SliceSetting::ceiling("/x", 900), "max"),
        (SliceSetting::session_protection("/x", 1000), "0"),
    ] {
        let ours = setting.value();
        let mut file = None;

        // no such file yet: nothing is written
        let first = setting.ensure();
        assert!(!drive(&mut setting, first, &mut file));
        assert_eq!(setting.state(), SliceState::Unknown);
        assert_eq!(file, None);

        file = Some(format!("{KEY} {unset}\n"));
        let first = setting.ensure();
        assert!(drive(&mut setting, first, &mut file));
        assert_eq!(setting.state(), SliceState::Held);
        assert_eq!(file, Some(format!("{KEY} {ours}\n")));

        let first = setting.restore();
        drive(&mut setting, first, &mut file);
        assert_eq!(file, Some(format!("{KEY} {unset}\n")));

        file = Some(format!("{KEY} 500\n"));
        let first = setting.ensure();
        drive(&mut setting, first, &mut file);
        assert_eq!(setting.state(), SliceState::Foreign);
        let first = setting.restore();
        drive(&mut setting, first, &mut file);
        assert_eq!(file, Some(format!("{KEY} 500\n")));
    }
}

#[test]
fn a_slice_setting_writes_below_the_users_slice() {
    let user = user_scope(1000);
    for (mut setting, file, unset) in [
        (SliceSetting::ceiling(&user.app_slice, 900), "dmem.max", "max"),
        (
            SliceSetting::session_protection(&user.session_slice, 900),
            "dmem.low",
            "0",
        ),
    ] {
        setting.ensure();
        let SliceRequest::Write { dir, file: name, value } = setting.resume(
            KEY,
            SliceReply::Content(Some(format!("{KEY} {unset}\n"))),
        ) else {
            panic!("an unset value must be written over");
        };
        assert_eq!((name.as_str(), value.as_str()), (file, "900"));
        let job = value_job(&dir, &name, KEY, &value).unwrap();
        assert!(starts_with(&job.file, &user.user_root));
    }
}

#[test]
fn a_value_left_behind_is_taken_over() {
    let mut setting = SliceSetting::ceiling("/x", 900);
    let mut file = Some(format!("{KEY} 900\n"));
    let first = setting.ensure();
    assert!(drive(&mut setting, first, &mut file));
    assert_eq!(setting.state(), SliceState::Held);
    assert_eq!(file, Some(format!("{KEY} 900\n")));
}

#[test]
fn a_refused_value_is_noticed_and_tried_again() {
    let mut setting = SliceSetting::ceiling("/x", 900);
    let kept = || SliceReply::Content(Some(format!("{KEY} max\n")));
    for changed in [true, false] {
        assert!(matches!(setting.ensure(), SliceRequest::Read { .. }));
        assert!(matches!(
            setting.resume(KEY, kept()),
            SliceRequest::Write { value, .. } if value == "900"
        ));
        assert!(matches!(
            setting.resume(KEY, SliceReply::Written(WriteOutcome::Wrote)),
            SliceRequest::Read { .. }
        ));
        assert!(matches!(
            setting.resume(KEY, kept()),
            SliceRequest::Done { changed: c } if c == changed
        ));
        assert_eq!(setting.state(), SliceState::Refused);
    }
}

#[test]
fn a_failed_or_unfinished_write_is_told_apart() {
    for (outcome, state) in [
        (WriteOutcome::Failed, SliceState::Failed),
        (WriteOutcome::TimedOut, SliceState::Unknown),
        (WriteOutcome::Missing, SliceState::Unknown),
    ] {
        let mut setting = SliceSetting::session_protection("/x", 7);
        assert_eq!(setting.what(), "the protection of session.slice");
        setting.ensure();
        setting.resume(KEY, SliceReply::Content(Some(format!("{KEY} 0\n"))));
        assert!(matches!(
            setting.outstanding(),
            SliceRequest::Write { dir, file, value } if dir == "/x" && file == "dmem.low" && value == "7"
        ));
        setting.resume(KEY, SliceReply::Written(outcome));
        assert_eq!(setting.state(), state);
    }
}

#[test]
fn a_reserve_is_a_whole_number_below_the_vram_size() {
    let vram = 8573157376;
    assert_eq!(ceiling_setting(None, vram), Ok(None));
    assert_eq!(
        ceiling_setting(Some("256"), vram),
        Ok(Some(8573157376 - 256 * 1024 * 1024))
    );
    assert_eq!(ceiling_setting(Some("0"), vram), Ok(Some(vram)));
    // 8176 MiB is the whole of it
    assert_eq!(
        ceiling_setting(Some("8176"), vram),
        Err(
            "VRAM_RESERVE_MIB=8176 is not a whole number of MiB below the VRAM size".to_string()
        )
    );
    assert_eq!(ceiling_setting(Some("8175"), vram), Ok(Some(1024 * 1024)));
    assert!(ceiling_setting(Some("18446744073709551615"), vram).is_err());
    assert!(ceiling_setting(Some("1.5"), vram).is_err());
    assert!(ceiling_setting(Some(""), vram).is_err());
    assert_eq!(
        ceiling_setting(Some("a\nb"), vram),
        Err("VRAM_RESERVE_MIB=ab is not a whole number of MiB below the VRAM size".to_string())
    );
}

#[test]
fn the_session_is_protected_unless_turned_off() {
    assert_eq!(protection_setting(None), Ok(true));
    assert_eq!(protection_setting(Some("1")), Ok(true));
    assert_eq!(protection_setting(Some("0")), Ok(false));
    assert_eq!(
        protection_setting(Some("yes")),
        Err("VRAM_PROTECT_SESSION=yes is not 0 or 1".to_string())
    );
    assert!(protection_setting(Some("")).is_err());
}
