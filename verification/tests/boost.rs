use umbriel_vram_booster::booster::{Booster, Property, Reply, Request};
use umbriel_vram_booster::dmem::{dmem_low_has_value, low_job, WriteOutcome};
use umbriel_vram_booster::sweep::{cleanup_stale_boosts, SweepReply, SweepRequest};
use umbriel_vram_booster::tree::{Entry, Place};

const KEY: &str = "drm/0000:2d:00.0/vram";

/// The body of `dmem.low` in each cgroup that has one.
type Files = Vec<(String, String)>;

fn body<'a>(files: &'a mut Files, cgroup: &str) -> Option<&'a mut String> {
    files.iter_mut().find(|(c, _)| c == cgroup).map(|(_, b)| b)
}

/// Carry out an operation on `files`.
fn drive(b: &mut Booster, first: Request, files: &mut Files) -> bool {
    let mut request = first;
    loop {
        let reply = match request {
            Request::Done { boosted } => return boosted,
            Request::Write { cgroup, bytes } => {
                let job = low_job(&cgroup, KEY, bytes).unwrap();
                Reply::Written(match body(files, &cgroup) {
                    Some(b) => {
                        *b = job.body;
                        WriteOutcome::Wrote
                    }
                    None => WriteOutcome::Missing,
                })
            }
            Request::Check { cgroup, bytes } => Reply::Checked(
                body(files, &cgroup).is_some_and(|b| dmem_low_has_value(b, KEY, bytes)),
            ),
        };
        request = b.resume(reply);
    }
}

fn unset(cgroups: &[&str]) -> Files {
    cgroups
        .iter()
        .map(|c| (c.to_string(), format!("{KEY} 0\n")))
        .collect()
}

/// A boost whose write hangs is not reported, and the next clear still goes to
/// it, queued behind the hung write.
#[test]
fn a_timed_out_boost_is_not_reported_but_still_cleared() {
    let mut b = Booster::new(90);
    let cgroup = "/x/app-a.scope".to_string();
    assert!(matches!(
        b.handle_focus(Some(cgroup.clone())),
        Request::Write { cgroup: c, bytes: 90 } if c == cgroup
    ));
    // remembered before the write finishes
    assert_eq!(b.boosted_cgroup(), Some(cgroup.as_str()));
    assert!(!b.is_idle());
    assert!(matches!(
        b.resume(Reply::Written(WriteOutcome::TimedOut)),
        Request::Done { boosted: false }
    ));
    assert_eq!(b.boosted_cgroup(), None);
    assert_eq!(b.current_unit(), "");
    assert_eq!(b.unconfirmed(), Some(cgroup.as_str()));

    assert!(matches!(
        b.clear_boost(),
        Request::Write { cgroup: c, bytes: 0 } if c == cgroup
    ));
    assert!(matches!(
        b.resume(Reply::Written(WriteOutcome::TimedOut)),
        Request::Done { .. }
    ));
    assert_eq!(b.unconfirmed(), None);
}

#[test]
fn focus_moves_the_boost() {
    let mut files = unset(&["/a", "/b"]);
    let mut b = Booster::new(90);
    let first = b.handle_focus(Some("/a".to_string()));
    assert!(drive(&mut b, first, &mut files));
    assert_eq!(body(&mut files, "/a").unwrap(), &format!("{KEY} 90\n"));
    let first = b.handle_focus(Some("/b".to_string()));
    assert!(drive(&mut b, first, &mut files));
    assert_eq!(body(&mut files, "/a").unwrap(), &format!("{KEY} 0\n"));
    assert_eq!(body(&mut files, "/b").unwrap(), &format!("{KEY} 90\n"));
    let first = b.handle_focus(None);
    assert!(!drive(&mut b, first, &mut files));
    assert_eq!(body(&mut files, "/b").unwrap(), &format!("{KEY} 0\n"));
    assert_eq!(b.boosted_cgroup(), None);
}

#[test]
fn a_boost_reverted_from_outside_is_applied_again() {
    let mut files = unset(&["/a"]);
    let mut b = Booster::new(7715841638);
    let first = b.verify_boost();
    assert!(!drive(&mut b, first, &mut files));
    let first = b.handle_focus(Some("/a".to_string()));
    assert!(drive(&mut b, first, &mut files));
    *body(&mut files, "/a").unwrap() = format!("{KEY} 0\n");
    let first = b.verify_boost();
    assert!(drive(&mut b, first, &mut files));
    assert_eq!(
        body(&mut files, "/a").unwrap(),
        &format!("{KEY} 7715841638\n")
    );
    // the cgroup is gone: the window has to be resolved again
    files.clear();
    let first = b.verify_boost();
    assert!(!drive(&mut b, first, &mut files));
    assert_eq!(b.boosted_cgroup(), None);
}

#[test]
fn an_intact_boost_is_only_read() {
    let mut files = unset(&["/a"]);
    let mut b = Booster::new(90);
    let first = b.handle_focus(Some("/a".to_string()));
    assert!(drive(&mut b, first, &mut files));
    assert!(matches!(
        b.handle_focus(Some("/a".to_string())),
        Request::Check { cgroup, bytes: 90 } if cgroup == "/a"
    ));
    assert!(matches!(
        b.resume(Reply::Checked(true)),
        Request::Done { boosted: true }
    ));
}

#[test]
fn a_cgroup_without_dmem_low_is_not_boosted() {
    let mut files = unset(&[]);
    let mut b = Booster::new(90);
    let first = b.handle_focus(Some("/a".to_string()));
    assert!(!drive(&mut b, first, &mut files));
    assert_eq!((b.boosted_cgroup(), b.unconfirmed()), (None, None));
}

#[test]
fn changes_are_announced_once() {
    let mut files = unset(&["/x/app-a.scope", "/x/app-b.scope"]);
    let mut b = Booster::new(90);
    assert!(b.announce().is_empty());
    b.set_following("/run/umbriel.sock");
    let first = b.handle_focus(Some("/x/app-a.scope".to_string()));
    drive(&mut b, first, &mut files);
    assert_eq!(
        b.announce(),
        vec![
            (Property::CurrentUnit, "app-a.scope".to_string()),
            (Property::BoostedCgroup, "/x/app-a.scope".to_string()),
            (Property::Following, "/run/umbriel.sock".to_string()),
        ]
    );
    assert!(b.announce().is_empty());
    let first = b.handle_focus(Some("/x/app-b.scope".to_string()));
    drive(&mut b, first, &mut files);
    let changed = b.announce();
    assert_eq!(
        changed.iter().map(|(p, _)| p.name()).collect::<Vec<_>>(),
        vec!["CurrentUnit", "BoostedCgroup"]
    );
    assert_eq!(b.following(), "/run/umbriel.sock");
    assert_eq!(b.boost_bytes(), 90);
}

fn entry(name: &str, is_dir: Option<bool>) -> Entry {
    Entry {
        name: name.as_bytes().to_vec(),
        is_dir,
    }
}

/// A boost left behind under app.slice is cleared; other values, other slices
/// and what cannot be read are left alone.
#[test]
fn a_sweep_clears_exactly_what_is_stale() {
    let root = "/sys/fs/cgroup/user.slice/user-1000.slice";
    let mut sweep = cleanup_stale_boosts(root, KEY, 90);
    let mut cleared = Vec::new();
    loop {
        let reply = match sweep.next() {
            SweepRequest::Done { cleared: n } => {
                assert_eq!(n, 2);
                break;
            }
            SweepRequest::List { place } => {
                let path = place.path_below(root);
                let dir = path.strip_prefix(root).unwrap();
                SweepReply::List(match dir {
                    "" => Some(vec![
                        entry("app.slice", Some(true)),
                        entry("session.slice", Some(true)),
                        entry("dmem.low", Some(false)),
                        entry("odd", None),
                    ]),
                    "/app.slice" => Some(vec![
                        entry("a.scope", Some(true)),
                        entry("b.scope", Some(true)),
                        entry("c.scope", Some(true)),
                        entry("gone.scope", Some(true)),
                        entry("dmem.low", Some(false)),
                        entry("dmem.max", Some(false)),
                    ]),
                    "/app.slice/gone.scope" => None,
                    _ => Some(vec![entry("dmem.low", Some(false))]),
                })
            }
            SweepRequest::Read { place } => {
                let path = place.path_below(root);
                SweepReply::Read(match path.strip_prefix(root).unwrap() {
                    "/app.slice/a.scope/dmem.low" => Some(format!("{KEY} 90\n")),
                    "/app.slice/b.scope/dmem.low" => Some(format!("{KEY} 91\n")),
                    "/app.slice/c.scope/dmem.low" => Some(format!("drm/x 90\n{KEY} 90\n")),
                    "/app.slice/dmem.low" => None,
                    other => panic!("{other} is not the sweep's to read"),
                })
            }
            SweepRequest::Clear { place, body } => {
                assert_eq!(body, format!("{KEY} 0\n"));
                cleared.push(place.path_below(root));
                SweepReply::Cleared(true)
            }
        };
        sweep.answer(reply);
    }
    cleared.sort();
    assert_eq!(
        cleared,
        vec![
            format!("{root}/app.slice/a.scope/dmem.low"),
            format!("{root}/app.slice/c.scope/dmem.low"),
        ]
    );
}

#[test]
fn a_clear_that_fails_is_not_counted() {
    let mut sweep = cleanup_stale_boosts("/r/app.slice", KEY, 5);
    sweep.answer(SweepReply::List(Some(vec![entry("dmem.low", Some(false))])));
    sweep.answer(SweepReply::Read(Some(format!("{KEY} 5\n"))));
    assert!(matches!(sweep.next(), SweepRequest::Clear { .. }));
    // an answer of another kind changes nothing
    sweep.answer(SweepReply::Read(None));
    assert!(matches!(sweep.next(), SweepRequest::Clear { .. }));
    sweep.answer(SweepReply::Cleared(false));
    assert!(matches!(sweep.next(), SweepRequest::Done { cleared: 0 }));
}

#[test]
fn a_path_is_joined_as_paths_are() {
    for root in ["/x", "/x/", "/", "", "a//", "a"] {
        for names in [vec![], vec!["n"], vec!["n", "m"], vec!["n", "", "m"], vec!["n", "/m"]] {
            let mut expected = std::path::PathBuf::from(root);
            for name in &names {
                expected.push(name);
            }
            let place = Place {
                names: names.iter().map(|n| n.as_bytes().to_vec()).collect(),
            };
            assert_eq!(place.path_below(root), expected.to_string_lossy());
        }
    }
}

/// Sweep a directory of scopes whose `dmem.low` files are `files`.
fn sweep_over(files: &mut Files) -> usize {
    let mut sweep = cleanup_stale_boosts("/r/app.slice/", KEY, 90);
    loop {
        let reply = match sweep.next() {
            SweepRequest::Done { cleared } => return cleared,
            SweepRequest::List { place } if place.names.is_empty() => SweepReply::List(Some(
                files.iter().map(|(c, _)| entry(c, Some(true))).collect(),
            )),
            SweepRequest::List { .. } => {
                SweepReply::List(Some(vec![entry("dmem.low", Some(false))]))
            }
            SweepRequest::Read { place } => {
                let scope = String::from_utf8(place.names[0].clone()).unwrap();
                assert_eq!(
                    place.path_below("/r/app.slice/"),
                    format!("/r/app.slice/{scope}/dmem.low")
                );
                SweepReply::Read(body(files, &scope).cloned())
            }
            SweepRequest::Clear { place, body: new } => {
                let scope = String::from_utf8(place.names[0].clone()).unwrap();
                *body(files, &scope).unwrap() = new;
                SweepReply::Cleared(true)
            }
        };
        sweep.answer(reply);
    }
}

#[test]
fn a_second_sweep_clears_nothing() {
    let mut files = unset(&["a.scope", "b.scope", "c.scope"]);
    for scope in ["a.scope", "c.scope"] {
        *body(&mut files, scope).unwrap() = format!("{KEY} 90\n");
    }
    assert_eq!(sweep_over(&mut files), 2);
    assert_eq!(files, unset(&["a.scope", "b.scope", "c.scope"]));
    assert_eq!(sweep_over(&mut files), 0);
}
