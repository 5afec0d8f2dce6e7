use nfs::command::{
    force_umount_command, mount_all, mount_all_command, mount_command, remount_next, remount_one,
    reset_failed_command, systemd_escape, systemd_escape_command, tool_error_text, umount_command,
    CommandLine, RemountAction, RemountEvent, ToolFailure,
};
use nfs::error::NfsError;
use nfs::fstab::FstabEntry;
use nfs::mounts::{Health, Mount};
use nfs::recover::{
    recover_stale, recover_stale_multi, ConsumerRecoverResult, RecoverAction, RecoverEvent,
    RecoverResult, Recovery,
};
use nfs::release::{
    release, release_only, release_result, umount_flag, Drain, DrainAction, DrainEvent,
    DrainReport, ReleaseFailure, ReleaseResult, UmountOutcome, MAX_UNMOUNT_LAYERS,
};

fn mount(device: &str, mountpoint: &str) -> Mount {
    Mount {
        device: device.to_string(),
        mountpoint: mountpoint.to_string(),
        fstype: "nfs4".to_string(),
        health: None,
        layers: 1,
    }
}

fn probed(device: &str, mountpoint: &str, health: &str) -> Mount {
    Mount {
        health: Some(health.to_string()),
        ..mount(device, mountpoint)
    }
}

fn entry(mountpoint: &str, automount: bool) -> FstabEntry {
    FstabEntry {
        device: "srv:/x".to_string(),
        mountpoint: mountpoint.to_string(),
        fstype: "nfs4".to_string(),
        automount,
    }
}

fn texts(items: &[&str]) -> Vec<String> {
    items.iter().map(|s| s.to_string()).collect()
}

fn command(program: &str, args: &[&str]) -> CommandLine {
    CommandLine {
        program: program.to_string(),
        args: texts(args),
    }
}

// ── errors ──────────────────────────────────────────────────────────────────

#[test]
fn nfs_error_display_covers_each_variant() {
    let io = NfsError::Read("boom".to_string());
    assert!(io.to_text().contains("/proc/mounts"));
    let u = NfsError::Umount {
        mountpoint: "/mnt/x".into(),
        source: "nope".to_string(),
    };
    let s = u.to_text();
    assert!(s.contains("/mnt/x"));
}

#[test]
fn mount_all_error_displays_context() {
    let e = NfsError::MountAll {
        source: "device busy".to_string(),
    };
    let s = e.to_text();
    assert!(s.contains("mount -a"));
    assert!(s.contains("device busy"));
}

#[test]
fn errors_carry_their_source() {
    let all = [
        (NfsError::Read("a".into()), "read /proc/mounts: a"),
        (
            NfsError::Umount {
                mountpoint: "/m".into(),
                source: "a".into(),
            },
            "umount -l /m: a",
        ),
        (NfsError::MountAll { source: "a".into() }, "mount -a: a"),
        (
            NfsError::Remount {
                mountpoint: "/m".into(),
                source: "a".into(),
            },
            "remount /m: a",
        ),
    ];
    for (e, text) in all {
        assert_eq!(e.to_text(), text);
        assert_eq!(e.source(), "a");
    }
}

// ── commands ────────────────────────────────────────────────────────────────

#[test]
fn command_lines_are_exact() {
    assert_eq!(mount_all_command(), command("mount", &["-a"]));
    assert_eq!(mount_command("/mnt/x"), command("mount", &["/mnt/x"]));
    assert_eq!(
        umount_command(umount_flag(true), "/mnt/x"),
        command("umount", &["-lf", "/mnt/x"])
    );
    assert_eq!(
        umount_command(umount_flag(false), "/mnt/x"),
        command("umount", &["-l", "/mnt/x"])
    );
    assert_eq!(
        force_umount_command("/mnt/x"),
        command("umount", &["-lf", "/mnt/x"])
    );
    assert_eq!(
        systemd_escape_command("/mnt/x", "automount"),
        command("systemd-escape", &["-p", "--suffix=automount", "/mnt/x"])
    );
    assert_eq!(
        reset_failed_command("mnt-x.automount"),
        command("systemctl", &["reset-failed", "mnt-x.automount", "mnt-x.mount"])
    );
}

#[test]
fn tool_failures_keep_code_and_stderr() {
    let e = ToolFailure {
        code: Some(32),
        stderr: "busy".to_string(),
    };
    assert_eq!(tool_error_text(&e), "exit Some(32): busy");
    assert_eq!(mount_all(Ok(())), Ok(()));
    assert_eq!(
        mount_all(Err(ToolFailure {
            code: None,
            stderr: "killed".to_string()
        })),
        Err(NfsError::MountAll {
            source: "exit None: killed".to_string()
        })
    );
}

#[test]
fn systemd_escape_trims_the_unit_name() {
    assert_eq!(
        systemd_escape("/mnt/x", Some("mnt-x.automount\n")),
        Ok("mnt-x.automount".to_string())
    );
    assert_eq!(
        systemd_escape("/mnt/x", None),
        Err(NfsError::Remount {
            mountpoint: "/mnt/x".to_string(),
            source: "systemd-escape failed".to_string()
        })
    );
}

#[test]
fn a_plain_entry_is_mounted_at_once() {
    let e = entry("/mnt/x", false);
    assert_eq!(
        remount_one(&e),
        RemountAction::Mount(command("mount", &["/mnt/x"]))
    );
    assert_eq!(
        remount_next(&e, RemountEvent::Mounted(Ok(()))),
        RemountAction::Finish(Ok(()))
    );
}

#[test]
fn an_automount_entry_has_its_unit_reset_first() {
    let e = entry("/mnt/x", true);
    assert_eq!(
        remount_one(&e),
        RemountAction::Escape(command(
            "systemd-escape",
            &["-p", "--suffix=automount", "/mnt/x"]
        ))
    );
    assert_eq!(
        remount_next(&e, RemountEvent::Escaped(Some(" mnt-x.automount\n".to_string()))),
        RemountAction::Reset(command(
            "systemctl",
            &["reset-failed", "mnt-x.automount", "mnt-x.mount"]
        ))
    );
    assert_eq!(
        remount_next(&e, RemountEvent::Reset),
        RemountAction::Mount(command("mount", &["/mnt/x"]))
    );
}

#[test]
fn without_systemd_the_reset_is_skipped() {
    let e = entry("/mnt/x", true);
    assert_eq!(
        remount_next(&e, RemountEvent::Escaped(None)),
        RemountAction::Mount(command("mount", &["/mnt/x"]))
    );
    let failed = ToolFailure {
        code: Some(1),
        stderr: "no".to_string(),
    };
    assert_eq!(
        remount_next(&e, RemountEvent::Mounted(Err(failed))),
        RemountAction::Finish(Err(NfsError::Remount {
            mountpoint: "/mnt/x".to_string(),
            source: "exit Some(1): no".to_string()
        }))
    );
}

// ── release ─────────────────────────────────────────────────────────────────

#[test]
fn release_sorts_its_targets_and_drains_each_once() {
    let rows = vec![
        mount("nas:/b", "/mnt/b"),
        mount("nas:/a", "/mnt/a"),
        mount("other:/c", "/mnt/c"),
        mount("nas:/b", "/mnt/b"),
        mount("other:/d", "/mnt/d"),
    ];
    let plan = release(rows.clone(), "nas:", "");
    assert_eq!(plan.targets, texts(&["/mnt/a", "/mnt/b"]));
    assert_eq!(plan.skipped, texts(&["/mnt/c", "/mnt/d"]));
    let all = release(rows.clone(), "", "nfs4");
    assert_eq!(all.targets, texts(&["/mnt/a", "/mnt/b", "/mnt/c", "/mnt/d"]));
    assert!(all.skipped.is_empty());
    let none = release(rows, "", "cifs");
    assert!(none.targets.is_empty() && none.skipped.is_empty());
}

#[test]
fn release_orders_as_texts_are_ordered() {
    let places = ["/mnt/b", "/mnt", "/mnt/\u{e9}", "/mnt/Z", "/mnt/b/c", "/mnt/\u{1F4BE}"];
    let rows: Vec<Mount> = places.iter().map(|p| mount("s:/x", p)).collect();
    let mut expected = texts(&places);
    expected.sort();
    assert_eq!(release(rows, "", "").targets, expected);
}

#[test]
fn release_only_leaves_lookalikes_alone() {
    let rows = vec![
        mount("nas:/data", "/mnt/data"),
        mount("nas:/data2", "/mnt/data2"),
        mount("nas:/data", "/srv/copy"),
        mount("nas:/data", "/mnt/data"),
    ];
    let plan = release_only(&rows, "nas:/data", "/mnt/data", "");
    assert_eq!(plan.targets, texts(&["/mnt/data"]));
    assert_eq!(plan.skipped, texts(&["/mnt/data2", "/srv/copy"]));
    assert!(release_only(&rows, "nas:/gone", "/mnt/data", "").targets.is_empty());
    let typed = release_only(&rows, "nas:/data", "/mnt/data", "cifs");
    assert!(typed.targets.is_empty() && typed.skipped.is_empty());
}

fn exited(success: bool, code: Option<i32>) -> DrainEvent {
    DrainEvent::Umount(UmountOutcome::Exited { success, code })
}

fn table(places: &[&str]) -> DrainEvent {
    DrainEvent::Table(Ok(places.iter().map(|p| mount("s:/x", p)).collect()))
}

#[test]
fn a_stacked_mountpoint_is_drained_layer_by_layer() {
    let mut d = Drain::new("/mnt/a".to_string());
    for rows in [&["/mnt/a", "/mnt/b", "/mnt/a"][..], &["/mnt/b", "/mnt/a"][..]] {
        assert_eq!(*d.pending(), DrainAction::ReadTable);
        assert!(d.accepts(&table(rows)));
        assert!(!d.accepts(&exited(true, Some(0))));
        d.step(table(rows));
        assert_eq!(*d.pending(), DrainAction::Umount);
        assert!(!d.accepts(&table(rows)));
        d.step(exited(true, Some(0)));
    }
    d.step(table(&["/mnt/b"]));
    assert_eq!(*d.pending(), DrainAction::Finish(Ok(())));
    assert_eq!(
        d.report(),
        DrainReport {
            mountpoint: "/mnt/a".to_string(),
            popped: 2,
            outcome: Ok(())
        }
    );
}

#[test]
fn an_absent_mountpoint_needs_no_unmount() {
    let mut d = Drain::new("/mnt/a".to_string());
    d.step(table(&[]));
    assert_eq!(d.report().popped, 0);
}

#[test]
fn a_mountpoint_that_comes_back_is_given_up() {
    let mut d = Drain::new("/mnt/a".to_string());
    for _ in 0..MAX_UNMOUNT_LAYERS {
        d.step(table(&["/mnt/a"]));
        assert_eq!(*d.pending(), DrainAction::Umount);
        d.step(exited(true, Some(0)));
    }
    d.step(table(&["/mnt/a"]));
    let report = d.report();
    assert_eq!(report.popped, 16);
    assert_eq!(
        report.outcome,
        Err("still mounted after draining 16 layers; something is re-mounting underneath".to_string())
    );
}

#[test]
fn each_way_to_fail_draining_is_told() {
    let finish = |events: Vec<DrainEvent>| -> DrainReport {
        let mut d = Drain::new("/mnt/a".to_string());
        for e in events {
            assert!(d.accepts(&e));
            d.step(e);
        }
        d.report()
    };
    let r = finish(vec![
        table(&["/mnt/a"]),
        exited(true, Some(0)),
        table(&["/mnt/a"]),
        exited(false, Some(32)),
    ]);
    assert_eq!((r.popped, r.outcome), (1, Err("exit code Some(32)".to_string())));
    let r = finish(vec![table(&["/mnt/a"]), exited(false, None)]);
    assert_eq!(r.outcome, Err("exit code None".to_string()));
    let r = finish(vec![
        table(&["/mnt/a"]),
        DrainEvent::Umount(UmountOutcome::NotRun("no umount".to_string())),
    ]);
    assert_eq!(r.outcome, Err("no umount".to_string()));
    let r = finish(vec![DrainEvent::Table(Err(NfsError::Read("gone".to_string())))]);
    assert_eq!(
        r.outcome,
        Err("re-read mount table: read /proc/mounts: gone".to_string())
    );
}

#[test]
fn a_failed_mountpoint_does_not_hide_the_others() {
    let r = release_result(
        texts(&["/mnt/skip"]),
        vec![
            DrainReport {
                mountpoint: "/mnt/a".to_string(),
                popped: 2,
                outcome: Ok(()),
            },
            DrainReport {
                mountpoint: "/mnt/b".to_string(),
                popped: 1,
                outcome: Err("exit code Some(32)".to_string()),
            },
            DrainReport {
                mountpoint: "/mnt/c".to_string(),
                popped: 0,
                outcome: Ok(()),
            },
        ],
    );
    assert_eq!(r.released, texts(&["/mnt/a", "/mnt/c"]));
    assert_eq!(r.skipped, texts(&["/mnt/skip"]));
    assert_eq!(r.failed.len(), 1);
    assert_eq!(r.failed[0].mountpoint, "/mnt/b");
    assert_eq!(r.failed[0].error, "exit code Some(32)");
    let layers: Vec<(&str, u32)> = r
        .layers_released
        .iter()
        .map(|l| (l.mountpoint.as_str(), l.layers))
        .collect();
    assert_eq!(layers, vec![("/mnt/a", 2), ("/mnt/b", 1)]);
}

// ── recovery ────────────────────────────────────────────────────────────────

fn answer(r: Recovery, expected: RecoverAction, event: RecoverEvent) -> Recovery {
    assert_eq!(r.pending(), expected);
    assert!(r.accepts(&event));
    r.step(event)
}

fn released(failed: Vec<ReleaseFailure>) -> RecoverEvent {
    RecoverEvent::Released(Ok(ReleaseResult {
        released: vec![],
        skipped: vec![],
        failed,
        layers_released: vec![],
    }))
}

#[test]
fn recover_result_default_is_empty_no_stale() {
    let r = RecoverResult::default();
    assert!(r.recovered.is_empty());
    assert!(r.still_stale.is_empty());
    assert!(r.errors.is_empty());
    assert!(!r.no_stale_found);
}

#[test]
fn nothing_wrong_is_a_clean_bill_of_health() {
    let r = recover_stale(None);
    let healthy = vec![
        probed("s:/a", "/mnt/a", "ok"),
        probed("s:/b", "/mnt/b", "error: probe failed"),
    ];
    let r = answer(r, RecoverAction::List, RecoverEvent::Listed(Ok(healthy)));
    let r = answer(
        r,
        RecoverAction::ReadFstab,
        RecoverEvent::Fstab(Some(vec![entry("/mnt/a", false)])),
    );
    assert_eq!(r.pending(), RecoverAction::Finish);
    assert!(!r.accepts(&RecoverEvent::Probed(Health::Live)));
    let result = r.finish().unwrap();
    assert!(result.no_stale_found);
    assert!(result.unmanaged.is_empty());
    assert_eq!(result.errors, texts(&["probe /mnt/b: error: probe failed"]));
    assert!(result.consumers.is_none());
}

#[test]
fn missing_mounts_are_brought_back_first() {
    let r = recover_stale(Some(vec![entry("/mnt/a", true), entry("/mnt/b", false)]));
    let r = answer(
        r,
        RecoverAction::Remount(entry("/mnt/a", true)),
        RecoverEvent::Remounted(Ok(())),
    );
    let r = answer(
        r,
        RecoverAction::Remount(entry("/mnt/b", false)),
        RecoverEvent::Remounted(Err(NfsError::Remount {
            mountpoint: "/mnt/b".to_string(),
            source: "exit Some(32): denied".to_string(),
        })),
    );
    let listed = vec![
        probed("s:/x", "/mnt/x", "error: probe failed"),
        probed("s:/y", "/mnt/y", "stale"),
        probed("s:/z", "/mnt/z", "error: probe failed"),
    ];
    let r = answer(r, RecoverAction::List, RecoverEvent::Listed(Ok(listed)));
    let r = answer(r, RecoverAction::ReadFstab, RecoverEvent::Fstab(Some(vec![])));
    let result = r.finish().unwrap();
    assert_eq!(result.remounted, texts(&["/mnt/a"]));
    assert_eq!(result.still_missing, texts(&["/mnt/b"]));
    assert_eq!(
        result.errors,
        texts(&[
            "remount /mnt/b: exit Some(32): denied",
            "probe /mnt/x: error: probe failed",
            "probe /mnt/z: error: probe failed",
            "/mnt/y: stale but not declared in /etc/fstab; refusing to release (mount -a could not restore it)",
        ])
    );
    assert!(!result.no_stale_found);
}

#[test]
fn declared_stale_mounts_are_released_and_the_others_withheld() {
    let a = probed("nas:/a", "/mnt/a", "stale");
    let adhoc = probed("nas:/a2", "/mnt/adhoc", "stale");
    let fine = probed("nas:/c", "/mnt/c", "ok");
    let b = probed("nas:/b", "/mnt/b", "stale");
    let r = recover_stale(Some(vec![]));
    let r = answer(
        r,
        RecoverAction::List,
        RecoverEvent::Listed(Ok(vec![a.clone(), adhoc, fine, b.clone()])),
    );
    let r = answer(
        r,
        RecoverAction::ReadFstab,
        RecoverEvent::Fstab(Some(vec![
            entry("/mnt/b", false),
            entry("/mnt/a", false),
            entry("/mnt/c", false),
        ])),
    );
    let r = answer(
        r,
        RecoverAction::Release(a),
        released(vec![ReleaseFailure {
            mountpoint: "/mnt/a".to_string(),
            error: "exit code Some(32)".to_string(),
        }]),
    );
    let r = answer(
        r,
        RecoverAction::Release(b),
        RecoverEvent::Released(Err(NfsError::Read("gone".to_string()))),
    );
    let r = answer(
        r,
        RecoverAction::MountAll,
        RecoverEvent::MountedAll(Err(NfsError::MountAll {
            source: "exit Some(1): no".to_string(),
        })),
    );
    let r = answer(
        r,
        RecoverAction::Probe("/mnt/a".to_string()),
        RecoverEvent::Probed(Health::Live),
    );
    let r = answer(
        r,
        RecoverAction::Probe("/mnt/b".to_string()),
        RecoverEvent::Probed(Health::Error),
    );
    assert_eq!(r.pending(), RecoverAction::Finish);
    let result = r.finish().unwrap();
    assert_eq!(result.recovered, texts(&["/mnt/a"]));
    assert_eq!(result.still_stale, texts(&["/mnt/b"]));
    assert_eq!(result.unmanaged, texts(&["/mnt/adhoc"]));
    assert_eq!(
        result.errors,
        texts(&[
            "/mnt/adhoc: stale but not declared in /etc/fstab; refusing to release (mount -a could not restore it)",
            "release /mnt/a: exit code Some(32)",
            "release /mnt/b: read /proc/mounts: gone",
            "mount -a: exit Some(1): no",
            "probe /mnt/b: error: probe failed",
        ])
    );
    assert!(!result.no_stale_found);
}

#[test]
fn nothing_wrong_at_all_leaves_the_report_empty() {
    let r = recover_stale(Some(vec![]));
    let r = r.step(RecoverEvent::Listed(Ok(vec![probed("s:/a", "/mnt/a", "ok")])));
    let result = r.step(RecoverEvent::Fstab(None)).finish().unwrap();
    assert!(result.no_stale_found);
    assert!(result.errors.is_empty());
}

#[test]
fn a_recovery_without_fstab_touches_nothing() {
    let r = recover_stale(None);
    let r = answer(
        r,
        RecoverAction::List,
        RecoverEvent::Listed(Ok(vec![probed("nas:/a", "/mnt/a", "stale")])),
    );
    let r = answer(r, RecoverAction::ReadFstab, RecoverEvent::Fstab(None));
    assert_eq!(r.pending(), RecoverAction::Finish);
    let result = r.finish().unwrap();
    assert_eq!(result.unmanaged, texts(&["/mnt/a"]));
    assert_eq!(result.errors.len(), 1);
    assert!(!result.no_stale_found, "a withheld mount is a finding");
}

#[test]
fn only_an_unreadable_mount_table_is_fatal() {
    let r = recover_stale(Some(vec![entry("/mnt/a", false)]));
    let r = r.step(RecoverEvent::Remounted(Ok(())));
    let e = NfsError::Read("denied".to_string());
    let r = answer(r, RecoverAction::List, RecoverEvent::Listed(Err(e.clone())));
    assert_eq!(r.pending(), RecoverAction::Finish);
    assert_eq!(r.finish().unwrap_err(), e);
}

#[test]
fn the_container_sweep_rides_along() {
    let host = RecoverResult {
        recovered: texts(&["/mnt/a"]),
        ..Default::default()
    };
    let consumers = ConsumerRecoverResult {
        recovered: texts(&["web"]),
        ..Default::default()
    };
    let r = recover_stale_multi(host.clone(), 1, consumers.clone());
    assert_eq!(r.recovered, texts(&["/mnt/a"]));
    assert_eq!(r.consumers.unwrap().recovered, texts(&["web"]));
    // Without a container runtime nothing was swept.
    let r = recover_stale_multi(host, 0, consumers);
    assert_eq!(r.recovered, texts(&["/mnt/a"]));
    assert!(r.consumers.is_none());
}
