use nfs::error::{NfsError, StorageError};
use nfs::exports::{
    live_exports, parse_client_spec, parse_exports, read_exports, static_exports, ExportEntry,
    ExportfsRun, ExportsAction, ExportsEvent, ExportsFile,
};
use nfs::fstab::{is_declared, is_mounted, missing_mounts, parse_fstab, FstabEntry};
use nfs::mounts::{
    check_health, collapse_layers, filter_by_fstype, filter_watch, host_source_healthy,
    is_network_fs, list, network_fstypes, parse_mounts, path_under_watch, read_mounts, with_health, Health, Mount,
    MountTableEntry,
};

const SAMPLE: &str = "\
proc /proc proc rw,nosuid,nodev,noexec 0 0
<ip>:/data /mnt/data nfs4 rw 0 0
//host-e/share /mnt/host-e cifs rw 0 0
/dev/sda1 / ext4 rw 0 0
malformed_line
nasbox:/legacy /mnt/legacy smbfs ro 0 0
";

const SAMPLE_EXPORTFS: &str = "\
/srv/nfs/data \t10.10.10.0/24(sync,wdelay,hide,no_subtree_check,fsid=1,sec=sys,rw,secure,root_squash)
/srv/nfs/data \t192.168.1.0/24(sync,wdelay,hide,no_subtree_check,fsid=1,sec=sys,ro,secure,root_squash)
/srv/nfs/media \t<world>(sync,wdelay,hide,no_subtree_check,sec=sys,ro,secure,root_squash)
";

const SAMPLE_ETC_EXPORTS: &str = "\
# NFS exports
/srv/nfs/data 10.10.10.0/24(rw,sync,no_subtree_check,fsid=1) 192.168.1.0/24(ro,sync)

/srv/nfs/media *(ro,sync)
";

const SAMPLE_FSTAB: &str = "\
# /etc/fstab
/dev/sda1 / ext4 errors=remount-ro 0 1
proc /proc proc defaults 0 0
<ip>:/srv/pool/data /mnt/<pool>/data nfs4 _netdev,nofail,x-systemd.automount,hard 0 0
<ip>:/srv/pool/backups /mnt/<pool>/backups nfs4 _netdev,nofail,vers=4.2 0 0
//host/share /mnt/share cifs credentials=/etc/smb,x-systemd.automount 0 0
";

const STACKED: &str = "\
<ip>:/export/data /mnt/data nfs4 rw 0 0
<ip>:/export/data /mnt/data nfs4 rw 0 0
<ip>:/export/backups /mnt/backups nfs4 rw 0 0
";

fn mount(device: &str, mountpoint: &str, fstype: &str) -> Mount {
    Mount {
        device: device.to_string(),
        mountpoint: mountpoint.to_string(),
        fstype: fstype.to_string(),
        health: None,
        layers: 1,
    }
}

fn texts(items: &[&str]) -> Vec<String> {
    items.iter().map(|s| s.to_string()).collect()
}

// ── the mount table ─────────────────────────────────────────────────────────

#[test]
fn parse_filters_to_network_mounts() {
    let mounts = parse_mounts(SAMPLE.as_bytes()).unwrap();
    assert_eq!(mounts.len(), 3);
    assert_eq!(mounts[0].fstype, "nfs4");
    assert_eq!(mounts[1].mountpoint, "/mnt/host-e");
    assert_eq!(mounts[2].fstype, "smbfs");
}

#[test]
fn parse_mounts_reads_every_field() {
    let mounts = parse_mounts(SAMPLE.as_bytes()).unwrap();
    assert_eq!(
        mounts,
        vec![
            mount("<ip>:/data", "/mnt/data", "nfs4"),
            mount("//host-e/share", "/mnt/host-e", "cifs"),
            mount("nasbox:/legacy", "/mnt/legacy", "smbfs"),
        ]
    );
}

#[test]
fn parse_mounts_takes_any_whitespace_and_line_end() {
    let raw = "srv:/a\t /mnt/a \t nfs\r\n\n   srv:/b /mnt/b nfs4";
    assert_eq!(
        parse_mounts(raw.as_bytes()).unwrap(),
        vec![
            mount("srv:/a", "/mnt/a", "nfs"),
            mount("srv:/b", "/mnt/b", "nfs4")
        ]
    );
    assert!(parse_mounts("".as_bytes()).unwrap().is_empty());
    assert!(parse_mounts("srv:/a /mnt/a\n".as_bytes()).unwrap().is_empty());
}

#[test]
fn parse_mounts_decodes_its_bytes() {
    let raw = "srv:/d\u{e9}p\u{f4}t /mnt/\u{65e5}\u{672c} nfs4 rw 0 0\n";
    assert_eq!(
        parse_mounts(raw.as_bytes()).unwrap(),
        vec![mount("srv:/d\u{e9}p\u{f4}t", "/mnt/\u{65e5}\u{672c}", "nfs4")]
    );
    // U+3000 is whitespace too.
    assert_eq!(
        parse_mounts("srv:/x\u{3000}/mnt/x\u{3000}nfs\n".as_bytes()).unwrap(),
        vec![mount("srv:/x", "/mnt/x", "nfs")]
    );
}

#[test]
fn parse_mounts_refuses_what_is_not_text() {
    let raw: &[u8] = b"srv:/x /mnt/\xff nfs4\n";
    let expected = NfsError::Read("stream did not contain valid UTF-8".to_string());
    assert_eq!(parse_mounts(raw), Err(expected.clone()));
    assert_eq!(parse_fstab(raw), Err(expected));
}

#[test]
fn read_mounts_starts_unprobed_and_unstacked() {
    let table = vec![MountTableEntry {
        source: "srv:/x".to_string(),
        mountpoint: "/mnt/x".to_string(),
        fstype: "nfs4".to_string(),
    }];
    assert_eq!(read_mounts(table), vec![mount("srv:/x", "/mnt/x", "nfs4")]);
}

#[test]
fn is_network_fs_recognises_kernel_clients() {
    assert!(is_network_fs("nfs"));
    assert!(is_network_fs("nfs4"));
    assert!(is_network_fs("cifs"));
    assert!(is_network_fs("smbfs"));
    assert!(!is_network_fs("ext4"));
    assert!(!is_network_fs("tmpfs"));
}

#[test]
fn the_listed_types_are_the_recognised_ones() {
    assert_eq!(network_fstypes(), vec!["nfs", "nfs4", "cifs", "smbfs"]);
    assert!(network_fstypes().into_iter().all(is_network_fs));
}

#[test]
fn filter_watch_restricts_to_listed_paths() {
    let mounts = parse_mounts(SAMPLE.as_bytes()).unwrap();
    let watch = vec!["/mnt/data".to_string()];
    let filtered = filter_watch(mounts, &watch);
    assert_eq!(filtered.len(), 1);
    assert_eq!(filtered[0].mountpoint, "/mnt/data");
}

#[test]
fn filter_watch_matches_subpaths() {
    let mut mounts = parse_mounts(SAMPLE.as_bytes()).unwrap();
    mounts.push(Mount {
        device: "x".into(),
        mountpoint: "/mnt/data/sub".into(),
        fstype: "nfs".into(),
        health: None,
        layers: 1,
    });
    let watch = vec!["/mnt/data".to_string()];
    let filtered = filter_watch(mounts, &watch);
    assert_eq!(filtered.len(), 2);
}

#[test]
fn filter_watch_empty_passes_through() {
    let mounts = parse_mounts(SAMPLE.as_bytes()).unwrap();
    assert_eq!(filter_watch(mounts.clone(), &[]).len(), mounts.len());
}

#[test]
fn filter_by_fstype_exact_match() {
    let mounts = parse_mounts(SAMPLE.as_bytes()).unwrap();
    let cifs_only = filter_by_fstype(mounts, "cifs");
    assert_eq!(cifs_only.len(), 1);
    assert_eq!(cifs_only[0].fstype, "cifs");
}

#[test]
fn filter_by_fstype_empty_passes_through() {
    let mounts = parse_mounts(SAMPLE.as_bytes()).unwrap();
    let n = mounts.len();
    assert_eq!(filter_by_fstype(mounts, "").len(), n);
}

#[test]
fn filter_by_fstype_is_no_prefix_match() {
    let mounts = parse_mounts(SAMPLE.as_bytes()).unwrap();
    assert!(filter_by_fstype(mounts, "nfs").is_empty());
}

#[test]
fn path_under_watch_matches_prefix_and_subpaths() {
    let watch = vec!["/mnt/pool".to_string()];
    assert!(path_under_watch("/mnt/pool", &watch));
    assert!(path_under_watch("/mnt/pool/downloads", &watch));
    assert!(!path_under_watch("/mnt/poolx", &watch)); // not a path boundary
    assert!(!path_under_watch("/srv/other", &watch));
    assert!(
        path_under_watch("/anything", &[]),
        "empty watch passes through"
    );
}

#[test]
fn path_under_watch_needs_only_one_prefix() {
    let watch = texts(&["/srv", "/mnt/pool"]);
    assert!(path_under_watch("/mnt/pool/x", &watch));
    // A prefix that ends in a slash ends at a path boundary; the root covers everything.
    assert!(path_under_watch("/mnt/", &texts(&["/mnt/"])));
    assert!(path_under_watch("/mnt/x", &texts(&["/mnt/"])));
    assert!(!path_under_watch("/mnt", &texts(&["/mnt/"])));
    assert!(path_under_watch("/mnt/x", &texts(&["/"])));
    assert!(path_under_watch("/", &texts(&["/"])));
    assert!(!path_under_watch("mnt", &texts(&["/"])));
    // The empty prefix covers every absolute path.
    assert!(path_under_watch("/mnt/x", &texts(&[""])));
    assert!(!path_under_watch("mnt", &texts(&[""])));
}

// ── stacked mounts ──────────────────────────────────────────────────────────

#[test]
fn collapse_layers_counts_stacked_mounts() {
    let collapsed = collapse_layers(parse_mounts(STACKED.as_bytes()).unwrap());
    assert_eq!(collapsed.len(), 2, "one entry per mountpoint");
    let data = collapsed
        .iter()
        .find(|m| m.mountpoint == "/mnt/data")
        .unwrap();
    assert_eq!(data.layers, 2, "two mounts stacked on /mnt/data");
    let backups = collapsed
        .iter()
        .find(|m| m.mountpoint == "/mnt/backups")
        .unwrap();
    assert_eq!(backups.layers, 1);
}

#[test]
fn collapse_layers_preserves_first_seen_order() {
    let collapsed = collapse_layers(parse_mounts(STACKED.as_bytes()).unwrap());
    assert_eq!(collapsed[0].mountpoint, "/mnt/data");
    assert_eq!(collapsed[1].mountpoint, "/mnt/backups");
}

#[test]
fn collapse_layers_keeps_topmost_device() {
    let raw = "\
old:/export /mnt/x nfs4 rw 0 0
new:/export /mnt/x nfs4 rw 0 0
";
    let collapsed = collapse_layers(parse_mounts(raw.as_bytes()).unwrap());
    assert_eq!(collapsed.len(), 1);
    assert_eq!(collapsed[0].device, "new:/export");
    assert_eq!(collapsed[0].layers, 2);
}

#[test]
fn collapse_layers_is_identity_for_unstacked() {
    let mounts = parse_mounts(SAMPLE.as_bytes()).unwrap();
    let n = mounts.len();
    let collapsed = collapse_layers(mounts);
    assert_eq!(collapsed.len(), n);
    assert!(collapsed.iter().all(|m| m.layers == 1));
}

#[test]
fn collapse_layers_takes_interleaved_stacks() {
    let rows = vec![
        mount("a:/1", "/mnt/a", "nfs"),
        mount("b:/1", "/mnt/b", "nfs4"),
        mount("a:/2", "/mnt/a", "cifs"),
        mount("b:/2", "/mnt/b", "nfs4"),
        mount("a:/3", "/mnt/a", "nfs4"),
    ];
    let once = collapse_layers(rows);
    let mut a = mount("a:/3", "/mnt/a", "nfs4");
    a.layers = 3;
    let mut b = mount("b:/2", "/mnt/b", "nfs4");
    b.layers = 2;
    assert_eq!(once, vec![a, b]);
    assert_eq!(collapse_layers(once.clone()), once);
}

// ── health ──────────────────────────────────────────────────────────────────

#[test]
fn check_health_collapses_every_kind_of_staleness() {
    assert_eq!(check_health(Health::Live), "ok");
    assert_eq!(check_health(Health::Stale), "stale");
    assert_eq!(check_health(Health::Timeout), "stale");
    assert_eq!(check_health(Health::Missing), "stale");
    assert_eq!(check_health(Health::Error), "error: probe failed");
}

#[test]
fn list_filters_collapses_and_takes_the_probes_in_order() {
    let rows = vec![
        mount("srv:/a", "/mnt/a", "nfs4"),
        mount("srv:/b", "/mnt/b", "cifs"),
        mount("srv:/a", "/mnt/a", "nfs4"),
        mount("srv:/c", "/mnt/c", "nfs4"),
        mount("srv:/d", "/srv/d", "nfs4"),
    ];
    let listed = list(rows, &texts(&["/mnt"]), "nfs4");
    assert_eq!(listed.len(), 2);
    let probed = with_health(listed, &[Health::Timeout, Health::Live]);
    assert_eq!(probed[0].mountpoint, "/mnt/a");
    assert_eq!(probed[0].layers, 2);
    assert_eq!(probed[0].health.as_deref(), Some("stale"));
    assert_eq!(probed[1].mountpoint, "/mnt/c");
    assert_eq!(probed[1].health.as_deref(), Some("ok"));
}

#[test]
fn with_health_leaves_unprobed_mounts_alone() {
    let rows = vec![mount("srv:/a", "/mnt/a", "nfs4"), mount("srv:/b", "/mnt/b", "nfs4")];
    let probed = with_health(rows, &[Health::Error]);
    assert_eq!(probed[0].health.as_deref(), Some("error: probe failed"));
    assert_eq!(probed[1].health, None);
}

#[test]
fn host_source_healthy_uses_longest_covering_mount() {
    let mounts = vec![
        Mount {
            device: "srv:/pool".into(),
            mountpoint: "/mnt/pool".into(),
            fstype: "nfs4".into(),
            health: Some("ok".into()),
            layers: 1,
        },
        Mount {
            device: "srv:/pool/data".into(),
            mountpoint: "/mnt/pool/data".into(),
            fstype: "nfs4".into(),
            health: Some("stale".into()),
            layers: 1,
        },
    ];
    // Longest covering mount for this source is /mnt/pool/data (stale).
    assert!(!host_source_healthy("/mnt/pool/data/media", &mounts));
    // Covered only by /mnt/pool (ok).
    assert!(host_source_healthy("/mnt/pool/downloads", &mounts));
    // Uncovered → treated as unhealthy (guard errs toward not restarting).
    assert!(!host_source_healthy("/srv/elsewhere", &mounts));
}

#[test]
fn host_source_healthy_takes_only_ok_for_healthy() {
    let mut m = mount("srv:/pool", "/mnt/pool", "nfs4");
    assert!(!host_source_healthy("/mnt/pool", &[m.clone()]));
    m.health = Some("error: probe failed".to_string());
    assert!(!host_source_healthy("/mnt/pool", &[m.clone()]));
    m.health = Some("ok".to_string());
    assert!(host_source_healthy("/mnt/pool", &[m]));
    assert!(!host_source_healthy("/mnt/pool", &[]));
}

#[test]
fn a_mount_at_the_root_covers_everything() {
    let root = Mount {
        device: "srv:/root".into(),
        mountpoint: "/".into(),
        fstype: "nfs4".into(),
        health: Some("ok".into()),
        layers: 1,
    };
    assert!(host_source_healthy("/mnt/x", &[root.clone()]));
    let mut inner = mount("srv:/x", "/mnt", "nfs4");
    inner.health = Some("stale".to_string());
    assert!(!host_source_healthy("/mnt/x", &[root.clone(), inner.clone()]));
    assert!(!host_source_healthy("/mnt/x", &[inner, root]));
}

// ── fstab ───────────────────────────────────────────────────────────────────

#[test]
fn parse_fstab_filters_to_network_and_flags_automount() {
    let entries = parse_fstab(SAMPLE_FSTAB.as_bytes()).unwrap();
    assert_eq!(entries.len(), 3);
    let data = entries
        .iter()
        .find(|e| e.mountpoint == "/mnt/<pool>/data")
        .unwrap();
    assert!(data.automount);
    assert_eq!(data.fstype, "nfs4");
    let backups = entries
        .iter()
        .find(|e| e.mountpoint == "/mnt/<pool>/backups")
        .unwrap();
    assert!(!backups.automount, "no x-systemd.automount in options");
    let share = entries
        .iter()
        .find(|e| e.mountpoint == "/mnt/share")
        .unwrap();
    assert!(share.automount);
}

#[test]
fn parse_fstab_skips_comments_and_short_lines() {
    let entries = parse_fstab("# only a comment\n\nbad line\n".as_bytes()).unwrap();
    assert!(entries.is_empty());
}

#[test]
fn parse_fstab_takes_three_fields_and_whole_options_only() {
    let raw = "  \t# indented comment with nfs4 in it\nsrv:/a /mnt/a nfs\n\
               srv:/b /mnt/b nfs x-systemd.automount-not,noauto\n\
               srv:/c /mnt/c nfs rw,x-systemd.automount\n";
    let entries = parse_fstab(raw.as_bytes()).unwrap();
    let flags: Vec<(&str, bool)> = entries
        .iter()
        .map(|e| (e.mountpoint.as_str(), e.automount))
        .collect();
    assert_eq!(flags, vec![("/mnt/a", false), ("/mnt/b", false), ("/mnt/c", true)]);
    assert_eq!(entries[2].device, "srv:/c");
}

#[test]
fn missing_mounts_are_declared_watched_and_absent() {
    let expected = parse_fstab(SAMPLE_FSTAB.as_bytes()).unwrap();
    let live = vec![mount("<ip>:/srv/pool/data", "/mnt/<pool>/data", "nfs4")];
    let missing = missing_mounts(&live, expected.clone(), &[]);
    let places: Vec<&str> = missing.iter().map(|e| e.mountpoint.as_str()).collect();
    assert_eq!(places, vec!["/mnt/<pool>/backups", "/mnt/share"]);
    let watched = missing_mounts(&live, expected.clone(), &texts(&["/mnt/share"]));
    assert_eq!(watched.len(), 1);
    assert!(watched[0].automount);
    assert!(missing_mounts(&live, expected, &texts(&["/srv"])).is_empty());
}

#[test]
fn unmanaged_partition_withholds_mounts_absent_from_fstab() {
    let declared = parse_fstab(SAMPLE_FSTAB.as_bytes()).unwrap();
    let stale = vec![
        Mount {
            device: "<ip>:/srv/pool/data".into(),
            mountpoint: "/mnt/<pool>/data".into(),
            fstype: "nfs4".into(),
            health: Some("stale".into()),
            layers: 1,
        },
        Mount {
            device: "<ip>:/export/data".into(),
            mountpoint: "/mnt/data".into(),
            fstype: "nfs4".into(),
            health: Some("stale".into()),
            layers: 1,
        },
    ];
    let (managed, unmanaged): (Vec<Mount>, Vec<Mount>) = stale
        .into_iter()
        .partition(|m| is_declared(&declared, &m.mountpoint));
    assert_eq!(managed.len(), 1);
    assert_eq!(managed[0].mountpoint, "/mnt/<pool>/data");
    assert_eq!(unmanaged.len(), 1);
    assert_eq!(
        unmanaged[0].mountpoint, "/mnt/data",
        "ad-hoc mount absent from fstab must be withheld from release"
    );
}

#[test]
fn unreadable_fstab_withholds_everything() {
    let declared: Vec<FstabEntry> = Vec::new();
    let stale = vec![Mount {
        device: "srv:/x".into(),
        mountpoint: "/mnt/x".into(),
        fstype: "nfs4".into(),
        health: Some("stale".into()),
        layers: 1,
    }];
    let (managed, unmanaged): (Vec<Mount>, Vec<Mount>) = stale
        .into_iter()
        .partition(|m| is_declared(&declared, &m.mountpoint));
    assert!(managed.is_empty());
    assert_eq!(unmanaged.len(), 1);
}

#[test]
fn is_mounted_compares_whole_mountpoints() {
    let live = vec![mount("srv:/a", "/mnt/a", "nfs")];
    assert!(is_mounted(&live, "/mnt/a"));
    assert!(!is_mounted(&live, "/mnt"));
    assert!(!is_mounted(&live, "/mnt/a/b"));
}

// ── exports ─────────────────────────────────────────────────────────────────

#[test]
fn parse_exportfs_groups_clients_and_lifts_fsid() {
    let exports = parse_exports(SAMPLE_EXPORTFS);
    assert_eq!(exports.len(), 2);
    let data = exports.iter().find(|e| e.path == "/srv/nfs/data").unwrap();
    assert_eq!(data.allowed_clients, ["10.10.10.0/24", "192.168.1.0/24"]);
    assert_eq!(data.fsid.as_deref(), Some("1"));
    assert!(data.options.iter().any(|o| o == "rw"));
    assert!(data.options.iter().any(|o| o == "ro"));
    let media = exports.iter().find(|e| e.path == "/srv/nfs/media").unwrap();
    // `<world>` canonicalizes back to `*`; no fsid declared.
    assert_eq!(media.allowed_clients, ["*"]);
    assert_eq!(media.fsid, None);
}

#[test]
fn parse_etc_exports_one_line_many_clients() {
    let exports = parse_exports(SAMPLE_ETC_EXPORTS);
    assert_eq!(exports.len(), 2);
    let data = exports.iter().find(|e| e.path == "/srv/nfs/data").unwrap();
    assert_eq!(data.allowed_clients, ["10.10.10.0/24", "192.168.1.0/24"]);
    assert_eq!(data.fsid.as_deref(), Some("1"));
    let media = exports.iter().find(|e| e.path == "/srv/nfs/media").unwrap();
    assert_eq!(media.allowed_clients, ["*"]);
}

#[test]
fn parse_exports_is_exact() {
    assert_eq!(
        parse_exports(SAMPLE_ETC_EXPORTS),
        vec![
            ExportEntry {
                path: "/srv/nfs/data".to_string(),
                allowed_clients: texts(&["10.10.10.0/24", "192.168.1.0/24"]),
                options: texts(&["rw", "sync", "no_subtree_check", "fsid=1", "ro"]),
                fsid: Some("1".to_string()),
            },
            ExportEntry {
                path: "/srv/nfs/media".to_string(),
                allowed_clients: texts(&["*"]),
                options: texts(&["ro", "sync"]),
                fsid: None,
            },
        ]
    );
}

#[test]
fn exports_on_one_line_or_on_many_read_the_same() {
    let one = "/srv a(rw,fsid=7) b(ro) a(sync)\n";
    let many = "/srv a(rw,fsid=7)\n/srv b(ro)\n/srv a(sync)\n";
    assert_eq!(parse_exports(one), parse_exports(many));
    let spread = "/top x(ro)\n/srv a(rw,fsid=7)\n\n# more\n/srv b(ro)\n/srv a(sync)\n/srv z\n";
    let tight = "/top x(ro)\n/srv a(rw,fsid=7) b(ro) a(sync)\n/srv z\n";
    assert_eq!(parse_exports(spread), parse_exports(tight));
    assert_eq!(parse_exports(one)[0].allowed_clients, texts(&["a", "b"]));
    assert_eq!(parse_exports(one)[0].options, texts(&["rw", "fsid=7", "ro", "sync"]));
}

#[test]
fn exports_keep_the_first_fsid_and_need_no_client() {
    let e = parse_exports("/srv (ro,fsid=0) h(fsid=9)\n/bare\n");
    assert_eq!(e[0].allowed_clients, texts(&["h"]));
    assert_eq!(e[0].fsid.as_deref(), Some("0"));
    assert_eq!(e[0].options, texts(&["ro", "fsid=0", "fsid=9"]));
    assert_eq!(e[1].path, "/bare");
    assert!(e[1].allowed_clients.is_empty() && e[1].options.is_empty());
}

#[test]
fn parse_client_spec_splits_at_the_first_parenthesis() {
    assert_eq!(parse_client_spec("h"), ("h".to_string(), vec![]));
    assert_eq!(parse_client_spec("(ro)"), (String::new(), texts(&["ro"])));
    assert_eq!(
        parse_client_spec("h(rw,, sec=(x))"),
        ("h".to_string(), texts(&["rw", "sec=(x"]))
    );
    assert_eq!(parse_client_spec("h()"), ("h".to_string(), vec![]));
}

#[test]
fn the_running_server_comes_before_the_static_table() {
    assert_eq!(live_exports(true, "/srv *(ro)").unwrap()[0].path, "/srv");
    assert_eq!(live_exports(true, "").unwrap().len(), 0);
    assert_eq!(live_exports(false, "/srv *(ro)"), None);
}

#[test]
fn the_static_table_is_read_only_where_exportfs_fails() {
    let run = |success: bool| {
        read_exports(ExportsEvent::Exportfs(Some(ExportfsRun {
            success,
            stdout: "/srv *(ro)".to_string(),
        })))
    };
    match run(true) {
        ExportsAction::Finish(Ok(entries)) => assert_eq!(entries[0].path, "/srv"),
        _ => panic!("the running server answered"),
    }
    assert!(matches!(run(false), ExportsAction::ReadTable));
    assert!(matches!(
        read_exports(ExportsEvent::Exportfs(None)),
        ExportsAction::ReadTable
    ));
    assert!(matches!(
        read_exports(ExportsEvent::Table(ExportsFile::NotFound)),
        ExportsAction::Finish(Ok(entries)) if entries.is_empty()
    ));
    assert!(matches!(
        read_exports(ExportsEvent::Table(ExportsFile::Failed("no".to_string()))),
        ExportsAction::Finish(Err(_))
    ));
}

#[test]
fn static_exports_cover_an_absent_and_an_unreadable_table() {
    let text = static_exports(ExportsFile::Text("/srv *(ro)\n".to_string())).unwrap();
    assert_eq!(text[0].path, "/srv");
    assert!(static_exports(ExportsFile::NotFound).unwrap().is_empty());
    assert_eq!(
        static_exports(ExportsFile::Failed("Permission denied".to_string())),
        Err(StorageError::Transport(
            "read /etc/exports: Permission denied".to_string()
        ))
    );
}
