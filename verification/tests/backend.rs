use nfs::backend::{
    Capability, MountOutcome, MountSpec, MountStyle, NfsBackend, NormalizedSpec, OptionSet,
    RecoverOutcome, Share, StorageKind,
};
use nfs::error::{NfsError, StorageError};
use nfs::mounts::Mount;
use nfs::recover::{ConsumerRecoverResult, RecoverResult};
use nfs::release::{ReleaseFailure, ReleaseResult};

fn texts(items: &[&str]) -> Vec<String> {
    items.iter().map(|s| s.to_string()).collect()
}

fn nfs_mount_spec(source: &str, options: Option<&str>) -> MountSpec<String, String> {
    MountSpec {
        backend: "nfs".into(),
        target: "/mnt/downloads".into(),
        fstype: "nfs4".into(),
        source: source.into(),
        failover_sources: vec![],
        options: options.map(str::to_string),
        credential: None,
        remount_policy: None,
        enabled: true,
    }
}

fn declared(options: Option<&str>) -> NormalizedSpec<String, String> {
    NormalizedSpec {
        backend: "nfs".into(),
        target: "/mnt/downloads".into(),
        fstype: "nfs4".into(),
        source: "nas:/x".into(),
        failover_sources: vec![],
        options: OptionSet::Raw {
            options: options.map(str::to_string),
        },
        credential: None,
        secret_file: None,
        remount_policy: None,
        enabled: true,
    }
}

#[test]
fn mount_style_is_kernel_mount() {
    assert_eq!(NfsBackend::default().mount_style(), MountStyle::KernelMount);
}

#[test]
fn the_backend_introduces_itself() {
    let b = NfsBackend::default();
    assert_eq!(b.name(), "nfs");
    assert_eq!(NfsBackend::new("other").name(), "other");
    assert_eq!(b.kind(), StorageKind::NetworkShare);
    assert_eq!(
        b.capabilities(),
        vec![
            Capability::List,
            Capability::Exports,
            Capability::Unmount,
            Capability::RecoverStale
        ]
    );
    assert_eq!(b.endpoint(), "nfs://local");
    assert_eq!(b.net_fstypes(), texts(&["nfs4", "nfs"]));
    assert_eq!(b.default_source_port(), Some(2049));
}

#[test]
fn validate_spec_rejects_conflicting_options() {
    let backend = NfsBackend::default();
    let spec = nfs_mount_spec("10.10.10.10:/mnt/user/downloads", Some("hard,soft"));
    assert!(backend.validate_spec(&spec).is_err());
}

#[test]
fn validate_and_render_round_trips_freyr_example() {
    let backend = NfsBackend::default();
    let spec = nfs_mount_spec(
        "10.10.10.10:/mnt/user/downloads",
        Some("hard,timeo=600,retrans=2,_netdev,nofail"),
    );
    let normalized = backend.validate_spec(&spec).expect("validate");

    assert_eq!(normalized.source, "10.10.10.10:/mnt/user/downloads");
    assert!(
        normalized.failover_sources.is_empty(),
        "single source, no failover"
    );
    assert_eq!(
        backend.render_options(&normalized),
        "hard,timeo=600,retrans=2,_netdev,nofail"
    );
}

#[test]
fn validate_spec_normalizes_failover_sources() {
    let backend = NfsBackend::default();
    let mut spec = nfs_mount_spec("nas1:/export/pool", Some("vers=4.1"));
    spec.failover_sources = vec![" nas2:/export/pool ".into()];
    let normalized = backend.validate_spec(&spec).expect("validate");
    assert_eq!(normalized.source, "nas1:/export/pool");
    assert_eq!(normalized.failover_sources, vec!["nas2:/export/pool"]);
}

#[test]
fn validate_spec_keeps_what_it_does_not_read() {
    let mut spec = nfs_mount_spec(" nas:/x", None);
    spec.credential = Some("cred".to_string());
    spec.remount_policy = Some("always".to_string());
    spec.enabled = false;
    let n = NfsBackend::default().validate_spec(&spec).unwrap();
    assert_eq!(
        n,
        NormalizedSpec {
            backend: "nfs".to_string(),
            target: "/mnt/downloads".to_string(),
            fstype: "nfs4".to_string(),
            source: "nas:/x".to_string(),
            failover_sources: vec![],
            options: OptionSet::Raw {
                options: Some("soft,timeo=50,retrans=2,softreval".to_string())
            },
            credential: Some("cred".to_string()),
            secret_file: None,
            remount_policy: Some("always".to_string()),
            enabled: false,
        }
    );
}

#[test]
fn options_are_checked_before_sources() {
    let b = NfsBackend::default();
    let mut spec = nfs_mount_spec("", Some("hard=1"));
    spec.failover_sources = texts(&["good:/x", "bad", "worse"]);
    let message = |s: &MountSpec<String, String>| b.validate_spec(s).unwrap_err().message().to_string();
    assert_eq!(message(&spec), "nfs option `hard` takes no value");
    spec.options = None;
    assert_eq!(message(&spec), "nfs source is empty");
    spec.source = "nas:/x".to_string();
    assert_eq!(message(&spec), "nfs source `bad` is not `host:/export`");
    spec.failover_sources = texts(&["good:/x"]);
    assert!(b.validate_spec(&spec).is_ok());
}

#[test]
fn a_validated_spec_validates_again() {
    let b = NfsBackend::default();
    let mut spec = nfs_mount_spec(" nas1:/a ", Some("ro"));
    spec.failover_sources = texts(&[" nas2:/a"]);
    let n = b.validate_spec(&spec).unwrap();
    let OptionSet::Raw { options } = &n.options;
    let mut again = nfs_mount_spec(&n.source, options.as_deref());
    again.failover_sources = n.failover_sources.clone();
    let m = b.validate_spec(&again).unwrap();
    assert_eq!(m, n);
}

#[test]
fn render_options_applies_the_floor_to_declared_options() {
    let b = NfsBackend::default();
    assert_eq!(
        b.render_options(&declared(Some("ro"))),
        "soft,timeo=50,retrans=2,ro,softreval"
    );
    assert_eq!(
        b.render_options(&declared(None)),
        "soft,timeo=50,retrans=2,softreval"
    );
}

#[test]
fn render_options_falls_back_to_what_it_cannot_read() {
    let b = NfsBackend::default();
    assert_eq!(
        b.render_options(&declared(Some("hard, soft ,x"))),
        "hard, soft ,x"
    );
}

#[test]
fn rendering_is_idempotent() {
    let b = NfsBackend::default();
    for raw in [
        None,
        Some("ro"),
        Some("vers=4.1"),
        Some("hard,ro"),
        Some("soft,timeo=1,retrans=1"),
        Some("hard,soft"),
        Some(" vers=9 , x"),
    ] {
        let once = b.render_options(&declared(raw));
        assert_eq!(b.render_options(&declared(Some(&once))), once);
    }
    assert_eq!(b.render_options(&declared(Some("hard,soft"))), "hard,soft");
}

#[test]
fn every_row_is_a_share() {
    let b = NfsBackend::default();
    let m = Mount {
        device: "nas:/x".to_string(),
        mountpoint: "/mnt/x".to_string(),
        fstype: "nfs4".to_string(),
        health: None,
        layers: 1,
    };
    let share = Share {
        id: "/mnt/x".to_string(),
        source: "nas:/x".to_string(),
        target: Some("/mnt/x".to_string()),
        fstype: "nfs4".to_string(),
        mounted: true,
    };
    assert_eq!(
        b.list_shares(Ok(vec![m.clone(), m])),
        Ok(vec![share.clone(), share])
    );
    assert_eq!(
        b.list_shares(Err(NfsError::Read("denied".to_string()))),
        Err(StorageError::Transport("read /proc/mounts: denied".to_string()))
    );
}

fn result(released: &[&str], skipped: &[&str], failed: &[(&str, &str)]) -> ReleaseResult {
    ReleaseResult {
        released: texts(released),
        skipped: texts(skipped),
        failed: failed
            .iter()
            .map(|(m, e)| ReleaseFailure {
                mountpoint: m.to_string(),
                error: e.to_string(),
            })
            .collect(),
        layers_released: vec![],
    }
}

fn unmounted(mounted: bool, detail: Option<&str>) -> Result<MountOutcome, StorageError> {
    Ok(MountOutcome {
        target: "nas".to_string(),
        mounted,
        recovered: false,
        detail: detail.map(str::to_string),
    })
}

#[test]
fn unmount_tells_what_was_released() {
    let b = NfsBackend::default();
    assert_eq!(
        b.unmount("nas", Ok(result(&["/mnt/a"], &["/mnt/b"], &[]))),
        unmounted(false, None)
    );
    assert_eq!(
        b.unmount("nas", Ok(result(&[], &["/mnt/b"], &[]))),
        unmounted(true, Some("no matching mount"))
    );
    assert_eq!(b.unmount("nas", Ok(result(&[], &[], &[]))), unmounted(true, None));
}

#[test]
fn unmount_fails_on_the_first_failure() {
    let b = NfsBackend::default();
    assert_eq!(
        b.unmount(
            "nas",
            Ok(result(&["/mnt/a"], &[], &[("/mnt/b", "busy"), ("/mnt/c", "x")]))
        ),
        Err(StorageError::Other("unmount /mnt/b: busy".to_string()))
    );
    assert_eq!(
        b.unmount("nas", Err(NfsError::Read("denied".to_string()))),
        Err(StorageError::Transport("read /proc/mounts: denied".to_string()))
    );
}

#[test]
fn containers_are_folded_in_behind_the_host() {
    let b = NfsBackend::default();
    let host = RecoverResult {
        recovered: texts(&["/mnt/a"]),
        still_stale: texts(&["/mnt/b"]),
        errors: texts(&["boom"]),
        no_stale_found: false,
        remounted: texts(&["/mnt/c"]),
        still_missing: texts(&["/mnt/d"]),
        unmanaged: texts(&["/mnt/e"]),
        consumers: Some(ConsumerRecoverResult {
            recovered: texts(&["web"]),
            still_stale: texts(&["db"]),
            skipped_host_stale: texts(&["cache"]),
            errors: texts(&["restart failed"]),
        }),
    };
    assert_eq!(
        b.recover_stale(Ok(host)),
        Ok(RecoverOutcome {
            recovered: texts(&["/mnt/a", "consumer:web"]),
            still_stale: texts(&["/mnt/b", "consumer:db", "consumer-skipped-host-stale:cache"]),
            remounted: texts(&["/mnt/c"]),
            still_missing: texts(&["/mnt/d"]),
            errors: texts(&["boom", "consumer: restart failed"]),
            no_stale_found: false,
        })
    );
}

#[test]
fn a_clean_host_stays_clean_whatever_its_containers() {
    let b = NfsBackend::default();
    let host = RecoverResult {
        no_stale_found: true,
        consumers: Some(ConsumerRecoverResult {
            still_stale: texts(&["db"]),
            ..Default::default()
        }),
        ..Default::default()
    };
    let o = b.recover_stale(Ok(host)).unwrap();
    assert!(o.no_stale_found);
    assert_eq!(o.still_stale, texts(&["consumer:db"]));
    let plain = b.recover_stale(Ok(RecoverResult::default())).unwrap();
    assert!(plain.still_stale.is_empty());
    assert_eq!(
        b.recover_stale(Err(NfsError::Read("denied".to_string()))),
        Err(StorageError::Transport("read /proc/mounts: denied".to_string()))
    );
}
