use nfs::number::{exit_code_text, i32_text, parse_u32, u32_text};
use nfs::options::{
    check_xsize, enforce_nfs_safe_options, options_from_tokens, parse_nfs_options, parse_num,
    parse_option_string, render_nfs_options, NfsOptions, OptionToken, MAX_XSIZE, MIN_XSIZE,
};
use nfs::source::normalize_nfs_source;

fn refusal(raw: &str) -> String {
    parse_nfs_options(Some(raw)).unwrap_err().message().to_string()
}

fn render_raw(raw: &str) -> String {
    render_nfs_options(&parse_nfs_options(Some(raw)).unwrap())
}

fn opts_set(s: &str) -> std::collections::HashSet<String> {
    s.split(',').map(str::to_string).collect()
}

// ── reading ─────────────────────────────────────────────────────────────────

#[test]
fn parse_options_rejects_hard_and_soft_together() {
    let err = parse_nfs_options(Some("hard,soft")).unwrap_err();
    assert!(err.message().contains("mutually exclusive"), "got: {}", err.message());
}

#[test]
fn parse_options_rejects_bad_vers() {
    let err = parse_nfs_options(Some("vers=5")).unwrap_err();
    assert!(err.message().contains("vers=5"), "got: {}", err.message());
}

#[test]
fn parse_options_rejects_out_of_range_numerics() {
    assert!(parse_nfs_options(Some("timeo=0")).is_err());
    assert!(parse_nfs_options(Some("rsize=1024")).is_err());
    assert!(parse_nfs_options(Some("wsize=33554432")).is_err());
    assert!(parse_nfs_options(Some("timeo=notanumber")).is_err());
    // Value-less option that requires a value, and vice-versa.
    assert!(parse_nfs_options(Some("vers")).is_err());
    assert!(parse_nfs_options(Some("hard=1")).is_err());
}

#[test]
fn parse_options_happy_path_types_and_passthrough() {
    let set = parse_nfs_options(Some(
        "vers=4.2,hard,timeo=600,retrans=2,actimeo=30,rsize=1048576,wsize=1048576,_netdev,nofail,nconnect=4",
    ))
    .unwrap();
    let NfsOptions {
        vers,
        hard,
        soft,
        timeo,
        retrans,
        actimeo,
        rsize,
        wsize,
        netdev,
        extra,
    } = set;
    assert_eq!(vers.as_deref(), Some("4.2"));
    assert_eq!(hard, Some(true));
    assert_eq!(soft, None);
    assert_eq!(timeo, Some(600));
    assert_eq!(retrans, Some(2));
    assert_eq!(actimeo, Some(30));
    assert_eq!(rsize, Some(1048576));
    assert_eq!(wsize, Some(1048576));
    assert!(netdev);
    assert_eq!(extra, vec!["nofail".to_string(), "nconnect=4".to_string()]);
}

#[test]
fn each_refusal_has_its_own_message() {
    assert_eq!(
        refusal("vers=5"),
        "nfs option `vers=5` is not a supported version (expected one of [\"3\", \"4\", \"4.0\", \"4.1\", \"4.2\"])"
    );
    assert_eq!(refusal("timeo=x"), "nfs option `timeo` is not a number: `x`");
    assert_eq!(
        refusal("timeo=0"),
        "nfs option `timeo=0` out of range (1..=36000 deciseconds)"
    );
    assert_eq!(
        refusal("timeo=36001"),
        "nfs option `timeo=36001` out of range (1..=36000 deciseconds)"
    );
    assert_eq!(
        refusal("retrans=101"),
        "nfs option `retrans=101` out of range (0..=100)"
    );
    assert_eq!(
        refusal("actimeo=86401"),
        "nfs option `actimeo=86401` out of range (0..=86400 seconds)"
    );
    assert_eq!(
        refusal("rsize=4095"),
        "nfs option `rsize=4095` out of range (4096..=16777216 bytes)"
    );
    assert_eq!(
        refusal("wsize=16777217"),
        "nfs option `wsize=16777217` out of range (4096..=16777216 bytes)"
    );
    assert_eq!(refusal("hard=1"), "nfs option `hard` takes no value");
    assert_eq!(refusal("_netdev="), "nfs option `_netdev` takes no value");
    assert_eq!(refusal("nfsvers"), "nfs option `nfsvers` requires a value");
    assert_eq!(
        refusal("soft,hard"),
        "nfs options `hard` and `soft` are mutually exclusive"
    );
}

#[test]
fn the_first_fault_decides() {
    assert_eq!(refusal("nofail,hard=1,vers=9"), "nfs option `hard` takes no value");
    // A conflict is only told when every option reads.
    assert_eq!(refusal("hard,soft,timeo"), "nfs option `timeo` requires a value");
}

#[test]
fn bounds_are_inclusive() {
    let o = parse_nfs_options(Some(
        "timeo=36000,retrans=100,actimeo=86400,rsize=4096,wsize=16777216",
    ))
    .unwrap();
    assert_eq!(o.timeo, Some(36_000));
    assert_eq!(o.retrans, Some(100));
    assert_eq!(o.actimeo, Some(86_400));
    assert_eq!(o.rsize, Some(4096));
    assert_eq!(o.wsize, Some(16_777_216));
    let o = parse_nfs_options(Some("timeo=1,retrans=0,actimeo=0")).unwrap();
    assert_eq!((o.timeo, o.retrans, o.actimeo), (Some(1), Some(0), Some(0)));
}

#[test]
fn the_last_of_several_settings_counts() {
    let o = parse_nfs_options(Some("vers=3,timeo=10,nfsvers=4.1,timeo=20")).unwrap();
    assert_eq!(o.vers.as_deref(), Some("4.1"));
    assert_eq!(o.timeo, Some(20));
}

#[test]
fn tokens_are_trimmed_and_blanks_dropped() {
    let read = |s: &str| -> Vec<(String, Option<String>)> {
        parse_option_string(s)
            .iter()
            .map(|t| (t.key.to_string(), t.value.map(str::to_string)))
            .collect()
    };
    assert_eq!(
        read(" ro ,, sec=krb5=x , "),
        vec![
            ("ro".to_string(), None),
            ("sec".to_string(), Some("krb5=x".to_string()))
        ]
    );
    assert!(read("").is_empty());
}

#[test]
fn tokens_can_be_handed_in() {
    let ts = vec![
        OptionToken {
            key: "soft",
            value: None,
        },
        OptionToken {
            key: "sec",
            value: Some("sys"),
        },
    ];
    let o = options_from_tokens(&ts).unwrap();
    assert_eq!(o.soft, Some(true));
    assert_eq!(o.extra, vec!["sec=sys".to_string()]);
}

#[test]
fn parse_num_names_the_option() {
    assert_eq!(parse_num("timeo", "0600"), Ok(600));
    assert_eq!(parse_num("timeo", "+7"), Ok(7));
    for bad in ["", "+", "-1", "1 ", "4294967296", "0x10"] {
        assert_eq!(
            parse_num("timeo", bad).unwrap_err().message(),
            format!("nfs option `timeo` is not a number: `{bad}`")
        );
    }
    assert_eq!(parse_num("rsize", "4294967295"), Ok(u32::MAX));
}

#[test]
fn check_xsize_keeps_sizes_in_range() {
    assert_eq!(check_xsize("rsize", MIN_XSIZE), Ok(MIN_XSIZE));
    assert_eq!(check_xsize("rsize", MAX_XSIZE), Ok(MAX_XSIZE));
    assert!(check_xsize("rsize", MIN_XSIZE - 1).is_err());
    assert!(check_xsize("rsize", MAX_XSIZE + 1).is_err());
}

// ── rendering ───────────────────────────────────────────────────────────────

#[test]
fn nfs_no_soft_or_hard_gets_full_soft_floor() {
    let set = opts_set(&render_raw("vers=4.2"));
    assert!(set.contains("vers=4.2"));
    assert!(set.contains("soft"));
    assert!(set.contains("softreval"));
    assert!(set.contains("timeo=50"));
    assert!(set.contains("retrans=2"));
}

#[test]
fn nfs_empty_options_still_gets_floor() {
    let set = opts_set(&render_nfs_options(&parse_nfs_options(None).unwrap()));
    assert!(set.contains("soft") && set.contains("timeo=50") && set.contains("retrans=2"));
}

#[test]
fn nfs_explicit_hard_is_left_untouched() {
    let out = render_raw("vers=4.2,hard");
    assert_eq!(out, "vers=4.2,hard");
    assert!(!out.contains("soft"));
}

#[test]
fn nfs_existing_values_are_not_duplicated_or_overridden() {
    let out = render_raw("soft,timeo=100,nconnect=4");
    let set = opts_set(&out);
    assert!(set.contains("timeo=100"));
    assert!(!out.contains("timeo=50"));
    assert!(set.contains("nconnect=4"));
    assert!(set.contains("retrans=2"));
    assert_eq!(out.matches("soft").count(), 2); // "soft" + "softreval"
}

#[test]
fn rendered_options_stand_in_canonical_order() {
    assert_eq!(
        render_raw("ro,_netdev,wsize=8192,rsize=4096,actimeo=30,retrans=5,timeo=9,soft,nfsvers=4"),
        "vers=4,soft,timeo=9,retrans=5,actimeo=30,rsize=4096,wsize=8192,_netdev,ro,softreval"
    );
    assert_eq!(render_raw(""), "soft,timeo=50,retrans=2,softreval");
    assert_eq!(
        render_raw("softreval"),
        "soft,timeo=50,retrans=2,softreval"
    );
    assert_eq!(
        render_raw("ro,vers=4.2"),
        "vers=4.2,soft,timeo=50,retrans=2,ro,softreval"
    );
}

#[test]
fn a_second_rendering_changes_nothing() {
    for raw in [
        "",
        "vers=4.2",
        "hard",
        "ro,timeo=100",
        "soft,nofail,_netdev",
        "softreval,rw",
        "soft,timeo=9,retrans=1,ro",
        "nfsvers=3,ro,wsize=8192,ro,x=1",
    ] {
        let once = render_raw(raw);
        assert_eq!(render_raw(&once), once);
    }
}

#[test]
fn options_typed_by_hand_keep_their_floor() {
    let mut o = parse_nfs_options(None).unwrap();
    o.extra = vec!["hard".to_string()];
    assert_eq!(render_nfs_options(&o), "hard");
    o.extra = vec!["ro".to_string(), "timeo=9".to_string()];
    assert_eq!(
        render_nfs_options(&o),
        "soft,timeo=9,retrans=2,ro,softreval"
    );
}

#[test]
fn untyped_options_ride_through_in_order() {
    let o = parse_nfs_options(Some("nconnect=4,ro,x=1,ro")).unwrap();
    assert_eq!(o.extra, vec!["nconnect=4", "ro", "x=1", "ro"]);
    assert!(render_nfs_options(&o).ends_with(",nconnect=4,ro,x=1,ro,softreval"));
}

#[test]
fn rendered_options_read_back() {
    let o = parse_nfs_options(Some("vers=3,timeo=100,nofail")).unwrap();
    let back = parse_nfs_options(Some(render_nfs_options(&o).as_str())).unwrap();
    assert_eq!(back.vers, o.vers);
    assert_eq!(back.timeo, Some(100));
    assert_eq!(back.soft, Some(true));
    assert_eq!(back.retrans, Some(2));
    assert_eq!(back.extra, vec!["nofail", "softreval"]);
}

#[test]
fn the_floor_goes_by_keys() {
    let mut parts = vec!["timeo=9".to_string(), "ro".to_string()];
    enforce_nfs_safe_options(&mut parts);
    assert_eq!(parts, vec!["timeo=9", "ro", "soft", "softreval", "retrans=2"]);
    let mut hard = vec!["hard".to_string()];
    enforce_nfs_safe_options(&mut hard);
    assert_eq!(hard, vec!["hard"]);
    // `softreval` is not `soft`, and only `hard` itself opts out.
    let mut other = vec!["softreval".to_string(), "hard=1".to_string()];
    enforce_nfs_safe_options(&mut other);
    assert_eq!(other, vec!["softreval", "hard=1", "soft", "timeo=50", "retrans=2"]);
}

#[test]
fn a_second_floor_changes_nothing() {
    for list in [&[][..], &["hard", "ro"], &["softreval"], &["timeo=9", "soft", "x=1"]] {
        let mut once: Vec<String> = list.iter().map(|s| s.to_string()).collect();
        enforce_nfs_safe_options(&mut once);
        let mut twice = once.clone();
        enforce_nfs_safe_options(&mut twice);
        assert_eq!(twice, once);
    }
}

// ── sources ─────────────────────────────────────────────────────────────────

#[test]
fn normalize_source_canonicalizes_and_rejects_malformed() {
    assert_eq!(
        normalize_nfs_source(" 10.10.10.10:/mnt/user/downloads ").unwrap(),
        "10.10.10.10:/mnt/user/downloads"
    );
    assert!(normalize_nfs_source("").is_err());
    assert!(normalize_nfs_source("no-colon-path").is_err());
    assert!(normalize_nfs_source("host:relative/export").is_err());
    assert!(normalize_nfs_source(":/export").is_err());
}

#[test]
fn each_bad_source_has_its_own_message() {
    let message = |s: &str| normalize_nfs_source(s).unwrap_err().message().to_string();
    assert_eq!(message(" \t"), "nfs source is empty");
    assert_eq!(message(" nocolon "), "nfs source `nocolon` is not `host:/export`");
    assert_eq!(message(" :/x"), "nfs source `:/x` has an empty host");
    assert_eq!(
        message("h:x"),
        "nfs source `h:x` export path must be absolute (start with `/`)"
    );
    assert_eq!(
        message("h:"),
        "nfs source `h:` export path must be absolute (start with `/`)"
    );
}

#[test]
fn a_canonical_source_is_kept() {
    let once = normalize_nfs_source("  nas : /export/a:b ").unwrap();
    assert_eq!(once, "nas:/export/a:b");
    assert_eq!(normalize_nfs_source(&once).unwrap(), once);
}

// ── numbers ─────────────────────────────────────────────────────────────────

#[test]
fn numbers_print_and_read_back() {
    for n in [0u32, 7, 10, 50, 99, 100, 4096, 16_777_216, u32::MAX] {
        assert_eq!(u32_text(n), format!("{n}"));
        assert_eq!(parse_u32(&u32_text(n)), Some(n));
    }
    for n in [0i32, -1, 32, i32::MAX, i32::MIN] {
        assert_eq!(i32_text(n), format!("{n}"));
        assert_eq!(exit_code_text(Some(n)), format!("{:?}", Some(n)));
    }
    assert_eq!(exit_code_text(None), "None");
    assert_eq!(parse_u32("4294967296"), None);
}
