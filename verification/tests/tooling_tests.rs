use rustowl::cache::{get_cache_config, get_cache_path, is_cache, parse_u64, parse_usize, trim, CacheConfig};
use rustowl::perf_dummy::{compute_fibonacci, generate_large_dataset, AppConfig, DataContainer, DataProcessor};
use rustowl::rustowlc::{compiler_mode, crate_name, is_passthrough_arg, prepare_args, single_result, CompilerMode};
use rustowl::models::Function;
use rustowl::toolchain::{download_step, DownloadAction,
    after_chunk, cargo_encoded_rustflags, component_archive, executable_candidates, expected_total,
    extract_base_dir_for_spool, hash_url_for_filename, hex16_string, join, override_key, prepend_library_path,
    range_header, resume_reply, retry_reply, retry_wait_ms, safe_join_tar_path, safe_join_zip_path,
    split_whitespace, spool_dir_for_runtime, sysroot_from_runtime, DownloadCaps, ResumeReply, RetryReply,
};
use rustowl::xtask::{
    compares_ge_semver, display_cmd, ensure_tool, is_prerelease, os_kind, parse_semver, parse_version,
    shell_escape, OsKind,
};
use rustowl::xtask::{format_bytes, plan_security, security_summary, valgrind_args, SecurityOptions, SecurityPlan, SecurityResults};

fn strings(v: &[&str]) -> Vec<String> {
    v.iter().map(|s| s.to_string()).collect()
}

#[test]
fn test_data_container() {
    let mut container = DataContainer::new("test".to_string());
    container.add_data(vec![1, 2, 3]).unwrap();
    assert_eq!(container.get_data(), &[1, 2, 3]);
}

#[test]
fn test_fibonacci() {
    assert_eq!(compute_fibonacci(5), 5);
    assert_eq!(compute_fibonacci(10), 55);
}

#[test]
fn metadata_is_read_back_after_insert() {
    let mut c = DataContainer::new("x".to_string());
    assert_eq!(c.get_metadata_safe("k"), None);
    c.insert_metadata("k".to_string(), "v1".to_string());
    c.insert_metadata("j".to_string(), "w".to_string());
    c.insert_metadata("k".to_string(), "v2".to_string());
    assert_eq!(c.get_metadata("k"), "v2");
    assert_eq!(c.get_metadata_safe("j").map(|s| s.as_str()), Some("w"));
    assert_eq!(DataProcessor::processed_label(&c), "Processed: x");
    assert_eq!(DataProcessor::new(4).workers, 4);
}

#[test]
fn datasets_and_endpoints() {
    let d = generate_large_dataset(3, "2024-01-01");
    assert_eq!(d.len(), 3);
    assert_eq!(d[2].id, "item_2");
    assert_eq!(d[2].data.len(), 1024);
    assert!(d[2].data.iter().all(|b| *b == 2));
    assert_eq!(d[1].get_metadata("created_at"), "2024-01-01");

    let cfg = AppConfig { database_url: String::new(), api_endpoints: strings(&["a", "b"]), timeout_seconds: 1, retry_attempts: 1 };
    assert_eq!(cfg.get_first_endpoint(), "a");
    let empty = AppConfig { api_endpoints: Vec::new(), ..cfg };
    assert_eq!(empty.get_first_endpoint_safe(), None);
}

#[test]
fn workspace_wrapper_duplicate_argv0_is_detected() {
    let args = strings(&["rustowlc", "rustowlc", "--help"]);
    assert_eq!(args.first(), args.get(1));
    let deduped = prepare_args(args);
    assert_eq!(deduped, strings(&["rustowlc", "--help"]));
}

#[test]
fn passthrough_args_are_detected() {
    for arg in ["-vV", "--version", "--print=cfg", "--print", "--print=all"] {
        assert!(is_passthrough_arg(arg));
    }
    for arg in ["--crate-type", "lib", "-L", "dependency=/path"] {
        assert!(!is_passthrough_arg(arg));
    }
}

#[test]
fn compiler_path_and_crate_name_are_read_from_arguments() {
    let args = strings(&["rustowlc", "/usr/bin/rustc", "--crate-name", "foo", "src/lib.rs"]);
    let prepared = prepare_args(args);
    assert_eq!(prepared, strings(&["rustowlc", "--crate-name", "foo", "src/lib.rs"]));
    assert_eq!(crate_name(&prepared), Some("foo".to_string()));
    assert_eq!(compiler_mode(&prepared), CompilerMode::Analyze);
    assert_eq!(compiler_mode(&strings(&["rustowlc", "--crate-name", "___"])), CompilerMode::Plain);
    assert_eq!(compiler_mode(&strings(&["rustowlc", "-vV"])), CompilerMode::Passthrough);
    let ws = single_result("c".to_string(), "f.rs".to_string(), Function::new(3));
    assert_eq!(ws.0["c"].0["f.rs"].items[0].fn_id, 3);
}

#[test]
fn test_cache_config_default() {
    let config = CacheConfig::default();
    assert_eq!(config.max_entries, 1000);
    assert_eq!(config.max_memory_bytes, 100 * 1024 * 1024);
    assert!(config.use_lru_eviction);
    assert!(config.validate_file_mtime);
    assert!(!config.enable_compression);
}

#[test]
fn test_is_cache_default() {
    assert!(is_cache(None));
}

#[test]
fn test_is_cache_with_false_values() {
    assert!(!is_cache(Some("false")));
    assert!(!is_cache(Some("FALSE")));
    assert!(!is_cache(Some("0")));
    assert!(!is_cache(Some("  false  ")));
}

#[test]
fn test_is_cache_with_true_values() {
    assert!(is_cache(Some("true")));
    assert!(is_cache(Some("1")));
    assert!(is_cache(Some("yes")));
    assert!(is_cache(Some("")));
}

#[test]
fn test_get_cache_path() {
    assert!(get_cache_path(None).is_none());
    assert!(get_cache_path(Some("")).is_none());
    assert!(get_cache_path(Some("   ")).is_none());
    assert_eq!(get_cache_path(Some("/tmp/cache")).unwrap(), "/tmp/cache");
    assert_eq!(get_cache_path(Some("  /tmp/cache  ")).unwrap(), "/tmp/cache");
}

#[test]
fn test_get_cache_config_with_env_vars() {
    assert_eq!(get_cache_config(Some("500"), None, None, None).max_entries, 500);
    assert_eq!(get_cache_config(Some("invalid"), None, None, None).max_entries, 1000);
    assert_eq!(get_cache_config(None, Some("200"), None, None).max_memory_bytes, 200 * 1024 * 1024);
    let max = usize::MAX.to_string();
    assert!(get_cache_config(None, Some(max.as_str()), None, None).max_memory_bytes > 0);
    assert!(get_cache_config(None, None, Some("lru"), None).use_lru_eviction);
    assert!(get_cache_config(None, None, Some("LRU"), None).use_lru_eviction);
    assert!(!get_cache_config(None, None, Some("fifo"), None).use_lru_eviction);
    assert!(!get_cache_config(None, None, Some("FIFO"), None).use_lru_eviction);
    assert!(get_cache_config(None, None, Some("invalid"), None).use_lru_eviction);
    assert!(!get_cache_config(None, None, None, Some("false")).validate_file_mtime);
    assert!(!get_cache_config(None, None, None, Some("0")).validate_file_mtime);
    assert!(get_cache_config(None, None, None, Some("true")).validate_file_mtime);
    assert!(get_cache_config(None, None, None, Some("1")).validate_file_mtime);
    assert!(!get_cache_config(None, None, None, Some("  FALSE  ")).validate_file_mtime);
}

#[test]
fn test_cache_config_memory_safety() {
    let mut configs = Vec::new();
    for i in 0..50 {
        configs.push(CacheConfig {
            max_entries: 1000 + i,
            max_memory_bytes: (100 + i) * 1024 * 1024,
            use_lru_eviction: i % 2 == 0,
            validate_file_mtime: i % 3 == 0,
            enable_compression: i % 4 == 0,
        });
    }
    for config in &configs {
        let cloned = config.clone();
        assert_eq!(config.max_entries, cloned.max_entries);
        assert_eq!(config.max_memory_bytes, cloned.max_memory_bytes);
        assert_eq!(config.use_lru_eviction, cloned.use_lru_eviction);
        assert_eq!(config.validate_file_mtime, cloned.validate_file_mtime);
        assert_eq!(config.enable_compression, cloned.enable_compression);
    }
    for config in &configs {
        let debug_str = format!("{config:?}");
        assert!(debug_str.contains("CacheConfig"));
        assert!(debug_str.contains(&config.max_entries.to_string()));
    }
}

#[test]
fn numbers_and_trimming() {
    assert_eq!(trim(" \t a b \n"), "a b");
    assert_eq!(parse_usize("+42"), Some(42));
    assert_eq!(parse_usize("4x"), None);
    assert_eq!(parse_usize(""), None);
    assert_eq!(parse_u64("18446744073709551615"), Some(u64::MAX));
    assert_eq!(parse_u64("18446744073709551616"), None);
}

#[test]
fn hash_url_for_filename_is_stable_and_hex() {
    let url = "https://example.com/archive.tar.gz";
    let a = hash_url_for_filename(url);
    let b = hash_url_for_filename(url);
    assert_eq!(a, b);
    assert_eq!(a.len(), 16);
    assert!(a.chars().all(|c| c.is_ascii_digit() || ('a'..='f').contains(&c)));
    assert_ne!(hash_url_for_filename("https://example.com/other.tar.gz"), a);
}

#[test]
fn hex_digits_are_written_most_significant_first() {
    assert_eq!(hex16_string(0), "0000000000000000");
    assert_eq!(hex16_string(0xdead_beef), "00000000deadbeef");
    assert_eq!(hex16_string(u64::MAX), "ffffffffffffffff");
}

#[test]
fn spool_dir_is_under_runtime_cache() {
    assert_eq!(spool_dir_for_runtime("/tmp/rustowl-runtime"), "/tmp/rustowl-runtime/.rustowl-cache/downloads");
}

#[test]
fn extracted_components_are_staged_under_spool_dir() {
    let spool = "/home/user/.rustowl/.rustowl-cache/downloads";
    assert_eq!(extract_base_dir_for_spool(spool), format!("{spool}/extract"));
}

#[test]
fn sysroot_from_runtime_uses_toolchain_component() {
    assert_eq!(
        sysroot_from_runtime("/opt/rustowl", "1.90.0-x86_64-unknown-linux-gnu"),
        "/opt/rustowl/sysroot/1.90.0-x86_64-unknown-linux-gnu"
    );
}

#[test]
fn test_sysroot_from_runtime() {
    assert_eq!(sysroot_from_runtime("/opt/test-runtime", "nightly"), "/opt/test-runtime/sysroot/nightly");
}

#[test]
fn safe_join_tar_path_rejects_escape_attempts() {
    let dest = "/safe/root";
    assert!(safe_join_tar_path(dest, "../evil").is_err());
    assert!(safe_join_tar_path(dest, "/abs/path").is_err());
    let ok = safe_join_tar_path(dest, "dir/file.txt").expect("ok");
    assert_eq!(ok, join(&join(dest, "dir"), "file.txt"));
}

#[test]
fn safe_join_tar_path_rejects_empty_and_dot_only_paths() {
    let dest = "/safe/root";
    assert!(safe_join_tar_path(dest, ".").is_err());
    assert!(safe_join_tar_path(dest, "././.").is_err());
    assert!(safe_join_tar_path(dest, "").is_err());
    let ok = safe_join_tar_path(dest, "./dir/./file.txt").expect("ok");
    assert_eq!(ok, "/safe/root/dir/file.txt");
}

#[test]
fn unpack_tarball_gz_rejects_path_traversal_entry() {
    let dest = "/safe/root";
    assert!(safe_join_tar_path(dest, "../evil.txt").is_err());
    assert!(safe_join_tar_path(dest, "/evil.txt").is_err());
    assert!(safe_join_zip_path(dest, "a/../../evil.txt").is_err());
}

#[test]
fn setup_cargo_command_encodes_threads_and_sysroot() {
    let encoded = cargo_encoded_rustflags(None, None, 4, "/opt/rust/sysroot");
    assert!(encoded.contains("-Z\u{1f}threads=4\u{1f}"));
    assert!(encoded.contains("--sysroot=/opt/rust/sysroot"));
    assert_eq!(cargo_encoded_rustflags(None, None, 1, "/s"), "--sysroot=/s");
}

#[test]
fn setup_cargo_command_preserves_user_rustflags_in_encoded_string() {
    let encoded = cargo_encoded_rustflags(Some("-C debuginfo=2"), Some("--cfg\u{1f}from_user"), 4, "/opt/rust/sysroot");
    assert!(encoded.contains("--cfg\u{1f}from_user\u{1f}"));
    assert!(encoded.contains("\u{1f}-C\u{1f}debuginfo=2"));
    assert_eq!(
        encoded,
        "-Z\u{1f}threads=4\u{1f}--cfg\u{1f}from_user\u{1f}--sysroot=/opt/rust/sysroot\u{1f}-C\u{1f}debuginfo=2"
    );
}

#[test]
fn tool_lookup_paths() {
    assert_eq!(override_key("rustc"), "RUSTOWL_RUSTC_PATH");
    assert_eq!(
        executable_candidates("cargo", "/s", "/exe", "/w"),
        strings(&["/s/bin/cargo", "/exe/cargo", "/w/target/debug/cargo", "/w/target/release/cargo"])
    );
    assert_eq!(prepend_library_path(Some("/usr/lib"), "/s/lib"), "/s/lib:/usr/lib");
    assert_eq!(prepend_library_path(None, "/s/lib"), "/s/lib:");
    assert_eq!(split_whitespace("  a \tbc  d "), strings(&["a", "bc", "d"]));
    assert_eq!(
        component_archive("rustc", "nightly", "x86_64-unknown-linux-gnu", "https://d"),
        (
            "rustc-nightly-x86_64-unknown-linux-gnu".to_string(),
            "https://d/rustc-nightly-x86_64-unknown-linux-gnu.tar.gz".to_string()
        )
    );
}

#[test]
fn download_bookkeeping() {
    assert_eq!(resume_reply(206), ResumeReply::Resume);
    assert_eq!(resume_reply(416), ResumeReply::Complete);
    assert_eq!(resume_reply(200), ResumeReply::Restart);
    assert_eq!(resume_reply(500), ResumeReply::Fail);
    assert_eq!(retry_reply(503), RetryReply::Again);
    assert_eq!(retry_reply(206), RetryReply::Resume);
    assert_eq!(retry_reply(200), RetryReply::Restart);
    assert_eq!(retry_reply(302), RetryReply::Fail);
    assert_eq!(expected_total(10, Some(5)), Some(15));
    assert_eq!(expected_total(10, Some(u64::MAX)), Some(u64::MAX));
    assert_eq!(expected_total(10, None), None);
    assert_eq!(after_chunk(10, 5, 15), (15, true));
    assert_eq!(after_chunk(10, 6, 15), (16, false));
    assert_eq!(range_header(1234), "bytes=1234-");
    let caps = DownloadCaps::default_caps();
    assert_eq!(retry_wait_ms(caps, 3), 750);
}

#[test]
fn shell_quoting() {
    assert_eq!(shell_escape(""), "''");
    assert_eq!(shell_escape("a-b_c/d:e.f"), "a-b_c/d:e.f");
    assert_eq!(shell_escape("it's"), "'it'\\''s'");
    assert_eq!(display_cmd("cargo", &strings(&["build", "a b"])), "cargo build 'a b'");
}

#[test]
fn versions() {
    assert_eq!(parse_version("v0.3.1"), Ok(("v0.3.1".to_string(), "0.3.1".to_string())));
    assert_eq!(parse_version("0.3.1"), Err("version must start with 'v' (e.g. v0.3.1)".to_string()));
    assert_eq!(parse_version("vv"), Err("invalid version".to_string()));
    assert!(is_prerelease("1.0.0-RC1"));
    assert!(!is_prerelease("1.0.0"));
    assert_eq!(parse_semver("1.94.0-nightly"), Some((1, 94, 0)));
    assert_eq!(parse_semver("1.9"), None);
    assert!(compares_ge_semver("1.94.0-nightly", "1.92.0"));
    assert!(!compares_ge_semver("1.91.9", "1.92.0"));
    assert!(!compares_ge_semver("x", "1.0.0"));
    assert_eq!(os_kind("linux"), OsKind::Linux);
    assert_eq!(os_kind("freebsd"), OsKind::Other);
    assert!(ensure_tool("cargo", true).is_ok());
    assert_eq!(ensure_tool("zstd", false), Err("required tool not found in PATH: zstd".to_string()));
}

fn security_options() -> SecurityOptions {
    SecurityOptions {
        check: false,
        install: false,
        ci: false,
        no_auto_install: false,
        no_miri: false,
        no_valgrind: false,
        force_valgrind: false,
        no_deny: false,
        no_shear: false,
        no_instruments: false,
        force_instruments: false,
    }
}

#[test]
fn security_plan_keeps_everything_on_linux() {
    let p = plan_security(security_options(), OsKind::Linux, false).unwrap();
    assert_eq!(
        p,
        SecurityPlan {
            status_only: false,
            ci_mode: false,
            auto_install: false,
            deny: true,
            shear: true,
            miri: true,
            instruments: true,
            valgrind: true,
        }
    );
}

#[test]
fn security_plan_turns_off_platform_checks_and_forcing_wins() {
    let p = plan_security(security_options(), OsKind::Macos, true).unwrap();
    assert!(p.ci_mode && p.auto_install);
    assert!(p.miri && !p.valgrind && !p.instruments);
    let p = plan_security(security_options(), OsKind::Windows, false).unwrap();
    assert!(!p.miri && !p.valgrind && !p.instruments);
    let mut o = security_options();
    o.no_valgrind = true;
    o.force_valgrind = true;
    o.force_instruments = true;
    let p = plan_security(o, OsKind::Macos, false).unwrap();
    assert!(p.valgrind && p.instruments);
}

#[test]
fn security_plan_refuses_install_without_auto_install() {
    let mut o = security_options();
    o.install = true;
    o.no_auto_install = true;
    assert_eq!(plan_security(o, OsKind::Linux, false), Err("--install conflicts with --no-auto-install".to_string()));
    o.no_auto_install = false;
    assert!(plan_security(o, OsKind::Linux, false).unwrap().auto_install);
}

#[test]
fn security_summary_lists_each_step() {
    let plan = plan_security(security_options(), OsKind::Linux, false).unwrap();
    let results = SecurityResults {
        deny_ok: true,
        shear_ok: true,
        miri_ok: true,
        instruments_available: false,
        instruments_ok: false,
        build_ok: true,
        valgrind_ok: false,
    };
    let (text, ok) = security_summary(plan, OsKind::Linux, results);
    assert!(ok, "valgrind's own result does not fail the checks");
    assert!(text.starts_with("# Security Testing Summary\n\nGenerated by `cargo xtask security`.\n\n## cargo deny\n- status: ok\n- log: security-logs/cargo-deny.log\n\n"));
    assert!(text.contains("## instruments\n- status: ok\n- log: skipped (non-macOS)\n\n"));
    assert!(text.ends_with("## valgrind\n- status: failed\n- log: security-logs/valgrind.log\n\n"));
    let (_, ok) = security_summary(plan, OsKind::Linux, SecurityResults { shear_ok: false, ..results });
    assert!(!ok);
    let mac = plan_security(security_options(), OsKind::Macos, false).unwrap();
    let mut forced = mac;
    forced.instruments = true;
    let (text, ok) = security_summary(forced, OsKind::Macos, results);
    assert!(!ok);
    assert!(text.contains("## instruments\n- status: failed\n- log: missing or not functional; try Xcode setup\n"));
    assert!(text.contains("## valgrind\n- status: ok\n- log: skipped\n"));
}

#[test]
fn valgrind_arguments() {
    assert_eq!(
        valgrind_args(false, true, true),
        strings(&[
            "--tool=memcheck",
            "--leak-check=full",
            "--show-leak-kinds=all",
            "--track-origins=yes",
            "--suppressions=.valgrind-suppressions",
            "./target/release/rustowl",
            "check",
            "./perf-tests/dummy-package",
        ])
    );
    assert_eq!(valgrind_args(true, false, false)[4..], strings(&["./target/release/rustowl.exe", "--help"])[..]);
}

#[test]
fn format_bytes_picks_the_unit_and_rounds_like_the_float_division() {
    assert_eq!(format_bytes(0), "0B");
    assert_eq!(format_bytes(1023), "1023B");
    assert_eq!(format_bytes(1024), "1.00KiB");
    assert_eq!(format_bytes(1536), "1.50KiB");
    assert_eq!(format_bytes(1152), "1.12KiB");
    assert_eq!(format_bytes(1408), "1.38KiB");
    assert_eq!(format_bytes(1024 * 1024 - 1), "1024.00KiB");
    assert_eq!(format_bytes(1024 * 1024), "1.00MiB");
    assert_eq!(format_bytes(5 * 1024 * 1024 * 1024 + 512 * 1024 * 1024), "5.50GiB");
    assert_eq!(format_bytes(u64::MAX), "17179869184.00GiB");
    for bytes in [1025u64, 2000, 123_456, 9_999_999, 3_000_000_000, (1 << 53) + 1] {
        let b = bytes as f64;
        let expected = if b >= 1073741824.0 {
            format!("{:.2}GiB", b / 1073741824.0)
        } else if b >= 1048576.0 {
            format!("{:.2}MiB", b / 1048576.0)
        } else {
            format!("{:.2}KiB", b / 1024.0)
        };
        assert_eq!(format_bytes(bytes), expected);
    }
}

#[test]
fn download_step_decides_resume_retry_and_stop() {
    let caps = DownloadCaps::default_caps();
    assert_eq!(download_step(100, 206, 0, 50, caps), DownloadAction::Write { restart: false });
    assert_eq!(download_step(100, 416, 0, 0, caps), DownloadAction::Done);
    assert_eq!(download_step(100, 200, 0, 50, caps), DownloadAction::Write { restart: true });
    assert_eq!(download_step(100, 500, 0, 0, caps), DownloadAction::Fail);
    assert_eq!(download_step(0, 503, 0, 0, caps), DownloadAction::Retry { attempt: 1, wait_ms: 250 });
    assert_eq!(download_step(0, 503, 4, 0, caps), DownloadAction::Retry { attempt: 5, wait_ms: 1250 });
    assert_eq!(download_step(0, 503, 5, 0, caps), DownloadAction::Fail);
    assert_eq!(download_step(0, 302, 0, 0, caps), DownloadAction::Fail);
    assert_eq!(download_step(0, 200, 0, 3_000_000_000, caps), DownloadAction::TooLarge);
    assert_eq!(download_step(1_999_999_990, 206, 0, 10, caps), DownloadAction::Write { restart: false });
    assert_eq!(download_step(1_999_999_990, 206, 0, 11, caps), DownloadAction::TooLarge);
}
