use csv_columns::extension::{
    binary_path, choose_command, download_failed_message, fallback_binary_paths,
    fetch_failed_message, find_asset, install_accepts, install_start, install_step,
    installed_version_dirs, merge_env, missing_asset_message, platform_asset, stale_version_dirs,
    version_dir, Architecture, CommandSource, FileType, InstallAction, InstallEvent,
    InstallState, InstallStatus, Os, Release, ReleaseAsset,
};

fn strings(v: &[&str]) -> Vec<String> {
    v.iter().map(|s| s.to_string()).collect()
}

#[test]
fn assets_per_platform() {
    let a = platform_asset(Os::Linux, Architecture::X8664).unwrap();
    assert_eq!(a.name, "csv-lsp-x86_64-unknown-linux-musl.tar.gz");
    assert_eq!(a.file_type, FileType::GzipTar);
    assert_eq!(a.binary_name, "csv-lsp");
    let a = platform_asset(Os::Mac, Architecture::Aarch64).unwrap();
    assert_eq!(a.name, "csv-lsp-aarch64-apple-darwin.tar.gz");
    let a = platform_asset(Os::Windows, Architecture::X8664).unwrap();
    assert_eq!(a.name, "csv-lsp-x86_64-pc-windows-msvc.zip");
    assert_eq!(a.file_type, FileType::Zip);
    assert_eq!(a.binary_name, "csv-lsp.exe");
    assert_eq!(
        platform_asset(Os::Linux, Architecture::X86),
        Err(String::from("csv-lsp: 32-bit x86 is not supported"))
    );
}

#[test]
fn version_directories() {
    assert_eq!(version_dir("v1.2.0"), "csv-lsp-v1.2.0");
    assert_eq!(binary_path("csv-lsp-v1.2.0", "csv-lsp"), "csv-lsp-v1.2.0/csv-lsp");
    let names = strings(&["csv-lsp-v1", "other", "csv-lsp-v2", "csv-ls"]);
    let dirs = installed_version_dirs(&names);
    assert_eq!(dirs, strings(&["csv-lsp-v1", "csv-lsp-v2"]));
    assert_eq!(fallback_binary_paths(&dirs, "csv-lsp.exe"), strings(&["csv-lsp-v1/csv-lsp.exe", "csv-lsp-v2/csv-lsp.exe"]));
    assert_eq!(stale_version_dirs(&dirs, "csv-lsp-v2"), strings(&["csv-lsp-v1"]));
}

#[test]
fn assets_and_messages() {
    let names = strings(&["a.zip", "b.tar.gz", "a.zip"]);
    assert_eq!(find_asset(&names, "a.zip"), Some(0));
    assert_eq!(find_asset(&names, "b.tar.gz"), Some(1));
    assert_eq!(find_asset(&names, "c"), None);
    assert_eq!(
        fetch_failed_message("offline"),
        "csv-lsp: could not fetch the latest release of SirToffski/zed_csv_utils: offline"
    );
    assert_eq!(missing_asset_message("v3", "x.zip"), "csv-lsp: release v3 has no asset named x.zip");
    assert_eq!(download_failed_message("x.zip", "boom"), "csv-lsp: failed to download x.zip: boom");
}

#[test]
fn command_resolution_order() {
    assert_eq!(
        choose_command(Some(String::from("/a")), Some(String::from("/b"))),
        CommandSource::Configured(String::from("/a"))
    );
    assert_eq!(choose_command(None, Some(String::from("/b"))), CommandSource::OnPath(String::from("/b")));
    assert_eq!(choose_command(None, None), CommandSource::Download);
}

#[test]
fn settings_env_overrides_shell_env() {
    let pair = |k: &str, v: &str| (k.to_string(), v.to_string());
    let shell = vec![pair("PATH", "/bin"), pair("HOME", "/h"), pair("LANG", "C")];
    let extra = vec![pair("LANG", "en"), pair("RUST_LOG", "info")];
    assert_eq!(
        merge_env(shell, extra),
        vec![pair("PATH", "/bin"), pair("HOME", "/h"), pair("LANG", "en"), pair("RUST_LOG", "info")]
    );
}

/// Runs an installation against scripted host answers.
fn run(cached: Option<&str>, answer: impl Fn(&InstallAction) -> InstallEvent) -> (Vec<String>, Result<String, String>) {
    let mut log = Vec::new();
    let (mut state, mut action) = install_start(cached.map(String::from), Os::Linux, Architecture::X8664);
    loop {
        if let InstallAction::Finish(r) = action {
            return (log, r);
        }
        log.push(format!("{action:?}"));
        let event = answer(&action);
        assert!(install_accepts(&state, &event));
        (state, action) = install_step(state, event);
    }
}

fn release() -> Release {
    Release {
        version: String::from("v2"),
        assets: vec![ReleaseAsset {
            name: String::from("csv-lsp-x86_64-unknown-linux-musl.tar.gz"),
            download_url: String::from("https://example.invalid/a.tar.gz"),
        }],
    }
}

#[test]
fn cached_binary_is_reused() {
    let (log, r) = run(Some("csv-lsp-v1/csv-lsp"), |_| InstallEvent::IsFile(true));
    assert_eq!(r, Ok(String::from("csv-lsp-v1/csv-lsp")));
    assert_eq!(log.len(), 1);
}

#[test]
fn fresh_download_cleans_old_versions() {
    let (log, r) = run(None, |a| match a {
        InstallAction::CheckFile(_) => InstallEvent::IsFile(false),
        InstallAction::FetchRelease => InstallEvent::Fetched(Ok(release())),
        InstallAction::ListWorkDir => InstallEvent::Listed(strings(&["csv-lsp-v1", "csv-lsp-v2", "notes"])),
        InstallAction::Download { .. } | InstallAction::MakeExecutable(_) => InstallEvent::Outcome(Ok(())),
        _ => InstallEvent::Done,
    });
    assert_eq!(r, Ok(String::from("csv-lsp-v2/csv-lsp")));
    let expected = [
        format!("{:?}", InstallAction::SetStatus(InstallStatus::CheckingForUpdate)),
        format!("{:?}", InstallAction::FetchRelease),
        format!("{:?}", InstallAction::CheckFile(String::from("csv-lsp-v2/csv-lsp"))),
        format!("{:?}", InstallAction::SetStatus(InstallStatus::Downloading)),
        format!("{:?}", InstallAction::RemoveDir(String::from("csv-lsp-v2"))),
        format!(
            "{:?}",
            InstallAction::Download {
                url: String::from("https://example.invalid/a.tar.gz"),
                dir: String::from("csv-lsp-v2"),
                file_type: FileType::GzipTar,
            }
        ),
        format!("{:?}", InstallAction::MakeExecutable(String::from("csv-lsp-v2/csv-lsp"))),
        format!("{:?}", InstallAction::ListWorkDir),
        format!("{:?}", InstallAction::RemoveDir(String::from("csv-lsp-v1"))),
        format!("{:?}", InstallAction::SetStatus(InstallStatus::Idle)),
    ];
    assert_eq!(log, expected);
}

#[test]
fn offline_falls_back_to_installed_version() {
    let (_, r) = run(None, |a| match a {
        InstallAction::CheckFile(p) => InstallEvent::IsFile(p == "csv-lsp-v1/csv-lsp"),
        InstallAction::FetchRelease => InstallEvent::Fetched(Err(String::from("offline"))),
        InstallAction::ListWorkDir => InstallEvent::Listed(strings(&["csv-lsp-v0", "csv-lsp-v1"])),
        _ => InstallEvent::Done,
    });
    assert_eq!(r, Ok(String::from("csv-lsp-v1/csv-lsp")));
    let (_, r) = run(None, |a| match a {
        InstallAction::CheckFile(_) => InstallEvent::IsFile(false),
        InstallAction::FetchRelease => InstallEvent::Fetched(Err(String::from("offline"))),
        InstallAction::ListWorkDir => InstallEvent::Listed(Vec::new()),
        _ => InstallEvent::Done,
    });
    assert_eq!(
        r,
        Err(String::from("csv-lsp: could not fetch the latest release of SirToffski/zed_csv_utils: offline"))
    );
}

#[test]
fn installation_errors() {
    let (_, r) = run(None, |a| match a {
        InstallAction::CheckFile(_) => InstallEvent::IsFile(false),
        InstallAction::FetchRelease => InstallEvent::Fetched(Ok(Release { version: String::from("v9"), assets: Vec::new() })),
        _ => InstallEvent::Done,
    });
    assert_eq!(r, Err(String::from("csv-lsp: release v9 has no asset named csv-lsp-x86_64-unknown-linux-musl.tar.gz")));
    let (_, r) = run(None, |a| match a {
        InstallAction::CheckFile(_) => InstallEvent::IsFile(false),
        InstallAction::FetchRelease => InstallEvent::Fetched(Ok(release())),
        InstallAction::Download { .. } => InstallEvent::Outcome(Err(String::from("timeout"))),
        _ => InstallEvent::Done,
    });
    assert_eq!(r, Err(String::from("csv-lsp: failed to download csv-lsp-x86_64-unknown-linux-musl.tar.gz: timeout")));
    let (state, action) = install_start(None, Os::Windows, Architecture::X86);
    assert_eq!(state, InstallState::Over);
    assert_eq!(action, InstallAction::Finish(Err(String::from("csv-lsp: 32-bit x86 is not supported"))));
}
