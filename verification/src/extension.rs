//! Decisions of the editor extension that launches the language server:
//! which release asset fits the platform, where a downloaded server lives,
//! which installed versions are kept, and which command starts the server.
use vstd::prelude::*;
use crate::text::{str_eq, str_starts_with, append_str};

verus! {

broadcast use vstd::seq::group_seq_axioms;

// ---------------------------------------------------------------------------
// Platforms and release assets
// ---------------------------------------------------------------------------

/// Operating system the editor runs on.
#[derive(Debug, Clone, Copy, PartialEq, Eq, Structural)]
pub enum Os {
    Mac,
    Linux,
    Windows,
}

/// Processor architecture the editor runs on.
#[derive(Debug, Clone, Copy, PartialEq, Eq, Structural)]
pub enum Architecture {
    Aarch64,
    X8664,
    X86,
}

/// Archive format of a release asset.
#[derive(Debug, Clone, Copy, PartialEq, Eq, Structural)]
pub enum FileType {
    GzipTar,
    Zip,
}

/// The release asset built for one platform.
#[derive(Debug, Clone, PartialEq, Eq)]
pub struct PlatformAsset {
    /// File name of the asset in a release.
    pub name: String,
    /// How the asset is unpacked.
    pub file_type: FileType,
    /// File name of the server inside the unpacked asset.
    pub binary_name: String,
}

/// Architecture part of an asset name.
pub open spec fn arch_label(arch: Architecture) -> Seq<char> {
    match arch {
        Architecture::Aarch64 => "aarch64"@,
        Architecture::X8664 => "x86_64"@,
        Architecture::X86 => Seq::empty(),
    }
}

/// Target part of an asset name.
pub open spec fn target_label(os: Os) -> Seq<char> {
    match os {
        Os::Mac => "apple-darwin"@,
        Os::Linux => "unknown-linux-musl"@,
        Os::Windows => "pc-windows-msvc"@,
    }
}

/// File extension of an asset.
pub open spec fn archive_extension(os: Os) -> Seq<char> {
    match os {
        Os::Windows => "zip"@,
        _ => "tar.gz"@,
    }
}

/// Archive format of an asset.
pub open spec fn archive_type(os: Os) -> FileType {
    match os {
        Os::Windows => FileType::Zip,
        _ => FileType::GzipTar,
    }
}

/// File name of the server binary.
pub open spec fn server_binary(os: Os) -> Seq<char> {
    match os {
        Os::Windows => "csv-lsp.exe"@,
        _ => "csv-lsp"@,
    }
}

/// Asset name: `csv-lsp-<arch>-<target>.<extension>`.
pub open spec fn asset_name(os: Os, arch: Architecture) -> Seq<char> {
    "csv-lsp-"@ + arch_label(arch) + "-"@ + target_label(os) + "."@ + archive_extension(os)
}

/// The release asset for a platform; 32-bit x86 has none.
pub fn platform_asset(os: Os, arch: Architecture) -> (r: Result<PlatformAsset, String>)
    ensures
        r is Err <==> arch == Architecture::X86,
        r matches Err(e) ==> e@ == "csv-lsp: 32-bit x86 is not supported"@,
        r matches Ok(a) ==> a.name@ == asset_name(os, arch) && a.file_type == archive_type(os)
            && a.binary_name@ == server_binary(os),
{
    let arch_part = match arch {
        Architecture::Aarch64 => "aarch64",
        Architecture::X8664 => "x86_64",
        Architecture::X86 => {
            return Err(String::from_str("csv-lsp: 32-bit x86 is not supported"));
        },
    };
    let (target, extension, file_type, binary_name) = match os {
        Os::Mac => ("apple-darwin", "tar.gz", FileType::GzipTar, "csv-lsp"),
        Os::Linux => ("unknown-linux-musl", "tar.gz", FileType::GzipTar, "csv-lsp"),
        Os::Windows => ("pc-windows-msvc", "zip", FileType::Zip, "csv-lsp.exe"),
    };
    let mut name = String::new();
    append_str(&mut name, "csv-lsp-");
    append_str(&mut name, arch_part);
    append_str(&mut name, "-");
    append_str(&mut name, target);
    append_str(&mut name, ".");
    append_str(&mut name, extension);
    assert(name@ =~= asset_name(os, arch));
    Ok(PlatformAsset { name, file_type, binary_name: String::from_str(binary_name) })
}

// ---------------------------------------------------------------------------
// Installed versions
// ---------------------------------------------------------------------------

/// A directory that holds a downloaded release: `csv-lsp-<tag>`.
pub open spec fn is_version_dir(name: Seq<char>) -> bool {
    "csv-lsp-"@.len() <= name.len() && name.subrange(0, "csv-lsp-"@.len() as int) == "csv-lsp-"@
}

/// Keeps the version directories of a listing.
pub open spec fn version_dir_pred() -> spec_fn(Seq<char>) -> bool {
    |n: Seq<char>| is_version_dir(n)
}

/// Keeps the names other than `keep`.
pub open spec fn differs_from(keep: Seq<char>) -> spec_fn(Seq<char>) -> bool {
    |n: Seq<char>| n != keep
}

/// The directory a release `version` is unpacked into.
pub fn version_dir(version: &str) -> (dir: String)
    ensures
        dir@ == "csv-lsp-"@ + version@,
{
    let mut dir = String::new();
    append_str(&mut dir, "csv-lsp-");
    append_str(&mut dir, version);
    dir
}

/// Path of the server binary inside directory `dir`.
pub fn binary_path(dir: &str, binary_name: &str) -> (path: String)
    ensures
        path@ == dir@ + "/"@ + binary_name@,
{
    let mut path = String::new();
    append_str(&mut path, dir);
    append_str(&mut path, "/");
    append_str(&mut path, binary_name);
    path
}

/// The entries of a work directory listing that hold downloaded releases, in
/// listing order.
pub fn installed_version_dirs(names: &Vec<String>) -> (dirs: Vec<String>)
    ensures
        dirs.deep_view() == names.deep_view().filter(version_dir_pred()),
{
    let ghost all = names.deep_view();
    let mut dirs: Vec<String> = Vec::new();
    let mut k: usize = 0;
    proof {
        reveal(Seq::filter);
        assert(all.take(0) =~= Seq::<Seq<char>>::empty());
        assert(dirs.deep_view() =~= all.take(0).filter(version_dir_pred()));
    }
    while k < names.len()
        invariant
            k <= names@.len(),
            all == names.deep_view(),
            dirs.deep_view() == all.take(k as int).filter(version_dir_pred()),
        decreases names@.len() - k,
    {
        let ghost before = dirs.deep_view();
        assert(all[k as int] == names@[k as int]@);
        let keep = str_starts_with(names[k].as_str(), "csv-lsp-");
        if keep {
            dirs.push(names[k].clone());
            assert(dirs.deep_view() =~= before.push(all[k as int]));
        }
        proof {
            reveal(Seq::filter);
            assert(all.take(k + 1).drop_last() =~= all.take(k as int));
            assert(all.take(k + 1).last() == all[k as int]);
        }
        k += 1;
    }
    assert(all.take(k as int) =~= all);
    dirs
}

/// Server paths to try, in order, when no release can be fetched: the
/// binary inside each installed version directory.
pub fn fallback_binary_paths(dirs: &Vec<String>, binary_name: &str) -> (paths: Vec<String>)
    ensures
        paths@.len() == dirs@.len(),
        forall|i: int| 0 <= i < dirs@.len() ==> #[trigger] paths@[i]@ == dirs@[i]@ + "/"@ + binary_name@,
{
    let mut paths: Vec<String> = Vec::new();
    let mut k: usize = 0;
    while k < dirs.len()
        invariant
            k <= dirs@.len(),
            paths@.len() == k,
            forall|i: int| 0 <= i < k ==> #[trigger] paths@[i]@ == dirs@[i]@ + "/"@ + binary_name@,
        decreases dirs@.len() - k,
    {
        paths.push(binary_path(dirs[k].as_str(), binary_name));
        k += 1;
    }
    paths
}

/// The installed version directories other than the one in use, which are
/// removed after a download.
pub fn stale_version_dirs(dirs: &Vec<String>, keep: &str) -> (stale: Vec<String>)
    ensures
        stale.deep_view() == dirs.deep_view().filter(differs_from(keep@)),
{
    let ghost all = dirs.deep_view();
    let mut stale: Vec<String> = Vec::new();
    let mut k: usize = 0;
    proof {
        reveal(Seq::filter);
        assert(all.take(0) =~= Seq::<Seq<char>>::empty());
        assert(stale.deep_view() =~= all.take(0).filter(differs_from(keep@)));
    }
    while k < dirs.len()
        invariant
            k <= dirs@.len(),
            all == dirs.deep_view(),
            stale.deep_view() == all.take(k as int).filter(differs_from(keep@)),
        decreases dirs@.len() - k,
    {
        let ghost before = stale.deep_view();
        assert(all[k as int] == dirs@[k as int]@);
        if !str_eq(dirs[k].as_str(), keep) {
            stale.push(dirs[k].clone());
            assert(stale.deep_view() =~= before.push(all[k as int]));
        }
        proof {
            reveal(Seq::filter);
            assert(all.take(k + 1).drop_last() =~= all.take(k as int));
            assert(all.take(k + 1).last() == all[k as int]);
        }
        k += 1;
    }
    assert(all.take(k as int) =~= all);
    stale
}

/// Index of the first release asset named `wanted`.
pub fn find_asset(names: &Vec<String>, wanted: &str) -> (r: Option<usize>)
    ensures
        match r {
            Some(i) => i < names@.len() && names@[i as int]@ == wanted@ && forall|j: int|
                0 <= j < i ==> #[trigger] names@[j]@ != wanted@,
            None => forall|j: int| 0 <= j < names@.len() ==> #[trigger] names@[j]@ != wanted@,
        },
{
    let mut k: usize = 0;
    while k < names.len()
        invariant
            k <= names@.len(),
            forall|j: int| 0 <= j < k ==> #[trigger] names@[j]@ != wanted@,
        decreases names@.len() - k,
    {
        if str_eq(names[k].as_str(), wanted) {
            return Some(k);
        }
        k += 1;
    }
    None
}

// ---------------------------------------------------------------------------
// Messages
// ---------------------------------------------------------------------------

/// Error when the latest release cannot be fetched and nothing is installed.
pub fn fetch_failed_message(err: &str) -> (m: String)
    ensures
        m@ == "csv-lsp: could not fetch the latest release of SirToffski/zed_csv_utils: "@ + err@,
{
    let mut m = String::new();
    append_str(&mut m, "csv-lsp: could not fetch the latest release of SirToffski/zed_csv_utils: ");
    append_str(&mut m, err);
    m
}

/// Error when a release lacks the platform's asset.
pub fn missing_asset_message(version: &str, asset: &str) -> (m: String)
    ensures
        m@ == "csv-lsp: release "@ + version@ + " has no asset named "@ + asset@,
{
    let mut m = String::new();
    append_str(&mut m, "csv-lsp: release ");
    append_str(&mut m, version);
    append_str(&mut m, " has no asset named ");
    append_str(&mut m, asset);
    m
}

/// Error when downloading an asset fails.
pub fn download_failed_message(asset: &str, err: &str) -> (m: String)
    ensures
        m@ == "csv-lsp: failed to download "@ + asset@ + ": "@ + err@,
{
    let mut m = String::new();
    append_str(&mut m, "csv-lsp: failed to download ");
    append_str(&mut m, asset);
    append_str(&mut m, ": ");
    append_str(&mut m, err);
    m
}

// ---------------------------------------------------------------------------
// Launch command
// ---------------------------------------------------------------------------

/// Where the server command comes from.
#[derive(Debug, Clone, PartialEq, Eq)]
pub enum CommandSource {
    /// The binary path set in the editor's settings.
    Configured(String),
    /// The server found on the worktree's `PATH`.
    OnPath(String),
    /// A downloaded release.
    Download,
}

/// Resolution order: the configured path, then `PATH`, then a download.
pub fn choose_command(configured: Option<String>, on_path: Option<String>) -> (r: CommandSource)
    ensures
        match configured {
            Some(p) => r == CommandSource::Configured(p),
            None => match on_path {
                Some(p) => r == CommandSource::OnPath(p),
                None => r == CommandSource::Download,
            },
        },
{
    match configured {
        Some(p) => CommandSource::Configured(p),
        None => match on_path {
            Some(p) => CommandSource::OnPath(p),
            None => CommandSource::Download,
        },
    }
}

/// `key` is the key of one of `vars`.
pub open spec fn has_key(vars: Seq<(Seq<char>, Seq<char>)>, key: Seq<char>) -> bool {
    exists|i: int| 0 <= i < vars.len() && #[trigger] vars[i].0 == key
}

/// Views of environment variables.
pub open spec fn env_view(vars: Seq<(String, String)>) -> Seq<(Seq<char>, Seq<char>)> {
    vars.map_values(|v: (String, String)| (v.0@, v.1@))
}

/// The server's environment: the worktree's shell variables whose keys the
/// settings do not set, in order, then the variables the settings set.
pub fn merge_env(shell: Vec<(String, String)>, extra: Vec<(String, String)>) -> (env: Vec<(String, String)>)
    ensures
        env_view(env@) == env_view(shell@).filter(
            |v: (Seq<char>, Seq<char>)| !has_key(env_view(extra@), v.0),
        ) + env_view(extra@),
{
    let ghost sh = env_view(shell@);
    let ghost ex = env_view(extra@);
    let ghost pred = |v: (Seq<char>, Seq<char>)| !has_key(ex, v.0);
    let mut env: Vec<(String, String)> = Vec::new();
    proof {
        reveal(Seq::filter);
        assert(sh.take(0) =~= Seq::<(Seq<char>, Seq<char>)>::empty());
        assert(env_view(env@) =~= sh.take(0).filter(pred));
    }
    let mut k: usize = 0;
    while k < shell.len()
        invariant
            k <= shell@.len(),
            sh == env_view(shell@),
            ex == env_view(extra@),
            pred == (|v: (Seq<char>, Seq<char>)| !has_key(ex, v.0)),
            env_view(env@) == sh.take(k as int).filter(pred),
        decreases shell@.len() - k,
    {
        let key = &shell[k].0;
        let mut found = false;
        let mut j: usize = 0;
        while j < extra.len()
            invariant
                j <= extra@.len(),
                k < shell@.len(),
                ex == env_view(extra@),
                *key == shell@[k as int].0,
                found ==> exists|i: int| 0 <= i < j && #[trigger] ex[i].0 == shell@[k as int].0@,
                !found ==> forall|i: int| 0 <= i < j ==> #[trigger] ex[i].0 != shell@[k as int].0@,
            decreases extra@.len() - j,
        {
            assert(ex[j as int] == (extra@[j as int].0@, extra@[j as int].1@));
            if str_eq(extra[j].0.as_str(), key.as_str()) {
                found = true;
                assert(ex[j as int].0 == shell@[k as int].0@);
            }
            j += 1;
        }
        let ghost before = env_view(env@);
        assert(sh[k as int] == (shell@[k as int].0@, shell@[k as int].1@));
        assert(found == has_key(ex, sh[k as int].0));
        if !found {
            let entry = (shell[k].0.clone(), shell[k].1.clone());
            env.push(entry);
            assert(env_view(env@) =~= before.push(sh[k as int]));
        } else {
            assert(env_view(env@) =~= before);
        }
        proof {
            reveal(Seq::filter);
            assert(sh.take(k + 1).drop_last() =~= sh.take(k as int));
            assert(sh.take(k + 1).last() == sh[k as int]);
        }
        k += 1;
    }
    assert(sh.take(k as int) =~= sh);
    let ghost kept = env_view(env@);
    let mut j: usize = 0;
    while j < extra.len()
        invariant
            j <= extra@.len(),
            ex == env_view(extra@),
            env_view(env@) == kept + ex.take(j as int),
        decreases extra@.len() - j,
    {
        let ghost before = env_view(env@);
        let entry = (extra[j].0.clone(), extra[j].1.clone());
        env.push(entry);
        assert(env_view(env@) =~= before.push(ex[j as int]));
        assert(ex.take(j + 1) =~= ex.take(j as int).push(ex[j as int]));
        j += 1;
    }
    assert(ex.take(j as int) =~= ex);
    env
}

// ---------------------------------------------------------------------------
// Installing the server
// ---------------------------------------------------------------------------

/// Installation status shown by the editor.
#[derive(Debug, Clone, Copy, PartialEq, Eq, Structural)]
pub enum InstallStatus {
    CheckingForUpdate,
    Downloading,
    /// Nothing in progress.
    Idle,
}

/// An asset of a release.
#[derive(Debug, Clone, PartialEq, Eq)]
pub struct ReleaseAsset {
    pub name: String,
    pub download_url: String,
}

/// The latest release of the server.
#[derive(Debug, Clone, PartialEq, Eq)]
pub struct Release {
    pub version: String,
    pub assets: Vec<ReleaseAsset>,
}

/// What the editor host is asked to do next.
#[derive(Debug, PartialEq, Eq)]
pub enum InstallAction {
    /// Report whether this path is a file ([`InstallEvent::IsFile`]).
    CheckFile(String),
    /// Show this status ([`InstallEvent::Done`]).
    SetStatus(InstallStatus),
    /// Fetch the latest release ([`InstallEvent::Fetched`]).
    FetchRelease,
    /// List the work directory ([`InstallEvent::Listed`]).
    ListWorkDir,
    /// Remove this directory, ignoring failure ([`InstallEvent::Done`]).
    RemoveDir(String),
    /// Download and unpack an asset into a directory ([`InstallEvent::Outcome`]).
    Download { url: String, dir: String, file_type: FileType },
    /// Make this file executable ([`InstallEvent::Outcome`]).
    MakeExecutable(String),
    /// Stop: the server path to use (and remember), or the error.
    Finish(Result<String, String>),
}

/// What the editor host reports back.
#[derive(Debug, PartialEq, Eq)]
pub enum InstallEvent {
    Done,
    IsFile(bool),
    Fetched(Result<Release, String>),
    Listed(Vec<String>),
    Outcome(Result<(), String>),
}

/// Where an installation stands, waiting for the answer to its last action.
#[derive(Debug, PartialEq, Eq)]
pub enum InstallState {
    /// Checking the path found earlier in this session.
    CheckingCached { path: String, os: Os, arch: Architecture },
    /// Showing "checking for update".
    Announcing { asset: PlatformAsset },
    /// Fetching the latest release.
    Fetching { asset: PlatformAsset },
    /// No release: listing installed versions to fall back to.
    ListingFallback { asset: PlatformAsset, error: String },
    /// No release: checking `paths[next - 1]`.
    ProbingFallback { error: String, paths: Vec<String>, next: usize },
    /// Showing "idle" before using `path`.
    Reporting { path: String },
    /// Checking whether the release's binary is already installed.
    CheckingInstalled {
        asset: PlatformAsset,
        version: String,
        assets: Vec<ReleaseAsset>,
        dir: String,
        binary: String,
    },
    /// Showing "downloading".
    Preparing { asset: PlatformAsset, url: String, dir: String, binary: String },
    /// Removing leftovers of an interrupted download.
    Clearing { asset: PlatformAsset, url: String, dir: String, binary: String },
    /// Downloading the asset.
    Downloading { asset_name: String, dir: String, binary: String },
    /// Making the binary executable.
    MakingExecutable { dir: String, binary: String },
    /// Listing installed versions to remove the stale ones.
    ListingStale { dir: String, binary: String },
    /// Removing `stale[next - 1]`.
    RemovingStale { binary: String, stale: Vec<String>, next: usize },
    /// Finished.
    Over,
}

/// `a` is the release asset of the platform.
pub open spec fn asset_of(a: PlatformAsset, os: Os, arch: Architecture) -> bool {
    a.name@ == asset_name(os, arch) && a.file_type == archive_type(os) && a.binary_name@ == server_binary(os)
}

/// `r` finishes with the server at `path`.
pub open spec fn finishes_with(r: (InstallState, InstallAction), path: Seq<char>) -> bool {
    &&& r.0 is Over
    &&& r.1 matches InstallAction::Finish(Ok(p)) && p@ == path
}

/// `r` finishes with error `msg`.
pub open spec fn fails_with(r: (InstallState, InstallAction), msg: Seq<char>) -> bool {
    &&& r.0 is Over
    &&& r.1 matches InstallAction::Finish(Err(m)) && m@ == msg
}

/// `r` shows "idle" and then uses the server at `path`.
pub open spec fn reports(r: (InstallState, InstallAction), path: Seq<char>) -> bool {
    &&& r.1 == InstallAction::SetStatus(InstallStatus::Idle)
    &&& r.0 matches InstallState::Reporting { path: p } && p@ == path
}

/// The start of an update check: refused on 32-bit x86, otherwise the
/// platform's asset and "checking for update".
pub open spec fn starts_update(r: (InstallState, InstallAction), os: Os, arch: Architecture) -> bool {
    if arch == Architecture::X86 {
        fails_with(r, "csv-lsp: 32-bit x86 is not supported"@)
    } else {
        &&& r.1 == InstallAction::SetStatus(InstallStatus::CheckingForUpdate)
        &&& r.0 matches InstallState::Announcing { asset } && asset_of(asset, os, arch)
    }
}

/// Begins an update check.
fn begin_update(os: Os, arch: Architecture) -> (r: (InstallState, InstallAction))
    ensures
        starts_update(r, os, arch),
{
    match platform_asset(os, arch) {
        Ok(asset) => (
            InstallState::Announcing { asset },
            InstallAction::SetStatus(InstallStatus::CheckingForUpdate),
        ),
        Err(e) => (InstallState::Over, InstallAction::Finish(Err(e))),
    }
}

/// Begins resolving the downloaded server: the path found earlier in this
/// session is checked first.
pub fn install_start(cached: Option<String>, os: Os, arch: Architecture) -> (r: (
    InstallState,
    InstallAction,
))
    ensures
        match cached {
            Some(p) => (r.1 matches InstallAction::CheckFile(q) && q@ == p@) && (r.0 matches InstallState::CheckingCached { path, os: o, arch: a } && path@ == p@ && o == os && a == arch),
            None => starts_update(r, os, arch),
        },
{
    match cached {
        Some(p) => {
            let check = p.clone();
            (InstallState::CheckingCached { path: p, os, arch }, InstallAction::CheckFile(check))
        },
        None => begin_update(os, arch),
    }
}

/// `e` answers the action that led to `s`.
pub open spec fn accepts(s: InstallState, e: InstallEvent) -> bool {
    match s {
        InstallState::CheckingCached { .. } => e is IsFile,
        InstallState::Announcing { .. } => e is Done,
        InstallState::Fetching { .. } => e is Fetched,
        InstallState::ListingFallback { .. } => e is Listed,
        InstallState::ProbingFallback { paths, next, .. } => e is IsFile && 1 <= next <= paths@.len(),
        InstallState::Reporting { .. } => e is Done,
        InstallState::CheckingInstalled { .. } => e is IsFile,
        InstallState::Preparing { .. } => e is Done,
        InstallState::Clearing { .. } => e is Done,
        InstallState::Downloading { .. } => e is Outcome,
        InstallState::MakingExecutable { .. } => e is Outcome,
        InstallState::ListingStale { .. } => e is Listed,
        InstallState::RemovingStale { stale, next, .. } => e is Done && 1 <= next <= stale@.len(),
        InstallState::Over => false,
    }
}

/// Whether `e` answers the action that led to `s`.
pub fn install_accepts(s: &InstallState, e: &InstallEvent) -> (b: bool)
    ensures
        b == accepts(*s, *e),
{
    match s {
        InstallState::CheckingCached { .. } => matches!(e, InstallEvent::IsFile(_)),
        InstallState::Announcing { .. } => matches!(e, InstallEvent::Done),
        InstallState::Fetching { .. } => matches!(e, InstallEvent::Fetched(_)),
        InstallState::ListingFallback { .. } => matches!(e, InstallEvent::Listed(_)),
        InstallState::ProbingFallback { paths, next, .. } => matches!(e, InstallEvent::IsFile(_))
            && 1 <= *next && *next <= paths.len(),
        InstallState::Reporting { .. } => matches!(e, InstallEvent::Done),
        InstallState::CheckingInstalled { .. } => matches!(e, InstallEvent::IsFile(_)),
        InstallState::Preparing { .. } => matches!(e, InstallEvent::Done),
        InstallState::Clearing { .. } => matches!(e, InstallEvent::Done),
        InstallState::Downloading { .. } => matches!(e, InstallEvent::Outcome(_)),
        InstallState::MakingExecutable { .. } => matches!(e, InstallEvent::Outcome(_)),
        InstallState::ListingStale { .. } => matches!(e, InstallEvent::Listed(_)),
        InstallState::RemovingStale { stale, next, .. } => matches!(e, InstallEvent::Done) && 1
            <= *next && *next <= stale.len(),
        InstallState::Over => false,
    }
}

/// Index of the first asset named `wanted`.
fn find_release_asset(assets: &Vec<ReleaseAsset>, wanted: &str) -> (r: Option<usize>)
    ensures
        match r {
            Some(i) => i < assets@.len() && assets@[i as int].name@ == wanted@ && forall|j: int|
                0 <= j < i ==> #[trigger] assets@[j].name@ != wanted@,
            None => forall|j: int| 0 <= j < assets@.len() ==> #[trigger] assets@[j].name@ != wanted@,
        },
{
    let mut k: usize = 0;
    while k < assets.len()
        invariant
            k <= assets@.len(),
            forall|j: int| 0 <= j < k ==> #[trigger] assets@[j].name@ != wanted@,
        decreases assets@.len() - k,
    {
        if str_eq(assets[k].name.as_str(), wanted) {
            return Some(k);
        }
        k += 1;
    }
    None
}

/// Version directories of a work-directory listing, each with the binary
/// path inside it.
pub open spec fn fallback_paths_of(names: Seq<Seq<char>>, binary_name: Seq<char>) -> Seq<Seq<char>> {
    names.filter(version_dir_pred()).map_values(|d: Seq<char>| d + "/"@ + binary_name)
}

/// Version directories of a work-directory listing other than `keep`.
pub open spec fn stale_dirs_of(names: Seq<Seq<char>>, keep: Seq<char>) -> Seq<Seq<char>> {
    names.filter(version_dir_pred()).filter(differs_from(keep))
}

/// `r` checks `paths[i]` next, remembering the remaining candidates.
pub open spec fn probes(r: (InstallState, InstallAction), error: Seq<char>, paths: Seq<Seq<char>>, i: int) -> bool {
    &&& r.1 matches InstallAction::CheckFile(p) && p@ == paths[i]
    &&& r.0 matches InstallState::ProbingFallback { error: e, paths: ps, next } && e@ == error
        && ps.deep_view() == paths && next == i + 1
}

/// `r` removes `stale[i]` next, remembering the rest.
pub open spec fn removes(r: (InstallState, InstallAction), binary: Seq<char>, stale: Seq<Seq<char>>, i: int) -> bool {
    &&& r.1 matches InstallAction::RemoveDir(d) && d@ == stale[i]
    &&& r.0 matches InstallState::RemovingStale { binary: b, stale: st, next } && b@ == binary
        && st.deep_view() == stale && next == i + 1
}

/// How one answer moves an installation on.
pub open spec fn install_next(s: InstallState, e: InstallEvent, r: (InstallState, InstallAction)) -> bool {
    match (s, e) {
        (InstallState::CheckingCached { path, os, arch }, InstallEvent::IsFile(found)) => if found {
            finishes_with(r, path@)
        } else {
            starts_update(r, os, arch)
        },
        (InstallState::Announcing { asset }, InstallEvent::Done) => r == (
            InstallState::Fetching { asset },
            InstallAction::FetchRelease,
        ),
        (InstallState::Fetching { asset }, InstallEvent::Fetched(Err(error))) => {
            &&& r.1 == InstallAction::ListWorkDir
            &&& r.0 matches InstallState::ListingFallback { asset: a, error: m } && a == asset && m@ == error@
        },
        (InstallState::Fetching { asset }, InstallEvent::Fetched(Ok(release))) => {
            let dir = "csv-lsp-"@ + release.version@;
            let binary = dir + "/"@ + asset.binary_name@;
            &&& r.1 matches InstallAction::CheckFile(p) && p@ == binary
            &&& r.0 matches InstallState::CheckingInstalled { asset: a, version, assets, dir: d, binary: b }
                && a == asset && version@ == release.version@ && assets == release.assets && d@ == dir && b@ == binary
        },
        (InstallState::ListingFallback { asset, error }, InstallEvent::Listed(names)) => {
            let paths = fallback_paths_of(names.deep_view(), asset.binary_name@);
            if paths.len() == 0 {
                fails_with(r, "csv-lsp: could not fetch the latest release of SirToffski/zed_csv_utils: "@ + error@)
            } else {
                probes(r, error@, paths, 0)
            }
        },
        (InstallState::ProbingFallback { error, paths, next }, InstallEvent::IsFile(found)) => if found {
            reports(r, paths@[next - 1]@)
        } else if next < paths@.len() {
            probes(r, error@, paths.deep_view(), next as int)
        } else {
            fails_with(r, "csv-lsp: could not fetch the latest release of SirToffski/zed_csv_utils: "@ + error@)
        },
        (InstallState::Reporting { path }, InstallEvent::Done) => finishes_with(r, path@),
        (InstallState::CheckingInstalled { asset, version, assets, dir, binary }, InstallEvent::IsFile(found)) => if found {
            reports(r, binary@)
        } else if forall|j: int| 0 <= j < assets@.len() ==> #[trigger] assets@[j].name@ != asset.name@ {
            fails_with(r, "csv-lsp: release "@ + version@ + " has no asset named "@ + asset.name@)
        } else {
            &&& r.1 == InstallAction::SetStatus(InstallStatus::Downloading)
            &&& r.0 matches InstallState::Preparing { asset: a, url, dir: d, binary: b } && a == asset
                && d == dir && b == binary && exists|i: int| 0 <= i < assets@.len() && assets@[i].name@ == asset.name@
                && (forall|j: int| 0 <= j < i ==> #[trigger] assets@[j].name@ != asset.name@) && url@ == assets@[i].download_url@
        },
        (InstallState::Preparing { asset, url, dir, binary }, InstallEvent::Done) => {
            &&& r.1 matches InstallAction::RemoveDir(d) && d@ == dir@
            &&& r.0 == InstallState::Clearing { asset, url, dir, binary }
        },
        (InstallState::Clearing { asset, url, dir, binary }, InstallEvent::Done) => {
            &&& r.1 matches InstallAction::Download { url: u, dir: d, file_type } && u == url && d@ == dir@ && file_type == asset.file_type
            &&& r.0 matches InstallState::Downloading { asset_name, dir: d, binary: b } && asset_name == asset.name && d@ == dir@ && b == binary
        },
        (InstallState::Downloading { asset_name, dir, binary }, InstallEvent::Outcome(outcome)) => match outcome {
            Err(err) => fails_with(r, "csv-lsp: failed to download "@ + asset_name@ + ": "@ + err@),
            Ok(_) => {
                &&& r.1 matches InstallAction::MakeExecutable(p) && p@ == binary@
                &&& r.0 matches InstallState::MakingExecutable { dir: d, binary: b } && d == dir && b@ == binary@
            },
        },
        (InstallState::MakingExecutable { dir, binary }, InstallEvent::Outcome(outcome)) => match outcome {
            Err(err) => fails_with(r, err@),
            Ok(_) => r == (InstallState::ListingStale { dir, binary }, InstallAction::ListWorkDir),
        },
        (InstallState::ListingStale { dir, binary }, InstallEvent::Listed(names)) => {
            let stale = stale_dirs_of(names.deep_view(), dir@);
            if stale.len() == 0 {
                reports(r, binary@)
            } else {
                removes(r, binary@, stale, 0)
            }
        },
        (InstallState::RemovingStale { binary, stale, next }, InstallEvent::Done) => if next < stale@.len() {
            removes(r, binary@, stale.deep_view(), next as int)
        } else {
            reports(r, binary@)
        },
        _ => false,
    }
}

/// Moves an installation on by the answer to its last action.
pub fn install_step(s: InstallState, e: InstallEvent) -> (r: (InstallState, InstallAction))
    requires
        accepts(s, e),
    ensures
        install_next(s, e, r),
{
    match (s, e) {
        (InstallState::CheckingCached { path, os, arch }, InstallEvent::IsFile(found)) => {
            if found {
                (InstallState::Over, InstallAction::Finish(Ok(path)))
            } else {
                begin_update(os, arch)
            }
        },
        (InstallState::Announcing { asset }, InstallEvent::Done) => {
            (InstallState::Fetching { asset }, InstallAction::FetchRelease)
        },
        (InstallState::Fetching { asset }, InstallEvent::Fetched(fetched)) => match fetched {
            Err(error) => (InstallState::ListingFallback { asset, error }, InstallAction::ListWorkDir),
            Ok(release) => {
                let dir = version_dir(release.version.as_str());
                let binary = binary_path(dir.as_str(), asset.binary_name.as_str());
                let check = binary.clone();
                (
                    InstallState::CheckingInstalled {
                        asset,
                        version: release.version,
                        assets: release.assets,
                        dir,
                        binary,
                    },
                    InstallAction::CheckFile(check),
                )
            },
        },
        (InstallState::ListingFallback { asset, error }, InstallEvent::Listed(names)) => {
            let dirs = installed_version_dirs(&names);
            let paths = fallback_binary_paths(&dirs, asset.binary_name.as_str());
            proof {
                let want = fallback_paths_of(names.deep_view(), asset.binary_name@);
                assert(paths.deep_view() =~= want);
            }
            if paths.len() == 0 {
                (InstallState::Over, InstallAction::Finish(Err(fetch_failed_message(error.as_str()))))
            } else {
                let first = paths[0].clone();
                assert(paths.deep_view()[0] == paths@[0]@);
                (InstallState::ProbingFallback { error, paths, next: 1 }, InstallAction::CheckFile(first))
            }
        },
        (InstallState::ProbingFallback { error, paths, next }, InstallEvent::IsFile(found)) => {
            if found {
                let path = paths[next - 1].clone();
                (InstallState::Reporting { path }, InstallAction::SetStatus(InstallStatus::Idle))
            } else if next < paths.len() {
                let candidate = paths[next].clone();
                assert(paths.deep_view()[next as int] == paths@[next as int]@);
                (
                    InstallState::ProbingFallback { error, paths, next: next + 1 },
                    InstallAction::CheckFile(candidate),
                )
            } else {
                (InstallState::Over, InstallAction::Finish(Err(fetch_failed_message(error.as_str()))))
            }
        },
        (InstallState::Reporting { path }, InstallEvent::Done) => {
            (InstallState::Over, InstallAction::Finish(Ok(path)))
        },
        (InstallState::CheckingInstalled { asset, version, assets, dir, binary }, InstallEvent::IsFile(found)) => {
            if found {
                (InstallState::Reporting { path: binary }, InstallAction::SetStatus(InstallStatus::Idle))
            } else {
                match find_release_asset(&assets, asset.name.as_str()) {
                    None => {
                        let m = missing_asset_message(version.as_str(), asset.name.as_str());
                        (InstallState::Over, InstallAction::Finish(Err(m)))
                    },
                    Some(i) => {
                        let url = assets[i].download_url.clone();
                        (
                            InstallState::Preparing { asset, url, dir, binary },
                            InstallAction::SetStatus(InstallStatus::Downloading),
                        )
                    },
                }
            }
        },
        (InstallState::Preparing { asset, url, dir, binary }, InstallEvent::Done) => {
            let target = dir.clone();
            (InstallState::Clearing { asset, url, dir, binary }, InstallAction::RemoveDir(target))
        },
        (InstallState::Clearing { asset, url, dir, binary }, InstallEvent::Done) => {
            let target = dir.clone();
            let file_type = asset.file_type;
            (
                InstallState::Downloading { asset_name: asset.name, dir, binary },
                InstallAction::Download { url, dir: target, file_type },
            )
        },
        (InstallState::Downloading { asset_name, dir, binary }, InstallEvent::Outcome(outcome)) => {
            match outcome {
                Err(err) => {
                    let m = download_failed_message(asset_name.as_str(), err.as_str());
                    (InstallState::Over, InstallAction::Finish(Err(m)))
                },
                Ok(()) => {
                    let target = binary.clone();
                    (InstallState::MakingExecutable { dir, binary }, InstallAction::MakeExecutable(target))
                },
            }
        },
        (InstallState::MakingExecutable { dir, binary }, InstallEvent::Outcome(outcome)) => {
            match outcome {
                Err(err) => (InstallState::Over, InstallAction::Finish(Err(err))),
                Ok(()) => (InstallState::ListingStale { dir, binary }, InstallAction::ListWorkDir),
            }
        },
        (InstallState::ListingStale { dir, binary }, InstallEvent::Listed(names)) => {
            let dirs = installed_version_dirs(&names);
            let stale = stale_version_dirs(&dirs, dir.as_str());
            if stale.len() == 0 {
                (InstallState::Reporting { path: binary }, InstallAction::SetStatus(InstallStatus::Idle))
            } else {
                let first = stale[0].clone();
                assert(stale.deep_view()[0] == stale@[0]@);
                (InstallState::RemovingStale { binary, stale, next: 1 }, InstallAction::RemoveDir(first))
            }
        },
        (InstallState::RemovingStale { binary, stale, next }, InstallEvent::Done) => {
            if next < stale.len() {
                let target = stale[next].clone();
                assert(stale.deep_view()[next as int] == stale@[next as int]@);
                (
                    InstallState::RemovingStale { binary, stale, next: next + 1 },
                    InstallAction::RemoveDir(target),
                )
            } else {
                (InstallState::Reporting { path: binary }, InstallAction::SetStatus(InstallStatus::Idle))
            }
        },
        _ => {
            // `accepts` rules out every other pair.
            proof {
                assert(false);
            }
            (InstallState::Over, InstallAction::Finish(Err(String::new())))
        },
    }
}

// ---------------------------------------------------------------------------
// Laws of the installation
// ---------------------------------------------------------------------------

/// Every directory an installation state may remove is a version directory.
pub open spec fn install_inv(s: InstallState) -> bool {
    match s {
        InstallState::CheckingInstalled { dir, .. } => is_version_dir(dir@),
        InstallState::Preparing { dir, .. } => is_version_dir(dir@),
        InstallState::Clearing { dir, .. } => is_version_dir(dir@),
        InstallState::Downloading { dir, .. } => is_version_dir(dir@),
        InstallState::MakingExecutable { dir, .. } => is_version_dir(dir@),
        InstallState::ListingStale { dir, .. } => is_version_dir(dir@),
        InstallState::RemovingStale { stale, .. } => forall|i: int|
            0 <= i < stale@.len() ==> is_version_dir(#[trigger] stale@[i]@),
        _ => true,
    }
}

proof fn lemma_version_dir_of(version: Seq<char>)
    ensures
        is_version_dir("csv-lsp-"@ + version),
{
    let v = "csv-lsp-"@ + version;
    assert(v.subrange(0, "csv-lsp-"@.len() as int) =~= "csv-lsp-"@);
}

proof fn lemma_stale_dirs_are_version_dirs(names: Seq<Seq<char>>, keep: Seq<char>)
    ensures
        forall|i: int|
            0 <= i < stale_dirs_of(names, keep).len() ==> is_version_dir(
                #[trigger] stale_dirs_of(names, keep)[i],
            ),
{
    let dirs = names.filter(version_dir_pred());
    let stale = stale_dirs_of(names, keep);
    assert forall|i: int| 0 <= i < stale.len() implies is_version_dir(#[trigger] stale[i]) by {
        assert(stale.contains(stale[i]));
        dirs.lemma_filter_contains_rev(differs_from(keep), stale[i]);
        let j = choose|j: int| 0 <= j < dirs.len() && dirs[j] == stale[i];
        names.lemma_filter_pred(version_dir_pred(), j);
    }
}

/// Only version directories are ever removed: the installation keeps
/// [`install_inv`] from its start on, and every directory it asks to remove
/// (leftovers of an interrupted download, or a stale version) is a
/// `csv-lsp-<tag>` directory.
pub proof fn law_install_removes_only_version_dirs(
    s: InstallState,
    e: InstallEvent,
    r: (InstallState, InstallAction),
)
    requires
        install_inv(s),
        accepts(s, e),
        install_next(s, e, r),
    ensures
        install_inv(r.0),
        r.1 matches InstallAction::RemoveDir(d) ==> is_version_dir(d@),
{
    match (s, e) {
        (InstallState::Fetching { asset }, InstallEvent::Fetched(Ok(release))) => {
            lemma_version_dir_of(release.version@);
        },
        (InstallState::ListingStale { dir, binary }, InstallEvent::Listed(names)) => {
            lemma_stale_dirs_are_version_dirs(names.deep_view(), dir@);
            let stale = stale_dirs_of(names.deep_view(), dir@);
            if stale.len() > 0 {
                assert(is_version_dir(stale[0]));
                if let InstallState::RemovingStale { stale: st, .. } = r.0 {
                    assert forall|i: int| 0 <= i < st@.len() implies is_version_dir(#[trigger] st@[i]@) by {
                        assert(st.deep_view()[i] == st@[i]@);
                    }
                }
            }
        },
        (InstallState::RemovingStale { binary, stale, next }, InstallEvent::Done) => {
            if next < stale@.len() {
                assert(stale.deep_view()[next as int] == stale@[next as int]@);
                if let InstallState::RemovingStale { stale: st, .. } = r.0 {
                    assert(st.deep_view() == stale.deep_view());
                    assert forall|i: int| 0 <= i < st@.len() implies is_version_dir(#[trigger] st@[i]@) by {
                        assert(st.deep_view().len() == st@.len());
                        assert(st.deep_view()[i] == st@[i]@);
                        assert(stale.deep_view()[i] == stale@[i]@);
                    }
                }
            }
        },
        _ => {},
    }
}

/// An installation starts in a state that keeps [`install_inv`].
pub proof fn law_install_start_inv(
    cached: Option<String>,
    os: Os,
    arch: Architecture,
    r: (InstallState, InstallAction),
)
    requires
        match cached {
            Some(p) => (r.1 matches InstallAction::CheckFile(q) && q@ == p@) && (r.0 matches InstallState::CheckingCached { path, os: o, arch: a } && path@ == p@ && o == os && a == arch),
            None => starts_update(r, os, arch),
        },
    ensures
        install_inv(r.0),
{
}

} // verus!
