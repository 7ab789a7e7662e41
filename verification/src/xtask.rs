//! The steps of a build: the eBPF object first, then the programs that embed it.

use vstd::prelude::*;
use vstd::string::*;

use crate::text;

verus! {

/// What to build.
#[derive(Debug, Clone, Copy, PartialEq, Eq, Structural)]
pub enum Cmd {
    BuildEbpf { release: bool },
    Build { release: bool },
}

/// A directory on the way up from where the build was started.
#[derive(Debug, Clone)]
pub struct Dir {
    pub path: String,
    /// It holds a `Cargo.toml`.
    pub has_manifest: bool,
    /// It holds the directory `dadophoros-ebpf`.
    pub has_ebpf: bool,
}

/// A program to run.
#[derive(Debug)]
pub struct CommandPlan {
    pub program: String,
    pub dir: String,
    /// A variable to set, and its value.
    pub env: Option<(String, String)>,
    /// The variables to remove.
    pub env_remove: Vec<String>,
    pub args: Vec<String>,
}

pub open spec fn is_root(d: Dir) -> bool {
    d.has_manifest && d.has_ebpf
}

pub open spec fn no_root() -> Seq<char> {
    "could not locate workspace root (looking for Cargo.toml + dadophoros-ebpf/)"@
}

/// The root of the workspace: the first of the directories, going up, that has both the
/// manifest and the eBPF crate.
pub fn workspace_root(dirs: &[Dir]) -> (r: Result<String, String>)
    ensures
        match r {
            Ok(path) => exists|i: int|
                0 <= i < dirs@.len() && is_root(#[trigger] dirs@[i]) && dirs@[i].path == path && forall|j: int|
                    0 <= j < i ==> !is_root(#[trigger] dirs@[j]),
            Err(e) => e@ == no_root() && forall|j: int| 0 <= j < dirs@.len() ==> !is_root(#[trigger] dirs@[j]),
        },
{
    let mut i: usize = 0;
    while i < dirs.len()
        invariant
            i <= dirs@.len(),
            forall|j: int| 0 <= j < i ==> !is_root(#[trigger] dirs@[j]),
        decreases dirs@.len() - i,
    {
        if dirs[i].has_manifest && dirs[i].has_ebpf {
            assert(is_root(dirs@[i as int]));
            return Ok(dirs[i].path.clone());
        }
        i += 1;
    }
    Err("could not locate workspace root (looking for Cargo.toml + dadophoros-ebpf/)".to_string())
}

/// A path below another.
pub open spec fn joined(base: Seq<char>, part: Seq<char>) -> Seq<char> {
    if base.len() == 0 || base.last() == '/' {
        base + part
    } else {
        base + "/"@ + part
    }
}

fn join(base: &str, part: &str) -> (r: String)
    ensures
        r@ == joined(base@, part@),
{
    let v: Vec<char> = text::chars_of(base);
    let mut out = base.to_owned();
    if v.len() > 0 && v[v.len() - 1] != '/' {
        out.append("/");
    }
    out.append(part);
    assert(out@ =~= joined(base@, part@));
    out
}

/// The directory of the eBPF crate.
pub open spec fn ebpf_dir_of(root: Seq<char>) -> Seq<char> {
    joined(root, "dadophoros-ebpf"@)
}

/// The directory that builds go to.
pub open spec fn target_dir_of(root: Seq<char>) -> Seq<char> {
    joined(root, "target"@)
}

pub open spec fn profile_of(release: bool) -> Seq<char> {
    if release {
        "release"@
    } else {
        "debug"@
    }
}

/// Where the eBPF object of a build ends up.
pub open spec fn object_of(root: Seq<char>, release: bool) -> Seq<char> {
    joined(
        joined(joined(target_dir_of(root), "bpfel-unknown-none"@), profile_of(release)),
        "dadophoros-ebpf"@,
    )
}

/// The object of a release build is the one that the daemon embeds.
pub proof fn lemma_daemon_embeds_release_object(root: Seq<char>)
    ensures
        object_of(root, true) == joined(root, "target/bpfel-unknown-none/release/dadophoros-ebpf"@),
{
    reveal_strlit("target");
    reveal_strlit("bpfel-unknown-none");
    reveal_strlit("release");
    reveal_strlit("dadophoros-ebpf");
    reveal_strlit("/");
    reveal_strlit("target/bpfel-unknown-none/release/dadophoros-ebpf");
    let tail = "target"@ + "/"@ + "bpfel-unknown-none"@ + "/"@ + "release"@ + "/"@ + "dadophoros-ebpf"@;
    assert(tail =~= "target/bpfel-unknown-none/release/dadophoros-ebpf"@);
    assert(object_of(root, true) =~= joined(root, tail));
}

/// The arguments of a build, with the profile at the end.
pub open spec fn build_args(first: Seq<Seq<char>>, release: bool) -> Seq<Seq<char>> {
    if release {
        first.push("--release"@)
    } else {
        first
    }
}

/// The variables of the outer build that would keep the inner one from its own toolchain.
pub open spec fn outer_variables() -> Seq<Seq<char>> {
    seq![
        "RUSTC"@,
        "RUSTC_WRAPPER"@,
        "RUSTC_WORKSPACE_WRAPPER"@,
        "CARGO"@,
        "CARGO_MANIFEST_DIR"@,
        "RUSTUP_TOOLCHAIN"@,
    ]
}

/// Where the eBPF object of a build ends up.
pub fn ebpf_object(root: &str, release: bool) -> (r: String)
    ensures
        r@ == object_of(root@, release),
{
    let profile: &str = if release {
        "release"
    } else {
        "debug"
    };
    let target = join(root, "target");
    let triple = join(target.as_str(), "bpfel-unknown-none");
    let dir = join(triple.as_str(), profile);
    join(dir.as_str(), "dadophoros-ebpf")
}

/// How the eBPF crate is built: in its own directory, into the workspace's target directory,
/// and free of the outer toolchain.
pub fn build_ebpf(root: &str, release: bool) -> (p: CommandPlan)
    ensures
        p.program@ == "cargo"@,
        p.dir@ == ebpf_dir_of(root@),
        p.env matches Some((k, v)) && k@ == "CARGO_TARGET_DIR"@ && v@ == target_dir_of(root@),
        text::texts(p.env_remove@) == outer_variables(),
        text::texts(p.args@) == build_args(seq!["build"@], release),
{
    let mut env_remove: Vec<String> = Vec::new();
    env_remove.push("RUSTC".to_string());
    env_remove.push("RUSTC_WRAPPER".to_string());
    env_remove.push("RUSTC_WORKSPACE_WRAPPER".to_string());
    env_remove.push("CARGO".to_string());
    env_remove.push("CARGO_MANIFEST_DIR".to_string());
    env_remove.push("RUSTUP_TOOLCHAIN".to_string());
    assert(text::texts(env_remove@) =~= outer_variables());
    let mut args: Vec<String> = Vec::new();
    args.push("build".to_string());
    if release {
        args.push("--release".to_string());
    }
    assert(text::texts(args@) =~= build_args(seq!["build"@], release));
    CommandPlan {
        program: "cargo".to_string(),
        dir: join(root, "dadophoros-ebpf"),
        env: Some(("CARGO_TARGET_DIR".to_string(), join(root, "target"))),
        env_remove,
        args,
    }
}

/// What is said before the eBPF build.
pub fn ebpf_notice(root: &str) -> (r: String)
    ensures
        r@ == "xtask: building eBPF crate in "@ + ebpf_dir_of(root@),
{
    let mut out = String::new();
    out.append("xtask: building eBPF crate in ");
    out.append(join(root, "dadophoros-ebpf").as_str());
    assert(out@ =~= "xtask: building eBPF crate in "@ + ebpf_dir_of(root@));
    out
}

/// What is said after the eBPF build. `failed` is the status of a build that failed; one
/// that did not fail has to leave its object.
pub fn finish_ebpf(root: &str, release: bool, failed: Option<String>, object_exists: bool) -> (r: Result<
    String,
    String,
>)
    ensures
        match (failed, object_exists) {
            (Some(status), _) => r matches Err(e) && e@ == "eBPF build failed: "@ + status@,
            (None, false) => r matches Err(e) && e@ == "expected eBPF object missing: "@ + object_of(
                root@,
                release,
            ),
            (None, true) => r matches Ok(m) && m@ == "xtask: eBPF object at "@ + object_of(root@, release),
        },
{
    let mut out = String::new();
    if let Some(status) = failed {
        out.append("eBPF build failed: ");
        out.append(status.as_str());
        assert(out@ =~= "eBPF build failed: "@ + status@);
        return Err(out);
    }
    let object = ebpf_object(root, release);
    if !object_exists {
        out.append("expected eBPF object missing: ");
        out.append(object.as_str());
        assert(out@ =~= "expected eBPF object missing: "@ + object@);
        return Err(out);
    }
    out.append("xtask: eBPF object at ");
    out.append(object.as_str());
    assert(out@ =~= "xtask: eBPF object at "@ + object@);
    Ok(out)
}

/// How the programs are built.
pub fn build_userspace(root: &str, release: bool) -> (p: CommandPlan)
    ensures
        p.program@ == "cargo"@,
        p.dir@ == root@,
        p.env is None,
        p.env_remove@.len() == 0,
        text::texts(p.args@) == build_args(seq!["build"@, "--workspace"@], release),
{
    let mut args: Vec<String> = Vec::new();
    args.push("build".to_string());
    args.push("--workspace".to_string());
    if release {
        args.push("--release".to_string());
    }
    assert(text::texts(args@) =~= build_args(seq!["build"@, "--workspace"@], release));
    CommandPlan {
        program: "cargo".to_string(),
        dir: root.to_owned(),
        env: None,
        env_remove: Vec::new(),
        args,
    }
}

/// How the programs' build ended: `failed` is the status of one that failed.
pub fn finish_userspace(failed: Option<String>) -> (r: Result<(), String>)
    ensures
        match failed {
            Some(status) => r matches Err(e) && e@ == "userspace build failed: "@ + status@,
            None => r is Ok,
        },
{
    match failed {
        Some(status) => {
            let mut out = String::new();
            out.append("userspace build failed: ");
            out.append(status.as_str());
            assert(out@ =~= "userspace build failed: "@ + status@);
            Err(out)
        },
        None => Ok(()),
    }
}

/// Whether a command goes on to build the programs, and the profile.
pub fn steps(cmd: Cmd) -> (r: (bool, bool))
    ensures
        r == match cmd {
            Cmd::BuildEbpf { release } => (false, release),
            Cmd::Build { release } => (true, release),
        },
{
    match cmd {
        Cmd::BuildEbpf { release } => (false, release),
        Cmd::Build { release } => (true, release),
    }
}

/// A path below another has one slash between them.
pub proof fn lemma_joined_paths(base: Seq<char>, part: Seq<char>)
    ensures
        base.len() > 0 && base.last() != '/' ==> joined(base, part) == base + seq!['/'] + part,
        joined(base + seq!['/'], part) == base + seq!['/'] + part,
        joined(Seq::empty(), part) == part,
{
    reveal_strlit("/");
    assert("/"@ =~= seq!['/']);
    assert((base + seq!['/']).last() == '/');
    assert(Seq::<char>::empty() + part =~= part);
}

/// Where builds go: the eBPF crate is built in its directory, into the workspace's target
/// directory, and a build without a profile goes to `debug`.
pub proof fn lemma_build_places(root: Seq<char>)
    requires
        root.len() > 0,
        root.last() != '/',
    ensures
        ebpf_dir_of(root) == root + seq!['/'] + "dadophoros-ebpf"@,
        target_dir_of(root) == root + seq!['/'] + "target"@,
        object_of(root, false) == root + seq!['/'] + "target/bpfel-unknown-none/debug/dadophoros-ebpf"@,
        object_of(root, true) == root + seq!['/'] + "target/bpfel-unknown-none/release/dadophoros-ebpf"@,
{
    reveal_strlit("target");
    reveal_strlit("bpfel-unknown-none");
    reveal_strlit("debug");
    reveal_strlit("dadophoros-ebpf");
    reveal_strlit("/");
    reveal_strlit("target/bpfel-unknown-none/debug/dadophoros-ebpf");
    assert("/"@ =~= seq!['/']);
    lemma_daemon_embeds_release_object(root);
    let tail = "target"@ + "/"@ + "bpfel-unknown-none"@ + "/"@ + "debug"@ + "/"@ + "dadophoros-ebpf"@;
    assert(tail =~= "target/bpfel-unknown-none/debug/dadophoros-ebpf"@);
    assert(object_of(root, false) =~= root + seq!['/'] + tail);
}

/// A release build has `--release` behind its other arguments; no other build has it.
pub proof fn lemma_release_builds(first: Seq<Seq<char>>)
    ensures
        build_args(first, true) == first + seq!["--release"@],
        build_args(first, false) == first,
{
    assert(first.push("--release"@) =~= first + seq!["--release"@]);
}

/// The root of the workspace has the manifest and the eBPF crate.
pub proof fn lemma_root(d: Dir)
    ensures
        is_root(d) <==> d.has_manifest && d.has_ebpf,
{
}

} // verus!
