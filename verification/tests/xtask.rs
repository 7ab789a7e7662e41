use dadophoros::xtask::{
    build_ebpf, build_userspace, ebpf_notice, ebpf_object, finish_ebpf, finish_userspace, steps, workspace_root, Cmd, Dir,
};

fn dir(path: &str, has_manifest: bool, has_ebpf: bool) -> Dir {
    Dir { path: path.to_string(), has_manifest, has_ebpf }
}

#[test]
fn the_root_is_found_going_up() {
    let dirs = [
        dir("/w/xtask/src", false, false),
        dir("/w/xtask", true, false),
        dir("/w", true, true),
        dir("/", true, true),
    ];
    assert_eq!(workspace_root(&dirs).unwrap(), "/w");
    assert_eq!(
        workspace_root(&dirs[..2]).unwrap_err(),
        "could not locate workspace root (looking for Cargo.toml + dadophoros-ebpf/)"
    );
}

#[test]
fn the_ebpf_build_is_free_of_the_outer_toolchain() {
    let p = build_ebpf("/w", true);
    assert_eq!(p.program, "cargo");
    assert_eq!(p.dir, "/w/dadophoros-ebpf");
    assert_eq!(p.env, Some(("CARGO_TARGET_DIR".to_string(), "/w/target".to_string())));
    assert_eq!(
        p.env_remove,
        vec!["RUSTC", "RUSTC_WRAPPER", "RUSTC_WORKSPACE_WRAPPER", "CARGO", "CARGO_MANIFEST_DIR", "RUSTUP_TOOLCHAIN"]
    );
    assert_eq!(p.args, vec!["build", "--release"]);
    assert_eq!(build_ebpf("/w", false).args, vec!["build"]);
    assert_eq!(ebpf_notice("/w"), "xtask: building eBPF crate in /w/dadophoros-ebpf");
    assert_eq!(build_ebpf("/", false).dir, "/dadophoros-ebpf");
}

#[test]
fn the_object_has_to_be_there() {
    assert_eq!(ebpf_object("/w", true), "/w/target/bpfel-unknown-none/release/dadophoros-ebpf");
    assert_eq!(ebpf_object("/w", false), "/w/target/bpfel-unknown-none/debug/dadophoros-ebpf");
    assert_eq!(
        finish_ebpf("/w", true, None, true).unwrap(),
        "xtask: eBPF object at /w/target/bpfel-unknown-none/release/dadophoros-ebpf"
    );
    assert_eq!(
        finish_ebpf("/w", false, None, false).unwrap_err(),
        "expected eBPF object missing: /w/target/bpfel-unknown-none/debug/dadophoros-ebpf"
    );
    assert_eq!(
        finish_ebpf("/w", false, Some("exit status: 101".to_string()), true).unwrap_err(),
        "eBPF build failed: exit status: 101"
    );
}

#[test]
fn the_programs_are_built_after() {
    let p = build_userspace("/w", true);
    assert_eq!((p.program.as_str(), p.dir.as_str()), ("cargo", "/w"));
    assert_eq!(p.args, vec!["build", "--workspace", "--release"]);
    assert!(p.env.is_none());
    assert!(p.env_remove.is_empty());
    assert!(finish_userspace(None).is_ok());
    assert_eq!(finish_userspace(Some("signal: 9".to_string())).unwrap_err(), "userspace build failed: signal: 9");
    assert_eq!(steps(Cmd::Build { release: true }), (true, true));
    assert_eq!(steps(Cmd::BuildEbpf { release: false }), (false, false));
}
