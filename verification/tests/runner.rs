use nado::config::Limits;
use nado::runner::{
    build_docker_cmd, build_local_mount_map, host_path_from_mount, parse_mounts,
    render_docker_mount, resolve_local_cmd, MountError, MountSpec,
};

fn bytes(s: &str) -> Vec<u8> {
    s.as_bytes().to_vec()
}

fn strings(v: &[Vec<u8>]) -> Vec<String> {
    v.iter()
        .map(|b| String::from_utf8(b.clone()).unwrap())
        .collect()
}

#[test]
fn mounts_parse_host_container_and_mode() {
    let parsed = parse_mounts(&vec![bytes("data:/data"), bytes(" a : /b : ro ")]).expect("parse");
    assert_eq!(parsed.len(), 2);
    assert_eq!(parsed[0].host.as_slice(), b"data");
    assert_eq!(parsed[0].container.as_slice(), b"/data");
    assert!(parsed[0].mode.is_none());
    assert_eq!(parsed[1].host.as_slice(), b"a");
    assert_eq!(parsed[1].container.as_slice(), b"/b");
    assert_eq!(parsed[1].mode.as_ref().unwrap().as_slice(), b"ro");
}

#[test]
fn mount_with_empty_side_is_rejected() {
    assert!(matches!(
        parse_mounts(&vec![bytes(":/data")]),
        Err(MountError::EmptySide { index: 0 })
    ));
    assert!(matches!(
        parse_mounts(&vec![bytes("only-host")]),
        Err(MountError::EmptySide { index: 0 })
    ));
}

#[test]
fn mount_with_too_many_parts_is_rejected() {
    assert!(matches!(
        parse_mounts(&vec![bytes("a:b:ro:extra")]),
        Err(MountError::TooManyParts { index: 0 })
    ));
}

#[test]
fn host_paths_resolve_against_the_config_dir() {
    assert_eq!(
        host_path_from_mount(&bytes("/abs/path"), &bytes("/cfg")).as_slice(),
        b"/abs/path"
    );
    assert_eq!(
        host_path_from_mount(&bytes("rel"), &bytes("/cfg")).as_slice(),
        b"/cfg/rel"
    );
    assert_eq!(
        host_path_from_mount(&bytes("rel"), &bytes("/cfg/")).as_slice(),
        b"/cfg/rel"
    );
}

#[test]
fn local_cmd_substitutes_mount_tokens() {
    let map = vec![
        (bytes("/data"), bytes("/host/data")),
        (bytes("/data"), bytes("/host/newer")),
    ];
    let cmd = vec![bytes("python3"), bytes("/data"), bytes("--flag")];
    let resolved = resolve_local_cmd(&cmd, &map);
    assert_eq!(
        strings(&resolved),
        vec!["python3", "/host/newer", "--flag"]
    );
}

#[test]
fn local_mount_map_pairs_tokens_with_paths() {
    let mounts = vec![MountSpec {
        host: bytes("data"),
        container: bytes("/data"),
        mode: None,
    }];
    let map = build_local_mount_map(&mounts, &bytes("/cfg"));
    assert_eq!(map.len(), 1);
    assert_eq!(map[0].0.as_slice(), b"/data");
    assert_eq!(map[0].1.as_slice(), b"/cfg/data");
}

#[test]
fn docker_mounts_render_with_optional_mode() {
    assert_eq!(
        render_docker_mount(&bytes("/h"), &bytes("/c"), &None).as_slice(),
        b"/h:/c"
    );
    assert_eq!(
        render_docker_mount(&bytes("/h"), &bytes("/c"), &Some(bytes("ro"))).as_slice(),
        b"/h:/c:ro"
    );
}

#[test]
fn docker_argv_is_assembled_exactly() {
    let mounts = vec![MountSpec {
        host: bytes("data"),
        container: bytes("/data"),
        mode: Some(bytes("ro")),
    }];
    let hosts = vec![bytes("/cfg/data")];
    let limits = Limits {
        cpu_seconds: None,
        memory_mb: Some(256),
        file_size_kb: None,
        nofile: None,
        nproc: Some(32),
    };
    let argv = build_docker_cmd(
        &bytes("python:3"),
        &vec![bytes("python3"), bytes("sol.py")],
        &mounts,
        &hosts,
        &limits,
    );
    assert_eq!(
        strings(&argv),
        vec![
            "docker",
            "run",
            "--rm",
            "-i",
            "--network",
            "none",
            "--memory",
            "256m",
            "--pids-limit",
            "32",
            "-v",
            "/cfg/data:/data:ro",
            "python:3",
            "python3",
            "sol.py",
        ]
    );
}

#[test]
fn docker_argv_without_limits_has_no_caps() {
    let limits = Limits {
        cpu_seconds: Some(5),
        memory_mb: None,
        file_size_kb: None,
        nofile: None,
        nproc: None,
    };
    let argv = build_docker_cmd(&bytes("img"), &vec![bytes("run-me")], &vec![], &vec![], &limits);
    assert_eq!(
        strings(&argv),
        vec!["docker", "run", "--rm", "-i", "--network", "none", "img", "run-me"]
    );
}
