use std::collections::HashMap;
use use_env::{CommonProperties, Config, Context, Environment, OperatingSystem, Shell, UseError};

fn props() -> CommonProperties {
    CommonProperties {
        display: None,
        script: None,
        set: None,
        append: None,
        prepend: None,
        path: None,
        reuse: None,
        go: None,
    }
}

fn env(name: &str) -> Environment {
    Environment {
        name: name.to_string(),
        context: None,
        pattern: None,
        global: props(),
        for_cmd: None,
        for_powershell: None,
        version: None,
        original_name: None,
    }
}

fn pairs(items: &[(&str, &str)]) -> Vec<(String, String)> {
    items.iter().map(|(k, v)| (k.to_string(), v.to_string())).collect()
}

fn as_map(v: &Option<Vec<(String, String)>>) -> Option<HashMap<String, String>> {
    v.as_ref().map(|v| v.iter().cloned().collect())
}

fn cmd_context() -> Context {
    Context {
        os: OperatingSystem::Windows,
        shell: Shell::Cmd,
        config_path: String::new(),
    }
}

#[test]
fn test_sort_env_by_dependencies() {
    let env_map = pairs(&[
        ("KEY1", "foo/${KEY2}/${KEY4}"),
        ("KEY2", "foo"),
        ("KEY3", "foo/${KEY2}"),
        ("KEY4", "foo/${KEY3}"),
    ]);
    let ordered = Environment::sort_env_by_dependencies(&env_map);
    let ordered_keys: Vec<_> = ordered.iter().map(|(k, _)| k.as_str()).collect();
    assert_eq!(ordered_keys, vec!["KEY2", "KEY3", "KEY4", "KEY1"]);
}

#[test]
fn test_sort_env_by_dependencies_with_external() {
    let env_map = pairs(&[
        ("KEY1", "foo/${KEY2}/${KEY3}/${EXTERNAL}"),
        ("KEY2", "foo/${EXTERNAL}"),
        ("KEY3", "foo/${KEY2}/${EXTERNAL}"),
    ]);
    let ordered = Environment::sort_env_by_dependencies(&env_map);
    let ordered_keys: Vec<_> = ordered.iter().map(|(k, _)| k.as_str()).collect();
    assert_eq!(ordered_keys, vec!["KEY2", "KEY3", "KEY1"]);
}

#[test]
fn test_sort_env_by_dependencies_with_circular_dependencies() {
    let env_map = pairs(&[
        ("KEY1", "foo/${KEY2}/${EXTERNAL}"),
        ("KEY2", "foo/${KEY3}/${EXTERNAL}"),
        ("KEY3", "foo/${KEY1}/${EXTERNAL}"),
    ]);
    let ordered = Environment::sort_env_by_dependencies(&env_map);
    assert_eq!(ordered.len(), 3);
    let keys: Vec<String> = ordered.iter().map(|(k, _)| k.clone()).collect();
    assert!(keys.contains(&"KEY1".to_string()));
    assert!(keys.contains(&"KEY2".to_string()));
    assert!(keys.contains(&"KEY3".to_string()));
}

#[test]
fn sort_without_references_is_by_name() {
    let env_map = pairs(&[("ZED", "1"), ("ALPHA", "${OTHER}"), ("MID", "x"), ("BETA", "")]);
    let ordered = Environment::sort_env_by_dependencies(&env_map);
    let keys: Vec<_> = ordered.iter().map(|(k, _)| k.as_str()).collect();
    assert_eq!(keys, vec!["ALPHA", "BETA", "MID", "ZED"]);
    assert_eq!(ordered[0].1, "${OTHER}");
}

#[test]
fn sort_keeps_values_and_handles_empty_map() {
    let ordered = Environment::sort_env_by_dependencies(&Vec::new());
    assert!(ordered.is_empty());
    let env_map = pairs(&[("B", "${A}x"), ("A", "y")]);
    let ordered = Environment::sort_env_by_dependencies(&env_map);
    assert_eq!(ordered, pairs(&[("A", "y"), ("B", "${A}x")]));
}

#[test]
fn sort_self_reference_is_emitted_once() {
    let env_map = pairs(&[("PATH", "${PATH};bin")]);
    let ordered = Environment::sort_env_by_dependencies(&env_map);
    assert_eq!(ordered, pairs(&[("PATH", "${PATH};bin")]));
}

#[test]
fn test_replace_placeholders() {
    let mut env = env("test-{}");
    env.global.display = Some("Display {}".to_string());
    env.global.script = Some("echo {}".to_string());
    env.global.set = Some(pairs(&[("KEY", "value-{}")]));
    env.global.append = Some(pairs(&[("APPEND", "append-{}")]));
    env.global.prepend = Some(pairs(&[("PREPEND", "prepend-{}")]));
    env.global.path = Some(vec!["path/to/{}".to_string()]);
    env.global.go = Some("go-to-{}".to_string());

    env.replace_placeholders("123");

    assert_eq!(env.name, "test-123");
    assert_eq!(env.global.display, Some("Display 123".to_string()));
    assert_eq!(env.global.script, Some("echo 123".to_string()));
    assert_eq!(
        as_map(&env.global.set),
        Some(HashMap::from([("KEY".to_string(), "value-123".to_string())]))
    );
    assert_eq!(
        as_map(&env.global.append),
        Some(HashMap::from([("APPEND".to_string(), "append-123".to_string())]))
    );
    assert_eq!(
        as_map(&env.global.prepend),
        Some(HashMap::from([("PREPEND".to_string(), "prepend-123".to_string())]))
    );
    assert_eq!(env.global.path, Some(vec!["path/to/123".to_string()]));
    assert_eq!(env.global.go, Some("go-to-123".to_string()));
}

#[test]
fn test_replace_placeholders_multiple_occurrences() {
    let mut env = env("test-{}-{}");
    env.global.display = Some("Display {} multiple {}".to_string());
    env.global.script = Some("echo {} twice {}".to_string());

    env.replace_placeholders("123");
    env.replace_placeholders("456");

    assert_eq!(env.name, "test-123-456");
    assert_eq!(env.global.display, Some("Display 123 multiple 456".to_string()));
    assert_eq!(env.global.script, Some("echo 123 twice 456".to_string()));
}

#[test]
fn replace_placeholders_without_placeholder_keeps_text() {
    let mut env = env("plain");
    env.global.reuse = Some(vec!["other-{}".to_string()]);
    env.replace_placeholders("1");
    assert_eq!(env.name, "plain");
    assert_eq!(env.global.reuse, Some(vec!["other-{}".to_string()]));
}

#[test]
fn test_fold_with_cmd_shell() {
    let mut env = env("test");
    env.global.display = Some("Global Display".to_string());
    env.global.set = Some(pairs(&[("GLOBAL_KEY", "global_value")]));
    env.global.append = Some(pairs(&[("GLOBAL_APPEND", "global_append")]));
    env.global.path = Some(vec!["global/path".to_string()]);
    env.global.reuse = Some(vec!["global_reuse".to_string()]);
    let mut cmd = props();
    cmd.display = Some("CMD Display".to_string());
    cmd.script = Some("cmd.exe /c echo test".to_string());
    cmd.set = Some(pairs(&[("CMD_KEY", "cmd_value"), ("GLOBAL_KEY", "cmd_override")]));
    cmd.prepend = Some(pairs(&[("CMD_PREPEND", "cmd_prepend")]));
    cmd.path = Some(vec!["cmd/path".to_string()]);
    cmd.reuse = Some(vec!["cmd_reuse".to_string()]);
    cmd.go = Some("cmd_go".to_string());
    env.for_cmd = Some(cmd);

    let context = cmd_context();
    env.fold(&context);

    assert_eq!(env.global.display, Some("CMD Display".to_string()));
    assert_eq!(env.global.script, Some("cmd.exe /c echo test".to_string()));
    assert_eq!(env.global.go, Some("cmd_go".to_string()));
    assert_eq!(
        as_map(&env.global.set),
        Some(HashMap::from([
            ("GLOBAL_KEY".to_string(), "cmd_override".to_string()),
            ("CMD_KEY".to_string(), "cmd_value".to_string()),
        ]))
    );
    assert_eq!(
        as_map(&env.global.append),
        Some(HashMap::from([("GLOBAL_APPEND".to_string(), "global_append".to_string())]))
    );
    assert_eq!(
        as_map(&env.global.prepend),
        Some(HashMap::from([("CMD_PREPEND".to_string(), "cmd_prepend".to_string())]))
    );
    assert_eq!(
        env.global.path,
        Some(vec!["global/path".to_string(), "cmd/path".to_string()])
    );
    assert_eq!(
        env.global.reuse,
        Some(vec!["global_reuse".to_string(), "cmd_reuse".to_string()])
    );
    assert!(env.for_cmd.is_none());
}

#[test]
fn fold_override_wins_on_same_name() {
    let mut env = env("e");
    env.global.set = Some(pairs(&[("A", "1")]));
    let mut cmd = props();
    cmd.set = Some(pairs(&[("A", "2"), ("B", "3")]));
    env.for_cmd = Some(cmd);
    env.fold(&cmd_context());
    assert_eq!(
        as_map(&env.global.set),
        Some(HashMap::from([
            ("A".to_string(), "2".to_string()),
            ("B".to_string(), "3".to_string()),
        ]))
    );
}

#[test]
fn fold_for_powershell_ignores_cmd_block() {
    let mut env = env("e");
    env.global.display = Some("Common".to_string());
    let mut cmd = props();
    cmd.display = Some("Cmd".to_string());
    env.for_cmd = Some(cmd);
    let mut ps = props();
    ps.go = Some("C:/work".to_string());
    env.for_powershell = Some(ps);
    let ps_context = Context {
        os: OperatingSystem::Windows,
        shell: Shell::Powershell,
        config_path: String::new(),
    };
    env.fold(&ps_context);
    assert_eq!(env.global.display, Some("Common".to_string()));
    assert_eq!(env.global.go, Some("C:/work".to_string()));
    assert!(env.for_powershell.is_none());
    assert!(env.for_cmd.is_some());
}

fn catalog(raw: Vec<Environment>) -> Config {
    let entries = raw.into_iter().map(|e| (e.name.clone(), e)).collect();
    Config {
        environments: Config::create_env_vector(&cmd_context(), entries, &Vec::new()).unwrap(),
    }
}

fn text(v: &serde_yaml::Value) -> String {
    v.as_str().unwrap().to_string()
}

/// The entries of a catalog file with `display`, `set` and `use`.
fn entries_from_yaml(yaml: &str) -> Vec<(String, Environment)> {
    let doc: serde_yaml::Value = serde_yaml::from_str(yaml).unwrap();
    let mut out = Vec::new();
    for (name, body) in doc.as_mapping().unwrap() {
        let mut e = env("");
        if let Some(d) = body.get("display") {
            e.global.display = Some(text(d));
        }
        if let Some(m) = body.get("set") {
            let vars = m
                .as_mapping()
                .unwrap()
                .iter()
                .map(|(k, v)| (text(k), text(v)))
                .collect();
            e.global.set = Some(vars);
        }
        if let Some(l) = body.get("use") {
            e.global.reuse = Some(l.as_sequence().unwrap().iter().map(text).collect());
        }
        out.push((text(name), e));
    }
    out
}

#[test]
fn test_resolve_dependencies_from_yaml() {
    let yaml = r#"
envA:
  display: "Environment A"
  set:
    VAR_A: "A"
  use:
    - envB
envB:
  display: "Environment B"
  set:
    VAR_B: "B"
envC:
  display: "Environment C"
  set:
    VAR_C: "C"
"#;
    let context = cmd_context();
    let envs = Config::create_env_vector(&context, entries_from_yaml(yaml), &Vec::new()).unwrap();
    let config = Config { environments: envs };

    let resolved = config.resolve_dependencies("envA").unwrap();
    let names: Vec<_> = resolved.iter().map(|e| e.name.as_str()).collect();
    assert_eq!(names, vec!["envB", "envA"]);
}

#[test]
fn resolve_chain_with_repeats() {
    let mut a = env("A");
    a.global.reuse = Some(vec!["B".to_string(), "B".to_string()]);
    let mut b = env("B");
    b.global.reuse = Some(vec!["C".to_string(), "C".to_string()]);
    let c = env("C");
    let config = catalog(vec![a, b, c]);
    let resolved = config.resolve_dependencies("A").unwrap();
    let names: Vec<_> = resolved.iter().map(|e| e.name.as_str()).collect();
    assert_eq!(names, vec!["C", "B", "A"]);
}

#[test]
fn resolve_chain_with_repeats_and_direct_reuse() {
    let mut a = env("A");
    a.global.reuse = Some(vec!["B".to_string(), "B".to_string(), "C".to_string()]);
    let mut b = env("B");
    b.global.reuse = Some(vec!["C".to_string(), "C".to_string()]);
    let config = catalog(vec![a, b, env("C")]);
    let resolved = config.resolve_dependencies("A").unwrap();
    let names: Vec<_> = resolved.iter().map(|e| e.name.as_str()).collect();
    assert_eq!(names, vec!["C", "B", "A"]);
}

#[test]
fn sort_depends_only_on_contents() {
    let one = pairs(&[("D", "${B}${A}"), ("A", "x"), ("C", "${D}"), ("B", "${A}")]);
    let two = pairs(&[("B", "${A}"), ("C", "${D}"), ("A", "x"), ("D", "${B}${A}")]);
    let r1 = Environment::sort_env_by_dependencies(&one);
    let r2 = Environment::sort_env_by_dependencies(&two);
    assert_eq!(r1, r2);
    let keys: Vec<_> = r1.iter().map(|(k, _)| k.as_str()).collect();
    assert_eq!(keys, vec!["A", "B", "D", "C"]);
}

#[test]
fn resolve_shared_dependency_once() {
    let mut a = env("A");
    a.global.reuse = Some(vec!["B".to_string(), "C".to_string()]);
    let mut b = env("B");
    b.global.reuse = Some(vec!["D".to_string()]);
    let mut c = env("C");
    c.global.reuse = Some(vec!["D".to_string()]);
    let d = env("D");
    let config = catalog(vec![a, b, c, d]);
    let resolved = config.resolve_dependencies("A").unwrap();
    let names: Vec<_> = resolved.iter().map(|e| e.name.as_str()).collect();
    assert_eq!(names, vec!["D", "B", "C", "A"]);
}

#[test]
fn resolve_by_prefix_and_exact_first() {
    let config = catalog(vec![env("qt-6.9"), env("qt"), env("python")]);
    let names: Vec<_> = config
        .resolve_dependencies("qt")
        .unwrap()
        .iter()
        .map(|e| e.name.clone())
        .collect();
    assert_eq!(names, vec!["qt".to_string()]);
    let names: Vec<_> = config
        .resolve_dependencies("py")
        .unwrap()
        .iter()
        .map(|e| e.name.clone())
        .collect();
    assert_eq!(names, vec!["python".to_string()]);
}

#[test]
fn resolve_ambiguous_prefix_fails() {
    let config = catalog(vec![env("qt-6.8"), env("qt-6.9"), env("python")]);
    assert_eq!(
        config.resolve_dependencies("qt").err(),
        Some(UseError::EnvironmentNotFound("qt".to_string()))
    );
    let names: Vec<_> = config
        .resolve_dependencies("qt-6.9")
        .unwrap()
        .iter()
        .map(|e| e.name.clone())
        .collect();
    assert_eq!(names, vec!["qt-6.9".to_string()]);
}

#[test]
fn duplicate_environment_names_keep_the_first() {
    let mut t = env("tool");
    t.pattern = Some(use_env::Pattern {
        path: "/opt/tool".to_string(),
        regex: r"^(\d+)$".to_string(),
    });
    let listings = vec![("/opt/tool".to_string(), vec!["1".to_string(), "2".to_string()])];
    let r = Config::create_env_vector(
        &cmd_context(),
        vec![("tool".to_string(), t), ("tool-1".to_string(), env("tool-1"))],
        &listings,
    )
    .unwrap();
    let names: Vec<_> = r.iter().map(|e| e.name.as_str()).collect();
    assert_eq!(names, vec!["tool", "tool-1"]);
    assert_eq!(r[0].version, Some("1".to_string()));
}

#[test]
fn resolve_unknown_name_fails() {
    let config = catalog(vec![env("a")]);
    let err = config.resolve_dependencies("zzz").err().unwrap();
    assert_eq!(err, UseError::EnvironmentNotFound("zzz".to_string()));
    assert_eq!(err.message(), "Environment zzz not found");
}

#[test]
fn resolve_missing_reuse_fails() {
    let mut a = env("a");
    a.global.reuse = Some(vec!["missing".to_string()]);
    let config = catalog(vec![a]);
    let err = config.resolve_dependencies("a").err().unwrap();
    assert_eq!(err, UseError::EnvironmentNotFound("missing".to_string()));
}

#[test]
fn resolve_cycle_fails() {
    let mut a = env("a");
    a.global.reuse = Some(vec!["b".to_string()]);
    let mut b = env("b");
    b.global.reuse = Some(vec!["a".to_string()]);
    let config = catalog(vec![a, b]);
    let err = config.resolve_dependencies("a").err().unwrap();
    assert_eq!(err, UseError::CyclicReuse("a".to_string()));
    assert_eq!(err.message(), "Environment a reuses itself");
    let mut s = env("s");
    s.global.reuse = Some(vec!["s".to_string()]);
    let config = catalog(vec![s]);
    assert_eq!(
        config.resolve_dependencies("s").err(),
        Some(UseError::CyclicReuse("s".to_string()))
    );
}

#[test]
fn catalog_is_sorted_and_filtered() {
    let mut mac = env("mac-only");
    mac.context = Some("macos".to_string());
    let mut win = env("win-cmd");
    win.context = Some("windows,cmd".to_string());
    let mut ps = env("ps");
    ps.context = Some("pwsh".to_string());
    let config = catalog(vec![env("zeta"), mac, win, env("alpha"), ps]);
    assert_eq!(config.list(), vec!["alpha", "win-cmd", "zeta"]);
}

#[test]
fn unknown_shell_is_refused() {
    let ctx = Context {
        os: OperatingSystem::Linux,
        shell: Shell::Unknown,
        config_path: String::new(),
    };
    let r = Config::create_env_vector(&ctx, vec![("a".to_string(), env("a"))], &Vec::new());
    assert_eq!(r.err(), Some(UseError::UnsupportedShell));
}

#[test]
fn duplicate_variable_is_refused() {
    let mut a = env("a");
    a.global.set = Some(pairs(&[("X", "1"), ("X", "2")]));
    let r = Config::create_env_vector(&cmd_context(), vec![("a".to_string(), a)], &Vec::new());
    assert!(matches!(r, Err(UseError::ConfigParse(_))));
}

#[test]
fn catalog_names_come_from_keys() {
    let r = Config::create_env_vector(
        &cmd_context(),
        vec![("key".to_string(), env("ignored"))],
        &Vec::new(),
    )
    .unwrap();
    assert_eq!(r[0].name, "key");
}

fn template() -> Environment {
    let mut t = env("qt-{}.{}");
    t.pattern = Some(use_env::Pattern {
        path: "C:/Qt".to_string(),
        regex: r"(\d+)\.(\d+)\.(\d+)".to_string(),
    });
    t.global.display = Some("Qt {}.{}.{}".to_string());
    t.global.path = Some(vec!["C:/Qt/{}.{}.{}/bin".to_string()]);
    t
}

#[test]
fn pattern_instances_newest_first() {
    let mut t = env("qt-{}");
    t.pattern = Some(use_env::Pattern {
        path: "C:/Qt".to_string(),
        regex: r"(\d+\.\d+\.\d+)".to_string(),
    });
    t.global.display = Some("Qt {}".to_string());
    t.global.path = Some(vec!["C:/Qt/{}/bin".to_string()]);
    let listings = vec![(
        "C:/Qt".to_string(),
        vec!["6.8.2".to_string(), "6.9.0".to_string(), "docs".to_string()],
    )];
    let r = Config::create_env_vector(
        &cmd_context(),
        vec![("qt-{}".to_string(), t), ("other".to_string(), env("other"))],
        &listings,
    )
    .unwrap();
    let config = Config { environments: r };
    assert_eq!(config.list(), vec!["other", "qt-6.9.0", "qt-6.8.2"]);
    let e = &config.environments[1];
    assert_eq!(e.global.display, Some("Qt 6.9.0".to_string()));
    assert_eq!(e.global.path, Some(vec!["C:/Qt/6.9.0/bin".to_string()]));
    assert_eq!(e.version, Some("6.9.0".to_string()));
    assert_eq!(e.original_name, Some("qt-{}".to_string()));
    assert!(e.pattern.is_none());
}

#[test]
fn pattern_with_major_as_version_falls_back_to_names() {
    let listings = vec![(
        "C:/Qt".to_string(),
        vec!["6.9.0".to_string(), "6.8.2".to_string()],
    )];
    let r = Config::create_env_vector(
        &cmd_context(),
        vec![("qt-{}.{}".to_string(), template())],
        &listings,
    )
    .unwrap();
    let config = Config { environments: r };
    assert_eq!(config.list(), vec!["qt-6.8", "qt-6.9"]);
    let e = &config.environments[1];
    assert_eq!(e.global.display, Some("Qt 6.9.0".to_string()));
    assert_eq!(e.global.path, Some(vec!["C:/Qt/6.9.0/bin".to_string()]));
    assert_eq!(e.version, Some("6".to_string()));
}

#[test]
fn pattern_versions_compare_as_versions() {
    let mut t = env("sdk-{}");
    t.pattern = Some(use_env::Pattern {
        path: "/opt/sdk".to_string(),
        regex: r"^(\d+\.\d+\.\d+)$".to_string(),
    });
    let listings = vec![(
        "/opt/sdk".to_string(),
        vec!["1.9.0".to_string(), "1.10.0".to_string(), "1.2.3".to_string()],
    )];
    let r = Config::create_env_vector(&cmd_context(), vec![("sdk-{}".to_string(), t)], &listings)
        .unwrap();
    let config = Config { environments: r };
    assert_eq!(config.list(), vec!["sdk-1.10.0", "sdk-1.9.0", "sdk-1.2.3"]);
}

#[test]
fn pattern_without_directory_or_bad_regex_gives_nothing() {
    let r = Config::create_env_vector(
        &cmd_context(),
        vec![("qt-{}.{}".to_string(), template())],
        &Vec::new(),
    )
    .unwrap();
    assert!(r.is_empty());
    let mut t = template();
    t.pattern = Some(use_env::Pattern {
        path: "C:/Qt".to_string(),
        regex: "(".to_string(),
    });
    assert!(t.create_pattern_envs(&vec!["6.8.2".to_string()]).is_empty());
}

#[test]
fn pattern_instance_from_groups() {
    let t = template();
    let r = t.instantiate(&vec![
        Some("6.8.2".to_string()),
        Some("6".to_string()),
        None,
        Some("2".to_string()),
    ]);
    assert_eq!(r.name, "qt-6.2");
    assert_eq!(r.version, Some("6".to_string()));
    assert_eq!(r.original_name, Some("qt-{}.{}".to_string()));
}
