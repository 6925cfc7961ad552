use use_env::{
    CmdPrinter, Colorize, CommonProperties, Config, Context, DebugPrinter, Environment,
    OperatingSystem, PowershellPrinter, Settings, SettingsKey, Shell, ShellPrinter, UseError,
};

fn env(name: &str) -> Environment {
    Environment {
        name: name.to_string(),
        context: None,
        pattern: None,
        global: CommonProperties {
            display: None,
            script: None,
            set: None,
            append: None,
            prepend: None,
            path: None,
            reuse: None,
            go: None,
        },
        for_cmd: None,
        for_powershell: None,
        version: None,
        original_name: None,
    }
}

fn pairs(items: &[(&str, &str)]) -> Vec<(String, String)> {
    items.iter().map(|(k, v)| (k.to_string(), v.to_string())).collect()
}

fn sample() -> Environment {
    let mut e = env("qt");
    e.global.display = Some("Qt 6".to_string());
    e.global.set = Some(pairs(&[("QTDIR", "${ROOT}/qt"), ("ROOT", "C:/sdk")]));
    e.global.append = Some(pairs(&[("LIB", "${QTDIR}/lib")]));
    e.global.prepend = Some(pairs(&[("INCLUDE", "inc")]));
    e.global.path = Some(vec!["${QTDIR}/bin".to_string()]);
    e.global.script = Some("\n  call setup.bat  \n".to_string());
    e.global.go = Some("${QTDIR}".to_string());
    e
}

fn green(s: &str) -> String {
    format!("\x1b[1;32m{}\x1b[0m", s)
}

#[test]
fn cmd_lines_for_environment() {
    let lines = sample().print(&CmdPrinter {});
    assert_eq!(
        lines,
        vec![
            format!("echo {} Qt 6", green(" Configuring")),
            "@set ROOT=C:/sdk".to_string(),
            "@set QTDIR=%ROOT%/qt".to_string(),
            "@set LIB=%LIB%;%QTDIR%/lib".to_string(),
            "@set INCLUDE=inc;%INCLUDE%".to_string(),
            "@set PATH=%QTDIR%/bin;%PATH%".to_string(),
            "call setup.bat".to_string(),
            "chdir /D %QTDIR%".to_string(),
            "@set USE_PROMPT=qt".to_string(),
        ]
    );
}

#[test]
fn powershell_lines_for_environment() {
    let lines = sample().print(&PowershellPrinter {});
    assert_eq!(
        lines,
        vec![
            format!("Write-Host '{} Qt 6'", green(" Configuring")),
            "$env:ROOT = 'C:/sdk'".to_string(),
            "$env:QTDIR = '$env:ROOT/qt'".to_string(),
            "$env:LIB += \";$env:QTDIR/lib\"".to_string(),
            "$env:INCLUDE = \"inc;$env:INCLUDE\"".to_string(),
            "$env:PATH = \"$env:QTDIR/bin;$env:PATH\"".to_string(),
            "call setup.bat".to_string(),
            "Set-Location $env:QTDIR".to_string(),
            "$env:USE_PROMPT = 'qt'".to_string(),
        ]
    );
}

#[test]
fn debug_lines_for_environment() {
    let printer = DebugPrinter { colors: false };
    let mut e = sample();
    e.global.script = Some("a\r\nb".to_string());
    let lines = e.print(&printer);
    let var = |k: &str| format!("${}", k.warning());
    assert_eq!(
        lines,
        vec![
            "qt Qt 6".to_string(),
            "\u{2502} ROOT = C:/sdk".to_string(),
            format!("\u{2502} QTDIR = {}/qt", var("ROOT")),
            format!("\u{2502} LIB += {}/lib", var("QTDIR")),
            "\u{2502} INCLUDE += inc".to_string(),
            format!("\u{2502} PATH += {}/bin", var("QTDIR")),
            "\u{2502} \u{2503} a\n\u{2502} \u{2503} b".to_string(),
            format!("\u{2514}\u{2192} {}", var("QTDIR")),
            String::new(),
        ]
    );
}

#[test]
fn debug_colors_follow_the_console() {
    let printer = DebugPrinter { colors: true };
    let lines = env("x").print(&printer);
    assert_eq!(lines[0], "\x1b[30m\x1b[42mx\x1b[0m \x1b[34mx\x1b[0m");
}

#[test]
fn printer_variable_syntax() {
    assert_eq!(CmdPrinter {}.env_variable("PATH"), "%PATH%");
    assert_eq!(PowershellPrinter {}.env_variable("PATH"), "$env:PATH");
}

#[test]
fn unterminated_reference_is_left_as_is() {
    let mut e = env("v");
    e.global.set = Some(pairs(&[("A", "${B/${1X}/${C}")]));
    let lines = e.print(&CmdPrinter {});
    assert_eq!(lines[1], "@set A=${B/${1X}/%C%");
}

fn context() -> Context {
    Context {
        os: OperatingSystem::Windows,
        shell: Shell::Cmd,
        config_path: String::new(),
    }
}

fn config() -> Config {
    let mut a = env("app");
    a.global.display = Some("App".to_string());
    a.global.reuse = Some(vec!["base".to_string()]);
    let b = env("base");
    let raw = vec![("app".to_string(), a), ("base".to_string(), b)];
    Config::new(&context(), raw, &Vec::new()).unwrap()
}

#[test]
fn print_env_with_title() {
    let settings = Settings { update_title: true };
    let lines = config().print_env("app", &settings, &CmdPrinter {}).unwrap();
    assert_eq!(
        lines,
        vec![
            format!("echo {} base", green(" Configuring")),
            "@set USE_PROMPT=base".to_string(),
            format!("echo {} App", green(" Configuring")),
            "@set USE_PROMPT=app".to_string(),
            "TITLE App".to_string(),
            format!(
                "echo {} setting up \x1b[0;34mApp\x1b[0m",
                green("    Finished")
            ),
        ]
    );
}

#[test]
fn print_env_without_title_and_unknown_name() {
    let settings = Settings { update_title: false };
    let lines = config().print_env("base", &settings, &PowershellPrinter {}).unwrap();
    assert_eq!(lines.len(), 3);
    assert_eq!(lines[1], "$env:USE_PROMPT = 'base'");
    assert_eq!(
        config().print_env("nope", &settings, &CmdPrinter {}).err(),
        Some(UseError::EnvironmentNotFound("nope".to_string()))
    );
}

#[test]
fn context_filters() {
    let ctx = context();
    assert!(ctx.check("windows"));
    assert!(ctx.check("windows,cmd"));
    assert!(!ctx.check("cmd,something-else"));
    assert!(!ctx.check("windows,"));
    assert!(!ctx.check("linux"));
    assert!(!ctx.check("windows,powershell"));
    assert!(!ctx.check("pwsh"));
    let mac = Context {
        os: OperatingSystem::MacOS,
        shell: Shell::Powershell,
        config_path: String::new(),
    };
    assert!(mac.check("macos,pwsh"));
    assert!(!mac.check("macos,cmd"));
}

#[test]
fn settings_values() {
    assert!(Settings::from_stored(None).update_title);
    assert!(Settings::from_stored(Some("true")).update_title);
    assert!(!Settings::from_stored(Some("no")).update_title);
    let mut s = Settings { update_title: true };
    s.set(SettingsKey::UpdateTitle, "false");
    assert!(!s.update_title);
    assert_eq!(s.update_title_text(), "false");
    s.set(SettingsKey::UpdateTitle, "true");
    assert!(s.update_title);
    s.set(SettingsKey::UpdateTitle, "yes");
    assert!(!s.update_title);
}

#[test]
fn colorize_codes() {
    assert_eq!("x".warning(), "\x1b[1;33mx\x1b[0m");
    assert_eq!("x".error(), "\x1b[1;31mx\x1b[0m");
    assert_eq!("x".to_string().info(), "\x1b[0;34mx\x1b[0m");
    assert_eq!("x".success(), "\x1b[1;32mx\x1b[0m");
    assert_eq!("x".update(), "\x1b[1A\rx");
}

#[test]
fn error_messages() {
    assert_eq!(UseError::UnsupportedShell.message(), "Unsupported shell");
    assert_eq!(
        UseError::ConfigNotFound("/tmp/use.yaml".to_string()).message(),
        "Config file not found at /tmp/use.yaml"
    );
}
