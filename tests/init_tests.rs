use use_env::init::{fill_script, UsePath};
use use_env::Shell;

#[test]
fn pwsh_path_doubles_single_quotes() {
    let p = UsePath {
        native_path: "C:/It's here/use.exe".to_string(),
    };
    assert_eq!(p.sprint_pwsh(), "'C:/It''s here/use.exe'");
    assert_eq!(p.str_path(), "C:/It's here/use.exe");
}

#[test]
fn cmd_path_is_double_quoted() {
    let p = UsePath {
        native_path: "C:/Program Files/use.exe".to_string(),
    };
    assert_eq!(p.sprint_cmdexe(), "\"C:/Program Files/use.exe\"");
}

#[test]
fn script_gets_every_path_marker_filled() {
    assert_eq!(
        fill_script("run ::USE:: then ::USE::; ::US", "'u'"),
        "run 'u' then 'u'; ::US"
    );
    assert_eq!(fill_script("", "x"), "");
}

#[test]
fn shell_from_use_shell_variable() {
    assert_eq!(Shell::detect(Some("cmd")), Shell::Cmd);
    assert_eq!(Shell::detect(Some("clink-cmd")), Shell::Cmd);
    assert_eq!(Shell::detect(Some("powershell")), Shell::Powershell);
    assert_eq!(Shell::detect(Some("pwsh-7")), Shell::Powershell);
    assert_eq!(Shell::detect(Some("bash")), Shell::Unknown);
    assert_eq!(Shell::detect(None), Shell::Unknown);
}
