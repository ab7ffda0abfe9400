use uni::runfile::Step;
use uni::step::{collapse_continuations, substitute, CmdArgs};

#[test]
pub fn test_cmd_args_from_str() {
    let value = "cargo run --help";

    let expected = CmdArgs {
        cmd: "cargo".into(),
        args: ["run", "--help"].into_iter().map(String::from).collect(),
    };
    let actual = CmdArgs::from(value).unwrap();

    assert_eq!(actual, expected);
}

#[test]
pub fn test_cmd_args_from_str_multiline() {
    let value = "cargo run -- \\\n            --really-long true \\\n            --testing foo\n            ";

    let expected = CmdArgs {
        cmd: "cargo".into(),
        args: ["run", "--", "--really-long", "true", "--testing", "foo"]
            .into_iter()
            .map(String::from)
            .collect(),
    };
    let actual = CmdArgs::from(value).unwrap();

    assert_eq!(actual, expected);
}

#[test]
fn test_continuation_collapses_to_space() {
    let with_continuation = "cargo run -- \\\n--x";
    let without = "cargo run -- --x";
    assert_eq!(collapse_continuations(with_continuation), "cargo run --  --x");
    assert_eq!(
        CmdArgs::from(with_continuation).unwrap(),
        CmdArgs::from(without).unwrap()
    );
}

#[test]
fn test_empty_command_is_no_plan() {
    assert!(CmdArgs::from("").is_none());
    assert!(CmdArgs::from("   ").is_none());
}

#[test]
fn test_unclosed_quote_is_no_plan() {
    assert!(CmdArgs::from("echo \"unclosed").is_none());
}

#[test]
fn test_step_plan_carries_delay_and_persistence() {
    let step = Step {
        command: String::from("sleep 1"),
        persistent: true,
        startup_delay: 20,
    };
    let plan = step.plan().unwrap();
    assert_eq!(plan.startup_delay, 20);
    assert!(plan.persistent);
    assert_eq!(plan.command.cmd, "sleep");
    assert_eq!(plan.command.args, vec![String::from("1")]);
}

#[test]
fn test_substitute_without_references_is_identity() {
    let env = vec![(String::from("FOO"), String::from("bar"))];
    assert_eq!(substitute("cargo run --help", env), "cargo run --help");
}

#[test]
fn test_substitute_bound_name() {
    let env = vec![(String::from("TARGET"), String::from("debug"))];
    assert_eq!(
        substitute("cp out/$TARGET/app $TARGET.bak", env),
        "cp out/debug/app debug.bak"
    );
}

#[test]
fn test_substitute_unbound_name_stays() {
    let env = vec![(String::from("FOO"), String::from("bar"))];
    assert_eq!(substitute("echo $MISSING", env), "echo $MISSING");
}

#[test]
fn test_substitute_longer_name_is_not_split() {
    // $FOOBAR is one reference: the shorter bound name FOO does not match
    // inside it.
    let env = vec![
        (String::from("FOO"), String::from("short")),
        (String::from("FOOBAR"), String::from("long")),
    ];
    assert_eq!(substitute("echo $FOOBAR $FOO", env), "echo long short");
}

#[test]
fn test_substitute_bare_dollar_stays() {
    let env = vec![(String::from("FOO"), String::from("bar"))];
    assert_eq!(substitute("echo $ %", env), "echo $ %");
}

#[test]
fn test_substituted_command_tokenizes() {
    let env = vec![(String::from("BIN"), String::from("cargo"))];
    let resolved = substitute("$BIN run --help", env);
    let cmd = CmdArgs::from(resolved.as_str()).unwrap();
    assert_eq!(cmd.cmd, "cargo");
    assert_eq!(cmd.args, vec![String::from("run"), String::from("--help")]);
}
