use clap::{Arg, ArgAction, Command};

fn cli_command() -> Command {
    // The same command-line surface the binary exposes, built by calls so
    // that clap can check it for consistency.
    Command::new("liushu")
        .subcommand(
            Command::new("deploy")
                .arg(
                    Arg::new("config_dir")
                        .short('c')
                        .long("config-dir")
                        .required(true),
                )
                .arg(
                    Arg::new("target_dir")
                        .short('t')
                        .long("target-dir")
                        .required(true),
                ),
        )
        .subcommand(
            Command::new("build")
                .arg(
                    Arg::new("inputs")
                        .short('i')
                        .long("inputs")
                        .action(ArgAction::Append),
                )
                .arg(
                    Arg::new("output_dir")
                        .short('o')
                        .long("output-dir")
                        .required(true),
                ),
        )
        .subcommand(
            Command::new("repl")
                .arg(
                    Arg::new("config_dir")
                        .short('c')
                        .long("config-dir")
                        .required(true),
                )
                .arg(
                    Arg::new("target_dir")
                        .short('t')
                        .long("target-dir")
                        .required(true),
                ),
        )
}

#[test]
fn main_verify_cli() {
    cli_command().debug_assert();
}

#[test]
fn cli_parses_a_build_invocation() {
    let m = cli_command()
        .try_get_matches_from(vec![
            "liushu",
            "build",
            "--inputs",
            "a.dict",
            "--inputs",
            "b.dict",
            "--output-dir",
            "out",
        ])
        .unwrap();
    let (name, sub) = m.subcommand().unwrap();
    assert_eq!(name, "build");
    let inputs: Vec<&String> = sub.get_many::<String>("inputs").unwrap().collect();
    assert_eq!(inputs.len(), 2);
    assert_eq!(sub.get_one::<String>("output_dir").unwrap(), "out");
}

#[test]
fn repl_cli_verify() {
    // The interactive side of the surface: deploy and repl take the
    // configuration and target directories.
    let m = cli_command()
        .try_get_matches_from(vec![
            "liushu",
            "repl",
            "--config-dir",
            "conf",
            "--target-dir",
            "target",
        ])
        .unwrap();
    let (name, sub) = m.subcommand().unwrap();
    assert_eq!(name, "repl");
    assert_eq!(sub.get_one::<String>("config_dir").unwrap(), "conf");
    assert_eq!(sub.get_one::<String>("target_dir").unwrap(), "target");

    let d = cli_command()
        .try_get_matches_from(vec!["liushu", "deploy", "-c", "conf", "-t", "target"])
        .unwrap();
    assert_eq!(d.subcommand().unwrap().0, "deploy");
}
