use rustowl::cli::{version_lines, Cli, CliError, Commands, Shell, ToolchainCommands};

#[test]
fn test_cli_parsing_no_command() {
    let args = vec!["rustowl"];
    let cli = Cli::try_parse_from(args).unwrap();
    assert!(cli.command.is_none());
    assert!(!cli.version);
    assert_eq!((cli.verbose, cli.quiet), (0, 0));
}

#[test]
fn test_cli_parsing_version_flag() {
    let args = vec!["rustowl", "-V"];
    let cli = Cli::try_parse_from(args).unwrap();
    assert!(cli.command.is_none());
    assert!(cli.version);

    let args = vec!["rustowl", "--version"];
    let cli = Cli::try_parse_from(args).unwrap();
    assert!(cli.command.is_none());
    assert!(cli.version);
}

#[test]
fn test_cli_parsing_quiet_flags() {
    let args = vec!["rustowl", "-q"];
    let cli = Cli::try_parse_from(args).unwrap();
    assert_eq!((cli.verbose, cli.quiet), (0, 1));

    let args = vec!["rustowl", "-qq"];
    let cli = Cli::try_parse_from(args).unwrap();
    assert_eq!((cli.verbose, cli.quiet), (0, 2));
}

#[test]
fn test_cli_parsing_verbosity_flags() {
    let args = vec!["rustowl", "-v"];
    let cli = Cli::try_parse_from(args).unwrap();
    assert_eq!((cli.verbose, cli.quiet), (1, 0));

    let args = vec!["rustowl", "-vvv"];
    let cli = Cli::try_parse_from(args).unwrap();
    assert_eq!((cli.verbose, cli.quiet), (3, 0));
}

#[test]
fn test_cli_parsing_stdio_flag() {
    let args = vec!["rustowl", "--stdio"];
    let cli = Cli::try_parse_from(args).unwrap();
    assert!(cli.stdio);
}

#[test]
fn test_cli_parsing_check_command() {
    let args = vec!["rustowl", "check"];
    let cli = Cli::try_parse_from(args).unwrap();
    assert!(matches!(cli.command, Some(Commands::Check(_))));
}

#[test]
fn test_cli_parsing_check_command_with_path() {
    let args = vec!["rustowl", "check", "/some/path"];
    let cli = Cli::try_parse_from(args).unwrap();
    match cli.command {
        Some(Commands::Check(opts)) => {
            assert_eq!(opts.path, Some("/some/path".to_string()));
        }
        _ => panic!("Expected Check command"),
    }
}

#[test]
fn test_cli_parsing_check_command_with_flags() {
    let args = vec!["rustowl", "check", "--all-targets", "--all-features"];
    let cli = Cli::try_parse_from(args).unwrap();
    match cli.command {
        Some(Commands::Check(opts)) => {
            assert!(opts.all_targets);
            assert!(opts.all_features);
        }
        _ => panic!("Expected Check command"),
    }
}

#[test]
fn test_cli_parsing_clean_command() {
    let args = vec!["rustowl", "clean"];
    let cli = Cli::try_parse_from(args).unwrap();
    assert!(matches!(cli.command, Some(Commands::Clean)));
}

#[test]
fn test_cli_parsing_toolchain_install() {
    let args = vec!["rustowl", "toolchain", "install"];
    let cli = Cli::try_parse_from(args).unwrap();
    match cli.command {
        Some(Commands::Toolchain(opts)) => {
            assert!(matches!(opts.command, Some(ToolchainCommands::Install { .. })));
        }
        _ => panic!("Expected Toolchain command"),
    }
}

#[test]
fn test_cli_parsing_toolchain_install_with_path() {
    let args = vec!["rustowl", "toolchain", "install", "--path", "/custom/path"];
    let cli = Cli::try_parse_from(args).unwrap();
    match cli.command {
        Some(Commands::Toolchain(opts)) => match opts.command {
            Some(ToolchainCommands::Install { path, .. }) => {
                assert_eq!(path, Some("/custom/path".to_string()));
            }
            _ => panic!("Expected Install command"),
        },
        _ => panic!("Expected Toolchain command"),
    }
}

#[test]
fn test_cli_parsing_toolchain_install_skip_rustowl() {
    let args = vec!["rustowl", "toolchain", "install", "--skip-rustowl-toolchain"];
    let cli = Cli::try_parse_from(args).unwrap();
    match cli.command {
        Some(Commands::Toolchain(opts)) => match opts.command {
            Some(ToolchainCommands::Install { skip_rustowl_toolchain, .. }) => {
                assert!(skip_rustowl_toolchain);
            }
            _ => panic!("Expected Install command"),
        },
        _ => panic!("Expected Toolchain command"),
    }
}

#[test]
fn test_cli_parsing_toolchain_uninstall() {
    let args = vec!["rustowl", "toolchain", "uninstall"];
    let cli = Cli::try_parse_from(args).unwrap();
    match cli.command {
        Some(Commands::Toolchain(opts)) => {
            assert!(matches!(opts.command, Some(ToolchainCommands::Uninstall)));
        }
        _ => panic!("Expected Toolchain command"),
    }
}

#[test]
fn test_cli_parsing_completions() {
    let args = vec!["rustowl", "completions", "bash"];
    let cli = Cli::try_parse_from(args).unwrap();
    match cli.command {
        Some(Commands::Completions(opts)) => {
            let _shell = opts.shell;
        }
        _ => panic!("Expected Completions command"),
    }
}

#[test]
fn test_cli_parsing_invalid_command() {
    let args = vec!["rustowl", "invalid-command"];
    let result = Cli::try_parse_from(args);
    assert!(result.is_err());
}

#[test]
fn test_cli_parsing_invalid_flag() {
    let args = vec!["rustowl", "--invalid-flag"];
    let result = Cli::try_parse_from(args);
    assert!(result.is_err());
}

#[test]
fn test_cli_parsing_empty_args() {
    let args = vec!["rustowl"];
    let cli = Cli::try_parse_from(args).unwrap();
    assert!(cli.command.is_none());
    assert!(!cli.version);
    assert!(!cli.stdio);
    assert_eq!((cli.verbose, cli.quiet), (0, 0));
}

#[test]
fn test_cli_parsing_multiple_quiet_flags() {
    let args = vec!["rustowl", "-q", "-q", "-q"];
    let cli = Cli::try_parse_from(args).unwrap();
    assert_eq!((cli.verbose, cli.quiet), (0, 3));
}

#[test]
fn completions_shell_is_read() {
    let cli = Cli::try_parse_from(vec!["rustowl", "completions", "zsh"]).unwrap();
    match cli.command {
        Some(Commands::Completions(opts)) => assert_eq!(opts.shell, Shell::Zsh),
        _ => panic!("Expected Completions command"),
    }
}

#[test]
fn cli_errors_name_their_cause() {
    let e = |args: Vec<&str>| Cli::try_parse_from(args).err();
    assert_eq!(e(vec!["rustowl", "--help"]), Some(CliError::DisplayHelp));
    assert_eq!(e(vec!["rustowl", "--invalid-flag"]), Some(CliError::UnknownArgument));
    assert_eq!(e(vec!["rustowl", "completions", "tcsh"]), Some(CliError::InvalidValue));
    assert_eq!(e(vec!["rustowl", "toolchain", "install", "--path"]), Some(CliError::MissingValue));
    assert_eq!(e(vec!["rustowl", "completions"]), Some(CliError::MissingRequired));
}

#[test]
fn version_lines_fill_in_what_is_missing() {
    assert_eq!(version_lines("1.0.0", true, "v1", "abc", "now", "rustc 1.89", "stable"), vec!["rustowl 1.0.0".to_string()]);
    assert_eq!(
        version_lines("1.0.0", false, "", "abc", "", "", "stable"),
        vec![
            "rustowl 1.0.0".to_string(),
            "tag:not found".to_string(),
            "commit_hash:abc".to_string(),
            "build_time:not found".to_string(),
            "build_env:not found".to_string(),
        ]
    );
    assert_eq!(version_lines("1.0.0", false, "v1", "abc", "now", "rustc 1.89", "stable")[4], "build_env:rustc 1.89,stable");
}

#[test]
fn rustowl_test_display_version_function() {
    let lines = version_lines("1.0.0", false, "", "", "", "", "");
    assert_eq!(lines.len(), 5);
    assert_eq!(lines[0], "rustowl 1.0.0");
}
