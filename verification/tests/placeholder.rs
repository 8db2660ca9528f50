use context_server_store::context_server::{ContextServerCommand, ContextServerConfiguration};
use context_server_store::placeholder::{
    substitute_command_placeholders, uses_placeholder, PLACEHOLDER,
};
use context_server_store::str_map::StrMap;
use std::sync::Arc;

fn command(path: &str, args: &[&str], env: &[(&str, &str)]) -> ContextServerCommand {
    let mut variables: StrMap<String> = StrMap::new();
    for (key, value) in env {
        variables.insert(Arc::from(*key), value.to_string());
    }
    ContextServerCommand {
        path: path.to_string(),
        args: args.iter().map(|arg| arg.to_string()).collect(),
        env: Some(variables),
    }
}

#[test]
fn placeholder_is_the_worktree_root() {
    assert_eq!(PLACEHOLDER, "$ZED_WORKTREE_ROOT");
}

#[test]
fn placeholder_is_found_in_path_args_and_env_values() {
    assert!(uses_placeholder(&command("$ZED_WORKTREE_ROOT/bin", &[], &[])));
    assert!(uses_placeholder(&command("bin", &["-v", "--root=$ZED_WORKTREE_ROOT"], &[])));
    assert!(uses_placeholder(&command("bin", &[], &[("A", "b"), ("ROOT", "$ZED_WORKTREE_ROOT")])));
    assert!(!uses_placeholder(&command("bin", &["-v"], &[("A", "b")])));
    assert!(!uses_placeholder(&command("bin", &[], &[("$ZED_WORKTREE_ROOT", "b")])));
    assert!(!uses_placeholder(&command("$ZED_WORKTREE", &["_ROOT"], &[])));
    let mut without_env = command("bin", &[], &[]);
    without_env.env = None;
    assert!(!uses_placeholder(&without_env));
}

#[test]
fn substitution_reaches_path_args_and_env_values() {
    let mut subject = command(
        "$ZED_WORKTREE_ROOT/bin/server",
        &["--root", "$ZED_WORKTREE_ROOT", "$ZED_WORKTREE_ROOT:$ZED_WORKTREE_ROOT", "-v"],
        &[("ROOT", "$ZED_WORKTREE_ROOT/src"), ("$ZED_WORKTREE_ROOT", "x")],
    );
    assert!(substitute_command_placeholders(&mut subject, "/home/me/project"));
    assert!(
        subject
            == command(
                "/home/me/project/bin/server",
                &["--root", "/home/me/project", "/home/me/project:/home/me/project", "-v"],
                &[("ROOT", "/home/me/project/src"), ("$ZED_WORKTREE_ROOT", "x")],
            )
    );
}

#[test]
fn a_command_without_placeholder_stays() {
    let mut subject = command("bin", &["a"], &[("A", "b")]);
    assert!(substitute_command_placeholders(&mut subject, "$ZED_WORKTREE_ROOT"));
    assert!(subject == command("bin", &["a"], &[("A", "b")]));
}

#[test]
fn a_root_with_the_placeholder_in_it_is_not_enough() {
    let mut subject = command("bin", &["$ZED_WORKTREE_ROOT"], &[]);
    assert!(!substitute_command_placeholders(&mut subject, "/tmp/$ZED_WORKTREE_ROOT"));
    assert_eq!(subject.args, vec!["/tmp/$ZED_WORKTREE_ROOT".to_string()]);
}

#[test]
fn a_root_that_completes_a_placeholder_is_not_enough() {
    let mut subject = command("$ZED_$ZED_WORKTREE_ROOT", &[], &[]);
    assert!(!substitute_command_placeholders(&mut subject, "WORKTREE_ROOT"));
    assert_eq!(subject.path, "$ZED_WORKTREE_ROOT");
    let mut value = command("bin", &[], &[("A", "$ZED_$ZED_WORKTREE_ROOTWORKTREE_ROOT")]);
    assert!(!substitute_command_placeholders(&mut value, ""));
    let mut absolute = command("$ZED_$ZED_WORKTREE_ROOT", &[], &[]);
    assert!(substitute_command_placeholders(&mut absolute, "/WORKTREE_ROOT"));
    assert_eq!(absolute.path, "$ZED_/WORKTREE_ROOT");
}

#[test]
fn a_root_that_starts_or_ends_like_the_placeholder_is_not_enough() {
    let mut starts = command("$ZE$ZED_WORKTREE_ROOT", &[], &[]);
    assert!(!substitute_command_placeholders(&mut starts, "D_WORKTREE_ROOT/x"));
    assert_eq!(starts.path, "$ZED_WORKTREE_ROOT/x");
    let mut ends = command("$ZED_WORKTREE_ROOTZED_WORKTREE_ROOT", &[], &[]);
    assert!(!substitute_command_placeholders(&mut ends, "/x/$"));
    assert_eq!(ends.path, "/x/$ZED_WORKTREE_ROOT");
    let mut drive = command("$ZE$ZED_WORKTREE_ROOT", &[], &[]);
    assert!(substitute_command_placeholders(&mut drive, "D:\\$x"));
    assert_eq!(drive.path, "$ZED:\\$x");
}

#[test]
fn commands_are_compared_by_their_text() {
    let subject = command("bin", &["a"], &[("A", "1"), ("B", "2")]);
    assert!(subject == command("bin", &["a"], &[("B", "2"), ("A", "1")]));
    assert!(subject == subject.clone());
    assert!(subject != command("bin2", &["a"], &[("A", "1"), ("B", "2")]));
    assert!(subject != command("bin", &["a", "b"], &[("A", "1"), ("B", "2")]));
    assert!(subject != command("bin", &["b"], &[("A", "1"), ("B", "2")]));
    assert!(subject != command("bin", &["a"], &[("A", "1"), ("B", "3")]));
    assert!(subject != command("bin", &["a"], &[("A", "1")]));
    assert!(subject != command("bin", &["a"], &[("A", "1"), ("B", "2"), ("C", "3")]));
    let mut without_env = command("bin", &["a"], &[]);
    assert!(without_env.clone() == without_env);
    without_env.env = None;
    assert!(without_env != command("bin", &["a"], &[]));
}

#[test]
fn configurations_are_compared_by_command_and_settings() {
    let empty = ContextServerConfiguration::default();
    assert!(empty.command.is_none() && empty.settings.is_none());
    let full = ContextServerConfiguration {
        command: Some(command("bin", &[], &[])),
        settings: Some("{}".to_string()),
    };
    assert!(full == full.clone());
    assert!(full != empty);
    let other = ContextServerConfiguration {
        command: Some(command("bin", &[], &[])),
        settings: Some("{\"a\":1}".to_string()),
    };
    assert!(full != other);
}
