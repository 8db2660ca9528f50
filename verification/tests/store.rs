use context_server_store::context_server::{
    ContextServer, ContextServerCommand, ContextServerConfiguration, ContextServerId,
    ContextServerTransport,
};
use context_server_store::project::{
    ProjectSettings, SettingsLocation, Worktree, WorktreeId, WorktreeStore,
};
use context_server_store::state::{
    Context, ContextServerState, ContextServerStatus, Effect, Event, StoreError, TaskId,
};
use context_server_store::store::{ContextServerStore, Stop, Subscription};
use context_server_store::str_map::StrMap;
use std::sync::Arc;

type Factory = fn(ContextServerId, Arc<ContextServerConfiguration>) -> Arc<ContextServer>;
type Store = ContextServerStore<Factory>;

fn make_custom(id: ContextServerId, _: Arc<ContextServerConfiguration>) -> Arc<ContextServer> {
    Arc::new(ContextServer::custom(id, 7))
}

fn id(text: &str) -> ContextServerId {
    ContextServerId(Arc::from(text))
}

fn command(path: &str, args: &[&str]) -> ContextServerCommand {
    ContextServerCommand {
        path: path.to_string(),
        args: args.iter().map(|arg| arg.to_string()).collect(),
        env: None,
    }
}

fn configuration(path: &str, args: &[&str]) -> Arc<ContextServerConfiguration> {
    Arc::new(ContextServerConfiguration { command: Some(command(path, args)), settings: None })
}

fn server(text: &str) -> Arc<ContextServer> {
    Arc::new(ContextServer::stdio(id(text), command("bin", &[])))
}

/// The effects as short strings.
fn effects(cx: &mut Context) -> Vec<String> {
    cx.take_effects()
        .into_iter()
        .map(|effect| match effect {
            Effect::Emit(Event::ServerStatusChanged { server_id, status }) => {
                format!("{} {:?}", server_id.0, status)
            }
            Effect::StopServer(server) => format!("stop {}", server.id.0),
            Effect::StartServer { task, server, .. } => format!("start {} {}", server.id.0, task.0),
            Effect::DropTask(task) => format!("drop {}", task.0),
            Effect::MaintainServers(task) => format!("maintain {}", task.0),
        })
        .collect()
}

fn empty_store() -> (Store, Context) {
    let mut cx = Context::new();
    let store = Store::test(&mut cx);
    (store, cx)
}

#[test]
fn a_new_store_follows_the_settings() {
    let mut cx = Context::new();
    let store = Store::new(&mut cx);
    assert_eq!(effects(&mut cx), vec!["maintain 0"]);
    assert_eq!(store.subscriptions(), &vec![Subscription::Registry, Subscription::Settings]);
    assert!(store.all_server_ids().is_empty());
}

#[test]
fn a_test_store_does_not_follow_the_settings() {
    let (store, mut cx) = empty_store();
    assert!(effects(&mut cx).is_empty());
    assert!(store.subscriptions().is_empty());
    assert!(store.all_server_ids().is_empty());
    assert!(store.running_servers().is_empty());
    assert!(store.get_server(&id("a")).is_none());
    assert!(store.status_for_server(&id("a")).is_none());
}

#[test]
fn a_server_starts_and_runs() {
    let (mut store, mut cx) = empty_store();
    let subject = server("a");
    store.run_server(subject.clone(), configuration("bin", &[]), &mut cx);
    assert_eq!(effects(&mut cx), vec!["start a 0", "a Starting"]);
    assert_eq!(store.status_for_server(&id("a")), Some(ContextServerStatus::Starting));
    assert!(store.get_running_server(&id("a")).is_none());
    assert!(Arc::ptr_eq(&store.get_server(&id("a")).unwrap(), &subject));

    store.finish_start(&id("a"), TaskId(0), Ok(()), &mut cx);
    assert_eq!(effects(&mut cx), vec!["drop 0", "a Running"]);
    assert_eq!(store.status_for_server(&id("a")), Some(ContextServerStatus::Running));
    assert!(Arc::ptr_eq(&store.get_running_server(&id("a")).unwrap(), &subject));
    assert_eq!(store.running_servers().len(), 1);
    assert!(*store.configuration_for_server(&id("a")).unwrap() == *configuration("bin", &[]));
}

#[test]
fn a_failed_start_is_shown() {
    let (mut store, mut cx) = empty_store();
    store.run_server(server("a"), configuration("bin", &[]), &mut cx);
    effects(&mut cx);
    store.finish_start(&id("a"), TaskId(0), Err(Arc::from("no such file")), &mut cx);
    assert_eq!(effects(&mut cx), vec!["drop 0", "a Error(\"no such file\")"]);
    assert_eq!(
        store.status_for_server(&id("a")),
        Some(ContextServerStatus::Error(Arc::from("no such file")))
    );
    assert!(store.get_running_server(&id("a")).is_none());
    assert!(store.get_server(&id("a")).is_some());
}

#[test]
fn a_running_server_is_stopped_by_the_host() {
    let (mut store, mut cx) = empty_store();
    let subject = server("a");
    store.run_server(subject.clone(), configuration("bin", &[]), &mut cx);
    store.finish_start(&id("a"), TaskId(0), Ok(()), &mut cx);
    effects(&mut cx);
    let stop = store.stop_server(&id("a"), &mut cx).unwrap();
    assert_eq!(effects(&mut cx), vec!["stop a", "a Stopped"]);
    assert!(matches!(&stop, Stop::Requested(server) if Arc::ptr_eq(server, &subject)));
    assert_eq!(store.status_for_server(&id("a")), Some(ContextServerStatus::Stopped));
    assert_eq!(
        stop.finish(Err(Arc::from("busy"))),
        Err(StoreError::StopFailed(Arc::from("busy")))
    );
    let stop = store.stop_server(&id("a"), &mut cx).unwrap();
    assert_eq!(effects(&mut cx), vec!["a Stopped"]);
    assert_eq!(stop.finish(Err(Arc::from("busy"))), Ok(()));
}

#[test]
fn a_stopped_start_does_not_come_back() {
    let (mut store, mut cx) = empty_store();
    store.run_server(server("a"), configuration("bin", &[]), &mut cx);
    effects(&mut cx);
    let stop = store.stop_server(&id("a"), &mut cx).unwrap();
    assert!(matches!(stop, Stop::Done));
    assert_eq!(effects(&mut cx), vec!["drop 0", "a Stopped"]);
    store.finish_start(&id("a"), TaskId(0), Ok(()), &mut cx);
    assert!(effects(&mut cx).is_empty());
    assert_eq!(store.status_for_server(&id("a")), Some(ContextServerStatus::Stopped));
}

#[test]
fn a_removed_start_does_not_come_back() {
    let (mut store, mut cx) = empty_store();
    store.run_server(server("a"), configuration("bin", &[]), &mut cx);
    effects(&mut cx);
    assert_eq!(store.remove_server(&id("a"), &mut cx), Ok(()));
    assert_eq!(effects(&mut cx), vec!["drop 0", "a Stopped"]);
    store.finish_start(&id("a"), TaskId(0), Ok(()), &mut cx);
    assert!(effects(&mut cx).is_empty());
    assert!(store.get_server(&id("a")).is_none());
}

#[test]
fn an_old_start_does_not_end_a_new_one() {
    let (mut store, mut cx) = empty_store();
    store.run_server(server("a"), configuration("bin", &[]), &mut cx);
    effects(&mut cx);
    store.run_server(server("a"), configuration("bin", &["-v"]), &mut cx);
    assert_eq!(effects(&mut cx), vec!["drop 0", "a Stopped", "start a 1", "a Starting"]);
    store.finish_start(&id("a"), TaskId(0), Ok(()), &mut cx);
    assert_eq!(store.status_for_server(&id("a")), Some(ContextServerStatus::Starting));
    store.finish_start(&id("a"), TaskId(1), Ok(()), &mut cx);
    assert_eq!(store.status_for_server(&id("a")), Some(ContextServerStatus::Running));
}

#[test]
fn running_anew_stops_the_running_server() {
    let (mut store, mut cx) = empty_store();
    store.run_server(server("a"), configuration("bin", &[]), &mut cx);
    store.finish_start(&id("a"), TaskId(0), Ok(()), &mut cx);
    effects(&mut cx);
    store.run_server(server("a"), configuration("bin", &[]), &mut cx);
    assert_eq!(effects(&mut cx), vec!["stop a", "a Stopped", "start a 1", "a Starting"]);
}

#[test]
fn running_after_a_stop_does_not_stop_again() {
    let (mut store, mut cx) = empty_store();
    store.run_server(server("a"), configuration("bin", &[]), &mut cx);
    store.stop_server(&id("a"), &mut cx).unwrap();
    effects(&mut cx);
    store.run_server(server("a"), configuration("bin", &[]), &mut cx);
    assert_eq!(effects(&mut cx), vec!["start a 1", "a Starting"]);
}

#[test]
fn unknown_servers_are_refused() {
    let (mut store, mut cx) = empty_store();
    let error = store.stop_server(&id("a"), &mut cx).unwrap_err();
    assert_eq!(error, StoreError::ServerNotFound);
    assert_eq!(error.message(), "Context server not found");
    assert_eq!(store.remove_server(&id("a"), &mut cx), Err(StoreError::ServerNotFound));
    assert!(store.restart_server(&id("a"), &mut cx).is_none());
    assert!(effects(&mut cx).is_empty());
}

#[test]
fn a_running_server_is_removed_without_a_stop() {
    let (mut store, mut cx) = empty_store();
    store.run_server(server("a"), configuration("bin", &[]), &mut cx);
    store.finish_start(&id("a"), TaskId(0), Ok(()), &mut cx);
    effects(&mut cx);
    assert_eq!(store.remove_server(&id("a"), &mut cx), Ok(()));
    assert_eq!(effects(&mut cx), vec!["a Stopped"]);
}

#[test]
fn other_servers_stay() {
    let (mut store, mut cx) = empty_store();
    for (task, name) in ["a", "b", "c"].iter().enumerate() {
        store.run_server(server(name), configuration("bin", &[]), &mut cx);
        store.finish_start(&id(name), TaskId(task as u64), Ok(()), &mut cx);
    }
    store.stop_server(&id("a"), &mut cx).unwrap();
    store.remove_server(&id("c"), &mut cx).unwrap();
    let mut ids: Vec<String> =
        store.all_server_ids().into_iter().map(|id| id.0.to_string()).collect();
    ids.sort();
    assert_eq!(ids, vec!["a", "b"]);
    let running: Vec<String> =
        store.running_servers().iter().map(|server| server.id.0.to_string()).collect();
    assert_eq!(running, vec!["b"]);
}

#[test]
fn a_server_starts_with_its_configuration_from_the_settings() {
    let (mut store, mut cx) = empty_store();
    let mut context_servers: StrMap<ContextServerConfiguration> = StrMap::new();
    context_servers.insert(
        Arc::from("a"),
        ContextServerConfiguration { command: None, settings: Some("{}".to_string()) },
    );
    let settings = ProjectSettings { context_servers, global_only: StrMap::new() };
    assert_eq!(store.start_server(server("a"), &settings, &mut cx), Ok(()));
    assert_eq!(effects(&mut cx), vec!["start a 0", "a Starting"]);
    assert_eq!(
        store.configuration_for_server(&id("a")).unwrap().settings,
        Some("{}".to_string())
    );
    let error = store.start_server(server("b"), &settings, &mut cx).unwrap_err();
    assert_eq!(error, StoreError::ConfigurationNotFound);
    assert_eq!(error.message(), "Failed to load context server configuration from settings");
    assert!(effects(&mut cx).is_empty());
    assert!(store.get_server(&id("b")).is_none());
}

#[test]
fn a_restart_stops_and_starts() {
    let (mut store, mut cx) = empty_store();
    store.run_server(server("a"), configuration("bin", &["$ZED_WORKTREE_ROOT"]), &mut cx);
    store.finish_start(&id("a"), TaskId(0), Ok(()), &mut cx);
    effects(&mut cx);
    let restart = store.restart_server(&id("a"), &mut cx).unwrap();
    assert_eq!(effects(&mut cx), vec!["stop a", "a Stopped"]);
    assert_eq!(store.finish_restart(restart, Ok(()), &mut cx), Ok(()));
    assert_eq!(effects(&mut cx), vec!["start a 1", "a Starting"]);
    let restarted = store.get_server(&id("a")).unwrap();
    match &restarted.transport {
        ContextServerTransport::Stdio(launched) => {
            assert_eq!(launched.path, "bin");
            assert_eq!(launched.args, vec!["$ZED_WORKTREE_ROOT".to_string()]);
        }
        ContextServerTransport::Custom(_) => panic!("not launched by its command"),
    }
}

#[test]
fn a_restart_ends_where_the_stop_fails() {
    let (mut store, mut cx) = empty_store();
    store.run_server(server("a"), configuration("bin", &[]), &mut cx);
    store.finish_start(&id("a"), TaskId(0), Ok(()), &mut cx);
    let restart = store.restart_server(&id("a"), &mut cx).unwrap();
    effects(&mut cx);
    let error = store.finish_restart(restart, Err(Arc::from("busy")), &mut cx).unwrap_err();
    assert_eq!(error.message(), "busy");
    assert!(effects(&mut cx).is_empty());
    assert_eq!(store.status_for_server(&id("a")), Some(ContextServerStatus::Stopped));
}

#[test]
fn a_restart_ends_where_there_is_no_command() {
    let (mut store, mut cx) = empty_store();
    let without_command = Arc::new(ContextServerConfiguration::default());
    store.run_server(server("a"), without_command, &mut cx);
    let restart = store.restart_server(&id("a"), &mut cx).unwrap();
    effects(&mut cx);
    let error = store.finish_restart(restart, Ok(()), &mut cx).unwrap_err();
    assert_eq!(error, StoreError::MissingCommand(id("a")));
    assert_eq!(error.message(), "ContextServerId a: Missing command in configuration");
    assert!(effects(&mut cx).is_empty());
}

fn two_worktrees() -> WorktreeStore {
    WorktreeStore {
        worktrees: vec![
            Worktree { id: WorktreeId(1), visible: false, local_path: Some("/hidden".to_string()) },
            Worktree { id: WorktreeId(2), visible: true, local_path: Some("/project".to_string()) },
            Worktree { id: WorktreeId(3), visible: true, local_path: None },
        ],
    }
}

#[test]
fn settings_are_looked_up_in_the_first_visible_worktree() {
    let location: Option<SettingsLocation> = two_worktrees().settings_location();
    let location = location.unwrap();
    assert_eq!(location.worktree_id, WorktreeId(2));
    assert_eq!(location.path, "");
    let none = WorktreeStore { worktrees: Vec::new() };
    assert!(none.settings_location().is_none());
}

#[test]
fn local_roots_are_found_by_worktree() {
    let worktrees = two_worktrees();
    assert_eq!(worktrees.local_path_for_id(WorktreeId(1)), Some(&"/hidden".to_string()));
    assert_eq!(worktrees.local_path_for_id(WorktreeId(3)), None);
    assert_eq!(worktrees.local_path_for_id(WorktreeId(4)), None);
}

fn launched_args(result: Result<Arc<ContextServer>, StoreError>) -> Vec<String> {
    match &result.unwrap().transport {
        ContextServerTransport::Stdio(launched) => launched.args.clone(),
        ContextServerTransport::Custom(_) => panic!("not launched by its command"),
    }
}

#[test]
fn project_commands_get_the_root_of_their_worktree() {
    let (store, _) = empty_store();
    let subject = configuration("bin", &["$ZED_WORKTREE_ROOT/src"]);
    let worktrees = two_worktrees();
    let made =
        store.create_context_server(id("a"), subject.clone(), &worktrees, Some(WorktreeId(2)));
    assert_eq!(launched_args(made), vec!["/project/src".to_string()]);
    let global = store.create_context_server(id("a"), subject.clone(), &worktrees, None);
    assert_eq!(launched_args(global), vec!["$ZED_WORKTREE_ROOT/src".to_string()]);
    let error = store
        .create_context_server(id("a"), subject, &worktrees, Some(WorktreeId(3)))
        .unwrap_err();
    assert_eq!(error, StoreError::UnresolvedPlaceholder(id("a")));
    assert_eq!(
        error.message(),
        "ContextServerId a: Failed to resolve $ZED_WORKTREE_ROOT for command. \
         Check logs for details."
    );
}

#[test]
fn a_root_that_leaves_the_placeholder_is_refused() {
    let (store, _) = empty_store();
    let worktrees = WorktreeStore {
        worktrees: vec![Worktree {
            id: WorktreeId(1),
            visible: true,
            local_path: Some("/$ZED_WORKTREE_ROOT".to_string()),
        }],
    };
    let subject = configuration("$ZED_WORKTREE_ROOT", &[]);
    let made = store.create_context_server(id("a"), subject, &worktrees, Some(WorktreeId(1)));
    assert_eq!(made.unwrap_err(), StoreError::UnresolvedPlaceholder(id("a")));
}

#[test]
fn commands_without_placeholder_need_no_worktree() {
    let (store, _) = empty_store();
    let worktrees = WorktreeStore { worktrees: Vec::new() };
    let subject = configuration("bin", &["-v"]);
    let made = store.create_context_server(id("a"), subject, &worktrees, Some(WorktreeId(9)));
    assert_eq!(launched_args(made), vec!["-v".to_string()]);
}

#[test]
fn a_factory_makes_the_servers() {
    let mut cx = Context::new();
    let store = Store::test_maintain_server_loop(make_custom, &mut cx);
    assert_eq!(effects(&mut cx), vec!["maintain 0"]);
    let worktrees = WorktreeStore { worktrees: Vec::new() };
    let made = store
        .create_context_server(id("a"), configuration("bin", &[]), &worktrees, None)
        .unwrap();
    assert!(made.id == id("a"));
    assert!(matches!(made.transport, ContextServerTransport::Custom(7)));
    let empty = ContextServerConfiguration::default();
    assert!(store.is_configuration_valid(&empty));
    let error =
        store.create_context_server(id("a"), Arc::new(empty), &worktrees, None).unwrap_err();
    assert_eq!(error, StoreError::MissingCommand(id("a")));
}

#[test]
fn without_a_factory_a_valid_configuration_has_a_command() {
    let (store, _) = empty_store();
    assert!(!store.is_configuration_valid(&ContextServerConfiguration::default()));
    assert!(store.is_configuration_valid(&configuration("bin", &[])));
}

#[test]
fn one_update_at_a_time_and_none_is_lost() {
    let (mut store, mut cx) = empty_store();
    store.available_context_servers_changed(&mut cx);
    assert_eq!(effects(&mut cx), vec!["maintain 0"]);
    store.available_context_servers_changed(&mut cx);
    store.available_context_servers_changed(&mut cx);
    assert!(effects(&mut cx).is_empty());
    store.finish_update(&mut cx);
    assert_eq!(effects(&mut cx), vec!["maintain 1"]);
    store.finish_update(&mut cx);
    assert!(effects(&mut cx).is_empty());
    store.available_context_servers_changed(&mut cx);
    assert_eq!(effects(&mut cx), vec!["maintain 2"]);
}

#[test]
fn the_status_goes_with_the_state() {
    let states = vec![
        ContextServerState::Starting {
            server: server("a"),
            configuration: configuration("bin", &[]),
            task: TaskId(0),
        },
        ContextServerState::Running {
            server: server("a"),
            configuration: configuration("bin", &[]),
        },
        ContextServerState::Stopped {
            server: server("a"),
            configuration: configuration("bin", &[]),
            error: None,
        },
        ContextServerState::Stopped {
            server: server("a"),
            configuration: configuration("bin", &[]),
            error: Some(Arc::from("broken")),
        },
    ];
    let statuses: Vec<ContextServerStatus> =
        states.iter().map(ContextServerStatus::from_state).collect();
    assert_eq!(
        statuses,
        vec![
            ContextServerStatus::Starting,
            ContextServerStatus::Running,
            ContextServerStatus::Stopped,
            ContextServerStatus::Error(Arc::from("broken")),
        ]
    );
    for state in &states {
        assert!(state.server().id() == id("a"));
        assert!(*state.configuration() == *configuration("bin", &[]));
    }
    assert_eq!(statuses.clone(), statuses);
}

fn launch_as_configured(
    id: ContextServerId,
    configuration: Arc<ContextServerConfiguration>,
) -> Arc<ContextServer> {
    Arc::new(ContextServer::stdio(id, configuration.command.clone().unwrap()))
}

#[test]
fn a_factory_gets_the_configuration_as_it_stands() {
    let mut cx = Context::new();
    let store = Store::test_maintain_server_loop(launch_as_configured, &mut cx);
    let subject = configuration("bin", &["$ZED_WORKTREE_ROOT/src"]);
    let worktrees = two_worktrees();
    let made =
        store.create_context_server(id("a"), subject.clone(), &worktrees, Some(WorktreeId(2)));
    assert_eq!(launched_args(made), vec!["$ZED_WORKTREE_ROOT/src".to_string()]);
    let unresolved =
        store.create_context_server(id("a"), subject, &worktrees, Some(WorktreeId(3)));
    assert_eq!(unresolved.unwrap_err(), StoreError::UnresolvedPlaceholder(id("a")));
}
