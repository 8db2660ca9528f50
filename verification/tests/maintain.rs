use context_server_store::context_server::{
    ContextServer, ContextServerCommand, ContextServerConfiguration, ContextServerId,
    ContextServerTransport,
};
use context_server_store::maintain::{DesiredServers, UpdatePlan};
use context_server_store::project::{ProjectSettings, Worktree, WorktreeId, WorktreeStore};
use context_server_store::state::{
    Context, ContextServerStatus, Effect, Event, StoreError, TaskId,
};
use context_server_store::store::ContextServerStore;
use context_server_store::str_map::StrMap;
use std::sync::Arc;

type Factory = fn(ContextServerId, Arc<ContextServerConfiguration>) -> Arc<ContextServer>;
type Store = ContextServerStore<Factory>;

fn id(text: &str) -> ContextServerId {
    ContextServerId(Arc::from(text))
}

fn command(path: &str) -> ContextServerCommand {
    ContextServerCommand { path: path.to_string(), args: Vec::new(), env: None }
}

fn settings(servers: &[(&str, Option<&str>)]) -> ProjectSettings {
    let mut context_servers: StrMap<ContextServerConfiguration> = StrMap::new();
    for (key, path) in servers {
        context_servers.insert(
            Arc::from(*key),
            ContextServerConfiguration {
                command: path.map(command),
                settings: Some(format!("\"{}\"", key)),
            },
        );
    }
    ProjectSettings { context_servers, global_only: StrMap::new() }
}

fn worktrees() -> WorktreeStore {
    WorktreeStore {
        worktrees: vec![Worktree {
            id: WorktreeId(1),
            visible: true,
            local_path: Some("/project".to_string()),
        }],
    }
}

fn desired(servers: &[(&str, Option<&str>)]) -> DesiredServers {
    let location = worktrees().settings_location();
    DesiredServers::from_settings(&location, &settings(servers))
}

fn texts(ids: &Vec<ContextServerId>) -> Vec<String> {
    let mut texts: Vec<String> = ids.iter().map(|id| id.0.to_string()).collect();
    texts.sort();
    texts
}

fn starts(plan: &UpdatePlan) -> Vec<String> {
    let mut texts: Vec<String> =
        plan.servers_to_start.iter().map(|planned| planned.id.0.to_string()).collect();
    texts.sort();
    texts
}

fn update(store: &mut Store, servers: &[(&str, Option<&str>)]) {
    let mut cx = Context::new();
    let plan = store.plan_update(&desired(servers), &worktrees());
    store.apply_plan(plan, &mut cx);
}

fn empty_store() -> Store {
    let mut cx = Context::new();
    Store::test(&mut cx)
}

#[test]
fn desired_servers_come_from_the_settings() {
    let subject = desired(&[("a", Some("bin"))]);
    assert_eq!(subject.source_worktree_id, Some(WorktreeId(1)));
    assert_eq!(subject.servers.len(), 1);
    assert_eq!(subject.servers.get("a").unwrap().settings, Some("\"a\"".to_string()));
    let global = DesiredServers::from_settings(&None, &settings(&[]));
    assert_eq!(global.source_worktree_id, None);
    assert_eq!(global.servers.len(), 0);
}

#[test]
fn extensions_give_commands_where_the_settings_give_none() {
    let mut subject = desired(&[("a", Some("bin")), ("b", None)]);
    assert!(!subject.add_descriptor(&Arc::from("a")));
    subject.provide_command(&Arc::from("a"), Some(command("extension")));
    assert_eq!(subject.servers.get("a").unwrap().command.as_ref().unwrap().path, "bin");

    assert!(subject.add_descriptor(&Arc::from("b")));
    subject.provide_command(&Arc::from("b"), Some(command("extension")));
    let b = subject.servers.get("b").unwrap();
    assert_eq!(b.command.as_ref().unwrap().path, "extension");
    assert_eq!(b.settings, Some("\"b\"".to_string()));

    assert!(subject.add_descriptor(&Arc::from("c")));
    subject.provide_command(&Arc::from("c"), None);
    assert!(subject.servers.get("c").unwrap().command.is_none());
    assert!(subject.servers.get("c").unwrap().settings.is_none());

    subject.provide_command(&Arc::from("d"), Some(command("extension")));
    assert!(subject.servers.get("d").is_none());
}

#[test]
fn new_servers_are_started() {
    let mut store = empty_store();
    let mut cx = Context::new();
    let plan = store.plan_update(&desired(&[("a", Some("bin")), ("b", Some("bin"))]), &worktrees());
    assert_eq!(starts(&plan), vec!["a", "b"]);
    assert!(plan.servers_to_stop.is_empty());
    assert!(plan.servers_to_remove.is_empty());
    assert!(plan.failures.is_empty());
    store.apply_plan(plan, &mut cx);
    assert_eq!(texts(&store.all_server_ids()), vec!["a", "b"]);
    assert_eq!(store.status_for_server(&id("a")), Some(ContextServerStatus::Starting));
}

#[test]
fn servers_that_are_not_desired_are_removed() {
    let mut store = empty_store();
    update(&mut store, &[("a", Some("bin")), ("b", Some("bin"))]);
    let plan = store.plan_update(&desired(&[("b", Some("bin"))]), &worktrees());
    assert_eq!(texts(&plan.servers_to_remove), vec!["a"]);
    assert!(plan.servers_to_start.is_empty());
    update(&mut store, &[("b", Some("bin"))]);
    assert_eq!(texts(&store.all_server_ids()), vec!["b"]);
}

#[test]
fn servers_without_command_are_removed() {
    let mut store = empty_store();
    update(&mut store, &[("a", Some("bin"))]);
    update(&mut store, &[("a", None)]);
    assert!(store.all_server_ids().is_empty());
}

#[test]
fn servers_with_a_new_configuration_are_restarted() {
    let mut store = empty_store();
    let mut cx = Context::new();
    update(&mut store, &[("a", Some("bin")), ("b", Some("bin"))]);
    store.finish_start(&id("a"), TaskId(0), Ok(()), &mut cx);
    store.finish_start(&id("b"), TaskId(1), Ok(()), &mut cx);
    assert_eq!(store.running_servers().len(), 2);
    let goal = [("a", Some("other")), ("b", Some("bin"))];
    let plan = store.plan_update(&desired(&goal), &worktrees());
    assert_eq!(starts(&plan), vec!["a"]);
    assert_eq!(texts(&plan.servers_to_stop), vec!["a"]);
    assert!(plan.servers_to_remove.is_empty());
    update(&mut store, &goal);
    assert_eq!(store.status_for_server(&id("a")), Some(ContextServerStatus::Starting));
    assert_eq!(store.status_for_server(&id("b")), Some(ContextServerStatus::Running));
    let configuration = store.configuration_for_server(&id("a")).unwrap();
    assert_eq!(configuration.command.as_ref().unwrap().path, "other");
}

#[test]
fn stopped_servers_with_the_same_configuration_stay_stopped() {
    let mut store = empty_store();
    let mut cx = Context::new();
    update(&mut store, &[("a", Some("bin"))]);
    store.stop_server(&id("a"), &mut cx).unwrap();
    update(&mut store, &[("a", Some("bin"))]);
    assert_eq!(store.status_for_server(&id("a")), Some(ContextServerStatus::Stopped));
}

#[test]
fn servers_that_cannot_be_made_are_left_as_they_are() {
    let mut store = empty_store();
    update(&mut store, &[("a", Some("bin"))]);
    let goal = [("a", Some("$ZED_WORKTREE_ROOT/bin")), ("b", Some("$ZED_WORKTREE_ROOT/bin"))];
    let no_worktrees = WorktreeStore { worktrees: Vec::new() };
    let plan = store.plan_update(&desired(&goal), &no_worktrees);
    assert!(plan.servers_to_start.is_empty());
    assert!(plan.servers_to_stop.is_empty());
    assert!(plan.servers_to_remove.is_empty());
    assert_eq!(plan.failures.len(), 2);
    for failed in &plan.failures {
        assert_eq!(failed.error, StoreError::UnresolvedPlaceholder(failed.id.clone()));
    }
    let mut cx = Context::new();
    store.apply_plan(plan, &mut cx);
    assert!(cx.take_effects().is_empty());
    assert_eq!(texts(&store.all_server_ids()), vec!["a"]);
}

#[test]
fn an_update_comes_to_rest() {
    let mut store = empty_store();
    let goal = [("a", Some("bin")), ("b", Some("$ZED_WORKTREE_ROOT/bin")), ("c", None)];
    update(&mut store, &[("a", Some("old")), ("d", Some("bin"))]);
    update(&mut store, &goal);
    assert_eq!(texts(&store.all_server_ids()), vec!["a", "b"]);
    let plan = store.plan_update(&desired(&goal), &worktrees());
    assert!(plan.servers_to_start.is_empty());
    assert!(plan.servers_to_stop.is_empty());
    assert!(plan.servers_to_remove.is_empty());
    assert!(plan.failures.is_empty());
}

#[test]
fn a_plan_is_carried_out_step_by_step() {
    let mut store = empty_store();
    update(&mut store, &[("a", Some("old")), ("d", Some("bin"))]);
    let mut cx = Context::new();
    let mut plan = store.plan_update(&desired(&[("a", Some("bin"))]), &worktrees());
    assert!(store.apply_step(&mut plan, &mut cx));
    assert_eq!(store.status_for_server(&id("a")), Some(ContextServerStatus::Stopped));
    assert!(store.apply_step(&mut plan, &mut cx));
    assert!(store.get_server(&id("d")).is_none());
    assert!(store.apply_step(&mut plan, &mut cx));
    assert_eq!(store.status_for_server(&id("a")), Some(ContextServerStatus::Starting));
    assert!(!store.apply_step(&mut plan, &mut cx));
}

fn rename(_: ContextServerId, _: Arc<ContextServerConfiguration>) -> Arc<ContextServer> {
    Arc::new(ContextServer::custom(id("renamed"), 1))
}

#[test]
fn a_server_stands_under_its_own_identifier() {
    let mut cx = Context::new();
    let mut store = Store::test_maintain_server_loop(rename, &mut cx);
    update(&mut store, &[("a", Some("bin"))]);
    assert_eq!(texts(&store.all_server_ids()), vec!["renamed"]);
}

#[test]
fn with_a_factory_servers_without_command_fail_to_be_made() {
    let mut cx = Context::new();
    let store = Store::test_maintain_server_loop(rename, &mut cx);
    let plan = store.plan_update(&desired(&[("a", None)]), &worktrees());
    assert!(plan.servers_to_start.is_empty());
    assert_eq!(plan.failures.len(), 1);
    assert_eq!(plan.failures[0].error, StoreError::MissingCommand(id("a")));
}

fn launched_path(store: &Store, name: &str) -> String {
    match &store.get_server(&id(name)).unwrap().transport {
        ContextServerTransport::Stdio(launched) => launched.path.clone(),
        ContextServerTransport::Custom(_) => panic!("not launched by its command"),
    }
}

#[test]
fn a_global_server_is_launched_as_it_stands_beside_a_local_worktree() {
    let mut settings = settings(&[
        ("global", Some("$ZED_WORKTREE_ROOT/s")),
        ("project", Some("$ZED_WORKTREE_ROOT/s")),
    ]);
    settings.global_only.insert(Arc::from("global"), ());
    let location = worktrees().settings_location();
    let mut subject = DesiredServers::from_settings(&location, &settings);
    assert!(subject.add_descriptor(&Arc::from("extension")));
    subject.provide_command(&Arc::from("extension"), Some(command("$ZED_WORKTREE_ROOT/s")));
    assert_eq!(subject.source("global"), None);
    assert_eq!(subject.source("project"), Some(WorktreeId(1)));
    assert_eq!(subject.source("extension"), Some(WorktreeId(1)));

    let mut store = empty_store();
    let mut cx = Context::new();
    let plan = store.plan_update(&subject, &worktrees());
    assert!(plan.failures.is_empty());
    store.apply_plan(plan, &mut cx);
    assert_eq!(launched_path(&store, "global"), "$ZED_WORKTREE_ROOT/s");
    assert_eq!(launched_path(&store, "project"), "/project/s");
    assert_eq!(launched_path(&store, "extension"), "/project/s");
}

#[test]
fn a_global_server_needs_no_local_worktree() {
    let mut settings = settings(&[("global", Some("$ZED_WORKTREE_ROOT/s"))]);
    settings.global_only.insert(Arc::from("global"), ());
    let remote = WorktreeStore {
        worktrees: vec![Worktree { id: WorktreeId(1), visible: true, local_path: None }],
    };
    let subject = DesiredServers::from_settings(&remote.settings_location(), &settings);
    let plan = empty_store().plan_update(&subject, &remote);
    assert_eq!(starts(&plan), vec!["global"]);
    assert!(plan.failures.is_empty());
}

#[test]
fn a_second_update_rests_though_starts_ended() {
    let mut store = empty_store();
    let mut cx = Context::new();
    let goal = [("a", Some("bin")), ("b", Some("bin"))];
    update(&mut store, &goal);
    store.finish_start(&id("a"), TaskId(0), Ok(()), &mut cx);
    store.finish_start(&id("b"), TaskId(1), Err(Arc::from("broken")), &mut cx);
    cx.take_effects();
    let plan = store.plan_update(&desired(&goal), &worktrees());
    store.apply_plan(plan, &mut cx);
    assert!(cx.take_effects().is_empty());
    assert_eq!(store.status_for_server(&id("a")), Some(ContextServerStatus::Running));
    assert_eq!(
        store.status_for_server(&id("b")),
        Some(ContextServerStatus::Error(Arc::from("broken")))
    );
}

fn announcements(cx: &mut Context) -> Vec<(String, ContextServerStatus)> {
    let mut events = Vec::new();
    for effect in cx.take_effects() {
        if let Effect::Emit(Event::ServerStatusChanged { server_id, status }) = effect {
            events.push((server_id.0.to_string(), status));
        }
    }
    events
}

#[test]
fn an_update_announces_stops_before_starts() {
    let mut store = empty_store();
    let mut cx = Context::new();
    update(&mut store, &[("a", Some("old")), ("d", Some("bin")), ("e", Some("bin"))]);
    let goal = [("a", Some("bin")), ("b", Some("bin")), ("e", Some("bin"))];
    let plan = store.plan_update(&desired(&goal), &worktrees());
    store.apply_plan(plan, &mut cx);
    let events = announcements(&mut cx);
    assert_eq!(
        events[..2],
        [
            ("a".to_string(), ContextServerStatus::Stopped),
            ("d".to_string(), ContextServerStatus::Stopped),
        ]
    );
    let mut started: Vec<String> = events[2..].iter().map(|event| event.0.clone()).collect();
    started.sort();
    assert_eq!(started, vec!["a", "b"]);
    assert!(events[2..].iter().all(|event| event.1 == ContextServerStatus::Starting));
}

#[test]
fn the_last_announced_status_is_the_status() {
    let mut store = empty_store();
    let mut cx = Context::new();
    let goal = [("a", Some("bin")), ("b", Some("bin")), ("c", Some("bin"))];
    let plan = store.plan_update(&desired(&goal), &worktrees());
    store.apply_plan(plan, &mut cx);
    store.finish_start(&id("a"), TaskId(0), Ok(()), &mut cx);
    store.finish_start(&id("b"), TaskId(1), Err(Arc::from("broken")), &mut cx);
    store.stop_server(&id("b"), &mut cx).unwrap();
    store.remove_server(&id("c"), &mut cx).unwrap();
    store.finish_start(&id("c"), TaskId(2), Ok(()), &mut cx);
    let events = announcements(&mut cx);
    for name in ["a", "b"] {
        let last = events.iter().rev().find(|event| event.0 == name).unwrap();
        assert_eq!(store.status_for_server(&id(name)), Some(last.1.clone()));
    }
    let last = events.iter().rev().find(|event| event.0 == "c").unwrap();
    assert_eq!(last.1, ContextServerStatus::Stopped);
    assert_eq!(store.status_for_server(&id("c")), None);
}

#[test]
fn gathering_takes_the_first_command_that_is_given() {
    let mut subject = desired(&[("a", Some("bin")), ("b", None), ("c", None)]);
    let offers = [
        ("a", Some("extension")),
        ("b", None),
        ("d", Some("first")),
        ("b", Some("first")),
        ("b", Some("second")),
        ("d", Some("second")),
        ("e", None),
    ];
    let mut asked = Vec::new();
    for (name, reply) in offers {
        if subject.add_descriptor(&Arc::from(name)) {
            asked.push(name);
            subject.provide_command(&Arc::from(name), reply.map(command));
        }
    }
    assert_eq!(asked, vec!["b", "d", "b", "e"]);
    let path = |name: &str| {
        subject.servers.get(name).unwrap().command.as_ref().map(|command| command.path.clone())
    };
    assert_eq!(path("a"), Some("bin".to_string()));
    assert_eq!(path("b"), Some("first".to_string()));
    assert_eq!(path("c"), None);
    assert_eq!(path("d"), Some("first".to_string()));
    assert_eq!(path("e"), None);
    assert_eq!(subject.servers.len(), 5);
    assert_eq!(subject.servers.get("b").unwrap().settings, Some("\"b\"".to_string()));
    assert_eq!(subject.servers.get("d").unwrap().settings, None);
    assert_eq!(subject.source("d"), Some(WorktreeId(1)));
}
