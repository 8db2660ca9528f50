//! What each operation of the store comes to, told by the states of the servers before and
//! after it and by what it asks of the host.

use crate::command_laws::{
    command_is_open, is_filled, lemma_command_is_open, lemma_is_filled, lemma_same_command,
    lemma_same_configuration, lemma_stays_open, same_command, same_configuration, stays_open,
};
use crate::context_server::{
    ContextServer, ContextServerCommand, ContextServerConfiguration, ContextServerId,
    ContextServerTransport,
};
use crate::placeholder::{
    law_substitution_is_complete, law_substitution_needs_a_placeholder, PLACEHOLDER,
};
use crate::project::{
    first_visible, local_root, ProjectSettings, SettingsLocation, Worktree, WorktreeId,
    WorktreeStore,
};
use crate::state::{
    Context, ContextServerState, ContextServerStatus, Effect, Event, StoreError, TaskId,
};
use crate::store::{
    launch, ContextServerStore, Launch, PendingRestart, Stop, StoreView, Subscription,
};
use crate::text::fences;
use std::sync::Arc;
use vstd::prelude::*;

verus! {

/// The announcement of a status.
pub open spec fn said(server_id: ContextServerId, status: ContextServerStatus) -> Effect {
    Effect::Emit(Event::ServerStatusChanged { server_id, status })
}

/// The server that a state is of.
pub open spec fn server_of(state: ContextServerState) -> Arc<ContextServer> {
    match state {
        ContextServerState::Starting { server, .. } => server,
        ContextServerState::Running { server, .. } => server,
        ContextServerState::Stopped { server, .. } => server,
    }
}

/// The configuration that the server of a state was run with.
pub open spec fn configuration_of(state: ContextServerState) -> Arc<ContextServerConfiguration> {
    match state {
        ContextServerState::Starting { configuration, .. } => configuration,
        ContextServerState::Running { configuration, .. } => configuration,
        ContextServerState::Stopped { configuration, .. } => configuration,
    }
}

/// Apart from the servers and the next task number, the two stores are the same.
pub open spec fn only_servers_differ<F>(before: StoreView<F>, after: StoreView<F>) -> bool {
    &&& after.factory == before.factory
    &&& after.update_servers_task == before.update_servers_task
    &&& after.needs_server_update == before.needs_server_update
    &&& after.subscriptions == before.subscriptions
}

/// In every store, each server stands under its own identifier, an update that is owed
/// follows one that is under way, and the next task gets a number that no other task has.
pub proof fn law_every_store<
    F: Fn(ContextServerId, Arc<ContextServerConfiguration>) -> Arc<ContextServer>,
>(store: StoreView<F>)
    requires
        store.wf(),
    ensures
        forall|key: Seq<char>| #[trigger]
            store.servers.contains_key(key) ==> {
                &&& (*server_of(store.servers[key]).id.0)@ == key
                &&& store.servers[key] matches ContextServerState::Starting { task, .. } ==> task.0
                    != store.next_task
            },
        store.needs_server_update ==> store.update_servers_task is Some,
        store.update_servers_task matches Some(task) ==> task.0 != store.next_task,
{
    assert forall|key: Seq<char>| #[trigger] store.servers.contains_key(key) implies {
        &&& (*server_of(store.servers[key]).id.0)@ == key
        &&& store.servers[key] matches ContextServerState::Starting { task, .. } ==> task.0
            != store.next_task
    } by {
        assert(!store.awaits(key, TaskId(store.next_task)));
    }
}

/// A new store has no servers. It follows the settings and the registry, and has asked for
/// its first update, which it records as under way.
pub proof fn law_new_store<
    F: Fn(ContextServerId, Arc<ContextServerConfiguration>) -> Arc<ContextServer>,
>(cx: &mut Context, store: ContextServerStore<F>)
    requires
        call_ensures(ContextServerStore::<F>::new, (cx,), store),
    ensures
        store@.wf(),
        forall|key: Seq<char>| !#[trigger] store@.servers.contains_key(key),
        store@.factory is None,
        !store@.needs_server_update,
        store@.subscriptions == seq![Subscription::Registry, Subscription::Settings],
        store@.update_servers_task matches Some(task) && final(cx)@ == old(cx)@.push(
            Effect::MaintainServers(task),
        ),
{
}

/// A store that does not follow the settings has no servers, observes nothing and asks
/// nothing.
pub proof fn law_test_store<
    F: Fn(ContextServerId, Arc<ContextServerConfiguration>) -> Arc<ContextServer>,
>(cx: &mut Context, store: ContextServerStore<F>)
    requires
        call_ensures(ContextServerStore::<F>::test, (cx,), store),
    ensures
        store@.wf(),
        forall|key: Seq<char>| !#[trigger] store@.servers.contains_key(key),
        store@.factory is None,
        store@.update_servers_task is None,
        !store@.needs_server_update,
        store@.subscriptions.len() == 0,
        final(cx)@ == old(cx)@,
{
}

/// A store with a factory is like a new one, and has the factory that it was given.
pub proof fn law_factory_store<
    F: Fn(ContextServerId, Arc<ContextServerConfiguration>) -> Arc<ContextServer>,
>(factory: F, cx: &mut Context, store: ContextServerStore<F>)
    requires
        call_ensures(ContextServerStore::<F>::test_maintain_server_loop, (factory, cx), store),
    ensures
        store@.wf(),
        forall|key: Seq<char>| !#[trigger] store@.servers.contains_key(key),
        store@.factory == Some(factory),
        !store@.needs_server_update,
        store@.subscriptions == seq![Subscription::Registry, Subscription::Settings],
        store@.update_servers_task matches Some(task) && final(cx)@ == old(cx)@.push(
            Effect::MaintainServers(task),
        ),
{
}

/// Where no update is under way, to hear of a change asks the host for exactly one update,
/// whatever servers there are, under a new task, which the store then records. Where one is
/// under way, nothing is asked, and another update is owed. The servers stay as they are.
pub proof fn law_hearing_of_a_change<
    F: Fn(ContextServerId, Arc<ContextServerConfiguration>) -> Arc<ContextServer>,
>(store: &mut ContextServerStore<F>, cx: &mut Context)
    requires
        call_ensures(
            ContextServerStore::<F>::available_context_servers_changed,
            (store, cx),
            (),
        ),
    ensures
        final(store)@.wf(),
        final(store)@.servers == old(store)@.servers,
        final(store)@.factory == old(store)@.factory,
        final(store)@.subscriptions == old(store)@.subscriptions,
        match old(store)@.update_servers_task {
            None => {
                let task = TaskId(old(store)@.next_task);
                &&& final(store)@.update_servers_task == Some(task)
                &&& final(cx)@ == old(cx)@.push(Effect::MaintainServers(task))
                &&& !final(store)@.needs_server_update
            },
            Some(task) => {
                &&& final(store)@.update_servers_task == Some(task)
                &&& final(store)@.needs_server_update
                &&& final(cx)@ == old(cx)@
            },
        },
{
}

/// The end of an update begins another exactly if one is owed; then the host is asked for
/// exactly one, under a new task, which the store then records. The servers stay as they are.
pub proof fn law_end_of_an_update<
    F: Fn(ContextServerId, Arc<ContextServerConfiguration>) -> Arc<ContextServer>,
>(store: &mut ContextServerStore<F>, cx: &mut Context)
    requires
        call_ensures(ContextServerStore::<F>::finish_update, (store, cx), ()),
    ensures
        final(store)@.wf(),
        final(store)@.servers == old(store)@.servers,
        final(store)@.factory == old(store)@.factory,
        final(store)@.subscriptions == old(store)@.subscriptions,
        !final(store)@.needs_server_update,
        if old(store)@.needs_server_update {
            let task = TaskId(old(store)@.next_task);
            &&& final(store)@.update_servers_task == Some(task)
            &&& final(cx)@ == old(cx)@.push(Effect::MaintainServers(task))
        } else {
            final(store)@.update_servers_task is None && final(cx)@ == old(cx)@
        },
{
    assert(old(cx)@ + Seq::<Effect>::empty() =~= old(cx)@);
}

/// A change that is heard of while an update is under way is followed: whenever that update
/// ends, the host is asked for another.
pub proof fn law_changes_are_followed<
    F: Fn(ContextServerId, Arc<ContextServerConfiguration>) -> Arc<ContextServer>,
>(
    heard: &mut ContextServerStore<F>,
    ended: &mut ContextServerStore<F>,
    cx: &mut Context,
    cx_ended: &mut Context,
)
    requires
        call_ensures(
            ContextServerStore::<F>::available_context_servers_changed,
            (heard, cx),
            (),
        ),
        call_ensures(ContextServerStore::<F>::finish_update, (ended, cx_ended), ()),
        old(heard)@.update_servers_task is Some,
        old(ended)@ == final(heard)@,
    ensures
        final(ended)@.update_servers_task matches Some(task) && final(cx_ended)@ == old(
            cx_ended,
        )@.push(Effect::MaintainServers(task)),
{
}

/// What is told of a server: the server itself while the store knows it, as running only
/// while it runs, its configuration, and the status that goes with its state.
pub proof fn law_lookups<
    F: Fn(ContextServerId, Arc<ContextServerConfiguration>) -> Arc<ContextServer>,
>(
    store: ContextServerStore<F>,
    id: ContextServerId,
    server: Option<Arc<ContextServer>>,
    running: Option<Arc<ContextServer>>,
    status: Option<ContextServerStatus>,
    configuration: Option<Arc<ContextServerConfiguration>>,
)
    requires
        call_ensures(ContextServerStore::<F>::get_server, (&store, &id), server),
        call_ensures(ContextServerStore::<F>::get_running_server, (&store, &id), running),
        call_ensures(ContextServerStore::<F>::status_for_server, (&store, &id), status),
        call_ensures(ContextServerStore::<F>::configuration_for_server, (&store, &id), configuration),
    ensures
        ({
            let key = (*id.0)@;
            if store@.servers.contains_key(key) {
                match store@.servers[key] {
                    ContextServerState::Starting { server: s, configuration: c, .. } => {
                        &&& server == Some(s)
                        &&& running is None
                        &&& configuration == Some(c)
                        &&& status == Some(ContextServerStatus::Starting)
                    },
                    ContextServerState::Running { server: s, configuration: c } => {
                        &&& server == Some(s)
                        &&& running == Some(s)
                        &&& configuration == Some(c)
                        &&& status == Some(ContextServerStatus::Running)
                    },
                    ContextServerState::Stopped { server: s, configuration: c, error } => {
                        &&& server == Some(s)
                        &&& running is None
                        &&& configuration == Some(c)
                        &&& status == (match error {
                            Some(error) => Some(ContextServerStatus::Error(error)),
                            None => Some(ContextServerStatus::Stopped),
                        })
                    },
                }
            } else {
                server is None && running is None && status is None && configuration is None
            }
        }),
{
}

/// The lists of servers: the identifier of each server once, and each running server once.
pub proof fn law_lists<
    F: Fn(ContextServerId, Arc<ContextServerConfiguration>) -> Arc<ContextServer>,
>(
    store: ContextServerStore<F>,
    ids: Vec<ContextServerId>,
    running: Vec<Arc<ContextServer>>,
    key: Seq<char>,
)
    requires
        store@.wf(),
        call_ensures(ContextServerStore::<F>::all_server_ids, (&store,), ids),
        call_ensures(ContextServerStore::<F>::running_servers, (&store,), running),
    ensures
        store@.servers.contains_key(key) <==> exists|i: int|
            0 <= i < ids@.len() && (*(#[trigger] ids@[i]).0)@ == key,
        forall|i: int, j: int|
            0 <= i < j < ids@.len() ==> (*(#[trigger] ids@[i]).0)@ != (*(#[trigger] ids@[j]).0)@,
        store@.servers.contains_key(key) && store@.servers[key] is Running ==> exists|i: int|
            0 <= i < running@.len() && #[trigger] running@[i] == server_of(store@.servers[key]),
        forall|i: int|
            0 <= i < running@.len() ==> {
                let own = (*(#[trigger] running@[i]).id.0)@;
                &&& store@.servers.contains_key(own)
                &&& store@.servers[own] is Running
                &&& server_of(store@.servers[own]) == running@[i]
            },
        forall|i: int, j: int|
            0 <= i < j < running@.len() ==> (*(#[trigger] running@[i]).id.0)@ != (*(
            #[trigger] running@[j]).id.0)@,
{
    let texts = ids@.map_values(|id: ContextServerId| id@);
    assert(texts.to_set().contains(key) <==> store@.servers.dom().contains(key));
    if store@.servers.contains_key(key) {
        let i = choose|i: int| 0 <= i < texts.len() && texts[i] == key;
        assert((*ids@[i].0)@ == key);
    }
    if exists|i: int| 0 <= i < ids@.len() && (*(#[trigger] ids@[i]).0)@ == key {
        let i = choose|i: int| 0 <= i < ids@.len() && (*(#[trigger] ids@[i]).0)@ == key;
        assert(texts[i] == key);
        assert(texts.contains(key));
    }
    assert forall|i: int, j: int| 0 <= i < j < ids@.len() implies (*(#[trigger] ids@[i]).0)@ != (*(
    #[trigger] ids@[j]).0)@ by {
        assert(texts[i] != texts[j]);
    }
    if store@.servers.contains_key(key) && store@.servers[key] is Running {
        assert(store@.is_running(key));
        let i = choose|i: int|
            0 <= i < running@.len() && running@[i] == store@.servers[key].spec_server();
        assert(running@[i] == server_of(store@.servers[key]));
    }
}

/// To stop a server that the store knows, whatever its state, leaves it known as stopped,
/// with the server and the configuration that it had. A start that is under way is dropped; a
/// server that runs, and no other, is to be stopped by the host. A server that the store does
/// not know is refused. All else stays as it is.
pub proof fn law_stopping<
    F: Fn(ContextServerId, Arc<ContextServerConfiguration>) -> Arc<ContextServer>,
>(
    store: &mut ContextServerStore<F>,
    id: ContextServerId,
    cx: &mut Context,
    result: Result<Stop, StoreError>,
)
    requires
        call_ensures(ContextServerStore::<F>::stop_server, (store, &id, cx), result),
    ensures
        final(store)@.wf(),
        only_servers_differ(old(store)@, final(store)@),
        final(store)@.next_task == old(store)@.next_task,
        ({
            let key = (*id.0)@;
            let servers = old(store)@.servers;
            let stopped = said(id, ContextServerStatus::Stopped);
            if servers.contains_key(key) {
                match servers[key] {
                    ContextServerState::Starting { server, configuration, task } => {
                        &&& final(store)@.servers == servers.insert(
                            key,
                            ContextServerState::Stopped { server, configuration, error: None },
                        )
                        &&& final(cx)@ == old(cx)@ + seq![Effect::DropTask(task), stopped]
                        &&& result == Ok::<Stop, StoreError>(Stop::Done)
                    },
                    ContextServerState::Running { server, configuration } => {
                        &&& final(store)@.servers == servers.insert(
                            key,
                            ContextServerState::Stopped { server, configuration, error: None },
                        )
                        &&& final(cx)@ == old(cx)@ + seq![Effect::StopServer(server), stopped]
                        &&& result == Ok::<Stop, StoreError>(Stop::Requested(server))
                    },
                    ContextServerState::Stopped { server, configuration, .. } => {
                        &&& final(store)@.servers == servers.insert(
                            key,
                            ContextServerState::Stopped { server, configuration, error: None },
                        )
                        &&& final(cx)@ == old(cx)@ + seq![stopped]
                        &&& result == Ok::<Stop, StoreError>(Stop::Done)
                    },
                }
            } else {
                &&& final(store)@.servers == servers
                &&& final(cx)@ == old(cx)@
                &&& result == Err::<Stop, StoreError>(StoreError::ServerNotFound)
            }
        }),
{
    let effects = final(cx)@;
    let key = (*id.0)@;
    if old(store)@.servers.contains_key(key) {
        let stopped = said(id, ContextServerStatus::Stopped);
        match old(store)@.servers[key] {
            ContextServerState::Starting { task, .. } => {
                assert(effects =~= old(cx)@ + seq![Effect::DropTask(task), stopped]);
            },
            ContextServerState::Running { server, .. } => {
                assert(effects =~= old(cx)@ + seq![Effect::StopServer(server), stopped]);
            },
            ContextServerState::Stopped { .. } => {
                assert(effects =~= old(cx)@ + seq![stopped]);
            },
        }
    } else {
        assert(effects =~= old(cx)@);
    }
}

/// A request to stop a server fails exactly if the host had to stop it and could not, and
/// then for the host's reason.
pub proof fn law_result_of_stopping(
    stop: Stop,
    outcome: Result<(), Arc<str>>,
    result: Result<(), StoreError>,
)
    requires
        call_ensures(Stop::finish, (stop, outcome), result),
    ensures
        result is Err <==> stop is Requested && outcome is Err,
        result matches Err(error) ==> outcome matches Err(reason) && error
            == StoreError::StopFailed(reason),
{
}

/// To remove a server takes it out of the store and no other, and announces that it is
/// stopped. A start that is under way is dropped; nothing else is asked of the host. A server
/// that the store does not know is refused.
pub proof fn law_removing<
    F: Fn(ContextServerId, Arc<ContextServerConfiguration>) -> Arc<ContextServer>,
>(
    store: &mut ContextServerStore<F>,
    id: ContextServerId,
    cx: &mut Context,
    result: Result<(), StoreError>,
)
    requires
        call_ensures(ContextServerStore::<F>::remove_server, (store, &id, cx), result),
    ensures
        final(store)@.wf(),
        only_servers_differ(old(store)@, final(store)@),
        final(store)@.next_task == old(store)@.next_task,
        final(store)@.servers == old(store)@.servers.remove((*id.0)@),
        ({
            let key = (*id.0)@;
            let servers = old(store)@.servers;
            let stopped = said(id, ContextServerStatus::Stopped);
            if servers.contains_key(key) {
                &&& result == Ok::<(), StoreError>(())
                &&& final(cx)@ == (match servers[key] {
                    ContextServerState::Starting { task, .. } => old(cx)@ + seq![
                        Effect::DropTask(task),
                        stopped,
                    ],
                    _ => old(cx)@ + seq![stopped],
                })
            } else {
                &&& result == Err::<(), StoreError>(StoreError::ServerNotFound)
                &&& final(cx)@ == old(cx)@
            }
        }),
{
    let key = (*id.0)@;
    let stopped = said(id, ContextServerStatus::Stopped);
    if old(store)@.servers.contains_key(key) {
        match old(store)@.servers[key] {
            ContextServerState::Starting { task, .. } => {
                assert(final(cx)@ =~= old(cx)@ + seq![Effect::DropTask(task), stopped]);
            },
            _ => {
                assert(final(cx)@ =~= old(cx)@ + seq![stopped]);
            },
        }
    } else {
        assert(final(cx)@ =~= old(cx)@);
    }
}

/// What is asked of the host so that another server can be run under `id`: a start that is
/// under way is dropped, a server that runs is stopped, and either is announced.
pub open spec fn making_way(
    servers: Map<Seq<char>, ContextServerState>,
    id: ContextServerId,
) -> Seq<Effect> {
    if servers.contains_key((*id.0)@) {
        match servers[(*id.0)@] {
            ContextServerState::Starting { task, .. } => seq![
                Effect::DropTask(task),
                said(id, ContextServerStatus::Stopped),
            ],
            ContextServerState::Running { server, .. } => seq![
                Effect::StopServer(server),
                said(id, ContextServerStatus::Stopped),
            ],
            ContextServerState::Stopped { .. } => Seq::empty(),
        }
    } else {
        Seq::empty()
    }
}

/// `server` was put into the store as starting, with `configuration`, and the host was asked
/// for just that start, after way was made for it.
pub open spec fn begins<F>(
    before: StoreView<F>,
    after: StoreView<F>,
    asked_before: Seq<Effect>,
    asked_after: Seq<Effect>,
    server: Arc<ContextServer>,
    configuration: Arc<ContextServerConfiguration>,
) -> bool {
    let task = TaskId(before.next_task);
    &&& only_servers_differ(before, after)
    &&& after.servers == before.servers.insert(
        (*server.id.0)@,
        ContextServerState::Starting { server, configuration, task },
    )
    &&& asked_after == asked_before + making_way(before.servers, server.id) + seq![
        Effect::StartServer { task, server, configuration },
        said(server.id, ContextServerStatus::Starting),
    ]
}

pub(crate) proof fn lemma_begins<F>(
    before: StoreView<F>,
    asked: Seq<Effect>,
    server: Arc<ContextServer>,
    configuration: Arc<ContextServerConfiguration>,
)
    ensures
        begins(
            before,
            before.run(server, configuration),
            asked,
            asked + before.run_effects(server, configuration),
            server,
            configuration,
        ),
{
    let after = before.run(server, configuration);
    let task = TaskId(before.next_task);
    assert(after.servers =~= before.servers.insert(
        server.id@,
        ContextServerState::Starting { server, configuration, task },
    ));
    assert(asked + before.run_effects(server, configuration) =~= asked + making_way(
        before.servers,
        server.id,
    ) + seq![
        Effect::StartServer { task, server, configuration },
        said(server.id, ContextServerStatus::Starting),
    ]);
}

/// To run a server puts it into the store as starting, in place of what was there, and asks
/// the host for exactly one start: of the server and the configuration that were handed in,
/// under the task that the store then waits for. What ran is stopped first, what was starting
/// is dropped, and nothing else is asked.
pub proof fn law_running<
    F: Fn(ContextServerId, Arc<ContextServerConfiguration>) -> Arc<ContextServer>,
>(
    store: &mut ContextServerStore<F>,
    server: Arc<ContextServer>,
    configuration: Arc<ContextServerConfiguration>,
    cx: &mut Context,
)
    requires
        call_ensures(
            ContextServerStore::<F>::run_server,
            (store, server, configuration, cx),
            (),
        ),
    ensures
        final(store)@.wf(),
        begins(old(store)@, final(store)@, old(cx)@, final(cx)@, server, configuration),
{
    lemma_begins(old(store)@, old(cx)@, server, configuration);
}

/// A server is started with the configuration that the settings have for it, the same in
/// every field; without one, nothing happens.
pub proof fn law_starting_by_the_settings<
    F: Fn(ContextServerId, Arc<ContextServerConfiguration>) -> Arc<ContextServer>,
>(
    store: &mut ContextServerStore<F>,
    server: Arc<ContextServer>,
    settings: ProjectSettings,
    cx: &mut Context,
    result: Result<(), StoreError>,
)
    requires
        call_ensures(
            ContextServerStore::<F>::start_server,
            (store, server, &settings, cx),
            result,
        ),
    ensures
        final(store)@.wf(),
        if settings.context_servers@.contains_key((*server.id.0)@) {
            &&& result is Ok
            &&& exists|configuration: Arc<ContextServerConfiguration>|
                {
                    &&& same_configuration(
                        *configuration,
                        settings.context_servers@[(*server.id.0)@],
                    )
                    &&& #[trigger] begins(
                        old(store)@,
                        final(store)@,
                        old(cx)@,
                        final(cx)@,
                        server,
                        configuration,
                    )
                }
        } else {
            &&& result == Err::<(), StoreError>(StoreError::ConfigurationNotFound)
            &&& final(store)@ == old(store)@
            &&& final(cx)@ == old(cx)@
        },
{
    if result is Ok {
        let key = server.id@;
        let configuration = choose|configuration: Arc<ContextServerConfiguration>|
            {
                &&& configuration@ == settings.context_servers@[key]@
                &&& final(store)@ == #[trigger] old(store)@.run(server, configuration)
                &&& final(cx)@ == old(cx)@ + old(store)@.run_effects(server, configuration)
            };
        let own = *configuration;
        lemma_same_configuration(own, settings.context_servers@[key]);
        lemma_begins(old(store)@, old(cx)@, server, configuration);
        assert(begins(old(store)@, final(store)@, old(cx)@, final(cx)@, server, configuration));
    }
}

/// The report of a start that the store waits for makes the server running, or stopped with
/// the error; its server and configuration stay, and the new status is announced. Any other
/// report changes nothing.
pub proof fn law_reports_of_starts<
    F: Fn(ContextServerId, Arc<ContextServerConfiguration>) -> Arc<ContextServer>,
>(
    store: &mut ContextServerStore<F>,
    id: ContextServerId,
    task: TaskId,
    outcome: Result<(), Arc<str>>,
    cx: &mut Context,
)
    requires
        old(store)@.wf(),
        call_ensures(
            ContextServerStore::<F>::finish_start,
            (store, &id, task, outcome, cx),
            (),
        ),
    ensures
        final(store)@.wf(),
        only_servers_differ(old(store)@, final(store)@),
        final(store)@.next_task == old(store)@.next_task,
        ({
            let key = (*id.0)@;
            let servers = old(store)@.servers;
            if servers.contains_key(key) && servers[key] is Starting && servers[key]->task == task {
                let server = servers[key]->Starting_server;
                let configuration = servers[key]->Starting_configuration;
                match outcome {
                    Ok(()) => {
                        &&& final(store)@.servers == servers.insert(
                            key,
                            ContextServerState::Running { server, configuration },
                        )
                        &&& final(cx)@ == old(cx)@ + seq![
                            Effect::DropTask(task),
                            said(server.id, ContextServerStatus::Running),
                        ]
                    },
                    Err(error) => {
                        &&& final(store)@.servers == servers.insert(
                            key,
                            ContextServerState::Stopped {
                                server,
                                configuration,
                                error: Some(error),
                            },
                        )
                        &&& final(cx)@ == old(cx)@ + seq![
                            Effect::DropTask(task),
                            said(server.id, ContextServerStatus::Error(error)),
                        ]
                    },
                }
            } else {
                final(store)@.servers == servers && final(cx)@ == old(cx)@
            }
        }),
{
    let key = (*id.0)@;
    let servers = old(store)@.servers;
    if servers.contains_key(key) && servers[key] is Starting && servers[key]->task == task {
        let server = servers[key]->Starting_server;
        law_every_store(old(store)@);
        assert(old(store)@.awaits(key, task));
        assert(server_of(servers[key]) == server);
        match outcome {
            Ok(()) => {
                assert(final(cx)@ =~= old(cx)@ + seq![
                    Effect::DropTask(task),
                    said(server.id, ContextServerStatus::Running),
                ]);
            },
            Err(error) => {
                assert(final(cx)@ =~= old(cx)@ + seq![
                    Effect::DropTask(task),
                    said(server.id, ContextServerStatus::Error(error)),
                ]);
            },
        }
    } else {
        assert(final(cx)@ =~= old(cx)@);
    }
}

/// To restart a server begins by stopping it, as any stop does. What is kept for the second
/// half is its configuration. For a server that the store does not know, nothing happens.
pub proof fn law_restarting<
    F: Fn(ContextServerId, Arc<ContextServerConfiguration>) -> Arc<ContextServer>,
>(
    store: &mut ContextServerStore<F>,
    id: ContextServerId,
    cx: &mut Context,
    restart: Option<PendingRestart>,
)
    requires
        old(store)@.wf(),
        call_ensures(ContextServerStore::<F>::restart_server, (store, &id, cx), restart),
    ensures
        final(store)@.wf(),
        only_servers_differ(old(store)@, final(store)@),
        ({
            let key = (*id.0)@;
            let servers = old(store)@.servers;
            if servers.contains_key(key) {
                let server = server_of(servers[key]);
                let configuration = configuration_of(servers[key]);
                let stopped = said(server.id, ContextServerStatus::Stopped);
                &&& restart matches Some(restart) && restart.id == id && restart.configuration
                    == configuration && restart.stop == (if servers[key] is Running {
                    Stop::Requested(server)
                } else {
                    Stop::Done
                })
                &&& final(store)@.servers == servers.insert(
                    key,
                    ContextServerState::Stopped { server, configuration, error: None },
                )
                &&& final(cx)@ == (match servers[key] {
                    ContextServerState::Starting { task, .. } => old(cx)@ + seq![
                        Effect::DropTask(task),
                        stopped,
                    ],
                    ContextServerState::Running { server, .. } => old(cx)@ + seq![
                        Effect::StopServer(server),
                        stopped,
                    ],
                    ContextServerState::Stopped { .. } => old(cx)@ + seq![stopped],
                })
            } else {
                restart is None && final(store)@ == old(store)@ && final(cx)@ == old(cx)@
            }
        }),
{
    law_every_store(old(store)@);
    let key = (*id.0)@;
    if old(store)@.servers.contains_key(key) {
        let server = server_of(old(store)@.servers[key]);
        let server_id = server.id;
        let stopped = said(server_id, ContextServerStatus::Stopped);
        match old(store)@.servers[key] {
            ContextServerState::Starting { task, .. } => {
                assert(final(cx)@ =~= old(cx)@ + seq![Effect::DropTask(task), stopped]);
            },
            ContextServerState::Running { server, .. } => {
                assert(final(cx)@ =~= old(cx)@ + seq![Effect::StopServer(server), stopped]);
            },
            ContextServerState::Stopped { .. } => {
                assert(final(cx)@ =~= old(cx)@ + seq![stopped]);
            },
        }
    }
}

/// The second half of a restart runs a server made from the kept configuration, with that
/// configuration. Without a factory the server is launched by the command of the
/// configuration, unchanged. It fails exactly if the host could not stop the server or there
/// is no command, and then nothing happens.
pub proof fn law_finishing_a_restart<
    F: Fn(ContextServerId, Arc<ContextServerConfiguration>) -> Arc<ContextServer>,
>(
    store: &mut ContextServerStore<F>,
    restart: PendingRestart,
    outcome: Result<(), Arc<str>>,
    cx: &mut Context,
    result: Result<(), StoreError>,
)
    requires
        call_ensures(
            ContextServerStore::<F>::finish_restart,
            (store, restart, outcome, cx),
            result,
        ),
    ensures
        final(store)@.wf(),
        match (restart.stop, outcome, restart.configuration.command) {
            (Stop::Requested(_), Err(reason), _) => {
                &&& result == Err::<(), StoreError>(StoreError::StopFailed(reason))
                &&& final(store)@ == old(store)@
                &&& final(cx)@ == old(cx)@
            },
            (_, _, None) => {
                &&& result == Err::<(), StoreError>(StoreError::MissingCommand(restart.id))
                &&& final(store)@ == old(store)@
                &&& final(cx)@ == old(cx)@
            },
            (_, _, Some(command)) => {
                &&& result is Ok
                &&& exists|server: Arc<ContextServer>|
                    {
                        &&& #[trigger] begins(
                            old(store)@,
                            final(store)@,
                            old(cx)@,
                            final(cx)@,
                            server,
                            restart.configuration,
                        )
                        &&& match old(store)@.factory {
                            Some(factory) => call_ensures(
                                factory,
                                (restart.id, restart.configuration),
                                server,
                            ),
                            None => {
                                &&& server.id == restart.id
                                &&& server.transport matches ContextServerTransport::Stdio(launched)
                                    && same_command(launched, command)
                            },
                        }
                    }
            },
        },
{
    if result is Ok {
        let command = restart.configuration.command->0;
        let server = choose|server: Arc<ContextServer>|
            {
                &&& old(store)@.makes(restart.id, restart.configuration, command@, server)
                &&& final(store)@ == #[trigger] old(store)@.run(server, restart.configuration)
                &&& final(cx)@ == old(cx)@ + old(store)@.run_effects(server, restart.configuration)
            };
        lemma_begins(old(store)@, old(cx)@, server, restart.configuration);
        assert(begins(
            old(store)@,
            final(store)@,
            old(cx)@,
            final(cx)@,
            server,
            restart.configuration,
        ));
        if old(store)@.factory is None {
            let transport = server.transport;
            let launched = transport->Stdio_0;
            lemma_same_command(launched, command);
        }
    }
}

/// A server that was stopped and is then restarted starts again with the configuration that
/// it had before the stop. Without a factory it is launched by the command that it had.
pub proof fn law_restart_after_a_stop<
    F: Fn(ContextServerId, Arc<ContextServerConfiguration>) -> Arc<ContextServer>,
>(
    stopping: &mut ContextServerStore<F>,
    restarting: &mut ContextServerStore<F>,
    finishing: &mut ContextServerStore<F>,
    id: ContextServerId,
    cx_stop: &mut Context,
    cx_restart: &mut Context,
    cx_finish: &mut Context,
    stop: Result<Stop, StoreError>,
    restart: Option<PendingRestart>,
    outcome: Result<(), Arc<str>>,
    result: Result<(), StoreError>,
)
    requires
        call_ensures(ContextServerStore::<F>::stop_server, (stopping, &id, cx_stop), stop),
        call_ensures(
            ContextServerStore::<F>::restart_server,
            (restarting, &id, cx_restart),
            restart,
        ),
        old(restarting)@ == final(stopping)@,
        restart is Some ==> call_ensures(
            ContextServerStore::<F>::finish_restart,
            (finishing, restart->0, outcome, cx_finish),
            result,
        ),
        old(finishing)@ == final(restarting)@,
        old(stopping)@.servers.contains_key((*id.0)@),
        old(stopping)@.factory is None,
        configuration_of(old(stopping)@.servers[(*id.0)@]).command is Some,
    ensures
        result is Ok,
        ({
            let key = (*id.0)@;
            let configuration = configuration_of(old(stopping)@.servers[key]);
            &&& final(finishing)@.servers.contains_key(key)
            &&& final(finishing)@.servers[key] is Starting
            &&& configuration_of(final(finishing)@.servers[key]) == configuration
            &&& server_of(final(finishing)@.servers[key]).transport
                matches ContextServerTransport::Stdio(launched) && same_command(
                launched,
                configuration.command->0,
            )
        }),
{
    let key = (*id.0)@;
    law_stopping(stopping, id, cx_stop, stop);
    law_restarting(restarting, id, cx_restart, restart);
    law_finishing_a_restart(finishing, restart->0, outcome, cx_finish, result);
}

/// The first of the worktrees with the number `id` stands at `i`.
pub open spec fn found_at(worktrees: Seq<Worktree>, id: WorktreeId, i: int) -> bool {
    &&& 0 <= i < worktrees.len()
    &&& worktrees[i].id == id
    &&& forall|j: int| 0 <= j < i ==> (#[trigger] worktrees[j]).id != id
}

pub(crate) proof fn lemma_local_root(worktrees: Seq<Worktree>, id: WorktreeId)
    ensures
        forall|i: int| #[trigger]
            found_at(worktrees, id, i) ==> local_root(worktrees, id) == (
            match worktrees[i].local_path {
                Some(path) => Some(path@),
                None => None,
            }),
        local_root(worktrees, id) is Some ==> exists|i: int| #[trigger]
            found_at(worktrees, id, i) && worktrees[i].local_path is Some,
    decreases worktrees.len(),
{
    if worktrees.len() > 0 {
        let rest = worktrees.skip(1);
        lemma_local_root(rest, id);
        if worktrees[0].id == id {
            assert(found_at(worktrees, id, 0));
        } else {
            assert forall|i: int| #[trigger] found_at(worktrees, id, i) implies local_root(
                worktrees,
                id,
            ) == (match worktrees[i].local_path {
                Some(path) => Some(path@),
                None => None,
            }) by {
                assert(rest[i - 1] == worktrees[i]);
                assert forall|j: int| 0 <= j < i - 1 implies (#[trigger] rest[j]).id != id by {
                    assert(rest[j] == worktrees[j + 1]);
                }
                assert(found_at(rest, id, i - 1));
            }
            if local_root(worktrees, id) is Some {
                let i = choose|i: int| #[trigger]
                    found_at(rest, id, i) && rest[i].local_path is Some;
                assert(worktrees[i + 1] == rest[i]);
                assert forall|j: int| 0 <= j < i + 1 implies (#[trigger] worktrees[j]).id != id by {
                    if j > 0 {
                        assert(rest[j - 1] == worktrees[j]);
                    }
                }
                assert(found_at(worktrees, id, i + 1));
            }
        }
    }
}

/// The path for a worktree is that of the first worktree with its number, if that one is
/// local; there is none where no worktree has the number.
pub proof fn law_local_paths(
    worktrees: WorktreeStore,
    id: WorktreeId,
    path: Option<&String>,
    i: int,
)
    requires
        call_ensures(WorktreeStore::local_path_for_id, (&worktrees, id), path),
    ensures
        found_at(worktrees.worktrees@, id, i) ==> match worktrees.worktrees@[i].local_path {
            Some(root) => path matches Some(path) && path@ == root@,
            None => path is None,
        },
        (forall|j: int|
            0 <= j < worktrees.worktrees@.len() ==> (#[trigger] worktrees.worktrees@[j]).id != id)
            ==> path is None,
{
    lemma_local_root(worktrees.worktrees@, id);
    if path is Some {
        let j = choose|j: int| #[trigger] found_at(worktrees.worktrees@, id, j);
        assert(worktrees.worktrees@[j].id == id);
    }
}

pub(crate) proof fn lemma_first_visible(worktrees: Seq<Worktree>)
    ensures
        match first_visible(worktrees) {
            Some(id) => exists|i: int|
                {
                    &&& 0 <= i < worktrees.len()
                    &&& (#[trigger] worktrees[i]).visible
                    &&& worktrees[i].id == id
                    &&& forall|j: int| 0 <= j < i ==> !(#[trigger] worktrees[j]).visible
                },
            None => forall|i: int|
                0 <= i < worktrees.len() ==> !(#[trigger] worktrees[i]).visible,
        },
    decreases worktrees.len(),
{
    if worktrees.len() > 0 && !worktrees[0].visible {
        let rest = worktrees.skip(1);
        lemma_first_visible(rest);
        match first_visible(worktrees) {
            Some(id) => {
                let i = choose|i: int|
                    {
                        &&& 0 <= i < rest.len()
                        &&& (#[trigger] rest[i]).visible
                        &&& rest[i].id == id
                        &&& forall|j: int| 0 <= j < i ==> !(#[trigger] rest[j]).visible
                    };
                assert(worktrees[i + 1] == rest[i]);
                assert forall|j: int| 0 <= j < i + 1 implies !(
                #[trigger] worktrees[j]).visible by {
                    if j > 0 {
                        assert(rest[j - 1] == worktrees[j]);
                    }
                }
            },
            None => {
                assert forall|i: int| 0 <= i < worktrees.len() implies !(
                #[trigger] worktrees[i]).visible by {
                    if i > 0 {
                        assert(rest[i - 1] == worktrees[i]);
                    }
                }
            },
        }
    } else if worktrees.len() > 0 {
        assert(worktrees[0].visible);
    }
}

/// Settings are looked up at the root of the first visible worktree, and globally exactly if
/// no worktree is visible.
pub proof fn law_settings_location(
    worktrees: WorktreeStore,
    location: Option<SettingsLocation>,
    first: Option<WorktreeId>,
)
    requires
        call_ensures(WorktreeStore::settings_location, (&worktrees,), location),
        call_ensures(WorktreeStore::first_visible_worktree, (&worktrees,), first),
    ensures
        match location {
            Some(location) => {
                &&& location.path@.len() == 0
                &&& first == Some(location.worktree_id)
                &&& exists|i: int|
                    {
                        &&& 0 <= i < worktrees.worktrees@.len()
                        &&& (#[trigger] worktrees.worktrees@[i]).visible
                        &&& worktrees.worktrees@[i].id == location.worktree_id
                        &&& forall|j: int|
                            0 <= j < i ==> !(#[trigger] worktrees.worktrees@[j]).visible
                    }
            },
            None => {
                &&& first is None
                &&& forall|i: int|
                    0 <= i < worktrees.worktrees@.len() ==> !(
                    #[trigger] worktrees.worktrees@[i]).visible
            },
        },
{
    lemma_first_visible(worktrees.worktrees@);
}

/// The configuration has a command that can be launched: one that is not open, or that
/// comes from the global settings, or that filling in the root of its local worktree closes.
pub open spec fn launchable(
    configuration: ContextServerConfiguration,
    worktrees: Seq<Worktree>,
    source: Option<WorktreeId>,
) -> bool {
    configuration.command matches Some(command) && {
        ||| source is None
        ||| !command_is_open(command)
        ||| exists|i: int| #[trigger]
            found_at(worktrees, source->0, i) && worktrees[i].local_path is Some && !stays_open(
                command,
                worktrees[i].local_path->0@,
            )
    }
}

/// `launched` is the command that the configuration launches: its own, the same in every
/// field, where it is global or not open; else its own with the root of its worktree filled
/// in.
pub open spec fn launches(
    configuration: ContextServerConfiguration,
    worktrees: Seq<Worktree>,
    source: Option<WorktreeId>,
    launched: ContextServerCommand,
) -> bool {
    configuration.command matches Some(command) && if source is None || !command_is_open(command) {
        same_command(launched, command)
    } else {
        &&& !command_is_open(launched)
        &&& exists|i: int| #[trigger]
            found_at(worktrees, source->0, i) && worktrees[i].local_path is Some && is_filled(
                command,
                launched,
                worktrees[i].local_path->0@,
            )
    }
}

/// `server` is made for `id`: by the factory from the configuration as it stands, or launched
/// by the command that the configuration launches.
pub open spec fn made<
    F: Fn(ContextServerId, Arc<ContextServerConfiguration>) -> Arc<ContextServer>,
>(
    factory: Option<F>,
    id: ContextServerId,
    configuration: Arc<ContextServerConfiguration>,
    worktrees: Seq<Worktree>,
    source: Option<WorktreeId>,
    server: Arc<ContextServer>,
) -> bool {
    match factory {
        Some(factory) => call_ensures(factory, (id, configuration), server),
        None => {
            &&& server.id == id
            &&& server.transport matches ContextServerTransport::Stdio(launched) && launches(
                *configuration,
                worktrees,
                source,
                launched,
            )
        },
    }
}

/// Why the configuration launches nothing.
pub open spec fn refusal(
    id: ContextServerId,
    configuration: ContextServerConfiguration,
) -> StoreError {
    match configuration.command {
        None => StoreError::MissingCommand(id),
        Some(_) => StoreError::UnresolvedPlaceholder(id),
    }
}

pub(crate) proof fn lemma_launchable(
    configuration: ContextServerConfiguration,
    worktrees: Seq<Worktree>,
    source: Option<WorktreeId>,
)
    ensures
        launchable(configuration, worktrees, source) <==> launch(
            configuration@,
            worktrees,
            source,
        ) is Command,
        configuration.command is None <==> launch(configuration@, worktrees, source)
            is MissingCommand,
{
    if let Some(command) = configuration.command {
        lemma_command_is_open(command);
        if let Some(worktree) = source {
            lemma_local_root(worktrees, worktree);
            if launchable(configuration, worktrees, source) && command_is_open(command) {
                let i = choose|i: int| #[trigger]
                    found_at(worktrees, worktree, i) && worktrees[i].local_path is Some
                        && !stays_open(command, worktrees[i].local_path->0@);
                lemma_stays_open(command, worktrees[i].local_path->0@);
            }
            if launch(configuration@, worktrees, source) is Command && command_is_open(command) {
                let i = choose|i: int| #[trigger]
                    found_at(worktrees, worktree, i) && worktrees[i].local_path is Some;
                lemma_stays_open(command, worktrees[i].local_path->0@);
            }
        }
    }
}

pub(crate) proof fn lemma_made<
    F: Fn(ContextServerId, Arc<ContextServerConfiguration>) -> Arc<ContextServer>,
>(
    store: StoreView<F>,
    id: ContextServerId,
    configuration: Arc<ContextServerConfiguration>,
    worktrees: Seq<Worktree>,
    source: Option<WorktreeId>,
    server: Arc<ContextServer>,
)
    requires
        launch(configuration@, worktrees, source) matches Launch::Command(command) && store.makes(
            id,
            configuration,
            command,
            server,
        ),
    ensures
        made(store.factory, id, configuration, worktrees, source, server),
{
    if store.factory is None {
        let command = configuration.command->0;
        let transport = server.transport;
        let launched = transport->Stdio_0;
        lemma_command_is_open(command);
        lemma_command_is_open(launched);
        if source is None || !command_is_open(command) {
            lemma_same_command(launched, command);
        } else {
            lemma_local_root(worktrees, source->0);
            let i = choose|i: int| #[trigger]
                found_at(worktrees, source->0, i) && worktrees[i].local_path is Some;
            lemma_is_filled(command, launched, worktrees[i].local_path->0@);
        }
    }
}

/// A server is made exactly if the configuration has a command that can be launched, and is
/// then made for the identifier: by the factory, which gets the configuration as it stands,
/// or else launched by the command that the configuration launches.
pub proof fn law_making_servers<
    F: Fn(ContextServerId, Arc<ContextServerConfiguration>) -> Arc<ContextServer>,
>(
    store: ContextServerStore<F>,
    id: ContextServerId,
    configuration: Arc<ContextServerConfiguration>,
    worktrees: WorktreeStore,
    source: Option<WorktreeId>,
    result: Result<Arc<ContextServer>, StoreError>,
)
    requires
        call_ensures(
            ContextServerStore::<F>::create_context_server,
            (&store, id, configuration, &worktrees, source),
            result,
        ),
    ensures
        match result {
            Ok(server) => {
                &&& launchable(*configuration, worktrees.worktrees@, source)
                &&& made(
                    store@.factory,
                    id,
                    configuration,
                    worktrees.worktrees@,
                    source,
                    server,
                )
            },
            Err(error) => {
                &&& !launchable(*configuration, worktrees.worktrees@, source)
                &&& error == refusal(id, *configuration)
            },
        },
{
    let own = *configuration;
    lemma_launchable(own, worktrees.worktrees@, source);
    if let Ok(server) = result {
        lemma_made(store@, id, configuration, worktrees.worktrees@, source, server);
    }
}

/// The server of a configuration of a local worktree, whose root cannot take part in a
/// placeholder, is launched by the configured command: its path, its arguments in order and
/// exactly its variables, each text with the root filled in. Where the command is not open,
/// it is the configured command itself, the same in every field.
pub proof fn law_project_servers_run_their_own_command<
    F: Fn(ContextServerId, Arc<ContextServerConfiguration>) -> Arc<ContextServer>,
>(
    store: ContextServerStore<F>,
    id: ContextServerId,
    configuration: Arc<ContextServerConfiguration>,
    worktrees: WorktreeStore,
    source: WorktreeId,
    i: int,
    result: Result<Arc<ContextServer>, StoreError>,
)
    requires
        call_ensures(
            ContextServerStore::<F>::create_context_server,
            (&store, id, configuration, &worktrees, Some(source)),
            result,
        ),
        store@.factory is None,
        configuration.command is Some,
        found_at(worktrees.worktrees@, source, i),
        worktrees.worktrees@[i].local_path is Some,
        fences(worktrees.worktrees@[i].local_path->0@, "$ZED_WORKTREE_ROOT"@),
    ensures
        ({
            let command = configuration.command->0;
            let root = worktrees.worktrees@[i].local_path->0@;
            &&& result matches Ok(server)
            &&& server.id == id
            &&& server.transport matches ContextServerTransport::Stdio(launched)
            &&& is_filled(command, launched, root)
            &&& !command_is_open(launched)
            &&& !command_is_open(command) ==> same_command(launched, command)
        }),
{
    let command = configuration.command->0;
    let root = worktrees.worktrees@[i].local_path->0@;
    assert(PLACEHOLDER@ == "$ZED_WORKTREE_ROOT"@);
    law_making_servers(store, id, configuration, worktrees, Some(source), result);
    law_substitution_is_complete(command@, root);
    lemma_stays_open(command, root);
    lemma_local_root(worktrees.worktrees@, source);
    let server = result->Ok_0;
    let transport = server.transport;
    let launched = transport->Stdio_0;
    if command_is_open(command) {
        let j = choose|j: int| #[trigger]
            found_at(worktrees.worktrees@, source, j)
                && worktrees.worktrees@[j].local_path is Some && is_filled(
                command,
                launched,
                worktrees.worktrees@[j].local_path->0@,
            );
        assert(j == i) by {
            if j < i {
                assert(worktrees.worktrees@[j].id != source);
            } else if i < j {
                assert(worktrees.worktrees@[i].id != source);
            }
        }
    } else {
        lemma_same_command(launched, command);
        lemma_command_is_open(command);
        lemma_command_is_open(launched);
        law_substitution_needs_a_placeholder(command@, root);
        lemma_is_filled(command, launched, root);
    }
}

/// A server of a global configuration is launched by the configured command, the same in
/// every field, whatever worktrees there are.
pub proof fn law_global_servers_run_their_own_command<
    F: Fn(ContextServerId, Arc<ContextServerConfiguration>) -> Arc<ContextServer>,
>(
    store: ContextServerStore<F>,
    id: ContextServerId,
    configuration: Arc<ContextServerConfiguration>,
    worktrees: WorktreeStore,
    result: Result<Arc<ContextServer>, StoreError>,
)
    requires
        call_ensures(
            ContextServerStore::<F>::create_context_server,
            (&store, id, configuration, &worktrees, None),
            result,
        ),
        store@.factory is None,
        configuration.command is Some,
    ensures
        ({
            &&& result matches Ok(server)
            &&& server.id == id
            &&& server.transport matches ContextServerTransport::Stdio(launched)
            &&& same_command(launched, configuration.command->0)
        }),
{
    law_making_servers(store, id, configuration, worktrees, None, result);
}

/// Without a factory, a configuration is valid exactly if it has a command; with one, always.
pub proof fn law_valid_configurations<
    F: Fn(ContextServerId, Arc<ContextServerConfiguration>) -> Arc<ContextServer>,
>(store: ContextServerStore<F>, configuration: ContextServerConfiguration, valid: bool)
    requires
        call_ensures(
            ContextServerStore::<F>::is_configuration_valid,
            (&store, &configuration),
            valid,
        ),
    ensures
        valid <==> store@.factory is Some || configuration.command is Some,
{
}

/// A state tells its own server, configuration and status.
pub proof fn law_states(
    state: ContextServerState,
    server: Arc<ContextServer>,
    configuration: Arc<ContextServerConfiguration>,
    status: ContextServerStatus,
)
    requires
        call_ensures(ContextServerState::server, (&state,), server),
        call_ensures(ContextServerState::configuration, (&state,), configuration),
        call_ensures(ContextServerStatus::from_state, (&state,), status),
    ensures
        server == server_of(state),
        configuration == configuration_of(state),
        match state {
            ContextServerState::Starting { .. } => status == ContextServerStatus::Starting,
            ContextServerState::Running { .. } => status == ContextServerStatus::Running,
            ContextServerState::Stopped { error: None, .. } => status
                == ContextServerStatus::Stopped,
            ContextServerState::Stopped { error: Some(error), .. } => status
                == ContextServerStatus::Error(error),
        },
{
}

/// The host observes just what the store holds as its subscriptions.
pub proof fn law_subscriptions<
    F: Fn(ContextServerId, Arc<ContextServerConfiguration>) -> Arc<ContextServer>,
>(store: ContextServerStore<F>, subscriptions: &Vec<Subscription>)
    requires
        call_ensures(ContextServerStore::<F>::subscriptions, (&store,), subscriptions),
    ensures
        subscriptions@ == store@.subscriptions,
{
}

/// Effects are handed to the host in the order in which they were added, each once.
pub proof fn law_effects_are_handed_over(
    cx: Context,
    adding: &mut Context,
    taking: &mut Context,
    fresh: Context,
    effect: Effect,
    effects: Vec<Effect>,
)
    requires
        call_ensures(Context::new, (), fresh),
        call_ensures(Context::add_effect, (adding, effect), ()),
        call_ensures(Context::take_effects, (taking,), effects),
    ensures
        cx@ == cx.effects@,
        fresh.effects@.len() == 0,
        final(adding).effects@ == old(adding).effects@.push(effect),
        effects@ == old(taking).effects@,
        final(taking).effects@.len() == 0,
{
}

/// What the user is told of an error.
pub proof fn law_messages(error: StoreError, message: String)
    requires
        call_ensures(StoreError::message, (&error,), message),
    ensures
        match error {
            StoreError::ServerNotFound => message@ == "Context server not found"@,
            StoreError::ConfigurationNotFound => message@
                == "Failed to load context server configuration from settings"@,
            StoreError::MissingCommand(id) => message@ == "ContextServerId "@ + (*id.0)@
                + ": Missing command in configuration"@,
            StoreError::UnresolvedPlaceholder(id) => message@ == "ContextServerId "@ + (*id.0)@
                + ": Failed to resolve "@ + "$ZED_WORKTREE_ROOT"@
                + " for command. Check logs for details."@,
            StoreError::StopFailed(reason) => message@ == (*reason)@,
        },
{
}

} // verus!
