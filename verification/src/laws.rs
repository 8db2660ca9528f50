//! Laws of the store that relate several of its operations.

use crate::context_server::{
    ConfigurationView, ContextServer, ContextServerCommand, ContextServerConfiguration,
    ContextServerId, ContextServerTransport,
};
use crate::maintain::{
    first_command, id_texts, is_offered, planned_texts, DesiredView, Offer, PlannedServer,
    UpdatePlan,
};
use crate::placeholder::{law_substitution_is_complete, PLACEHOLDER};
use crate::project::{local_root, Worktree, WorktreeId};
use crate::state::{ContextServerState, ContextServerStatus, Effect, TaskId};
use crate::store::{launch, Launch, StoreView};
use crate::text::fences;
use std::sync::Arc;
use vstd::prelude::*;

verus! {

/// A server is handed out as running exactly where its status is that it runs.
pub proof fn law_running_is_a_status<F>(store: StoreView<F>, key: Seq<char>)
    requires
        store.servers.contains_key(key),
    ensures
        store.is_running(key) <==> store.servers[key].status() == ContextServerStatus::Running,
{
}

/// The two stores hold the same state under `key`, or none.
pub open spec fn agree_on<F>(before: StoreView<F>, after: StoreView<F>, key: Seq<char>) -> bool {
    &&& after.servers.contains_key(key) <==> before.servers.contains_key(key)
    &&& before.servers.contains_key(key) ==> after.servers[key] == before.servers[key]
}

/// To stop, remove or run one server, or to hear of its start, leaves every other server
/// as it is.
pub proof fn law_other_servers_stay<F>(
    store: StoreView<F>,
    server: Arc<ContextServer>,
    configuration: Arc<ContextServerConfiguration>,
    state: ContextServerState,
    other: Seq<char>,
)
    requires
        other != server.id@,
    ensures
        agree_on(store, store.stopped(server.id@), other),
        agree_on(store, store.removed(server.id@), other),
        agree_on(store, store.run(server, configuration), other),
        agree_on(store, store.with_state(server.id@, state), other),
{
}

/// A server that is run and then reported as started is running, and it is the very
/// server, with the very configuration, that was run.
pub proof fn law_what_is_run_is_running<F>(
    store: StoreView<F>,
    server: Arc<ContextServer>,
    configuration: Arc<ContextServerConfiguration>,
)
    ensures
        ({
            let key = server.id@;
            let starting = store.run(server, configuration);
            let running = starting.with_state(key, starting.started(key, Ok(())));
            &&& starting.awaits(key, TaskId(store.next_task))
            &&& running.is_running(key)
            &&& running.servers[key].spec_server() == server
            &&& running.servers[key].spec_configuration() == configuration
        }),
{
}

/// A server whose start failed is known as stopped, and its status is the error.
pub proof fn law_failed_start_is_an_error<F>(
    store: StoreView<F>,
    server: Arc<ContextServer>,
    configuration: Arc<ContextServerConfiguration>,
    error: Arc<str>,
)
    ensures
        ({
            let key = server.id@;
            let starting = store.run(server, configuration);
            let failed = starting.with_state(key, starting.started(key, Err(error)));
            &&& !failed.is_running(key)
            &&& failed.servers[key].status() == ContextServerStatus::Error(error)
            &&& failed.servers[key].spec_server() == server
            &&& failed.servers[key].spec_configuration() == configuration
        }),
{
}

/// A server that was stopped while it was starting is not brought back by its start: the
/// store waits for no task of it any more, and the task that it waited for is dropped.
pub proof fn law_stop_ends_the_start<F>(store: StoreView<F>, id: ContextServerId, task: TaskId)
    ensures
        !store.stopped(id@).awaits(id@, task),
        store.awaits(id@, task) ==> store.stop_effects(id).contains(Effect::DropTask(task)),
{
    if store.awaits(id@, task) {
        assert(store.stop_effects(id)[0] == Effect::DropTask(task));
    }
}

/// Nor is a server that was removed while it was starting.
pub proof fn law_remove_ends_the_start<F>(store: StoreView<F>, id: ContextServerId, task: TaskId)
    ensures
        !store.removed(id@).awaits(id@, task),
        store.awaits(id@, task) ==> store.remove_effects(id).contains(Effect::DropTask(task)),
{
    if store.awaits(id@, task) {
        assert(store.remove_effects(id)[0] == Effect::DropTask(task));
    }
}

/// Where a server is run while an earlier start of it is under way, that start is over. Its
/// task is dropped, and no server is stopped. The store waits for the new task alone, which
/// has another number: a report of the old one changes nothing and announces nothing, and
/// the report of the new one is of the server that was run last.
pub proof fn law_run_replaces_the_start<
    F: Fn(ContextServerId, Arc<ContextServerConfiguration>) -> Arc<ContextServer>,
>(
    store: StoreView<F>,
    server: Arc<ContextServer>,
    configuration: Arc<ContextServerConfiguration>,
    old_task: TaskId,
    outcome: Result<(), Arc<str>>,
)
    requires
        store.wf(),
        store.awaits(server.id@, old_task),
    ensures
        ({
            let key = server.id@;
            let after = store.run(server, configuration);
            let effects = store.run_effects(server, configuration);
            let task = TaskId(store.next_task);
            &&& old_task != task
            &&& effects.contains(Effect::DropTask(old_task))
            &&& forall|i: int| 0 <= i < effects.len() ==> !(#[trigger] effects[i] is StopServer)
            &&& forall|other: TaskId| #[trigger] after.awaits(key, other) <==> other == task
            &&& after.reported(key, old_task, outcome) == after
            &&& after.report_effects(key, old_task, outcome) == Seq::<Effect>::empty()
            &&& after.reported(key, task, outcome).servers[key].spec_server() == server
            &&& after.reported(key, task, outcome).servers[key].spec_configuration()
                == configuration
        }),
{
    assert(store.stop_effects(server.id)[0] == Effect::DropTask(old_task));
    assert(store.run_effects(server, configuration)[0] == Effect::DropTask(old_task));
}

/// A server that runs is never replaced by another without the host being asked to stop it
/// first.
pub proof fn law_run_stops_what_ran<F>(
    store: StoreView<F>,
    server: Arc<ContextServer>,
    configuration: Arc<ContextServerConfiguration>,
)
    requires
        store.is_running(server.id@),
    ensures
        store.run_effects(server, configuration)[0] == Effect::StopServer(
            store.servers[server.id@].spec_server(),
        ),
{
}

/// To stop a server twice leaves the store as it is after the first time.
pub proof fn law_stop_twice<F>(store: StoreView<F>, key: Seq<char>)
    ensures
        store.stopped(key).stopped(key) == store.stopped(key),
        store.stopped(key).stop_result(key) is Done,
{
    assert(store.stopped(key).stopped(key) =~= store.stopped(key));
}

/// A restart ends with the server starting again under the configuration that it had.
/// Without a factory it is launched by the command of that configuration as it stands.
///
/// This supposes that a factory makes a server that goes by the identifier it is made for.
pub proof fn law_restart_keeps_the_configuration<
    F: Fn(ContextServerId, Arc<ContextServerConfiguration>) -> Arc<ContextServer>,
>(store: StoreView<F>, id: ContextServerId, server: Arc<ContextServer>)
    requires
        store.servers.contains_key(id@),
        launch(
            store.servers[id@].spec_configuration()@,
            Seq::empty(),
            None,
        ) matches Launch::Command(command) && store.stopped(id@).makes(
            id,
            store.servers[id@].spec_configuration(),
            command,
            server,
        ),
        store.factory is Some ==> server.id@ == id@,
    ensures
        ({
            let configuration = store.servers[id@].spec_configuration();
            let after = store.stopped(id@).run(server, configuration);
            &&& after.is_starting(id@)
            &&& after.servers[id@].spec_configuration() == configuration
            &&& after.servers[id@].spec_server() == server
            &&& store.factory is None ==> {
                &&& server.transport matches ContextServerTransport::Stdio(launched)
                &&& Some(launched@) == configuration@.command
            }
        }),
{
}

/// There is never more than one update of the servers under way: one begins only where
/// none is.
pub proof fn law_one_update_at_a_time<F>(store: StoreView<F>)
    ensures
        store.notified().update_servers_task is Some,
        store.update_servers_task is Some ==> {
            &&& store.notified_effects().len() == 0
            &&& store.notified().update_servers_task == store.update_servers_task
        },
{
}

/// No change is lost: one that comes in while an update is under way is followed by
/// another update, which begins when the first one ends. However many changes come in
/// meanwhile, one more update follows.
pub proof fn law_no_change_is_lost<F>(store: StoreView<F>)
    requires
        store.update_servers_task is Some,
    ensures
        store.notified().notified() == store.notified(),
        store.notified().updated_effects() == seq![
            Effect::MaintainServers(TaskId(store.next_task)),
        ],
        store.notified().updated().update_servers_task == Some(TaskId(store.next_task)),
        !store.notified().updated().needs_server_update,
{
    assert(store.notified().notified() =~= store.notified());
}

/// Without a change meanwhile, the end of an update begins no other.
pub proof fn law_updates_come_to_rest<F>(store: StoreView<F>)
    requires
        !store.needs_server_update,
    ensures
        store.updated().update_servers_task is None,
        store.updated_effects().len() == 0,
{
}

/// The command that the settings give for a server is never replaced by one from an
/// extension, and what an extension says of one server leaves the others as they are. It
/// leaves the source of every server as it is. Where an extension does not have to be asked,
/// its reply would make no difference.
pub proof fn law_settings_come_first(
    desired: DesiredView,
    key: Seq<char>,
    reply: Option<ContextServerCommand>,
    other: Seq<char>,
)
    ensures
        ({
            let after = desired.with_descriptor(key).with_reply(key, reply);
            &&& desired.servers.contains_key(key) && desired.servers[key].command is Some
                ==> after == desired
            &&& !desired.with_descriptor(key).lacks_command(key) ==> after
                == desired.with_descriptor(key)
            &&& after.source(key) == desired.source(key)
            &&& after.source(other) == desired.source(other)
            &&& other != key ==> (after.servers.contains_key(other)
                <==> desired.servers.contains_key(other))
            &&& other != key && desired.servers.contains_key(other) ==> after.servers[other]
                == desired.servers[other]
        }),
{
}

/// Of a server that the registry names and the settings give no command for, the update
/// takes the command that its extension gives, and keeps the rest of its configuration.
pub proof fn law_extension_gives_the_command(
    desired: DesiredView,
    key: Seq<char>,
    command: ContextServerCommand,
)
    requires
        desired.servers.contains_key(key) ==> desired.servers[key].command is None,
    ensures
        ({
            let after = desired.with_descriptor(key).with_reply(key, Some(command));
            &&& after.servers.contains_key(key)
            &&& after.servers[key] == (if desired.servers.contains_key(key) {
                desired.servers[key]
            } else {
                ConfigurationView::unset()
            }).with_command(command@)
        }),
{
}

/// What gathering the desired servers comes to, over all servers that the registry names. A
/// server is desired exactly if the settings or the registry name it. Its command is the one
/// that the settings give, if they give one, or else the first one that an extension gives
/// for it, if any does. The rest of its configuration is that of the settings, and its source
/// is as the settings have it.
pub proof fn law_gathering_the_desired_servers(
    desired: DesiredView,
    offers: Seq<Offer>,
    key: Seq<char>,
)
    ensures
        ({
            let after = desired.gathered(offers);
            let own = if desired.servers.contains_key(key) {
                desired.servers[key]
            } else {
                ConfigurationView::unset()
            };
            &&& after.servers.contains_key(key) <==> desired.servers.contains_key(key)
                || is_offered(offers, key)
            &&& after.servers.contains_key(key) ==> after.servers[key] == (ConfigurationView {
                command: match own.command {
                    Some(command) => Some(command),
                    None => first_command(offers, key),
                },
                settings: own.settings,
            })
            &&& after.source(key) == desired.source(key)
        }),
    decreases offers.len(),
{
    if offers.len() > 0 {
        let first = offers[0];
        let rest = offers.skip(1);
        let next = desired.with_descriptor(first.key).with_reply(first.key, first.reply);
        law_gathering_the_desired_servers(next, rest, key);
        assert(is_offered(offers, key) <==> first.key == key || is_offered(rest, key)) by {
            if is_offered(offers, key) {
                let i = choose|i: int| 0 <= i < offers.len() && (#[trigger] offers[i]).key == key;
                if i > 0 {
                    assert(rest[i - 1].key == key);
                }
            }
            if is_offered(rest, key) {
                let i = choose|i: int| 0 <= i < rest.len() && (#[trigger] rest[i]).key == key;
                assert(offers[i + 1].key == key);
            }
        }
    } else {
        assert(!is_offered(offers, key));
    }
}

/// A global configuration is launched with its command as it stands, placeholder or not.
pub proof fn law_global_commands_stay(configuration: ConfigurationView, worktrees: Seq<Worktree>)
    requires
        configuration.command is Some,
    ensures
        launch(configuration, worktrees, None) == Launch::Command(configuration.command->0),
{
}

/// No configuration of a worktree is launched with a placeholder in its command.
pub proof fn law_project_commands_are_resolved(
    configuration: ConfigurationView,
    worktrees: Seq<Worktree>,
    source: WorktreeId,
)
    ensures
        launch(configuration, worktrees, Some(source)) matches Launch::Command(command)
            ==> !command.uses_placeholder(),
{
}

/// A configuration with a command, from the settings of a local worktree whose root cannot
/// take part in a placeholder, is always launched.
pub proof fn law_local_projects_launch(
    configuration: ConfigurationView,
    worktrees: Seq<Worktree>,
    source: WorktreeId,
)
    requires
        configuration.command is Some,
        local_root(worktrees, source) is Some,
        fences(local_root(worktrees, source)->0, PLACEHOLDER@),
    ensures
        launch(configuration, worktrees, Some(source)) is Command,
{
    law_substitution_is_complete(configuration.command->0, local_root(worktrees, source)->0);
}

pub(crate) proof fn lemma_stopped_all<F>(store: StoreView<F>, ids: Seq<ContextServerId>)
    ensures
        ({
            let after = store.stopped_all(ids);
            &&& after.factory == store.factory
            &&& after.servers.dom() == store.servers.dom()
            &&& forall|key: Seq<char>| #[trigger]
                store.servers.contains_key(key) && !id_texts(ids).contains(key)
                    ==> after.servers[key] == store.servers[key]
        }),
    decreases ids.len(),
{
    if ids.len() > 0 {
        let next = store.stopped(ids[0]@);
        lemma_stopped_all(next, ids.skip(1));
        assert(next.servers.dom() =~= store.servers.dom());
        assert forall|key: Seq<char>| #[trigger]
            store.servers.contains_key(key) && !id_texts(ids).contains(
                key,
            ) implies store.stopped_all(ids).servers[key] == store.servers[key] by {
            assert(id_texts(ids)[0] == ids[0]@);
            lemma_tail_texts(id_texts(ids), key);
            assert(id_texts(ids.skip(1)) =~= id_texts(ids).skip(1));
            assert(next.servers.contains_key(key));
        }
    }
}

/// Those of the servers that the store has are stopped.
pub(crate) proof fn lemma_stopped_all_halts<F>(
    store: StoreView<F>,
    ids: Seq<ContextServerId>,
    key: Seq<char>,
)
    requires
        id_texts(ids).contains(key),
        store.servers.contains_key(key),
    ensures
        store.stopped_all(ids).servers[key] is Stopped,
    decreases ids.len(),
{
    let next = store.stopped(ids[0]@);
    let keys = id_texts(ids);
    lemma_tail_texts(keys, key);
    assert(id_texts(ids.skip(1)) =~= keys.skip(1));
    lemma_stopped_all(next, ids.skip(1));
    assert(next.servers.contains_key(key));
    if keys.skip(1).contains(key) {
        lemma_stopped_all_halts(next, ids.skip(1), key);
    }
}

pub(crate) proof fn lemma_tail_texts(keys: Seq<Seq<char>>, key: Seq<char>)
    requires
        keys.len() > 0,
    ensures
        keys.contains(key) <==> key == keys[0] || keys.skip(1).contains(key),
        keys.no_duplicates() ==> keys.skip(1).no_duplicates() && !keys.skip(1).contains(keys[0]),
{
    let tail = keys.skip(1);
    if keys.contains(key) {
        let i = choose|i: int| 0 <= i < keys.len() && keys[i] == key;
        if i > 0 {
            assert(tail[i - 1] == key);
        }
    }
    if tail.contains(key) {
        let i = choose|i: int| 0 <= i < tail.len() && tail[i] == key;
        assert(keys[i + 1] == key);
    }
    if keys.no_duplicates() && tail.contains(keys[0]) {
        let i = choose|i: int| 0 <= i < tail.len() && tail[i] == keys[0];
        assert(keys[i + 1] == keys[0]);
    }
}

pub(crate) proof fn lemma_removed_all<F>(store: StoreView<F>, ids: Seq<ContextServerId>)
    ensures
        ({
            let after = store.removed_all(ids);
            &&& after.factory == store.factory
            &&& forall|key: Seq<char>| #[trigger]
                after.servers.contains_key(key) <==> store.servers.contains_key(key)
                    && !id_texts(ids).contains(key)
            &&& forall|key: Seq<char>| #[trigger]
                after.servers.contains_key(key) ==> after.servers[key] == store.servers[key]
        }),
    decreases ids.len(),
{
    let after = store.removed_all(ids);
    if ids.len() > 0 {
        let next = store.removed(ids[0]@);
        lemma_removed_all(next, ids.skip(1));
        assert(id_texts(ids.skip(1)) =~= id_texts(ids).skip(1));
        assert(id_texts(ids)[0] == ids[0]@);
        assert forall|key: Seq<char>| #[trigger]
            after.servers.contains_key(key) <==> store.servers.contains_key(key) && !id_texts(
                ids,
            ).contains(key) by {
            lemma_tail_texts(id_texts(ids), key);
        }
    }
}

/// Each planned server goes by the identifier that it was made for.
pub open spec fn keeps_ids(planned: Seq<PlannedServer>) -> bool {
    forall|i: int| 0 <= i < planned.len() ==> (#[trigger] planned[i]).server.id@ == planned[i].id@
}

proof fn lemma_run_all<F>(store: StoreView<F>, planned: Seq<PlannedServer>)
    requires
        keeps_ids(planned),
        planned_texts(planned).no_duplicates(),
    ensures
        ({
            let after = store.run_all(planned);
            &&& after.factory == store.factory
            &&& forall|key: Seq<char>| #[trigger]
                after.servers.contains_key(key) <==> store.servers.contains_key(key)
                    || planned_texts(planned).contains(key)
            &&& forall|key: Seq<char>| #[trigger]
                store.servers.contains_key(key) && !planned_texts(planned).contains(key)
                    ==> after.servers[key] == store.servers[key]
            &&& forall|i: int|
                0 <= i < planned.len() ==> {
                    let state = after.servers[(#[trigger] planned[i]).id@];
                    &&& state is Starting
                    &&& state.spec_server() == planned[i].server
                    &&& state.spec_configuration() == planned[i].configuration
                }
        }),
    decreases planned.len(),
{
    let after = store.run_all(planned);
    if planned.len() > 0 {
        let rest = planned.skip(1);
        let keys = planned_texts(planned);
        let next = store.run(planned[0].server, planned[0].configuration);
        assert(planned_texts(rest) =~= keys.skip(1));
        assert(keys[0] == planned[0].id@);
        assert(planned[0].server.id@ == planned[0].id@);
        lemma_tail_texts(keys, keys[0]);
        assert forall|i: int| 0 <= i < rest.len() implies (#[trigger] rest[i]).server.id@
            == rest[i].id@ by {
            assert(rest[i] == planned[i + 1]);
        }
        lemma_run_all(next, rest);
        assert forall|key: Seq<char>| #[trigger]
            after.servers.contains_key(key) <==> store.servers.contains_key(key)
                || keys.contains(key) by {
            lemma_tail_texts(keys, key);
        }
        assert forall|key: Seq<char>| #[trigger]
            store.servers.contains_key(key) && !keys.contains(key) implies after.servers[key]
            == store.servers[key] by {
            lemma_tail_texts(keys, key);
            assert(next.servers.contains_key(key));
        }
        assert forall|i: int| 0 <= i < planned.len() implies ({
            let state = after.servers[(#[trigger] planned[i]).id@];
            &&& state is Starting
            &&& state.spec_server() == planned[i].server
            &&& state.spec_configuration() == planned[i].configuration
        }) by {
            if i == 0 {
                assert(next.servers.contains_key(planned[0].id@));
            } else {
                assert(rest[i - 1] == planned[i]);
            }
        }
    }
}

/// An update brings the servers in line with the settings. Afterwards the store has just
/// those desired servers that it had before or that could be made. A server that it had
/// with the desired configuration is untouched; one that was due is starting with the
/// desired configuration, as the server that the plan has for it; one that could not be made
/// is as it was. Servers that are not desired are gone.
///
/// This supposes that each server goes by the identifier that it was made for. Servers
/// launched by a command do.
pub proof fn law_update_brings_in_line<
    F: Fn(ContextServerId, Arc<ContextServerConfiguration>) -> Arc<ContextServer>,
>(store: StoreView<F>, desired: DesiredView, worktrees: Seq<Worktree>, plan: UpdatePlan)
    requires
        store.is_plan(desired, worktrees, plan),
        keeps_ids(plan.servers_to_start@),
    ensures
        store.after(plan).factory == store.factory,
        forall|key: Seq<char>|
            {
                &&& #[trigger] store.after(plan).servers.contains_key(key)
                    <==> store.runnable(desired).contains_key(key) && (store.servers.contains_key(
                    key,
                ) || store.is_due(desired, worktrees, key))
                &&& store.is_due(desired, worktrees, key) ==> {
                    &&& store.after(plan).is_starting(key)
                    &&& store.after(plan).servers[key].spec_configuration()@
                        == desired.servers[key]
                    &&& exists|planned: PlannedServer|
                        {
                            &&& #[trigger] plan.servers_to_start@.contains(planned)
                            &&& planned.id@ == key
                            &&& store.plans(desired, worktrees, planned)
                            &&& store.after(plan).servers[key].spec_server() == planned.server
                            &&& store.after(plan).servers[key].spec_configuration()
                                == planned.configuration
                        }
                }
                &&& store.runnable(desired).contains_key(key) && !store.is_due(
                    desired,
                    worktrees,
                    key,
                ) && store.servers.contains_key(key) ==> store.after(plan).servers[key]
                    == store.servers[key]
            },
{
    let stop = plan.servers_to_stop@;
    let remove = plan.servers_to_remove@;
    let start = plan.servers_to_start@;
    let stopped = store.stopped_all(stop);
    let removed = stopped.removed_all(remove);
    let after = store.after(plan);
    lemma_stopped_all(store, stop);
    lemma_removed_all(stopped, remove);
    lemma_run_all(removed, start);
    assert forall|key: Seq<char>|
        {
            &&& #[trigger] after.servers.contains_key(key) <==> store.runnable(
                desired,
            ).contains_key(key) && (store.servers.contains_key(key) || store.is_due(
                desired,
                worktrees,
                key,
            ))
            &&& store.is_due(desired, worktrees, key) ==> {
                &&& after.is_starting(key)
                &&& after.servers[key].spec_configuration()@ == desired.servers[key]
                &&& exists|planned: PlannedServer|
                    {
                        &&& #[trigger] start.contains(planned)
                        &&& planned.id@ == key
                        &&& store.plans(desired, worktrees, planned)
                        &&& after.servers[key].spec_server() == planned.server
                        &&& after.servers[key].spec_configuration() == planned.configuration
                    }
            }
            &&& store.runnable(desired).contains_key(key) && !store.is_due(
                desired,
                worktrees,
                key,
            ) && store.servers.contains_key(key) ==> after.servers[key] == store.servers[key]
        } by {
        let due = planned_texts(start).contains(key);
        assert(due == store.is_due(desired, worktrees, key));
        assert(id_texts(remove).contains(key) == store.is_surplus(desired, key));
        assert(stopped.servers.contains_key(key) == store.servers.contains_key(key));
        assert(removed.servers.contains_key(key) <==> store.servers.contains_key(key)
            && store.runnable(desired).contains_key(key));
        if due {
            let i = choose|i: int|
                0 <= i < planned_texts(start).len() && planned_texts(start)[i] == key;
            assert(start[i].id@ == key);
            assert(store.plans(desired, worktrees, start[i]));
            assert(start[i].configuration@ == desired.servers[key]);
            assert(start.contains(start[i]));
        } else if store.servers.contains_key(key) && store.runnable(desired).contains_key(key) {
            assert(!id_texts(stop).contains(key));
            assert(stopped.servers[key] == store.servers[key]);
            assert(removed.servers.contains_key(key));
            assert(removed.servers[key] == store.servers[key]);
        }
    }
}

/// To carry a plan out step by step comes to what the whole plan comes to, in the store and
/// in what is asked of the host, and takes as many steps as the plan has.
pub proof fn law_steps_make_the_plan<F>(store: StoreView<F>, plan: UpdatePlan, rest: UpdatePlan)
    requires
        plan.steps() > 0,
        rest.servers_to_stop@ == plan.rest_to_stop(),
        rest.servers_to_remove@ == plan.rest_to_remove(),
        rest.servers_to_start@ == plan.rest_to_start(),
    ensures
        rest.steps() == plan.steps() - 1,
        store.after_step(plan).after(rest) == store.after(plan),
        store.step_effects(plan) + store.after_step(plan).plan_effects(rest)
            == store.plan_effects(plan),
{
    assert(store.step_effects(plan) + store.after_step(plan).plan_effects(rest)
        =~= store.plan_effects(plan));
}

/// Where servers are launched by commands, an update takes away every server whose
/// configuration has none, as when the extension that gave the command was uninstalled.
pub proof fn law_servers_without_command_go<
    F: Fn(ContextServerId, Arc<ContextServerConfiguration>) -> Arc<ContextServer>,
>(
    store: StoreView<F>,
    desired: DesiredView,
    worktrees: Seq<Worktree>,
    plan: UpdatePlan,
    key: Seq<char>,
)
    requires
        store.is_plan(desired, worktrees, plan),
        store.factory is None,
        desired.servers.contains_key(key) ==> desired.servers[key].command is None,
    ensures
        !store.after(plan).servers.contains_key(key),
{
    law_launched_servers_keep_ids(store, desired, worktrees, plan);
    law_update_brings_in_line(store, desired, worktrees, plan);
}

/// The two stores have the same servers, with the same configurations, and the same factory.
/// The states of the servers may differ.
pub open spec fn same_configurations<F>(before: StoreView<F>, after: StoreView<F>) -> bool {
    &&& after.factory == before.factory
    &&& forall|key: Seq<char>|
        #![trigger before.servers.contains_key(key)]
        #![trigger after.servers.contains_key(key)]
        {
            &&& after.servers.contains_key(key) <==> before.servers.contains_key(key)
            &&& before.servers.contains_key(key) ==> after.servers[key].spec_configuration()@
                == before.servers[key].spec_configuration()@
        }
}

/// However a start ends, the servers keep their configurations. So they do where a change is
/// heard of or an update ends.
pub proof fn law_starts_keep_the_configurations<F>(
    before: StoreView<F>,
    store: StoreView<F>,
    key: Seq<char>,
    task: TaskId,
    outcome: Result<(), Arc<str>>,
)
    requires
        same_configurations(before, store),
    ensures
        same_configurations(before, store.reported(key, task, outcome)),
        same_configurations(before, store.notified()),
        same_configurations(before, store.updated()),
{
}

/// Once an update has brought the servers in line, another one with the same desired
/// servers has nothing to do, asks nothing of the host and leaves every state as it is.
/// Starts may have ended in between: `later` is any store that still has the servers that
/// the first update left, with their configurations.
pub proof fn law_update_comes_to_rest<
    F: Fn(ContextServerId, Arc<ContextServerConfiguration>) -> Arc<ContextServer>,
>(
    store: StoreView<F>,
    desired: DesiredView,
    worktrees: Seq<Worktree>,
    plan: UpdatePlan,
    later: StoreView<F>,
    again: UpdatePlan,
)
    requires
        store.is_plan(desired, worktrees, plan),
        keeps_ids(plan.servers_to_start@),
        same_configurations(store.after(plan), later),
        later.is_plan(desired, worktrees, again),
    ensures
        again.steps() == 0,
        later.after(again) == later,
        later.plan_effects(again) == Seq::<Effect>::empty(),
{
    let after = store.after(plan);
    law_update_brings_in_line(store, desired, worktrees, plan);
    assert(later.runnable(desired) =~= store.runnable(desired));
    assert forall|key: Seq<char>| !later.is_due(desired, worktrees, key) by {
        if later.is_due(desired, worktrees, key) {
            assert(!later.is_current(desired, key));
            assert(after.servers.contains_key(key) == later.servers.contains_key(key));
            if !store.is_due(desired, worktrees, key) {
                assert(store.is_current(desired, key));
            }
        }
    }
    assert forall|key: Seq<char>| !later.is_surplus(desired, key) by {
        assert(later.servers.contains_key(key) == after.servers.contains_key(key));
    }
    if again.servers_to_remove@.len() > 0 {
        let key = id_texts(again.servers_to_remove@)[0];
        assert(id_texts(again.servers_to_remove@).contains(key));
    }
    if again.servers_to_start@.len() > 0 {
        let key = planned_texts(again.servers_to_start@)[0];
        assert(planned_texts(again.servers_to_start@).contains(key));
    }
    if again.servers_to_stop@.len() > 0 {
        let key = id_texts(again.servers_to_stop@)[0];
        assert(id_texts(again.servers_to_stop@).contains(key));
    }
    assert(later.plan_effects(again) =~= Seq::<Effect>::empty());
}

/// A server that only the global settings mention is launched by its command as it stands,
/// placeholder or not, whatever worktrees there are: where the store does not have it with
/// the desired configuration, an update starts it so.
pub proof fn law_global_servers_launch_as_they_stand<
    F: Fn(ContextServerId, Arc<ContextServerConfiguration>) -> Arc<ContextServer>,
>(
    store: StoreView<F>,
    desired: DesiredView,
    worktrees: Seq<Worktree>,
    plan: UpdatePlan,
    key: Seq<char>,
)
    requires
        store.is_plan(desired, worktrees, plan),
        store.factory is None,
        desired.global_only.contains(key),
        desired.servers.contains_key(key),
        desired.servers[key].command is Some,
        !store.is_current(desired, key),
    ensures
        store.after(plan).is_starting(key),
        store.after(plan).servers[key].spec_server().transport
            matches ContextServerTransport::Stdio(launched) && Some(launched@)
            == desired.servers[key].command,
{
    law_launched_servers_keep_ids(store, desired, worktrees, plan);
    law_update_brings_in_line(store, desired, worktrees, plan);
    law_global_commands_stay(desired.servers[key], worktrees);
    assert(store.is_due(desired, worktrees, key));
    assert(store.after(plan).servers.contains_key(key));
}

/// Servers launched by a command go by the identifier that they were made for.
pub proof fn law_launched_servers_keep_ids<
    F: Fn(ContextServerId, Arc<ContextServerConfiguration>) -> Arc<ContextServer>,
>(store: StoreView<F>, desired: DesiredView, worktrees: Seq<Worktree>, plan: UpdatePlan)
    requires
        store.is_plan(desired, worktrees, plan),
        store.factory is None,
    ensures
        keeps_ids(plan.servers_to_start@),
{
    assert forall|i: int| 0 <= i < plan.servers_to_start@.len() implies (
    #[trigger] plan.servers_to_start@[i]).server.id@ == plan.servers_to_start@[i].id@ by {
        assert(store.plans(desired, worktrees, plan.servers_to_start@[i]));
    }
}

} // verus!
