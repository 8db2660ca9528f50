//! What an update of the servers comes to, told by the settings, the states of the servers
//! before and after it, and what it asks of the host.

use crate::command_laws::{
    lemma_same_command, lemma_same_configuration, same_command, same_configuration,
};
use crate::context_server::{
    ContextServer, ContextServerCommand, ContextServerConfiguration, ContextServerId,
};
use crate::laws::{keeps_ids, law_launched_servers_keep_ids, law_steps_make_the_plan};
use crate::laws::law_update_brings_in_line;
use crate::maintain::{
    failed_texts, id_texts, planned_texts, DesiredServers, FailedServer, PlannedServer, UpdatePlan,
};
use crate::project::{ProjectSettings, SettingsLocation, WorktreeId, WorktreeStore};
use crate::state::{Context, ContextServerState, Effect, StoreError};
use crate::store::{ContextServerStore, Stop, StoreView};
use crate::store_laws::{
    configuration_of, law_stopping, launchable, lemma_launchable, lemma_made, made, refusal,
    server_of,
};
use std::sync::Arc;
use vstd::prelude::*;

verus! {

/// The worktree whose settings the server `key` comes from, if its configuration is not a
/// global one.
pub open spec fn source_of(desired: DesiredServers, key: Seq<char>) -> Option<WorktreeId> {
    if desired.global_only@.contains_key(key) {
        None
    } else {
        desired.source_worktree_id
    }
}

/// The servers that the settings mention are desired, with their configurations, the same in
/// every field. One that only the global settings mention has no worktree as its source; any
/// other comes from the worktree that the settings were looked up in.
pub proof fn law_desired_by_the_settings(
    location: Option<SettingsLocation>,
    settings: ProjectSettings,
    desired: DesiredServers,
    key: Seq<char>,
)
    requires
        call_ensures(DesiredServers::from_settings, (&location, &settings), desired),
    ensures
        desired.servers@.contains_key(key) <==> settings.context_servers@.contains_key(key),
        desired.servers@.contains_key(key) ==> same_configuration(
            desired.servers@[key],
            settings.context_servers@[key],
        ),
        source_of(desired, key) == (match location {
            Some(location) if !settings.global_only@.contains_key(key) => Some(
                location.worktree_id,
            ),
            _ => None,
        }),
{
    assert(desired@.servers.contains_key(key) <==> desired.servers@.contains_key(key));
    assert(desired@.source(key) == source_of(desired, key));
    if desired.servers@.contains_key(key) {
        assert(desired@.servers[key] == desired.servers@[key]@);
        lemma_same_configuration(desired.servers@[key], settings.context_servers@[key]);
    }
}

/// What is told of the source of a server.
pub proof fn law_sources(desired: DesiredServers, id: &str, source: Option<WorktreeId>)
    requires
        call_ensures(DesiredServers::source, (&desired, id), source),
    ensures
        source == source_of(desired, id@),
{
}

/// Of the server `key`, `after` says what `before` says: its configuration, the same in every
/// field, if it is desired, and its source.
pub open spec fn same_desire(before: DesiredServers, after: DesiredServers, key: Seq<char>) -> bool {
    &&& after.servers@.contains_key(key) <==> before.servers@.contains_key(key)
    &&& before.servers@.contains_key(key) ==> same_configuration(
        after.servers@[key],
        before.servers@[key],
    )
    &&& source_of(after, key) == source_of(before, key)
}

/// A server that the registry names is desired. If it was desired already, nothing changes;
/// if not, it comes without a command and without settings. Its extension is to be asked
/// exactly if it has no command. All other servers stay, and so do all sources.
pub proof fn law_naming_a_server(
    desired: &mut DesiredServers,
    id: Arc<str>,
    ask: bool,
    other: Seq<char>,
)
    requires
        call_ensures(DesiredServers::add_descriptor, (desired, &id), ask),
    ensures
        ({
            let key = (*id)@;
            &&& final(desired).servers@.contains_key(key)
            &&& ask <==> final(desired).servers@[key].command is None
            &&& if old(desired).servers@.contains_key(key) {
                same_desire(*old(desired), *final(desired), key)
            } else {
                &&& final(desired).servers@[key].command is None
                &&& final(desired).servers@[key].settings is None
                &&& source_of(*final(desired), key) == source_of(*old(desired), key)
            }
            &&& other != key ==> same_desire(*old(desired), *final(desired), other)
        }),
{
    let key = (*id)@;
    lemma_desired_view(*old(desired), key);
    lemma_desired_view(*old(desired), other);
    lemma_desired_view(*final(desired), key);
    lemma_desired_view(*final(desired), other);
    lemma_same_configuration(final(desired).servers@[key], old(desired).servers@[key]);
    lemma_same_configuration(final(desired).servers@[other], old(desired).servers@[other]);
}

/// The command that an extension gives is taken where the server is desired and has none, the
/// same in every field; its settings stay. In every other case nothing changes, and other
/// servers and all sources stay in any case.
pub proof fn law_replies_of_extensions(
    desired: &mut DesiredServers,
    id: Arc<str>,
    reply: Option<ContextServerCommand>,
    other: Seq<char>,
)
    requires
        call_ensures(DesiredServers::provide_command, (desired, &id, reply), ()),
    ensures
        ({
            let key = (*id)@;
            let before = old(desired).servers@;
            let after = final(desired).servers@;
            &&& if before.contains_key(key) && before[key].command is None && reply is Some {
                &&& after.contains_key(key)
                &&& after[key].command matches Some(command) && same_command(command, reply->0)
                &&& match (after[key].settings, before[key].settings) {
                    (None, None) => true,
                    (Some(a), Some(b)) => a@ == b@,
                    _ => false,
                }
                &&& source_of(*final(desired), key) == source_of(*old(desired), key)
            } else {
                same_desire(*old(desired), *final(desired), key)
            }
            &&& other != key ==> same_desire(*old(desired), *final(desired), other)
        }),
{
    let key = (*id)@;
    lemma_desired_view(*old(desired), key);
    lemma_desired_view(*old(desired), other);
    lemma_desired_view(*final(desired), key);
    lemma_desired_view(*final(desired), other);
    lemma_same_configuration(final(desired).servers@[key], old(desired).servers@[key]);
    lemma_same_configuration(final(desired).servers@[other], old(desired).servers@[other]);
    if let (Some(a), Some(b)) = (final(desired).servers@[key].command, reply) {
        lemma_same_command(a, b);
    }
}

proof fn lemma_desired_view(desired: DesiredServers, key: Seq<char>)
    ensures
        desired@.servers.contains_key(key) <==> desired.servers@.contains_key(key),
        desired.servers@.contains_key(key) ==> desired@.servers[key] == desired.servers@[key]@,
        desired@.source(key) == source_of(desired, key),
{
}

/// There should be a server `key`: it is desired and, without a factory, has a command.
pub open spec fn wanted<F>(store: StoreView<F>, desired: DesiredServers, key: Seq<char>) -> bool {
    desired.servers@.contains_key(key) && (store.factory is Some
        || desired.servers@[key].command is Some)
}

/// The store has the server `key` with the desired configuration, the same in every field.
pub open spec fn up_to_date<F>(
    store: StoreView<F>,
    desired: DesiredServers,
    key: Seq<char>,
) -> bool {
    store.servers.contains_key(key) && same_configuration(
        *configuration_of(store.servers[key]),
        desired.servers@[key],
    )
}

/// The desired configuration of the server `key` can be launched.
pub open spec fn can_be_made(
    desired: DesiredServers,
    worktrees: WorktreeStore,
    key: Seq<char>,
) -> bool {
    launchable(desired.servers@[key], worktrees.worktrees@, source_of(desired, key))
}

/// One of the identifiers is `key`.
pub open spec fn names(ids: Seq<ContextServerId>, key: Seq<char>) -> bool {
    exists|i: int| 0 <= i < ids.len() && (*(#[trigger] ids[i]).0)@ == key
}

/// One of the servers is planned for `key`.
pub open spec fn runs(planned: Seq<PlannedServer>, key: Seq<char>) -> bool {
    exists|i: int| 0 <= i < planned.len() && (*(#[trigger] planned[i]).id.0)@ == key
}

/// One of the failures is of `key`.
pub open spec fn failed(failures: Seq<FailedServer>, key: Seq<char>) -> bool {
    exists|i: int| 0 <= i < failures.len() && (*(#[trigger] failures[i]).id.0)@ == key
}

proof fn lemma_names(plan: UpdatePlan, key: Seq<char>)
    ensures
        names(plan.servers_to_stop@, key) <==> id_texts(plan.servers_to_stop@).contains(key),
        names(plan.servers_to_remove@, key) <==> id_texts(plan.servers_to_remove@).contains(key),
        runs(plan.servers_to_start@, key) <==> planned_texts(plan.servers_to_start@).contains(key),
        failed(plan.failures@, key) <==> failed_texts(plan.failures@).contains(key),
{
    let stop = id_texts(plan.servers_to_stop@);
    let remove = id_texts(plan.servers_to_remove@);
    let start = planned_texts(plan.servers_to_start@);
    let failures = failed_texts(plan.failures@);
    if stop.contains(key) {
        let i = choose|i: int| 0 <= i < stop.len() && stop[i] == key;
        assert((*plan.servers_to_stop@[i].0)@ == key);
    }
    if names(plan.servers_to_stop@, key) {
        let i = choose|i: int|
            0 <= i < plan.servers_to_stop@.len() && (*(
            #[trigger] plan.servers_to_stop@[i]).0)@ == key;
        assert(stop[i] == key);
    }
    if remove.contains(key) {
        let i = choose|i: int| 0 <= i < remove.len() && remove[i] == key;
        assert((*plan.servers_to_remove@[i].0)@ == key);
    }
    if names(plan.servers_to_remove@, key) {
        let i = choose|i: int|
            0 <= i < plan.servers_to_remove@.len() && (*(
            #[trigger] plan.servers_to_remove@[i]).0)@ == key;
        assert(remove[i] == key);
    }
    if start.contains(key) {
        let i = choose|i: int| 0 <= i < start.len() && start[i] == key;
        assert((*plan.servers_to_start@[i].id.0)@ == key);
    }
    if runs(plan.servers_to_start@, key) {
        let i = choose|i: int|
            0 <= i < plan.servers_to_start@.len() && (*(
            #[trigger] plan.servers_to_start@[i]).id.0)@ == key;
        assert(start[i] == key);
    }
    if failures.contains(key) {
        let i = choose|i: int| 0 <= i < failures.len() && failures[i] == key;
        assert((*plan.failures@[i].id.0)@ == key);
    }
    if failed(plan.failures@, key) {
        let i = choose|i: int|
            0 <= i < plan.failures@.len() && (*(#[trigger] plan.failures@[i]).id.0)@ == key;
        assert(failures[i] == key);
    }
}

proof fn lemma_words<F>(
    store: StoreView<F>,
    desired: DesiredServers,
    worktrees: WorktreeStore,
    key: Seq<char>,
)
    ensures
        store.runnable(desired@).contains_key(key) <==> wanted(store, desired, key),
        wanted(store, desired, key) ==> {
            &&& store.is_current(desired@, key) <==> up_to_date(store, desired, key)
            &&& store.is_due(desired@, worktrees.worktrees@, key) <==> !up_to_date(
                store,
                desired,
                key,
            ) && can_be_made(desired, worktrees, key)
            &&& store.is_failing(desired@, worktrees.worktrees@, key) <==> !up_to_date(
                store,
                desired,
                key,
            ) && !can_be_made(desired, worktrees, key)
        },
{
    lemma_desired_view(desired, key);
    if desired.servers@.contains_key(key) {
        lemma_launchable(desired.servers@[key], worktrees.worktrees@, source_of(desired, key));
        if store.servers.contains_key(key) {
            let stored = configuration_of(store.servers[key]);
            let own = *stored;
            lemma_same_configuration(own, desired.servers@[key]);
        }
    }
}

/// What an update plans for the server `key`. It is removed exactly if the store has it and
/// there should be none. It is run exactly if there should be one, it can be made, and the
/// store does not have it with the desired configuration, the same in every field; and then
/// it is stopped first exactly if the store has it. It fails exactly if there should be one
/// that the store does not have so, and it cannot be made.
pub proof fn law_planning<
    F: Fn(ContextServerId, Arc<ContextServerConfiguration>) -> Arc<ContextServer>,
>(
    store: ContextServerStore<F>,
    desired: DesiredServers,
    worktrees: WorktreeStore,
    plan: UpdatePlan,
    key: Seq<char>,
)
    requires
        call_ensures(
            ContextServerStore::<F>::plan_update,
            (&store, &desired, &worktrees),
            plan,
        ),
    ensures
        names(plan.servers_to_remove@, key) <==> store@.servers.contains_key(key) && !wanted(
            store@,
            desired,
            key,
        ),
        runs(plan.servers_to_start@, key) <==> wanted(store@, desired, key) && !up_to_date(
            store@,
            desired,
            key,
        ) && can_be_made(desired, worktrees, key),
        names(plan.servers_to_stop@, key) <==> runs(plan.servers_to_start@, key)
            && store@.servers.contains_key(key),
        failed(plan.failures@, key) <==> wanted(store@, desired, key) && !up_to_date(
            store@,
            desired,
            key,
        ) && !can_be_made(desired, worktrees, key),
{
    lemma_names(plan, key);
    lemma_words(store@, desired, worktrees, key);
}

/// A server that the store has, that there should be and that can be made is stopped and run
/// anew exactly if its command or its settings have changed; else it is left alone.
pub proof fn law_changed_servers_are_run_anew<
    F: Fn(ContextServerId, Arc<ContextServerConfiguration>) -> Arc<ContextServer>,
>(
    store: ContextServerStore<F>,
    desired: DesiredServers,
    worktrees: WorktreeStore,
    plan: UpdatePlan,
    key: Seq<char>,
)
    requires
        call_ensures(
            ContextServerStore::<F>::plan_update,
            (&store, &desired, &worktrees),
            plan,
        ),
        store@.servers.contains_key(key),
        wanted(store@, desired, key),
        can_be_made(desired, worktrees, key),
    ensures
        ({
            let stored = *configuration_of(store@.servers[key]);
            let changed = !same_configuration(stored, desired.servers@[key]);
            &&& names(plan.servers_to_stop@, key) <==> changed
            &&& runs(plan.servers_to_start@, key) <==> changed
            &&& !names(plan.servers_to_remove@, key)
            &&& !failed(plan.failures@, key)
        }),
{
    law_planning(store, desired, worktrees, plan, key);
}

/// Each planned server has the desired configuration, the same in every field, and is made
/// from it. Each failure says why none could be made. No list names a server twice.
pub proof fn law_plans_are_made_of<
    F: Fn(ContextServerId, Arc<ContextServerConfiguration>) -> Arc<ContextServer>,
>(
    store: ContextServerStore<F>,
    desired: DesiredServers,
    worktrees: WorktreeStore,
    plan: UpdatePlan,
    i: int,
    j: int,
)
    requires
        call_ensures(
            ContextServerStore::<F>::plan_update,
            (&store, &desired, &worktrees),
            plan,
        ),
    ensures
        0 <= i < plan.servers_to_start@.len() ==> {
            let planned = plan.servers_to_start@[i];
            let key = (*planned.id.0)@;
            &&& same_configuration(*planned.configuration, desired.servers@[key])
            &&& made(
                store@.factory,
                planned.id,
                planned.configuration,
                worktrees.worktrees@,
                source_of(desired, key),
                planned.server,
            )
        },
        0 <= i < plan.failures@.len() ==> {
            let failure = plan.failures@[i];
            failure.error == refusal(failure.id, desired.servers@[(*failure.id.0)@])
        },
        0 <= i < j < plan.servers_to_stop@.len() ==> (*plan.servers_to_stop@[i].0)@ != (
        *plan.servers_to_stop@[j].0)@,
        0 <= i < j < plan.servers_to_remove@.len() ==> (*plan.servers_to_remove@[i].0)@ != (
        *plan.servers_to_remove@[j].0)@,
        0 <= i < j < plan.servers_to_start@.len() ==> (*plan.servers_to_start@[i].id.0)@ != (
        *plan.servers_to_start@[j].id.0)@,
        0 <= i < j < plan.failures@.len() ==> (*plan.failures@[i].id.0)@ != (
        *plan.failures@[j].id.0)@,
{
    let trees = worktrees.worktrees@;
    if 0 <= i < plan.servers_to_start@.len() {
        let planned = plan.servers_to_start@[i];
        lemma_planned(store@, desired, worktrees, plan, i);
    }
    if 0 <= i < plan.failures@.len() {
        let failure = plan.failures@[i];
        let key = failure.id@;
        assert(store@.fails(desired@, trees, failure));
        assert(failed_texts(plan.failures@)[i] == key);
        assert(failed_texts(plan.failures@).contains(key));
        lemma_desired_view(desired, key);
        lemma_launchable(desired.servers@[key], trees, source_of(desired, key));
    }
    if 0 <= i < j < plan.servers_to_stop@.len() {
        assert(id_texts(plan.servers_to_stop@)[i] != id_texts(plan.servers_to_stop@)[j]);
    }
    if 0 <= i < j < plan.servers_to_remove@.len() {
        assert(id_texts(plan.servers_to_remove@)[i] != id_texts(plan.servers_to_remove@)[j]);
    }
    if 0 <= i < j < plan.servers_to_start@.len() {
        assert(planned_texts(plan.servers_to_start@)[i] != planned_texts(
            plan.servers_to_start@,
        )[j]);
    }
    if 0 <= i < j < plan.failures@.len() {
        assert(failed_texts(plan.failures@)[i] != failed_texts(plan.failures@)[j]);
    }
}

proof fn lemma_planned<
    F: Fn(ContextServerId, Arc<ContextServerConfiguration>) -> Arc<ContextServer>,
>(
    store: StoreView<F>,
    desired: DesiredServers,
    worktrees: WorktreeStore,
    plan: UpdatePlan,
    i: int,
)
    requires
        store.is_plan(desired@, worktrees.worktrees@, plan),
        0 <= i < plan.servers_to_start@.len(),
    ensures
        ({
            let planned = plan.servers_to_start@[i];
            let key = (*planned.id.0)@;
            &&& desired.servers@.contains_key(key)
            &&& same_configuration(*planned.configuration, desired.servers@[key])
            &&& made(
                store.factory,
                planned.id,
                planned.configuration,
                worktrees.worktrees@,
                source_of(desired, key),
                planned.server,
            )
        }),
{
    let planned = plan.servers_to_start@[i];
    let key = planned.id@;
    assert(store.plans(desired@, worktrees.worktrees@, planned));
    assert(planned_texts(plan.servers_to_start@)[i] == key);
    assert(planned_texts(plan.servers_to_start@).contains(key));
    lemma_desired_view(desired, key);
    let configuration = planned.configuration;
    let own = *configuration;
    lemma_same_configuration(own, desired.servers@[key]);
    lemma_made(
        store,
        planned.id,
        configuration,
        worktrees.worktrees@,
        source_of(desired, key),
        planned.server,
    );
}

/// An update, planned and carried out, brings every server in line. One that there should not
/// be is gone. One that there should be and that can be made is there with the desired
/// configuration, the same in every field: just as it was, if it was there so; else starting,
/// as a server made from that configuration. One that cannot be made is just as it was, or
/// still not there.
///
/// This supposes that each planned server goes by the identifier that it was made for, as
/// servers launched by a command do.
pub proof fn law_updates_bring_in_line<
    F: Fn(ContextServerId, Arc<ContextServerConfiguration>) -> Arc<ContextServer>,
>(
    planning: ContextServerStore<F>,
    desired: DesiredServers,
    worktrees: WorktreeStore,
    plan: UpdatePlan,
    store: &mut ContextServerStore<F>,
    cx: &mut Context,
    key: Seq<char>,
)
    requires
        call_ensures(
            ContextServerStore::<F>::plan_update,
            (&planning, &desired, &worktrees),
            plan,
        ),
        call_ensures(ContextServerStore::<F>::apply_plan, (store, plan, cx), ()),
        old(store)@ == planning@,
        planning@.factory is None || forall|i: int|
            0 <= i < plan.servers_to_start@.len() ==> (*(
            #[trigger] plan.servers_to_start@[i]).server.id.0)@ == (*plan.servers_to_start@[i].id.0)@,
    ensures
        ({
            let before = planning@;
            let after = final(store)@.servers;
            if !wanted(before, desired, key) {
                !after.contains_key(key)
            } else if up_to_date(before, desired, key) || !can_be_made(desired, worktrees, key) {
                &&& after.contains_key(key) <==> before.servers.contains_key(key)
                &&& before.servers.contains_key(key) ==> after[key] == before.servers[key]
            } else {
                &&& after.contains_key(key)
                &&& after[key] is Starting
                &&& same_configuration(*configuration_of(after[key]), desired.servers@[key])
                &&& exists|id: ContextServerId|
                    (*id.0)@ == key && #[trigger] made(
                        before.factory,
                        id,
                        configuration_of(after[key]),
                        worktrees.worktrees@,
                        source_of(desired, key),
                        server_of(after[key]),
                    )
            }
        }),
{
    let before = planning@;
    let trees = worktrees.worktrees@;
    lemma_words(before, desired, worktrees, key);
    if before.factory is None {
        law_launched_servers_keep_ids(before, desired@, trees, plan);
    }
    assert(keeps_ids(plan.servers_to_start@));
    law_update_brings_in_line(before, desired@, trees, plan);
    let after = before.after(plan);
    assert(final(store)@ == after);
    assert(after.servers.contains_key(key) <==> before.runnable(desired@).contains_key(key) && (
    before.servers.contains_key(key) || before.is_due(desired@, trees, key)));
    if before.is_due(desired@, trees, key) {
        let planned = choose|planned: PlannedServer|
            {
                &&& #[trigger] plan.servers_to_start@.contains(planned)
                &&& planned.id@ == key
                &&& before.plans(desired@, trees, planned)
                &&& after.servers[key].spec_server() == planned.server
                &&& after.servers[key].spec_configuration() == planned.configuration
            };
        let i = choose|i: int|
            0 <= i < plan.servers_to_start@.len() && plan.servers_to_start@[i] == planned;
        lemma_planned(before, desired, worktrees, plan, i);
        assert(configuration_of(after.servers[key]) == planned.configuration);
        assert(server_of(after.servers[key]) == planned.server);
        let id = planned.id;
        assert(made(
            before.factory,
            id,
            configuration_of(after.servers[key]),
            trees,
            source_of(desired, key),
            server_of(after.servers[key]),
        ));
    }
}

/// A server that was stopped is left alone by an update for which the configuration that it
/// had before the stop is desired: the update neither stops nor removes nor runs it.
pub proof fn law_stopped_servers_are_left_alone<
    F: Fn(ContextServerId, Arc<ContextServerConfiguration>) -> Arc<ContextServer>,
>(
    stopping: &mut ContextServerStore<F>,
    id: ContextServerId,
    cx: &mut Context,
    stop: Result<Stop, StoreError>,
    planning: ContextServerStore<F>,
    desired: DesiredServers,
    worktrees: WorktreeStore,
    plan: UpdatePlan,
)
    requires
        call_ensures(ContextServerStore::<F>::stop_server, (stopping, &id, cx), stop),
        call_ensures(
            ContextServerStore::<F>::plan_update,
            (&planning, &desired, &worktrees),
            plan,
        ),
        planning@ == final(stopping)@,
        old(stopping)@.servers.contains_key((*id.0)@),
        wanted(planning@, desired, (*id.0)@),
        same_configuration(
            *configuration_of(old(stopping)@.servers[(*id.0)@]),
            desired.servers@[(*id.0)@],
        ),
    ensures
        !names(plan.servers_to_stop@, (*id.0)@),
        !names(plan.servers_to_remove@, (*id.0)@),
        !runs(plan.servers_to_start@, (*id.0)@),
        planning@.servers[(*id.0)@] is Stopped,
{
    law_stopping(stopping, id, cx, stop);
    law_planning(planning, desired, worktrees, plan, (*id.0)@);
}

/// The next step of a plan that has servers to stop is to stop the first of them: it comes to
/// what stopping it comes to.
pub proof fn law_steps_stop_first<
    F: Fn(ContextServerId, Arc<ContextServerConfiguration>) -> Arc<ContextServer>,
>(
    store: &mut ContextServerStore<F>,
    plan: &mut UpdatePlan,
    cx: &mut Context,
    more: bool,
    stopping: &mut ContextServerStore<F>,
    id: ContextServerId,
    cx_stop: &mut Context,
    stop: Result<Stop, StoreError>,
)
    requires
        call_ensures(ContextServerStore::<F>::apply_step, (store, plan, cx), more),
        call_ensures(ContextServerStore::<F>::stop_server, (stopping, &id, cx_stop), stop),
        old(stopping)@ == old(store)@,
        old(cx_stop)@ == old(cx)@,
        old(plan).servers_to_stop@.len() > 0,
        id == old(plan).servers_to_stop@[0],
    ensures
        more,
        final(store)@ == final(stopping)@,
        final(cx)@ == final(cx_stop)@,
        final(plan).servers_to_stop@ == old(plan).servers_to_stop@.skip(1),
        final(plan).servers_to_remove@ == old(plan).servers_to_remove@,
        final(plan).servers_to_start@ == old(plan).servers_to_start@,
        final(plan).failures@ == old(plan).failures@,
{
}

/// With none left to stop, the next step is to remove the first server that is to be removed.
pub proof fn law_steps_remove_next<
    F: Fn(ContextServerId, Arc<ContextServerConfiguration>) -> Arc<ContextServer>,
>(
    store: &mut ContextServerStore<F>,
    plan: &mut UpdatePlan,
    cx: &mut Context,
    more: bool,
    removing: &mut ContextServerStore<F>,
    id: ContextServerId,
    cx_remove: &mut Context,
    removed: Result<(), StoreError>,
)
    requires
        call_ensures(ContextServerStore::<F>::apply_step, (store, plan, cx), more),
        call_ensures(ContextServerStore::<F>::remove_server, (removing, &id, cx_remove), removed),
        old(removing)@ == old(store)@,
        old(cx_remove)@ == old(cx)@,
        old(plan).servers_to_stop@.len() == 0,
        old(plan).servers_to_remove@.len() > 0,
        id == old(plan).servers_to_remove@[0],
    ensures
        more,
        final(store)@ == final(removing)@,
        final(cx)@ == final(cx_remove)@,
        final(plan).servers_to_stop@.len() == 0,
        final(plan).servers_to_remove@ == old(plan).servers_to_remove@.skip(1),
        final(plan).servers_to_start@ == old(plan).servers_to_start@,
        final(plan).failures@ == old(plan).failures@,
{
}

/// With none left to stop or to remove, the next step is to run the first planned server,
/// with its configuration.
pub proof fn law_steps_run_last<
    F: Fn(ContextServerId, Arc<ContextServerConfiguration>) -> Arc<ContextServer>,
>(
    store: &mut ContextServerStore<F>,
    plan: &mut UpdatePlan,
    cx: &mut Context,
    more: bool,
    running: &mut ContextServerStore<F>,
    planned: PlannedServer,
    cx_run: &mut Context,
)
    requires
        call_ensures(ContextServerStore::<F>::apply_step, (store, plan, cx), more),
        call_ensures(
            ContextServerStore::<F>::run_server,
            (running, planned.server, planned.configuration, cx_run),
            (),
        ),
        old(running)@ == old(store)@,
        old(cx_run)@ == old(cx)@,
        old(plan).servers_to_stop@.len() == 0,
        old(plan).servers_to_remove@.len() == 0,
        old(plan).servers_to_start@.len() > 0,
        planned == old(plan).servers_to_start@[0],
    ensures
        more,
        final(store)@ == final(running)@,
        final(cx)@ == final(cx_run)@,
        final(plan).servers_to_stop@.len() == 0,
        final(plan).servers_to_remove@.len() == 0,
        final(plan).servers_to_start@ == old(plan).servers_to_start@.skip(1),
        final(plan).failures@ == old(plan).failures@,
{
}

/// A plan without steps changes nothing and asks nothing, as a step or as a whole.
pub proof fn law_empty_plans<
    F: Fn(ContextServerId, Arc<ContextServerConfiguration>) -> Arc<ContextServer>,
>(
    stepping: &mut ContextServerStore<F>,
    plan: &mut UpdatePlan,
    cx_step: &mut Context,
    more: bool,
    store: &mut ContextServerStore<F>,
    whole: UpdatePlan,
    cx: &mut Context,
)
    requires
        call_ensures(ContextServerStore::<F>::apply_step, (stepping, plan, cx_step), more),
        call_ensures(ContextServerStore::<F>::apply_plan, (store, whole, cx), ()),
        old(plan).servers_to_stop@.len() == 0,
        old(plan).servers_to_remove@.len() == 0,
        old(plan).servers_to_start@.len() == 0,
        whole.servers_to_stop@.len() == 0,
        whole.servers_to_remove@.len() == 0,
        whole.servers_to_start@.len() == 0,
    ensures
        !more,
        final(stepping)@ == old(stepping)@,
        final(cx_step)@ == old(cx_step)@,
        final(store)@ == old(store)@,
        final(cx)@ == old(cx)@,
{
    assert(final(cx)@ =~= old(cx)@);
    assert(final(cx_step)@ =~= old(cx_step)@);
}

/// To carry a plan out comes to what its next step comes to, and then the rest of it.
pub proof fn law_plans_are_their_steps<
    F: Fn(ContextServerId, Arc<ContextServerConfiguration>) -> Arc<ContextServer>,
>(
    store: &mut ContextServerStore<F>,
    cx: &mut Context,
    plan: UpdatePlan,
    stepping: &mut ContextServerStore<F>,
    cx_step: &mut Context,
    rest: &mut UpdatePlan,
    going_on: &mut ContextServerStore<F>,
    cx_rest: &mut Context,
)
    requires
        call_ensures(ContextServerStore::<F>::apply_plan, (store, plan, cx), ()),
        call_ensures(ContextServerStore::<F>::apply_step, (stepping, rest, cx_step), true),
        call_ensures(
            ContextServerStore::<F>::apply_plan,
            (going_on, *final(rest), cx_rest),
            (),
        ),
        *old(rest) == plan,
        old(stepping)@ == old(store)@,
        old(cx_step)@ == old(cx)@,
        old(going_on)@ == final(stepping)@,
        old(cx_rest)@ == final(cx_step)@,
    ensures
        final(store)@ == final(going_on)@,
        final(cx)@ == final(cx_rest)@,
{
    let before = old(store)@;
    law_steps_make_the_plan(before, plan, *final(rest));
    assert(old(cx)@ + before.step_effects(plan) + before.after_step(plan).plan_effects(
        *final(rest),
    ) =~= old(cx)@ + before.plan_effects(plan));
}

} // verus!
