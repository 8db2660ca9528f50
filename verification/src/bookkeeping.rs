//! The store's books: that it waits for just what it has asked of its host.

use crate::context_server::{ContextServer, ContextServerConfiguration, ContextServerId};
use crate::maintain::UpdatePlan;
use crate::state::{Context, ContextServerState, Effect, StoreError, TaskId};
use crate::store::{ContextServerStore, Stop, StoreView};
use crate::store_laws::{law_every_store, server_of};
use std::sync::Arc;
use vstd::prelude::*;

verus! {

/// The effect begins or drops a start under the task.
pub open spec fn touches(effect: Effect, task: TaskId) -> bool {
    match effect {
        Effect::StartServer { task: started, .. } => started == task,
        Effect::DropTask(dropped) => dropped == task,
        _ => false,
    }
}

/// The last that was asked of the host under the task is to start this server with this
/// configuration.
pub open spec fn start_is_asked_for(
    history: Seq<Effect>,
    task: TaskId,
    server: Arc<ContextServer>,
    configuration: Arc<ContextServerConfiguration>,
) -> bool {
    exists|i: int|
        {
            &&& 0 <= i < history.len()
            &&& #[trigger] history[i] == (Effect::StartServer { task, server, configuration })
            &&& forall|j: int| i < j < history.len() ==> !touches(#[trigger] history[j], task)
        }
}

/// The last update that was asked of the host is the one under the task.
pub open spec fn update_is_asked_for(history: Seq<Effect>, task: TaskId) -> bool {
    exists|i: int|
        {
            &&& 0 <= i < history.len()
            &&& #[trigger] history[i] == Effect::MaintainServers(task)
            &&& forall|j: int|
                i < j < history.len() ==> !(#[trigger] history[j] is MaintainServers)
        }
}

/// How many updates were asked of the host.
pub open spec fn updates_asked(history: Seq<Effect>) -> nat
    decreases history.len(),
{
    if history.len() == 0 {
        0
    } else {
        updates_asked(history.drop_last()) + if history.last() is MaintainServers {
            1nat
        } else {
            0nat
        }
    }
}

/// The books are in order, where the host has reported the end of `ended` updates. Whenever
/// the store waits for a start, the host was last asked, under that task, to start the very
/// server that the store holds, with the configuration that it holds. The store records an
/// update as under way exactly if the host was asked for one more than it has ended, and then
/// that one.
pub open spec fn in_order<F>(store: StoreView<F>, history: Seq<Effect>, ended: nat) -> bool {
    &&& forall|key: Seq<char>| #[trigger]
        store.servers.contains_key(key) ==> match store.servers[key] {
            ContextServerState::Starting { server, configuration, task } => start_is_asked_for(
                history,
                task,
                server,
                configuration,
            ),
            _ => true,
        }
    &&& match store.update_servers_task {
        Some(task) => updates_asked(history) == ended + 1 && update_is_asked_for(history, task),
        None => updates_asked(history) == ended,
    }
}

proof fn lemma_start_stays_asked_for(
    history: Seq<Effect>,
    effects: Seq<Effect>,
    task: TaskId,
    server: Arc<ContextServer>,
    configuration: Arc<ContextServerConfiguration>,
)
    requires
        start_is_asked_for(history, task, server, configuration),
        forall|j: int| 0 <= j < effects.len() ==> !touches(#[trigger] effects[j], task),
    ensures
        start_is_asked_for(history + effects, task, server, configuration),
{
    let all = history + effects;
    let i = choose|i: int|
        {
            &&& 0 <= i < history.len()
            &&& #[trigger] history[i] == (Effect::StartServer { task, server, configuration })
            &&& forall|j: int| i < j < history.len() ==> !touches(#[trigger] history[j], task)
        };
    assert(all[i] == history[i]);
    assert forall|j: int| i < j < all.len() implies !touches(#[trigger] all[j], task) by {
        if j < history.len() {
            assert(all[j] == history[j]);
        } else {
            assert(all[j] == effects[j - history.len()]);
        }
    }
}

proof fn lemma_updates_stay(history: Seq<Effect>, effects: Seq<Effect>)
    requires
        forall|j: int| 0 <= j < effects.len() ==> !(#[trigger] effects[j] is MaintainServers),
    ensures
        updates_asked(history + effects) == updates_asked(history),
        forall|task: TaskId| #[trigger]
            update_is_asked_for(history, task) ==> update_is_asked_for(history + effects, task),
    decreases effects.len(),
{
    let all = history + effects;
    if effects.len() == 0 {
        assert(all =~= history);
    } else {
        assert(all.drop_last() =~= history + effects.drop_last());
        assert(all.last() == effects.last());
        lemma_updates_stay(history, effects.drop_last());
    }
    assert forall|task: TaskId| #[trigger]
        update_is_asked_for(history, task) implies update_is_asked_for(all, task) by {
        let i = choose|i: int|
            {
                &&& 0 <= i < history.len()
                &&& #[trigger] history[i] == Effect::MaintainServers(task)
                &&& forall|j: int|
                    i < j < history.len() ==> !(#[trigger] history[j] is MaintainServers)
            };
        assert(all[i] == history[i]);
        assert forall|j: int| i < j < all.len() implies !(
        #[trigger] all[j] is MaintainServers) by {
            if j < history.len() {
                assert(all[j] == history[j]);
            } else {
                assert(all[j] == effects[j - history.len()]);
            }
        }
    }
}

proof fn lemma_one_more_update(history: Seq<Effect>, task: TaskId)
    ensures
        updates_asked(history.push(Effect::MaintainServers(task))) == updates_asked(history) + 1,
        update_is_asked_for(history.push(Effect::MaintainServers(task)), task),
{
    let all = history.push(Effect::MaintainServers(task));
    assert(all.drop_last() =~= history);
    assert(all[history.len() as int] == Effect::MaintainServers(task));
}

/// Two servers never start under one task.
proof fn lemma_tasks_differ<
    F: Fn(ContextServerId, Arc<ContextServerConfiguration>) -> Arc<ContextServer>,
>(store: StoreView<F>, history: Seq<Effect>, ended: nat, a: Seq<char>, b: Seq<char>)
    requires
        store.wf(),
        in_order(store, history, ended),
        store.servers.contains_key(a),
        store.servers.contains_key(b),
        store.servers[a] is Starting,
        store.servers[b] is Starting,
        store.servers[a]->task == store.servers[b]->task,
    ensures
        a == b,
{
    law_every_store(store);
    let task = store.servers[a]->task;
    let (server_a, configuration_a) = (
        store.servers[a]->Starting_server,
        store.servers[a]->Starting_configuration,
    );
    let (server_b, configuration_b) = (
        store.servers[b]->Starting_server,
        store.servers[b]->Starting_configuration,
    );
    assert(start_is_asked_for(history, task, server_a, configuration_a));
    assert(start_is_asked_for(history, task, server_b, configuration_b));
    let i = choose|i: int|
        {
            &&& 0 <= i < history.len()
            &&& #[trigger] history[i] == (Effect::StartServer {
                task,
                server: server_a,
                configuration: configuration_a,
            })
            &&& forall|j: int| i < j < history.len() ==> !touches(#[trigger] history[j], task)
        };
    let k = choose|i: int|
        {
            &&& 0 <= i < history.len()
            &&& #[trigger] history[i] == (Effect::StartServer {
                task,
                server: server_b,
                configuration: configuration_b,
            })
            &&& forall|j: int| i < j < history.len() ==> !touches(#[trigger] history[j], task)
        };
    assert(touches(history[i], task) && touches(history[k], task));
    assert(i == k);
    assert(server_of(store.servers[a]) == server_of(store.servers[b]));
}

/// The books stay in order where the state of one server changes to one that waits for
/// nothing, or the server goes, and only its own task is dropped.
proof fn lemma_one_server_rests<
    F: Fn(ContextServerId, Arc<ContextServerConfiguration>) -> Arc<ContextServer>,
>(
    store: StoreView<F>,
    after: StoreView<F>,
    history: Seq<Effect>,
    effects: Seq<Effect>,
    ended: nat,
    changed: Seq<char>,
)
    requires
        store.wf(),
        in_order(store, history, ended),
        after.update_servers_task == store.update_servers_task,
        forall|key: Seq<char>| #[trigger]
            after.servers.contains_key(key) && after.servers[key] is Starting ==> {
                &&& key != changed
                &&& store.servers.contains_key(key)
                &&& after.servers[key] == store.servers[key]
            },
        forall|j: int|
            0 <= j < effects.len() ==> {
                &&& !(#[trigger] effects[j] is MaintainServers)
                &&& !(effects[j] is StartServer)
                &&& effects[j] matches Effect::DropTask(task) ==> store.awaits(changed, task)
            },
    ensures
        in_order(after, history + effects, ended),
{
    lemma_updates_stay(history, effects);
    assert forall|key: Seq<char>| #[trigger] after.servers.contains_key(key) implies match
    after.servers[key] {
        ContextServerState::Starting { server, configuration, task } => start_is_asked_for(
            history + effects,
            task,
            server,
            configuration,
        ),
        _ => true,
    } by {
        if let ContextServerState::Starting { server, configuration, task } = after.servers[key] {
            assert(store.servers.contains_key(key));
            assert forall|j: int| 0 <= j < effects.len() implies !touches(
                #[trigger] effects[j],
                task,
            ) by {
                if touches(effects[j], task) {
                    assert(store.awaits(changed, task));
                    lemma_tasks_differ(store, history, ended, key, changed);
                }
            }
            lemma_start_stays_asked_for(history, effects, task, server, configuration);
        }
    }
}

pub(crate) proof fn lemma_stop_keeps_order<
    F: Fn(ContextServerId, Arc<ContextServerConfiguration>) -> Arc<ContextServer>,
>(store: StoreView<F>, history: Seq<Effect>, ended: nat, id: ContextServerId)
    requires
        store.wf(),
        in_order(store, history, ended),
    ensures
        in_order(store.stopped(id@), history + store.stop_effects(id), ended),
{
    lemma_one_server_rests(store, store.stopped(id@), history, store.stop_effects(id), ended, id@);
}

pub(crate) proof fn lemma_remove_keeps_order<
    F: Fn(ContextServerId, Arc<ContextServerConfiguration>) -> Arc<ContextServer>,
>(store: StoreView<F>, history: Seq<Effect>, ended: nat, id: ContextServerId)
    requires
        store.wf(),
        in_order(store, history, ended),
    ensures
        in_order(store.removed(id@), history + store.remove_effects(id), ended),
{
    lemma_one_server_rests(
        store,
        store.removed(id@),
        history,
        store.remove_effects(id),
        ended,
        id@,
    );
}

pub(crate) proof fn lemma_run_keeps_order<
    F: Fn(ContextServerId, Arc<ContextServerConfiguration>) -> Arc<ContextServer>,
>(
    store: StoreView<F>,
    history: Seq<Effect>,
    ended: nat,
    server: Arc<ContextServer>,
    configuration: Arc<ContextServerConfiguration>,
)
    requires
        store.wf(),
        in_order(store, history, ended),
    ensures
        in_order(
            store.run(server, configuration),
            history + store.run_effects(server, configuration),
            ended,
        ),
{
    let effects = store.run_effects(server, configuration);
    let after = store.run(server, configuration);
    let new = TaskId(store.next_task);
    let all = history + effects;
    let n = effects.len() as int;
    law_every_store(store);
    assert forall|j: int| 0 <= j < effects.len() implies !(
    #[trigger] effects[j] is MaintainServers) by {}
    lemma_updates_stay(history, effects);
    assert forall|key: Seq<char>| #[trigger] after.servers.contains_key(key) implies match
    after.servers[key] {
        ContextServerState::Starting { server, configuration, task } => start_is_asked_for(
            all,
            task,
            server,
            configuration,
        ),
        _ => true,
    } by {
        if key == server.id@ {
            let i = history.len() + n - 2;
            assert(all[i] == effects[n - 2]);
            assert(all[i] == (Effect::StartServer { task: new, server, configuration }));
            assert forall|j: int| i < j < all.len() implies !touches(#[trigger] all[j], new) by {
                assert(all[j] == effects[n - 1]);
            }
            assert(start_is_asked_for(all, new, server, configuration));
        } else {
            assert(store.servers.contains_key(key));
            if let ContextServerState::Starting { server: held, configuration: own, task } =
                store.servers[key] {
                assert(after.servers[key] == store.servers[key]);
                assert forall|j: int| 0 <= j < effects.len() implies !touches(
                    #[trigger] effects[j],
                    task,
                ) by {
                    if touches(effects[j], task) {
                        assert(task != new);
                        assert(store.awaits(server.id@, task));
                        lemma_tasks_differ(store, history, ended, key, server.id@);
                    }
                }
                lemma_start_stays_asked_for(history, effects, task, held, own);
            }
        }
    }
}

pub(crate) proof fn lemma_step_keeps_order<
    F: Fn(ContextServerId, Arc<ContextServerConfiguration>) -> Arc<ContextServer>,
>(store: StoreView<F>, history: Seq<Effect>, ended: nat, plan: UpdatePlan)
    requires
        store.wf(),
        in_order(store, history, ended),
    ensures
        in_order(store.after_step(plan), history + store.step_effects(plan), ended),
{
    if plan.servers_to_stop@.len() > 0 {
        lemma_stop_keeps_order(store, history, ended, plan.servers_to_stop@[0]);
    } else if plan.servers_to_remove@.len() > 0 {
        lemma_remove_keeps_order(store, history, ended, plan.servers_to_remove@[0]);
    } else if plan.servers_to_start@.len() > 0 {
        let planned = plan.servers_to_start@[0];
        lemma_run_keeps_order(store, history, ended, planned.server, planned.configuration);
    } else {
        assert(history + Seq::<Effect>::empty() =~= history);
    }
}

/// A new store begins with its books in order, with or without a first update.
pub proof fn law_books_begin_in_order<
    F: Fn(ContextServerId, Arc<ContextServerConfiguration>) -> Arc<ContextServer>,
>(
    cx: &mut Context,
    store: ContextServerStore<F>,
    cx_test: &mut Context,
    test: ContextServerStore<F>,
    cx_factory: &mut Context,
    factory: F,
    made: ContextServerStore<F>,
)
    requires
        call_ensures(ContextServerStore::<F>::new, (cx,), store),
        call_ensures(ContextServerStore::<F>::test, (cx_test,), test),
        call_ensures(
            ContextServerStore::<F>::test_maintain_server_loop,
            (factory, cx_factory),
            made,
        ),
        old(cx)@.len() == 0,
        old(cx_test)@.len() == 0,
        old(cx_factory)@.len() == 0,
    ensures
        in_order(store@, final(cx)@, 0),
        in_order(test@, final(cx_test)@, 0),
        in_order(made@, final(cx_factory)@, 0),
{
    lemma_one_more_update(old(cx)@, TaskId(0));
    lemma_one_more_update(old(cx_factory)@, TaskId(0));
    assert(updates_asked(old(cx)@) == 0);
    assert(updates_asked(old(cx_factory)@) == 0);
    assert(updates_asked(old(cx_test)@) == 0);
}

/// To stop a server keeps the books in order, whatever was asked of the host before.
pub proof fn law_stopping_keeps_the_books<
    F: Fn(ContextServerId, Arc<ContextServerConfiguration>) -> Arc<ContextServer>,
>(
    store: &mut ContextServerStore<F>,
    id: ContextServerId,
    cx: &mut Context,
    result: Result<Stop, StoreError>,
    past: Seq<Effect>,
    ended: nat,
)
    requires
        old(store)@.wf(),
        call_ensures(ContextServerStore::<F>::stop_server, (store, &id, cx), result),
        in_order(old(store)@, past + old(cx)@, ended),
    ensures
        in_order(final(store)@, past + final(cx)@, ended),
{
    lemma_stop_keeps_order(old(store)@, past + old(cx)@, ended, id);
    assert(past + final(cx)@ =~= past + old(cx)@ + old(store)@.stop_effects(id));
}

/// To remove a server keeps the books in order.
pub proof fn law_removing_keeps_the_books<
    F: Fn(ContextServerId, Arc<ContextServerConfiguration>) -> Arc<ContextServer>,
>(
    store: &mut ContextServerStore<F>,
    id: ContextServerId,
    cx: &mut Context,
    result: Result<(), StoreError>,
    past: Seq<Effect>,
    ended: nat,
)
    requires
        old(store)@.wf(),
        call_ensures(ContextServerStore::<F>::remove_server, (store, &id, cx), result),
        in_order(old(store)@, past + old(cx)@, ended),
    ensures
        in_order(final(store)@, past + final(cx)@, ended),
{
    lemma_remove_keeps_order(old(store)@, past + old(cx)@, ended, id);
    assert(past + final(cx)@ =~= past + old(cx)@ + old(store)@.remove_effects(id));
}

/// To run a server keeps the books in order.
pub proof fn law_running_keeps_the_books<
    F: Fn(ContextServerId, Arc<ContextServerConfiguration>) -> Arc<ContextServer>,
>(
    store: &mut ContextServerStore<F>,
    server: Arc<ContextServer>,
    configuration: Arc<ContextServerConfiguration>,
    cx: &mut Context,
    past: Seq<Effect>,
    ended: nat,
)
    requires
        old(store)@.wf(),
        call_ensures(
            ContextServerStore::<F>::run_server,
            (store, server, configuration, cx),
            (),
        ),
        in_order(old(store)@, past + old(cx)@, ended),
    ensures
        in_order(final(store)@, past + final(cx)@, ended),
{
    lemma_run_keeps_order(old(store)@, past + old(cx)@, ended, server, configuration);
    assert(past + final(cx)@ =~= past + old(cx)@ + old(store)@.run_effects(server, configuration));
}

/// The report of a start keeps the books in order.
pub proof fn law_reports_keep_the_books<
    F: Fn(ContextServerId, Arc<ContextServerConfiguration>) -> Arc<ContextServer>,
>(
    store: &mut ContextServerStore<F>,
    id: ContextServerId,
    task: TaskId,
    outcome: Result<(), Arc<str>>,
    cx: &mut Context,
    past: Seq<Effect>,
    ended: nat,
)
    requires
        old(store)@.wf(),
        call_ensures(
            ContextServerStore::<F>::finish_start,
            (store, &id, task, outcome, cx),
            (),
        ),
        in_order(old(store)@, past + old(cx)@, ended),
    ensures
        in_order(final(store)@, past + final(cx)@, ended),
{
    let effects = old(store)@.report_effects(id@, task, outcome);
    law_every_store(old(store)@);
    if old(store)@.awaits(id@, task) {
        assert(old(store)@.servers.contains_key(id@));
        lemma_one_server_rests(
            old(store)@,
            final(store)@,
            past + old(cx)@,
            effects,
            ended,
            id@,
        );
    }
    assert(past + final(cx)@ =~= past + old(cx)@ + effects);
    assert(past + old(cx)@ + Seq::<Effect>::empty() =~= past + old(cx)@);
}

/// To hear of a change keeps the books in order.
pub proof fn law_changes_keep_the_books<
    F: Fn(ContextServerId, Arc<ContextServerConfiguration>) -> Arc<ContextServer>,
>(store: &mut ContextServerStore<F>, cx: &mut Context, past: Seq<Effect>, ended: nat)
    requires
        old(store)@.wf(),
        call_ensures(
            ContextServerStore::<F>::available_context_servers_changed,
            (store, cx),
            (),
        ),
        in_order(old(store)@, past + old(cx)@, ended),
    ensures
        in_order(final(store)@, past + final(cx)@, ended),
{
    lemma_update_begins(old(store)@, final(store)@, past + old(cx)@, ended, ended);
    if old(store)@.update_servers_task is Some {
        assert(past + final(cx)@ =~= past + old(cx)@);
    } else {
        let begun = Effect::MaintainServers(TaskId(old(store)@.next_task));
        assert(past + final(cx)@ =~= (past + old(cx)@).push(begun));
    }
}

/// The servers stay, and either nothing is asked or one update is, which is then recorded.
proof fn lemma_update_begins<F>(
    store: StoreView<F>,
    after: StoreView<F>,
    history: Seq<Effect>,
    ended: nat,
    ended_after: nat,
)
    requires
        in_order(store, history, ended),
        after.servers == store.servers,
    ensures
        after.update_servers_task == store.update_servers_task && ended_after == ended
            ==> in_order(after, history, ended_after),
        store.update_servers_task is Some && after.update_servers_task is None && ended_after
            == ended + 1 ==> in_order(after, history, ended_after),
        updates_asked(history) == ended_after ==> (after.update_servers_task matches Some(task)
            ==> in_order(after, history.push(Effect::MaintainServers(task)), ended_after)),
{
    if let Some(task) = after.update_servers_task {
        let effects = seq![Effect::MaintainServers(task)];
        lemma_one_more_update(history, task);
        assert(history + effects =~= history.push(Effect::MaintainServers(task)));
        assert forall|key: Seq<char>| #[trigger] after.servers.contains_key(key) implies match
        after.servers[key] {
            ContextServerState::Starting { server, configuration, task } => start_is_asked_for(
                history + effects,
                task,
                server,
                configuration,
            ),
            _ => true,
        } by {
            assert(store.servers.contains_key(key));
            if let ContextServerState::Starting { server, configuration, task } =
                after.servers[key] {
                lemma_start_stays_asked_for(history, effects, task, server, configuration);
            }
        }
    }
}

/// The end of the update that is under way keeps the books in order: the host has then ended
/// one more.
pub proof fn law_ends_of_updates_keep_the_books<
    F: Fn(ContextServerId, Arc<ContextServerConfiguration>) -> Arc<ContextServer>,
>(store: &mut ContextServerStore<F>, cx: &mut Context, past: Seq<Effect>, ended: nat)
    requires
        old(store)@.wf(),
        call_ensures(ContextServerStore::<F>::finish_update, (store, cx), ()),
        in_order(old(store)@, past + old(cx)@, ended),
        old(store)@.update_servers_task is Some,
    ensures
        in_order(final(store)@, past + final(cx)@, ended + 1),
{
    lemma_update_begins(old(store)@, final(store)@, past + old(cx)@, ended, ended + 1);
    if old(store)@.needs_server_update {
        let begun = Effect::MaintainServers(TaskId(old(store)@.next_task));
        assert(past + final(cx)@ =~= (past + old(cx)@).push(begun));
    } else {
        assert(past + final(cx)@ =~= past + old(cx)@);
    }
}

/// To carry a plan out keeps the books in order.
pub proof fn law_plans_keep_the_books<
    F: Fn(ContextServerId, Arc<ContextServerConfiguration>) -> Arc<ContextServer>,
>(
    store: &mut ContextServerStore<F>,
    plan: UpdatePlan,
    cx: &mut Context,
    past: Seq<Effect>,
    ended: nat,
)
    requires
        call_ensures(ContextServerStore::<F>::apply_plan, (store, plan, cx), ()),
        in_order(old(store)@, past + old(cx)@, ended),
    ensures
        in_order(final(store)@, past + final(cx)@, ended),
{
    assert(past + final(cx)@ =~= past + old(cx)@ + old(store)@.plan_effects(plan));
}

} // verus!
