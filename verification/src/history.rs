//! What a store has asked of its host over several operations: the announcements of each
//! server, and the starts that are under way.

use crate::context_server::{ContextServer, ContextServerConfiguration, ContextServerId};
use crate::laws::{
    keeps_ids, lemma_removed_all, lemma_stopped_all, lemma_stopped_all_halts, lemma_tail_texts,
};
use crate::maintain::{id_texts, planned_texts, DesiredView, PlannedServer, UpdatePlan};
use crate::project::Worktree;
use crate::state::{ContextServerState, ContextServerStatus, Effect, Event, TaskId};
use crate::store::{status_event, StoreView};
use std::sync::Arc;
use vstd::prelude::*;

verus! {

/// The effect announces the status of some server.
pub open spec fn announces(effect: Effect, announced: ContextServerStatus) -> bool {
    effect matches Effect::Emit(Event::ServerStatusChanged { status, .. }) && status == announced
}

/// What the effect announces of the server `key`, as a list of no or one status.
pub open spec fn announcement(effect: Effect, key: Seq<char>) -> Seq<ContextServerStatus> {
    match effect {
        Effect::Emit(Event::ServerStatusChanged { server_id, status }) if server_id@ == key => seq![
            status,
        ],
        _ => Seq::empty(),
    }
}

/// What was announced of the server `key`, in order.
pub open spec fn announcements(history: Seq<Effect>, key: Seq<char>) -> Seq<ContextServerStatus>
    decreases history.len(),
{
    if history.len() == 0 {
        Seq::empty()
    } else {
        announcements(history.drop_last(), key) + announcement(history.last(), key)
    }
}

/// What was announced of the server `key` last.
pub open spec fn last_announced(history: Seq<Effect>, key: Seq<char>) -> Option<
    ContextServerStatus,
> {
    let all = announcements(history, key);
    if all.len() == 0 {
        None
    } else {
        Some(all.last())
    }
}

/// What was announced of the server `key` last is its status. Of a server that the store
/// does not have, nothing was announced, or last that it is stopped.
pub open spec fn status_is_announced<F>(
    store: StoreView<F>,
    history: Seq<Effect>,
    key: Seq<char>,
) -> bool {
    if store.servers.contains_key(key) {
        last_announced(history, key) == Some(store.servers[key].status())
    } else {
        last_announced(history, key) is None || last_announced(history, key) == Some(
            ContextServerStatus::Stopped,
        )
    }
}

/// Whoever listened to all announcements knows the status of each server.
pub open spec fn is_announced<F>(store: StoreView<F>, history: Seq<Effect>) -> bool {
    forall|key: Seq<char>| #[trigger] status_is_announced(store, history, key)
}

/// The server that is being started by the task: it was asked for, and the task was not
/// dropped since.
pub open spec fn live_start(history: Seq<Effect>, task: TaskId) -> Option<Seq<char>>
    decreases history.len(),
{
    if history.len() == 0 {
        None
    } else {
        match history.last() {
            Effect::StartServer { task: started, server, .. } if started == task => Some(
                server.id@,
            ),
            Effect::DropTask(dropped) if dropped == task => None,
            _ => live_start(history.drop_last(), task),
        }
    }
}

/// The store waits for just those starts that the host has under way.
pub open spec fn awaits_live_starts<F>(store: StoreView<F>, history: Seq<Effect>) -> bool {
    forall|key: Seq<char>, task: TaskId| #[trigger]
        store.awaits(key, task) <==> live_start(history, task) == Some(key)
}

proof fn lemma_announcements_push(history: Seq<Effect>, effect: Effect, key: Seq<char>)
    ensures
        announcements(history.push(effect), key) == announcements(history, key) + announcement(
            effect,
            key,
        ),
{
    assert(history.push(effect).drop_last() =~= history);
}

proof fn lemma_announcements_add(history: Seq<Effect>, effects: Seq<Effect>, key: Seq<char>)
    ensures
        announcements(history + effects, key) == announcements(history, key) + announcements(
            effects,
            key,
        ),
    decreases effects.len(),
{
    if effects.len() == 0 {
        assert(history + effects =~= history);
        assert(announcements(history, key) + announcements(effects, key) =~= announcements(
            history,
            key,
        ));
    } else {
        let both = history + effects;
        assert(both.drop_last() =~= history + effects.drop_last());
        assert(both.last() == effects.last());
        lemma_announcements_add(history, effects.drop_last(), key);
        assert(announcements(both, key) =~= announcements(history, key) + announcements(
            effects,
            key,
        ));
    }
}

/// What was announced last is announced by the effects, if they announce anything of the
/// server.
proof fn lemma_last_announced(history: Seq<Effect>, effects: Seq<Effect>, key: Seq<char>)
    ensures
        last_announced(history + effects, key) == (if announcements(effects, key).len() > 0 {
            Some(announcements(effects, key).last())
        } else {
            last_announced(history, key)
        }),
{
    lemma_announcements_add(history, effects, key);
    if announcements(effects, key).len() == 0 {
        assert(announcements(history, key) + announcements(effects, key) =~= announcements(
            history,
            key,
        ));
    }
}

/// The status, where it is announced of the server `key` itself.
pub open spec fn told(
    id: Seq<char>,
    status: ContextServerStatus,
    key: Seq<char>,
) -> Seq<ContextServerStatus> {
    if id == key {
        seq![status]
    } else {
        Seq::empty()
    }
}

/// An announcement of a status, after at most the end of a task.
proof fn lemma_dropping_announcements<F>(
    store: StoreView<F>,
    id: ContextServerId,
    status: ContextServerStatus,
    key: Seq<char>,
)
    ensures
        announcements(
            store.dropping(id@).push(status_event(id, status)),
            key,
        ) == told(id@, status, key),
{
    let dropping = store.dropping(id@);
    lemma_announcements_push(dropping, status_event(id, status), key);
    assert(announcements(dropping, key) =~= Seq::empty()) by {
        let none = Seq::<Effect>::empty();
        assert(announcements(none, key) == Seq::<ContextServerStatus>::empty());
        if store.is_starting(id@) {
            lemma_announcements_push(none, dropping[0], key);
            assert(dropping =~= none.push(dropping[0]));
        }
    }
    assert(announcements(dropping.push(status_event(id, status)), key) =~= told(
        id@,
        status,
        key,
    ));
}

proof fn lemma_stop_announcements<F>(store: StoreView<F>, id: ContextServerId, key: Seq<char>)
    ensures
        announcements(store.stop_effects(id), key) == (if store.servers.contains_key(id@) {
            told(id@, ContextServerStatus::Stopped, key)
        } else {
            Seq::empty()
        }),
{
    let effects = store.stop_effects(id);
    if store.is_running(id@) {
        let none = Seq::<Effect>::empty();
        assert(announcements(none, key) == Seq::<ContextServerStatus>::empty());
        lemma_announcements_push(none, effects[0], key);
        lemma_announcements_push(none.push(effects[0]), effects[1], key);
        assert(effects =~= none.push(effects[0]).push(effects[1]));
        assert(announcements(effects, key) =~= told(id@, ContextServerStatus::Stopped, key));
    } else if store.servers.contains_key(id@) {
        lemma_dropping_announcements(store, id, ContextServerStatus::Stopped, key);
    }
}

proof fn lemma_remove_announcements<F>(store: StoreView<F>, id: ContextServerId, key: Seq<char>)
    ensures
        announcements(store.remove_effects(id), key) == (if store.servers.contains_key(id@) {
            told(id@, ContextServerStatus::Stopped, key)
        } else {
            Seq::empty()
        }),
{
    if store.servers.contains_key(id@) {
        lemma_dropping_announcements(store, id, ContextServerStatus::Stopped, key);
    }
}

proof fn lemma_run_announcements<F>(
    store: StoreView<F>,
    server: Arc<ContextServer>,
    configuration: Arc<ContextServerConfiguration>,
    key: Seq<char>,
)
    ensures
        announcements(store.run_effects(server, configuration), key) == (if store.is_running(
            server.id@,
        ) || store.is_starting(server.id@) {
            told(server.id@, ContextServerStatus::Stopped, key)
        } else {
            Seq::empty()
        }) + told(server.id@, ContextServerStatus::Starting, key),
{
    let effects = store.run_effects(server, configuration);
    let n = effects.len() as int;
    let first = effects.take(n - 2);
    lemma_announcements_push(first, effects[n - 2], key);
    lemma_announcements_push(first.push(effects[n - 2]), effects[n - 1], key);
    assert(effects =~= first.push(effects[n - 2]).push(effects[n - 1]));
    let id = server.id;
    lemma_stop_announcements(store, id, key);
    if store.is_running(server.id@) || store.is_starting(server.id@) {
        assert(first =~= store.stop_effects(server.id));
    } else {
        assert(first =~= Seq::empty());
    }
    assert(announcements(effects, key) =~= announcements(first, key) + told(
        server.id@,
        ContextServerStatus::Starting,
        key,
    ));
}

proof fn lemma_stop_is_announced<F>(store: StoreView<F>, history: Seq<Effect>, id: ContextServerId)
    requires
        is_announced(store, history),
    ensures
        is_announced(store.stopped(id@), history + store.stop_effects(id)),
{
    let effects = store.stop_effects(id);
    assert forall|key: Seq<char>| #[trigger]
        status_is_announced(store.stopped(id@), history + effects, key) by {
        assert(status_is_announced(store, history, key));
        lemma_stop_announcements(store, id, key);
        lemma_last_announced(history, effects, key);
    }
}

proof fn lemma_remove_is_announced<F>(
    store: StoreView<F>,
    history: Seq<Effect>,
    id: ContextServerId,
)
    requires
        is_announced(store, history),
    ensures
        is_announced(store.removed(id@), history + store.remove_effects(id)),
{
    let effects = store.remove_effects(id);
    assert forall|key: Seq<char>| #[trigger]
        status_is_announced(store.removed(id@), history + effects, key) by {
        assert(status_is_announced(store, history, key));
        lemma_remove_announcements(store, id, key);
        lemma_last_announced(history, effects, key);
    }
}

proof fn lemma_run_is_announced<F>(
    store: StoreView<F>,
    history: Seq<Effect>,
    server: Arc<ContextServer>,
    configuration: Arc<ContextServerConfiguration>,
)
    requires
        is_announced(store, history),
    ensures
        is_announced(
            store.run(server, configuration),
            history + store.run_effects(server, configuration),
        ),
{
    let effects = store.run_effects(server, configuration);
    let after = store.run(server, configuration);
    assert forall|key: Seq<char>| #[trigger]
        status_is_announced(after, history + effects, key) by {
        assert(status_is_announced(store, history, key));
        lemma_run_announcements(store, server, configuration, key);
        lemma_last_announced(history, effects, key);
    }
}

proof fn lemma_report_is_announced<
    F: Fn(ContextServerId, Arc<ContextServerConfiguration>) -> Arc<ContextServer>,
>(
    store: StoreView<F>,
    history: Seq<Effect>,
    reported: Seq<char>,
    task: TaskId,
    outcome: Result<(), Arc<str>>,
)
    requires
        store.wf(),
        is_announced(store, history),
    ensures
        is_announced(
            store.reported(reported, task, outcome),
            history + store.report_effects(reported, task, outcome),
        ),
{
    let effects = store.report_effects(reported, task, outcome);
    let after = store.reported(reported, task, outcome);
    if store.awaits(reported, task) {
        let id = store.servers[reported].spec_server().id;
        assert(store.servers.contains_key(reported));
        assert forall|key: Seq<char>| #[trigger]
            status_is_announced(after, history + effects, key) by {
            assert(status_is_announced(store, history, key));
            lemma_dropping_announcements(
                store,
                id,
                store.started(reported, outcome).status(),
                key,
            );
            lemma_last_announced(history, effects, key);
        }
    } else {
        assert(history + effects =~= history);
    }
}

/// A new store has announced nothing, and waits for no start.
pub proof fn law_new_stores_have_announced_nothing<F>(store: StoreView<F>, task: TaskId)
    requires
        store.servers == Map::<Seq<char>, ContextServerState>::empty(),
    ensures
        is_announced(store, Seq::empty()),
        is_announced(store, seq![Effect::MaintainServers(task)]),
        awaits_live_starts(store, Seq::empty()),
        awaits_live_starts(store, seq![Effect::MaintainServers(task)]),
{
    let none = Seq::<Effect>::empty();
    let begun = none.push(Effect::MaintainServers(task));
    assert(begun.drop_last() =~= none);
    assert(begun =~= seq![Effect::MaintainServers(task)]);
    assert forall|key: Seq<char>| #[trigger] status_is_announced(store, begun, key) by {
        assert(announcements(none, key) == Seq::<ContextServerStatus>::empty());
        lemma_announcements_push(none, begun[0], key);
        assert(announcements(begun, key) =~= Seq::<ContextServerStatus>::empty());
    }
}

/// The last announced status of a server is its status: every operation of the store keeps
/// this so, whatever was asked of the host before.
pub proof fn law_announced_status_is_current<
    F: Fn(ContextServerId, Arc<ContextServerConfiguration>) -> Arc<ContextServer>,
>(
    store: StoreView<F>,
    history: Seq<Effect>,
    id: ContextServerId,
    server: Arc<ContextServer>,
    configuration: Arc<ContextServerConfiguration>,
    task: TaskId,
    outcome: Result<(), Arc<str>>,
)
    requires
        store.wf(),
        is_announced(store, history),
    ensures
        is_announced(store.stopped(id@), history + store.stop_effects(id)),
        is_announced(store.removed(id@), history + store.remove_effects(id)),
        is_announced(
            store.run(server, configuration),
            history + store.run_effects(server, configuration),
        ),
        is_announced(
            store.reported(id@, task, outcome),
            history + store.report_effects(id@, task, outcome),
        ),
        is_announced(store.notified(), history + store.notified_effects()),
        is_announced(store.updated(), history + store.updated_effects()),
{
    lemma_stop_is_announced(store, history, id);
    lemma_remove_is_announced(store, history, id);
    lemma_run_is_announced(store, history, server, configuration);
    lemma_report_is_announced(store, history, id@, task, outcome);
    let none = Seq::<Effect>::empty();
    let next = none.push(Effect::MaintainServers(TaskId(store.next_task)));
    assert(history + none =~= history);
    assert(next =~= seq![Effect::MaintainServers(TaskId(store.next_task))]);
    assert forall|key: Seq<char>| #[trigger] status_is_announced(store, history + next, key) by {
        assert(status_is_announced(store, history, key));
        assert(announcements(none, key) == Seq::<ContextServerStatus>::empty());
        lemma_announcements_push(none, next[0], key);
        assert(announcements(next, key) =~= Seq::<ContextServerStatus>::empty());
        lemma_last_announced(history, next, key);
    }
    assert forall|key: Seq<char>| #[trigger]
        status_is_announced(store.notified(), history + store.notified_effects(), key) by {
        assert(status_is_announced(store, history, key));
        assert(status_is_announced(store, history + next, key));
    }
    assert forall|key: Seq<char>| #[trigger]
        status_is_announced(store.updated(), history + store.updated_effects(), key) by {
        assert(status_is_announced(store, history, key));
        assert(status_is_announced(store, history + next, key));
    }
}

proof fn lemma_stop_all_is_announced<F>(
    store: StoreView<F>,
    history: Seq<Effect>,
    ids: Seq<ContextServerId>,
)
    requires
        is_announced(store, history),
    ensures
        is_announced(store.stopped_all(ids), history + store.stop_all_effects(ids)),
    decreases ids.len(),
{
    if ids.len() == 0 {
        assert(history + store.stop_all_effects(ids) =~= history);
    } else {
        let next = store.stopped(ids[0]@);
        lemma_stop_is_announced(store, history, ids[0]);
        lemma_stop_all_is_announced(next, history + store.stop_effects(ids[0]), ids.skip(1));
        assert(history + store.stop_all_effects(ids) =~= history + store.stop_effects(ids[0])
            + next.stop_all_effects(ids.skip(1)));
    }
}

proof fn lemma_remove_all_is_announced<F>(
    store: StoreView<F>,
    history: Seq<Effect>,
    ids: Seq<ContextServerId>,
)
    requires
        is_announced(store, history),
    ensures
        is_announced(store.removed_all(ids), history + store.remove_all_effects(ids)),
    decreases ids.len(),
{
    if ids.len() == 0 {
        assert(history + store.remove_all_effects(ids) =~= history);
    } else {
        let next = store.removed(ids[0]@);
        lemma_remove_is_announced(store, history, ids[0]);
        lemma_remove_all_is_announced(next, history + store.remove_effects(ids[0]), ids.skip(1));
        assert(history + store.remove_all_effects(ids) =~= history + store.remove_effects(ids[0])
            + next.remove_all_effects(ids.skip(1)));
    }
}

proof fn lemma_run_all_is_announced<F>(
    store: StoreView<F>,
    history: Seq<Effect>,
    planned: Seq<PlannedServer>,
)
    requires
        is_announced(store, history),
    ensures
        is_announced(store.run_all(planned), history + store.run_all_effects(planned)),
    decreases planned.len(),
{
    if planned.len() == 0 {
        assert(history + store.run_all_effects(planned) =~= history);
    } else {
        let (server, configuration) = (planned[0].server, planned[0].configuration);
        let next = store.run(server, configuration);
        let effects = store.run_effects(server, configuration);
        lemma_run_is_announced(store, history, server, configuration);
        lemma_run_all_is_announced(next, history + effects, planned.skip(1));
        assert(history + store.run_all_effects(planned) =~= history + effects
            + next.run_all_effects(planned.skip(1)));
    }
}

/// So does a whole update, whatever its plan.
pub proof fn law_updates_announce_the_status<F>(
    store: StoreView<F>,
    history: Seq<Effect>,
    plan: UpdatePlan,
)
    requires
        is_announced(store, history),
    ensures
        is_announced(store.after(plan), history + store.plan_effects(plan)),
{
    let stopped = store.stopped_all(plan.servers_to_stop@);
    let removed = stopped.removed_all(plan.servers_to_remove@);
    let stops = store.stop_all_effects(plan.servers_to_stop@);
    let removals = stopped.remove_all_effects(plan.servers_to_remove@);
    let runs = removed.run_all_effects(plan.servers_to_start@);
    lemma_stop_all_is_announced(store, history, plan.servers_to_stop@);
    lemma_remove_all_is_announced(stopped, history + stops, plan.servers_to_remove@);
    lemma_run_all_is_announced(removed, history + stops + removals, plan.servers_to_start@);
    assert(history + store.plan_effects(plan) =~= history + stops + removals + runs);
}

proof fn lemma_live_push(history: Seq<Effect>, effect: Effect, task: TaskId)
    ensures
        live_start(history.push(effect), task) == (match effect {
            Effect::StartServer { task: started, server, .. } if started == task => Some(
                server.id@,
            ),
            Effect::DropTask(dropped) if dropped == task => None,
            _ => live_start(history, task),
        }),
{
    assert(history.push(effect).drop_last() =~= history);
}

/// To let go of the state under `id`, and to announce something, ends the start of that
/// server and no other.
proof fn lemma_live_dropping<F>(
    store: StoreView<F>,
    history: Seq<Effect>,
    id: ContextServerId,
    status: ContextServerStatus,
    task: TaskId,
)
    ensures
        live_start(
            history + store.dropping(id@).push(status_event(id, status)),
            task,
        ) == (if store.awaits(id@, task) {
            None
        } else {
            live_start(history, task)
        }),
{
    let event = status_event(id, status);
    let dropping = store.dropping(id@);
    if store.is_starting(id@) {
        lemma_live_push(history, dropping[0], task);
        lemma_live_push(history.push(dropping[0]), event, task);
        assert(history + dropping.push(event) =~= history.push(dropping[0]).push(event));
    } else {
        lemma_live_push(history, event, task);
        assert(history + dropping.push(event) =~= history.push(event));
    }
}

/// To stop a server ends its start, if one is under way, and no other.
proof fn lemma_live_stop<F>(
    store: StoreView<F>,
    history: Seq<Effect>,
    id: ContextServerId,
    task: TaskId,
)
    ensures
        live_start(history + store.stop_effects(id), task) == (if store.awaits(id@, task) {
            None
        } else {
            live_start(history, task)
        }),
{
    let effects = store.stop_effects(id);
    if !store.servers.contains_key(id@) {
        assert(history + effects =~= history);
    } else if store.is_running(id@) {
        lemma_live_push(history, effects[0], task);
        lemma_live_push(history.push(effects[0]), effects[1], task);
        assert(history + effects =~= history.push(effects[0]).push(effects[1]));
    } else {
        lemma_live_dropping(store, history, id, ContextServerStatus::Stopped, task);
    }
}

/// To run a server ends its start, if one is under way, and begins another.
proof fn lemma_live_run<F>(
    store: StoreView<F>,
    history: Seq<Effect>,
    server: Arc<ContextServer>,
    configuration: Arc<ContextServerConfiguration>,
    task: TaskId,
)
    ensures
        live_start(history + store.run_effects(server, configuration), task) == (if task
            == TaskId(store.next_task) {
            Some(server.id@)
        } else if store.awaits(server.id@, task) {
            None
        } else {
            live_start(history, task)
        }),
{
    let effects = store.run_effects(server, configuration);
    let n = effects.len() as int;
    let first = history + effects.take(n - 2);
    let id = server.id;
    lemma_live_push(first, effects[n - 2], task);
    lemma_live_push(first.push(effects[n - 2]), effects[n - 1], task);
    assert(history + effects =~= first.push(effects[n - 2]).push(effects[n - 1]));
    if store.is_running(server.id@) || store.is_starting(server.id@) {
        lemma_live_stop(store, history, id, task);
        assert(first =~= history + store.stop_effects(id));
    } else {
        assert(first =~= history);
    }
}

/// The store waits for just those starts that the host has under way: every operation keeps
/// this so, whatever was asked of the host before.
pub proof fn law_live_starts_are_awaited<
    F: Fn(ContextServerId, Arc<ContextServerConfiguration>) -> Arc<ContextServer>,
>(
    store: StoreView<F>,
    history: Seq<Effect>,
    id: ContextServerId,
    server: Arc<ContextServer>,
    configuration: Arc<ContextServerConfiguration>,
    ended: TaskId,
    outcome: Result<(), Arc<str>>,
)
    requires
        store.wf(),
        awaits_live_starts(store, history),
    ensures
        awaits_live_starts(store.stopped(id@), history + store.stop_effects(id)),
        awaits_live_starts(store.removed(id@), history + store.remove_effects(id)),
        awaits_live_starts(
            store.run(server, configuration),
            history + store.run_effects(server, configuration),
        ),
        awaits_live_starts(
            store.reported(id@, ended, outcome),
            history + store.report_effects(id@, ended, outcome),
        ),
        awaits_live_starts(store.notified(), history + store.notified_effects()),
        awaits_live_starts(store.updated(), history + store.updated_effects()),
{
    let none = Seq::<Effect>::empty();
    assert(history + none =~= history);
    assert forall|key: Seq<char>, task: TaskId| #[trigger]
        store.stopped(id@).awaits(key, task) <==> live_start(
            history + store.stop_effects(id),
            task,
        ) == Some(key) by {
        lemma_live_stop(store, history, id, task);
        assert(store.awaits(key, task) <==> live_start(history, task) == Some(key));
        assert(store.awaits(id@, task) <==> live_start(history, task) == Some(id@));
    }
    assert forall|key: Seq<char>, task: TaskId| #[trigger]
        store.removed(id@).awaits(key, task) <==> live_start(
            history + store.remove_effects(id),
            task,
        ) == Some(key) by {
        if store.servers.contains_key(id@) {
            lemma_live_dropping(store, history, id, ContextServerStatus::Stopped, task);
        }
        assert(store.awaits(key, task) <==> live_start(history, task) == Some(key));
        assert(store.awaits(id@, task) <==> live_start(history, task) == Some(id@));
    }
    let run = store.run(server, configuration);
    assert forall|key: Seq<char>, task: TaskId| #[trigger]
        run.awaits(key, task) <==> live_start(
            history + store.run_effects(server, configuration),
            task,
        ) == Some(key) by {
        lemma_live_run(store, history, server, configuration, task);
        assert(store.awaits(key, task) <==> live_start(history, task) == Some(key));
        assert(store.awaits(server.id@, task) <==> live_start(history, task) == Some(server.id@));
        assert(task == TaskId(store.next_task) ==> !store.awaits(key, task));
    }
    let reported = store.reported(id@, ended, outcome);
    assert forall|key: Seq<char>, task: TaskId| #[trigger]
        reported.awaits(key, task) <==> live_start(
            history + store.report_effects(id@, ended, outcome),
            task,
        ) == Some(key) by {
        if store.awaits(id@, ended) {
            assert(store.servers.contains_key(id@));
            lemma_live_dropping(
                store,
                history,
                store.servers[id@].spec_server().id,
                store.started(id@, outcome).status(),
                task,
            );
        }
        assert(store.awaits(key, task) <==> live_start(history, task) == Some(key));
        assert(store.awaits(id@, task) <==> live_start(history, task) == Some(id@));
    }
    let begun = Effect::MaintainServers(TaskId(store.next_task));
    assert(history + seq![begun] =~= history.push(begun));
    assert forall|key: Seq<char>, task: TaskId| #[trigger]
        store.notified().awaits(key, task) <==> live_start(
            history + store.notified_effects(),
            task,
        ) == Some(key) by {
        lemma_live_push(history, begun, task);
        assert(store.awaits(key, task) <==> live_start(history, task) == Some(key));
    }
    assert forall|key: Seq<char>, task: TaskId| #[trigger]
        store.updated().awaits(key, task) <==> live_start(
            history + store.updated_effects(),
            task,
        ) == Some(key) by {
        lemma_live_push(history, begun, task);
        assert(store.awaits(key, task) <==> live_start(history, task) == Some(key));
    }
}

/// So does every step of an update.
pub proof fn law_steps_keep_live_starts_awaited<
    F: Fn(ContextServerId, Arc<ContextServerConfiguration>) -> Arc<ContextServer>,
>(store: StoreView<F>, history: Seq<Effect>, plan: UpdatePlan)
    requires
        store.wf(),
        awaits_live_starts(store, history),
    ensures
        awaits_live_starts(store.after_step(plan), history + store.step_effects(plan)),
{
    let id = if plan.servers_to_stop@.len() > 0 {
        plan.servers_to_stop@[0]
    } else {
        plan.servers_to_remove@[0]
    };
    let planned = plan.servers_to_start@[0];
    law_live_starts_are_awaited(
        store,
        history,
        id,
        planned.server,
        planned.configuration,
        TaskId(0),
        Ok(()),
    );
    assert(history + Seq::<Effect>::empty() =~= history);
}

/// A start that the host has not under way, as it was dropped, never acts: a report of it
/// changes nothing and announces nothing.
pub proof fn law_only_live_starts_act<F>(
    store: StoreView<F>,
    history: Seq<Effect>,
    key: Seq<char>,
    task: TaskId,
    outcome: Result<(), Arc<str>>,
)
    requires
        awaits_live_starts(store, history),
        live_start(history, task) != Some(key),
    ensures
        store.reported(key, task, outcome) == store,
        store.report_effects(key, task, outcome) == Seq::<Effect>::empty(),
{
    assert(!store.awaits(key, task));
}

proof fn lemma_stop_all_announcements<F>(
    store: StoreView<F>,
    ids: Seq<ContextServerId>,
    key: Seq<char>,
)
    requires
        id_texts(ids).no_duplicates(),
    ensures
        announcements(store.stop_all_effects(ids), key) == (if id_texts(ids).contains(key)
            && store.servers.contains_key(key) {
            seq![ContextServerStatus::Stopped]
        } else {
            Seq::empty()
        }),
    decreases ids.len(),
{
    if ids.len() > 0 {
        let next = store.stopped(ids[0]@);
        let keys = id_texts(ids);
        assert(id_texts(ids.skip(1)) =~= keys.skip(1));
        lemma_tail_texts(keys, key);
        lemma_stop_announcements(store, ids[0], key);
        lemma_stop_all_announcements(next, ids.skip(1), key);
        lemma_announcements_add(
            store.stop_effects(ids[0]),
            next.stop_all_effects(ids.skip(1)),
            key,
        );
        assert(announcements(store.stop_all_effects(ids), key) =~= (if keys.contains(key)
            && store.servers.contains_key(key) {
            seq![ContextServerStatus::Stopped]
        } else {
            Seq::empty()
        }));
    }
}

proof fn lemma_remove_all_announcements<F>(
    store: StoreView<F>,
    ids: Seq<ContextServerId>,
    key: Seq<char>,
)
    requires
        id_texts(ids).no_duplicates(),
    ensures
        announcements(store.remove_all_effects(ids), key) == (if id_texts(ids).contains(key)
            && store.servers.contains_key(key) {
            seq![ContextServerStatus::Stopped]
        } else {
            Seq::empty()
        }),
    decreases ids.len(),
{
    if ids.len() > 0 {
        let next = store.removed(ids[0]@);
        let keys = id_texts(ids);
        assert(id_texts(ids.skip(1)) =~= keys.skip(1));
        lemma_tail_texts(keys, key);
        lemma_remove_announcements(store, ids[0], key);
        lemma_remove_all_announcements(next, ids.skip(1), key);
        lemma_announcements_add(
            store.remove_effects(ids[0]),
            next.remove_all_effects(ids.skip(1)),
            key,
        );
        assert(announcements(store.remove_all_effects(ids), key) =~= (if keys.contains(key)
            && store.servers.contains_key(key) {
            seq![ContextServerStatus::Stopped]
        } else {
            Seq::empty()
        }));
    }
}

/// None of the planned servers runs or starts yet.
spec fn none_active<F>(store: StoreView<F>, planned: Seq<PlannedServer>) -> bool {
    forall|i: int|
        0 <= i < planned.len() ==> !store.is_running((#[trigger] planned[i]).server.id@)
            && !store.is_starting(planned[i].server.id@)
}

proof fn lemma_rest_inactive<F>(store: StoreView<F>, planned: Seq<PlannedServer>)
    requires
        planned.len() > 0,
        keeps_ids(planned),
        planned_texts(planned).no_duplicates(),
        none_active(store, planned),
    ensures
        keeps_ids(planned.skip(1)),
        planned_texts(planned.skip(1)) == planned_texts(planned).skip(1),
        planned_texts(planned.skip(1)).no_duplicates(),
        none_active(store.run(planned[0].server, planned[0].configuration), planned.skip(1)),
{
    let rest = planned.skip(1);
    let keys = planned_texts(planned);
    let next = store.run(planned[0].server, planned[0].configuration);
    assert(planned_texts(rest) =~= keys.skip(1));
    lemma_tail_texts(keys, keys[0]);
    assert(keys[0] == planned[0].id@);
    assert forall|i: int| 0 <= i < rest.len() implies !next.is_running(
        (#[trigger] rest[i]).server.id@,
    ) && !next.is_starting(rest[i].server.id@) && rest[i].server.id@ == rest[i].id@ by {
        assert(rest[i] == planned[i + 1]);
        assert(keys[i + 1] == planned[i + 1].id@);
        assert(planned[0].server.id@ == planned[0].id@);
    }
}

proof fn lemma_run_all_announcements<F>(
    store: StoreView<F>,
    planned: Seq<PlannedServer>,
    key: Seq<char>,
)
    requires
        keeps_ids(planned),
        planned_texts(planned).no_duplicates(),
        none_active(store, planned),
    ensures
        announcements(store.run_all_effects(planned), key) == (if planned_texts(planned).contains(
            key,
        ) {
            seq![ContextServerStatus::Starting]
        } else {
            Seq::empty()
        }),
    decreases planned.len(),
{
    if planned.len() > 0 {
        let (server, configuration) = (planned[0].server, planned[0].configuration);
        let next = store.run(server, configuration);
        let keys = planned_texts(planned);
        lemma_rest_inactive(store, planned);
        lemma_tail_texts(keys, key);
        assert(keys[0] == planned[0].server.id@);
        lemma_run_announcements(store, server, configuration, key);
        lemma_run_all_announcements(next, planned.skip(1), key);
        lemma_announcements_add(
            store.run_effects(server, configuration),
            next.run_all_effects(planned.skip(1)),
            key,
        );
        assert(announcements(store.run_all_effects(planned), key) =~= (if keys.contains(key) {
            seq![ContextServerStatus::Starting]
        } else {
            Seq::empty()
        }));
    }
}

/// Once the plan's servers were stopped and removed, those that it runs are not active.
proof fn lemma_planned_are_inactive<
    F: Fn(ContextServerId, Arc<ContextServerConfiguration>) -> Arc<ContextServer>,
>(store: StoreView<F>, desired: DesiredView, worktrees: Seq<Worktree>, plan: UpdatePlan)
    requires
        store.is_plan(desired, worktrees, plan),
        keeps_ids(plan.servers_to_start@),
    ensures
        none_active(
            store.stopped_all(plan.servers_to_stop@).removed_all(plan.servers_to_remove@),
            plan.servers_to_start@,
        ),
{
    let start = plan.servers_to_start@;
    let stopped = store.stopped_all(plan.servers_to_stop@);
    let removed = stopped.removed_all(plan.servers_to_remove@);
    lemma_stopped_all(store, plan.servers_to_stop@);
    lemma_removed_all(stopped, plan.servers_to_remove@);
    assert forall|i: int| 0 <= i < start.len() implies !removed.is_running(
        (#[trigger] start[i]).server.id@,
    ) && !removed.is_starting(start[i].server.id@) by {
        let key = start[i].id@;
        assert(planned_texts(start)[i] == key);
        assert(planned_texts(start).contains(key));
        if removed.servers.contains_key(key) {
            assert(stopped.servers.contains_key(key));
            assert(store.servers.contains_key(key));
            assert(id_texts(plan.servers_to_stop@).contains(key));
            lemma_stopped_all_halts(store, plan.servers_to_stop@, key);
        }
    }
}

/// What an update announces of a server: that it is stopped, if it goes; that it starts, if
/// it is due, and before that that it is stopped, if the store had it; and nothing of a
/// server that stays as it is.
///
/// This supposes that each server goes by the identifier that it was made for.
pub proof fn law_announcements_of_an_update<
    F: Fn(ContextServerId, Arc<ContextServerConfiguration>) -> Arc<ContextServer>,
>(
    store: StoreView<F>,
    desired: DesiredView,
    worktrees: Seq<Worktree>,
    plan: UpdatePlan,
    key: Seq<char>,
)
    requires
        store.is_plan(desired, worktrees, plan),
        keeps_ids(plan.servers_to_start@),
    ensures
        announcements(store.plan_effects(plan), key) == (if store.is_surplus(desired, key) {
            seq![ContextServerStatus::Stopped]
        } else if store.is_due(desired, worktrees, key) {
            if store.servers.contains_key(key) {
                seq![ContextServerStatus::Stopped, ContextServerStatus::Starting]
            } else {
                seq![ContextServerStatus::Starting]
            }
        } else {
            Seq::empty()
        }),
{
    let stop = plan.servers_to_stop@;
    let remove = plan.servers_to_remove@;
    let start = plan.servers_to_start@;
    let stopped = store.stopped_all(stop);
    let removed = stopped.removed_all(remove);
    let stops = store.stop_all_effects(stop);
    let removals = stopped.remove_all_effects(remove);
    let runs = removed.run_all_effects(start);
    lemma_stopped_all(store, stop);
    lemma_planned_are_inactive(store, desired, worktrees, plan);
    lemma_stop_all_announcements(store, stop, key);
    lemma_remove_all_announcements(stopped, remove, key);
    lemma_run_all_announcements(removed, start, key);
    lemma_announcements_add(stops, removals, key);
    lemma_announcements_add(stops + removals, runs, key);
    assert(id_texts(remove).contains(key) == store.is_surplus(desired, key));
    assert(planned_texts(start).contains(key) == store.is_due(desired, worktrees, key));
    assert(id_texts(stop).contains(key) == (store.is_due(desired, worktrees, key)
        && store.servers.contains_key(key)));
    assert(stopped.servers.contains_key(key) == store.servers.contains_key(key));
    let all = announcements(store.plan_effects(plan), key);
    assert(all == announcements(stops, key) + announcements(removals, key) + announcements(
        runs,
        key,
    ));
    if store.is_surplus(desired, key) {
        assert(all =~= seq![ContextServerStatus::Stopped]);
    } else if store.is_due(desired, worktrees, key) {
        if store.servers.contains_key(key) {
            assert(all =~= seq![ContextServerStatus::Stopped, ContextServerStatus::Starting]);
        } else {
            assert(all =~= seq![ContextServerStatus::Starting]);
        }
    } else {
        assert(all =~= Seq::empty());
    }
}

/// None of the effects announces the status.
spec fn silent_on(effects: Seq<Effect>, status: ContextServerStatus) -> bool {
    forall|i: int| 0 <= i < effects.len() ==> !announces(#[trigger] effects[i], status)
}

proof fn lemma_stop_all_silent<F>(store: StoreView<F>, ids: Seq<ContextServerId>)
    ensures
        silent_on(store.stop_all_effects(ids), ContextServerStatus::Starting),
    decreases ids.len(),
{
    if ids.len() > 0 {
        lemma_stop_all_silent(store.stopped(ids[0]@), ids.skip(1));
    }
}

proof fn lemma_remove_all_silent<F>(store: StoreView<F>, ids: Seq<ContextServerId>)
    ensures
        silent_on(store.remove_all_effects(ids), ContextServerStatus::Starting),
    decreases ids.len(),
{
    if ids.len() > 0 {
        lemma_remove_all_silent(store.removed(ids[0]@), ids.skip(1));
    }
}

proof fn lemma_run_all_silent<F>(store: StoreView<F>, planned: Seq<PlannedServer>)
    requires
        keeps_ids(planned),
        planned_texts(planned).no_duplicates(),
        none_active(store, planned),
    ensures
        silent_on(store.run_all_effects(planned), ContextServerStatus::Stopped),
    decreases planned.len(),
{
    if planned.len() > 0 {
        lemma_rest_inactive(store, planned);
        lemma_run_all_silent(
            store.run(planned[0].server, planned[0].configuration),
            planned.skip(1),
        );
        assert(!store.is_running(planned[0].server.id@));
    }
}

/// An update announces every server that stops before any server that starts.
///
/// This supposes that each server goes by the identifier that it was made for.
pub proof fn law_stops_come_before_starts<
    F: Fn(ContextServerId, Arc<ContextServerConfiguration>) -> Arc<ContextServer>,
>(store: StoreView<F>, desired: DesiredView, worktrees: Seq<Worktree>, plan: UpdatePlan)
    requires
        store.is_plan(desired, worktrees, plan),
        keeps_ids(plan.servers_to_start@),
    ensures
        forall|i: int, j: int|
            0 <= i < store.plan_effects(plan).len() && 0 <= j < store.plan_effects(plan).len()
                && announces(
                #[trigger] store.plan_effects(plan)[i],
                ContextServerStatus::Stopped,
            ) && announces(
                #[trigger] store.plan_effects(plan)[j],
                ContextServerStatus::Starting,
            ) ==> i < j,
{
    let stopped = store.stopped_all(plan.servers_to_stop@);
    let removed = stopped.removed_all(plan.servers_to_remove@);
    lemma_planned_are_inactive(store, desired, worktrees, plan);
    lemma_stop_all_silent(store, plan.servers_to_stop@);
    lemma_remove_all_silent(stopped, plan.servers_to_remove@);
    lemma_run_all_silent(removed, plan.servers_to_start@);
    let first = store.stop_all_effects(plan.servers_to_stop@) + stopped.remove_all_effects(
        plan.servers_to_remove@,
    );
    let runs = removed.run_all_effects(plan.servers_to_start@);
    let effects = store.plan_effects(plan);
    assert(effects == first + runs);
    assert(silent_on(first, ContextServerStatus::Starting));
    assert forall|i: int, j: int|
        0 <= i < effects.len() && 0 <= j < effects.len() && announces(
            #[trigger] effects[i],
            ContextServerStatus::Stopped,
        ) && announces(#[trigger] effects[j], ContextServerStatus::Starting) implies i < j by {
        let n = first.len() as int;
        if i >= n {
            assert(effects[i] == runs[i - n]);
        }
        if j < n {
            assert(effects[j] == first[j]);
        }
    }
}

} // verus!
