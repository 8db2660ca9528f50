//! The store of context servers.

use crate::context_server::{
    CommandView, ConfigurationView, ContextServer, ContextServerConfiguration, ContextServerId,
    ContextServerTransport,
};
use crate::placeholder::{substitute_command_placeholders, uses_placeholder};
use crate::project::{local_root, ProjectSettings, Worktree, WorktreeId, WorktreeStore};
use crate::state::{
    Context, ContextServerState, ContextServerStatus, Effect, Event, StoreError, TaskId,
};
use crate::str_map::StrMap;
use std::sync::Arc;
use vstd::prelude::*;

verus! {

/// What the host observes on behalf of a store, and reports through
/// [`ContextServerStore::available_context_servers_changed`].
#[derive(Debug, Clone, Copy, PartialEq, Eq, Structural)]
pub enum Subscription {
    /// Changes of the registry of context server descriptors.
    Registry,
    /// Changes of the settings.
    Settings,
}

/// A function that makes servers where they are not launched by a command.
pub type ContextServerFactory = Box<
    dyn Fn(ContextServerId, Arc<ContextServerConfiguration>) -> Arc<ContextServer>,
>;

/// The context servers of a project. `F` is the type of the function that makes servers
/// where they are not launched by a command.
pub struct ContextServerStore<F> {
    servers: StrMap<ContextServerState>,
    update_servers_task: Option<TaskId>,
    context_server_factory: Option<F>,
    needs_server_update: bool,
    next_task: u64,
    subscriptions: Vec<Subscription>,
}

/// The contents of a store.
#[verifier::ext_equal]
pub struct StoreView<F> {
    /// The state of each server, by the text of its identifier.
    pub servers: Map<Seq<char>, ContextServerState>,
    /// The task that brings the servers in line with the settings, while it runs.
    pub update_servers_task: Option<TaskId>,
    /// The function that makes servers where they are not launched by a command.
    pub factory: Option<F>,
    /// Something changed since the running task began.
    pub needs_server_update: bool,
    /// The number of the next task.
    pub next_task: u64,
    /// What the host observes.
    pub subscriptions: Seq<Subscription>,
}

impl<F> View for ContextServerStore<F> {
    type V = StoreView<F>;

    closed spec fn view(&self) -> StoreView<F> {
        StoreView {
            servers: self.servers@,
            update_servers_task: self.update_servers_task,
            factory: self.context_server_factory,
            needs_server_update: self.needs_server_update,
            next_task: self.next_task,
            subscriptions: self.subscriptions@,
        }
    }
}

/// The announcement of a status.
pub open spec fn status_event(server_id: ContextServerId, status: ContextServerStatus) -> Effect {
    Effect::Emit(Event::ServerStatusChanged { server_id, status })
}

/// What comes of a request to stop a server.
#[derive(Debug)]
pub enum Stop {
    /// The server was not running: there was nothing to wait for.
    Done,
    /// The server was running, and the host was asked to stop it.
    Requested(Arc<ContextServer>),
}

impl Stop {
    /// The result of the request, once the host has tried to stop the server: `outcome`
    /// is how that went.
    pub fn finish(self, outcome: Result<(), Arc<str>>) -> (result: Result<(), StoreError>)
        ensures
            result == (match (self, outcome) {
                (Stop::Requested(_), Err(reason)) => Err(StoreError::StopFailed(reason)),
                _ => Ok(()),
            }),
    {
        match self {
            Stop::Done => Ok(()),
            Stop::Requested(_) => match outcome {
                Ok(()) => Ok(()),
                Err(reason) => Err(StoreError::StopFailed(reason)),
            },
        }
    }
}

/// A restart whose first half, stopping the server, is under way.
#[derive(Debug)]
pub struct PendingRestart {
    pub id: ContextServerId,
    pub configuration: Arc<ContextServerConfiguration>,
    pub stop: Stop,
}

/// The command that a configuration launches, or why it launches none.
pub enum Launch {
    Command(CommandView),
    MissingCommand,
    UnresolvedPlaceholder,
}

/// The command that the configuration launches. `source` is the worktree whose settings
/// the configuration comes from, if it is not a global one. Only in a configuration of a
/// worktree does the placeholder stand for something: the root of that worktree.
pub open spec fn launch(
    configuration: ConfigurationView,
    worktrees: Seq<Worktree>,
    source: Option<WorktreeId>,
) -> Launch {
    match configuration.command {
        None => Launch::MissingCommand,
        Some(command) => match source {
            Some(worktree) if command.uses_placeholder() => match local_root(worktrees, worktree) {
                Some(root) if !command.substituted(root).uses_placeholder() => Launch::Command(
                    command.substituted(root),
                ),
                _ => Launch::UnresolvedPlaceholder,
            },
            _ => Launch::Command(command),
        },
    }
}

/// How many numbers on from `from` the number `to` is, where the least number follows the
/// greatest.
pub open spec fn steps_between(from: u64, to: u64) -> int {
    if from <= to {
        to - from
    } else {
        to - from + u64::MAX + 1
    }
}

/// A first free number is the first free number.
proof fn lemma_first_free<F>(store: StoreView<F>, from: u64, number: u64)
    requires
        store.is_first_free(from, number),
    ensures
        store.first_free(from) == number,
{
    let chosen = store.first_free(from);
    assert(store.is_first_free(from, chosen));
    assert(!store.in_use(chosen) && !store.in_use(number));
}

/// A number that no task has stays free where tasks end.
proof fn lemma_free_stays<F>(before: StoreView<F>, after: StoreView<F>, number: u64)
    requires
        !before.in_use(number),
        after.update_servers_task is None || after.update_servers_task
            == before.update_servers_task,
        forall|key: Seq<char>| #[trigger]
            after.awaits(key, TaskId(number)) ==> before.awaits(key, TaskId(number)),
    ensures
        !after.in_use(number),
{
}

/// A list from which the number at `i` was taken, with the last number put in its place.
proof fn lemma_taken_out(before: Seq<u64>, i: int, after: Seq<u64>)
    requires
        0 <= i < before.len(),
        after == before.update(i, before.last()).drop_last(),
    ensures
        forall|n: u64| #[trigger] after.contains(n) ==> before.contains(n),
        forall|n: u64| #[trigger] before.contains(n) && n != before[i] ==> after.contains(n),
{
    assert forall|n: u64| #[trigger] after.contains(n) implies before.contains(n) by {
        let j = choose|j: int| 0 <= j < after.len() && after[j] == n;
        assert(before[if j == i { before.len() - 1 } else { j }] == n);
    }
    assert forall|n: u64| #[trigger] before.contains(n) && n != before[i] implies after.contains(
        n,
    ) by {
        let j = choose|j: int| 0 <= j < before.len() && before[j] == n;
        assert(after[if j == before.len() - 1 { i } else { j }] == n);
    }
}

/// The place of a number in a list.
fn position(numbers: &Vec<u64>, number: u64) -> (place: Option<usize>)
    ensures
        match place {
            Some(i) => i < numbers@.len() && numbers@[i as int] == number,
            None => !numbers@.contains(number),
        },
{
    let mut i: usize = 0;
    while i < numbers.len()
        invariant
            i <= numbers@.len(),
            forall|j: int| 0 <= j < i ==> numbers@[j] != number,
        decreases numbers@.len() - i,
    {
        if numbers[i] == number {
            return Some(i);
        }
        i += 1;
    }
    None
}

impl<F> StoreView<F> {
    /// The server under `key` is running.
    pub open spec fn is_running(self, key: Seq<char>) -> bool {
        self.servers.contains_key(key) && self.servers[key] is Running
    }

    /// The server under `key` is starting.
    pub open spec fn is_starting(self, key: Seq<char>) -> bool {
        self.servers.contains_key(key) && self.servers[key] is Starting
    }

    /// The effects of letting go of the state under `key`.
    pub open spec fn dropping(self, key: Seq<char>) -> Seq<Effect> {
        if self.is_starting(key) {
            seq![Effect::DropTask(self.servers[key]->task)]
        } else {
            Seq::empty()
        }
    }

    /// The store with `state` under `key`.
    pub open spec fn with_state(self, key: Seq<char>, state: ContextServerState) -> StoreView<F> {
        StoreView { servers: self.servers.insert(key, state), ..self }
    }

    /// The effects of putting `state` under `id`.
    pub open spec fn state_effects(
        self,
        id: ContextServerId,
        state: ContextServerState,
    ) -> Seq<Effect> {
        self.dropping(id@).push(status_event(id, state.status()))
    }

    /// The store after the server under `key` was stopped.
    pub open spec fn stopped(self, key: Seq<char>) -> StoreView<F> {
        if self.servers.contains_key(key) {
            self.with_state(key, self.servers[key].halted())
        } else {
            self
        }
    }

    /// The effects of stopping the server `id`.
    pub open spec fn stop_effects(self, id: ContextServerId) -> Seq<Effect> {
        if !self.servers.contains_key(id@) {
            Seq::empty()
        } else if self.is_running(id@) {
            seq![
                Effect::StopServer(self.servers[id@].spec_server()),
                status_event(id, ContextServerStatus::Stopped),
            ]
        } else {
            self.dropping(id@).push(status_event(id, ContextServerStatus::Stopped))
        }
    }

    /// What a request to stop the server under `key`, which the store knows, comes to.
    pub open spec fn stop_result(self, key: Seq<char>) -> Stop {
        if self.is_running(key) {
            Stop::Requested(self.servers[key].spec_server())
        } else {
            Stop::Done
        }
    }

    /// The store after the server under `key` was removed.
    pub open spec fn removed(self, key: Seq<char>) -> StoreView<F> {
        StoreView { servers: self.servers.remove(key), ..self }
    }

    /// The effects of removing the server `id`.
    pub open spec fn remove_effects(self, id: ContextServerId) -> Seq<Effect> {
        if self.servers.contains_key(id@) {
            self.dropping(id@).push(status_event(id, ContextServerStatus::Stopped))
        } else {
            Seq::empty()
        }
    }

    /// The server that the store already runs, or is starting, under the key of a server
    /// that is about to be run, gives way to it.
    pub open spec fn made_way(self, key: Seq<char>) -> StoreView<F> {
        if self.is_running(key) || self.is_starting(key) {
            self.stopped(key)
        } else {
            self
        }
    }

    /// A task of the store has the given number.
    pub open spec fn in_use(self, number: u64) -> bool {
        ||| self.update_servers_task == Some(TaskId(number))
        ||| exists|key: Seq<char>| #[trigger] self.awaits(key, TaskId(number))
    }

    /// Of the numbers that no task has, `number` is the first from `from` on.
    pub open spec fn is_first_free(self, from: u64, number: u64) -> bool {
        &&& !self.in_use(number)
        &&& forall|other: u64|
            #![trigger self.in_use(other)]
            steps_between(from, other) < steps_between(from, number) ==> self.in_use(other)
    }

    /// The first number from `from` on that no task has.
    pub open spec fn first_free(self, from: u64) -> u64 {
        choose|number: u64| self.is_first_free(from, number)
    }

    /// The store once it has given its next number to a task.
    pub open spec fn advanced(self) -> StoreView<F> {
        StoreView { next_task: self.first_free(self.next_task.wrapping_add(1)), ..self }
    }

    /// The store with `server` starting, in the task of the next number.
    pub open spec fn with_start(
        self,
        server: Arc<ContextServer>,
        configuration: Arc<ContextServerConfiguration>,
    ) -> StoreView<F> {
        self.made_way(server.id@).with_state(
            server.id@,
            ContextServerState::Starting { server, configuration, task: TaskId(self.next_task) },
        )
    }

    /// The store after a request to run `server`.
    pub open spec fn run(
        self,
        server: Arc<ContextServer>,
        configuration: Arc<ContextServerConfiguration>,
    ) -> StoreView<F> {
        self.with_start(server, configuration).advanced()
    }

    /// The effects of a request to run `server`.
    pub open spec fn run_effects(
        self,
        server: Arc<ContextServer>,
        configuration: Arc<ContextServerConfiguration>,
    ) -> Seq<Effect> {
        (if self.is_running(server.id@) || self.is_starting(server.id@) {
            self.stop_effects(server.id)
        } else {
            Seq::empty()
        }) + seq![
            Effect::StartServer { task: TaskId(self.next_task), server, configuration },
            status_event(server.id, ContextServerStatus::Starting),
        ]
    }

    /// The state of a server that was starting, once its start came to `outcome`.
    pub open spec fn started(
        self,
        key: Seq<char>,
        outcome: Result<(), Arc<str>>,
    ) -> ContextServerState {
        let server = self.servers[key].spec_server();
        let configuration = self.servers[key].spec_configuration();
        match outcome {
            Ok(()) => ContextServerState::Running { server, configuration },
            Err(error) => ContextServerState::Stopped { server, configuration, error: Some(error) },
        }
    }

    /// The store waits for `task` to start the server under `key`.
    pub open spec fn awaits(self, key: Seq<char>, task: TaskId) -> bool {
        self.is_starting(key) && self.servers[key]->task == task
    }

    /// The store after it heard that `task`, which starts the server under `key`, came to
    /// `outcome`: where it does not wait for that task, nothing changes.
    pub open spec fn reported(
        self,
        key: Seq<char>,
        task: TaskId,
        outcome: Result<(), Arc<str>>,
    ) -> StoreView<F> {
        if self.awaits(key, task) {
            self.with_state(key, self.started(key, outcome))
        } else {
            self
        }
    }

    /// The effects of hearing that.
    pub open spec fn report_effects(
        self,
        key: Seq<char>,
        task: TaskId,
        outcome: Result<(), Arc<str>>,
    ) -> Seq<Effect> {
        if self.awaits(key, task) {
            self.state_effects(self.servers[key].spec_server().id, self.started(key, outcome))
        } else {
            Seq::empty()
        }
    }

    /// The store after it heard that something changed.
    pub open spec fn notified(self) -> StoreView<F> {
        if self.update_servers_task is Some {
            StoreView { needs_server_update: true, ..self }
        } else {
            StoreView {
                needs_server_update: false,
                update_servers_task: Some(TaskId(self.next_task)),
                ..self
            }.advanced()
        }
    }

    /// The effects of hearing that something changed.
    pub open spec fn notified_effects(self) -> Seq<Effect> {
        if self.update_servers_task is Some {
            Seq::empty()
        } else {
            seq![Effect::MaintainServers(TaskId(self.next_task))]
        }
    }

    /// The store without the task that brings the servers in line with the settings.
    pub open spec fn idle(self) -> StoreView<F> {
        StoreView { update_servers_task: None, ..self }
    }

    /// The store after that task has ended.
    pub open spec fn updated(self) -> StoreView<F> {
        if self.needs_server_update {
            self.idle().notified()
        } else {
            self.idle()
        }
    }

    /// The effects of the end of that task.
    pub open spec fn updated_effects(self) -> Seq<Effect> {
        if self.needs_server_update {
            self.idle().notified_effects()
        } else {
            Seq::empty()
        }
    }
}

impl<F: Fn(ContextServerId, Arc<ContextServerConfiguration>) -> Arc<ContextServer>> StoreView<F> {
    /// The store is sound, and no task has the number that the next one gets.
    pub open spec fn wf(self) -> bool {
        self.sound() && !self.in_use(self.next_task)
    }

    /// Each server stands under its own identifier, an update that is owed follows one that
    /// runs, and the factory takes every configuration.
    pub open spec fn sound(self) -> bool {
        &&& forall|key: Seq<char>| #[trigger]
            self.servers.contains_key(key) ==> self.servers[key].spec_server().id@ == key
        &&& self.needs_server_update ==> self.update_servers_task is Some
        &&& self.factory matches Some(factory) ==> forall|
            id: ContextServerId,
            configuration: Arc<ContextServerConfiguration>,
        | #[trigger] call_requires(factory, (id, configuration))
    }

    /// `server` is one that the store makes for `id`: the one that the factory makes from
    /// the configuration as it stands or, without a factory, one that `command` launches.
    pub open spec fn makes(
        self,
        id: ContextServerId,
        configuration: Arc<ContextServerConfiguration>,
        command: CommandView,
        server: Arc<ContextServer>,
    ) -> bool {
        match self.factory {
            Some(factory) => call_ensures(factory, (id, configuration), server),
            None => {
                &&& server.id == id
                &&& server.transport matches ContextServerTransport::Stdio(launched)
                &&& launched@ == command
            },
        }
    }
}

impl<
    F: Fn(ContextServerId, Arc<ContextServerConfiguration>) -> Arc<ContextServer>,
> ContextServerStore<F> {
    /// A store that follows the settings and launches servers by their commands.
    pub fn new(cx: &mut Context) -> (store: Self)
        ensures
            store@.wf(),
            store@ == (StoreView {
                servers: Map::<Seq<char>, ContextServerState>::empty(),
                update_servers_task: Some(TaskId(0)),
                factory: None::<F>,
                needs_server_update: false,
                next_task: 1,
                subscriptions: seq![Subscription::Registry, Subscription::Settings],
            }),
            final(cx)@ == old(cx)@.push(Effect::MaintainServers(TaskId(0))),
    {
        Self::new_internal(true, None, cx)
    }

    /// A store that does not follow the settings.
    pub fn test(cx: &mut Context) -> (store: Self)
        ensures
            store@.wf(),
            store@ == (StoreView {
                servers: Map::<Seq<char>, ContextServerState>::empty(),
                update_servers_task: None,
                factory: None::<F>,
                needs_server_update: false,
                next_task: 0,
                subscriptions: Seq::<Subscription>::empty(),
            }),
            final(cx)@ == old(cx)@,
    {
        Self::new_internal(false, None, cx)
    }

    /// A store that follows the settings and has its servers made by a factory.
    pub fn test_maintain_server_loop(context_server_factory: F, cx: &mut Context) -> (store: Self)
        requires
            forall|id: ContextServerId, configuration: Arc<ContextServerConfiguration>| #[trigger]
                call_requires(context_server_factory, (id, configuration)),
        ensures
            store@.wf(),
            store@ == (StoreView {
                servers: Map::<Seq<char>, ContextServerState>::empty(),
                update_servers_task: Some(TaskId(0)),
                factory: Some(context_server_factory),
                needs_server_update: false,
                next_task: 1,
                subscriptions: seq![Subscription::Registry, Subscription::Settings],
            }),
            final(cx)@ == old(cx)@.push(Effect::MaintainServers(TaskId(0))),
    {
        Self::new_internal(true, Some(context_server_factory), cx)
    }

    fn new_internal(
        maintain_server_loop: bool,
        context_server_factory: Option<F>,
        cx: &mut Context,
    ) -> (store: Self)
        requires
            context_server_factory matches Some(factory) ==> forall|
                id: ContextServerId,
                configuration: Arc<ContextServerConfiguration>,
            | #[trigger] call_requires(factory, (id, configuration)),
        ensures
            store@.wf(),
            store@.servers == Map::<Seq<char>, ContextServerState>::empty(),
            store@.factory == context_server_factory,
            !store@.needs_server_update,
            maintain_server_loop ==> {
                &&& store@.update_servers_task == Some(TaskId(0))
                &&& store@.next_task == 1
                &&& store@.subscriptions == seq![Subscription::Registry, Subscription::Settings]
                &&& final(cx)@ == old(cx)@.push(Effect::MaintainServers(TaskId(0)))
            },
            !maintain_server_loop ==> {
                &&& store@.update_servers_task is None
                &&& store@.next_task == 0
                &&& store@.subscriptions == Seq::<Subscription>::empty()
                &&& final(cx)@ == old(cx)@
            },
    {
        let mut subscriptions: Vec<Subscription> = Vec::new();
        if maintain_server_loop {
            subscriptions.push(Subscription::Registry);
            subscriptions.push(Subscription::Settings);
        }
        let mut this = ContextServerStore {
            servers: StrMap::new(),
            update_servers_task: None,
            context_server_factory,
            needs_server_update: false,
            next_task: 0,
            subscriptions,
        };
        assert(!this@.in_use(0));
        if maintain_server_loop {
            let ghost begun = StoreView { update_servers_task: Some(TaskId(0)), ..this@ };
            this.available_context_servers_changed(cx);
            proof {
                assert(begun.is_first_free(1, 1));
                lemma_first_free(begun, 1, 1);
            }
        }
        this
    }

    /// The numbers that tasks have.
    fn numbers_in_use(&self) -> (numbers: Vec<u64>)
        ensures
            forall|number: u64| #[trigger]
                numbers@.contains(number) <==> self@.in_use(number),
    {
        let mut numbers: Vec<u64> = Vec::new();
        if let Some(task) = self.update_servers_task {
            numbers.push(task.0);
            assert(numbers@[0] == task.0);
        }
        let n = self.servers.len();
        let ghost order = self.servers.key_order();
        let mut i: usize = 0;
        while i < n
            invariant
                order == self.servers.key_order(),
                n == order.len(),
                i <= n,
                forall|number: u64| #[trigger]
                    numbers@.contains(number) ==> self@.in_use(number),
                self.update_servers_task matches Some(task) ==> numbers@.contains(task.0),
                forall|j: int, task: TaskId|
                    0 <= j < i && #[trigger] self@.awaits(order[j], task) ==> numbers@.contains(
                        task.0,
                    ),
            decreases n - i,
        {
            let (_, state) = self.servers.entry_at(i);
            if let ContextServerState::Starting { task, .. } = state {
                let ghost before = numbers@;
                numbers.push(task.0);
                proof {
                    assert(self@.awaits(order[i as int], *task));
                    assert(numbers@[before.len() as int] == task.0);
                    assert forall|number: u64|
                        #![trigger before.contains(number)]
                        #![trigger numbers@.contains(number)]
                        before.contains(number) implies numbers@.contains(number) by {
                        let j = choose|j: int| 0 <= j < before.len() && before[j] == number;
                        assert(numbers@[j] == number);
                    }
                    assert forall|number: u64| #[trigger] numbers@.contains(
                        number,
                    ) implies self@.in_use(number) by {
                        if !before.contains(number) {
                            let j = choose|j: int|
                                0 <= j < numbers@.len() && numbers@[j] == number;
                            assert(j == before.len()) by {
                                if j < before.len() {
                                    assert(before[j] == number);
                                }
                            }
                            assert(self@.awaits(order[i as int], TaskId(number)));
                        }
                    }
                }
            }
            i += 1;
        }
        proof {
            assert forall|number: u64| self@.in_use(number) implies #[trigger] numbers@.contains(
                number,
            ) by {
                if self.update_servers_task != Some(TaskId(number)) {
                    let key = choose|key: Seq<char>| #[trigger] self@.awaits(key, TaskId(number));
                    assert(order.to_set().contains(key));
                    let j = choose|j: int| 0 <= j < order.len() && order[j] == key;
                    assert(self@.awaits(order[j], TaskId(number)));
                }
            }
        }
        numbers
    }

    /// Goes on from the number that a task was just given to the next one that no task has.
    fn advance_task(&mut self)
        ensures
            final(self)@ == old(self)@.advanced(),
            !final(self)@.in_use(final(self)@.next_task),
    {
        let mut left = self.numbers_in_use();
        let count = left.len();
        let ghost all = left@;
        let from = self.next_task.wrapping_add(1);
        let mut number: u64 = from;
        loop
            invariant
                *self == *old(self),
                from == old(self)@.next_task.wrapping_add(1),
                forall|n: u64| #[trigger] all.contains(n) <==> self@.in_use(n),
                all.len() == count,
                forall|n: u64| #[trigger] left@.contains(n) ==> all.contains(n),
                steps_between(from, number) + left@.len() == all.len(),
                forall|n: u64|
                    steps_between(from, n) < steps_between(from, number) ==> #[trigger]
                        all.contains(n),
                forall|n: u64|
                    steps_between(from, n) >= steps_between(from, number) && #[trigger]
                        all.contains(n) ==> left@.contains(n),
            decreases left@.len(),
        {
            let ghost before = left@;
            match position(&left, number) {
                Some(i) => {
                    left.swap_remove(i);
                    proof {
                        assert(before.contains(number));
                        lemma_taken_out(before, i as int, left@);
                    }
                    number = number.wrapping_add(1);
                },
                None => {
                    proof {
                        assert(!all.contains(number));
                        assert forall|n: u64|
                            #![trigger self@.in_use(n)]
                            steps_between(from, n) < steps_between(from, number) implies self@.in_use(
                            n,
                        ) by {
                            assert(all.contains(n));
                        }
                        lemma_first_free(self@, from, number);
                    }
                    self.next_task = number;
                    proof {
                        lemma_free_stays(old(self)@, self@, number);
                    }
                    return;
                },
            }
        }
    }

    /// Hears that the settings or the registry changed. While one update of the servers is
    /// under way, another is owed; otherwise one begins.
    pub fn available_context_servers_changed(&mut self, cx: &mut Context)
        requires
            old(self)@.wf(),
        ensures
            final(self)@.wf(),
            final(self)@ == old(self)@.notified(),
            final(cx)@ == old(cx)@ + old(self)@.notified_effects(),
    {
        let ghost before = self@;
        if self.update_servers_task.is_some() {
            self.needs_server_update = true;
            proof {
                lemma_free_stays(before, self@, before.next_task);
            }
        } else {
            self.needs_server_update = false;
            let task = TaskId(self.next_task);
            self.update_servers_task = Some(task);
            self.advance_task();
            cx.add_effect(Effect::MaintainServers(task));
        }
    }

    /// What the host observes on behalf of the store.
    pub fn subscriptions(&self) -> (subscriptions: &Vec<Subscription>)
        ensures
            subscriptions@ == self@.subscriptions,
    {
        &self.subscriptions
    }

    /// The server `id`.
    pub fn get_server(&self, id: &ContextServerId) -> (server: Option<Arc<ContextServer>>)
        ensures
            server == (if self@.servers.contains_key(id@) {
                Some(self@.servers[id@].spec_server())
            } else {
                None
            }),
    {
        match self.servers.get(&id.0) {
            Some(state) => Some(state.server()),
            None => None,
        }
    }

    /// The server `id`, if it is running.
    pub fn get_running_server(&self, id: &ContextServerId) -> (server: Option<Arc<ContextServer>>)
        ensures
            server == (if self@.is_running(id@) {
                Some(self@.servers[id@].spec_server())
            } else {
                None
            }),
    {
        if let Some(ContextServerState::Running { server, .. }) = self.servers.get(&id.0) {
            Some(server.clone())
        } else {
            None
        }
    }

    /// The status of the server `id`.
    pub fn status_for_server(&self, id: &ContextServerId) -> (status: Option<ContextServerStatus>)
        ensures
            status == (if self@.servers.contains_key(id@) {
                Some(self@.servers[id@].status())
            } else {
                None
            }),
    {
        match self.servers.get(&id.0) {
            Some(state) => Some(ContextServerStatus::from_state(state)),
            None => None,
        }
    }

    /// The configuration that the server `id` was run with.
    pub fn configuration_for_server(&self, id: &ContextServerId) -> (configuration: Option<
        Arc<ContextServerConfiguration>,
    >)
        ensures
            configuration == (if self@.servers.contains_key(id@) {
                Some(self@.servers[id@].spec_configuration())
            } else {
                None
            }),
    {
        match self.servers.get(&id.0) {
            Some(state) => Some(state.configuration()),
            None => None,
        }
    }

    /// The identifiers of all servers, each once, in no particular order.
    pub fn all_server_ids(&self) -> (ids: Vec<ContextServerId>)
        ensures
            ids@.map_values(|id: ContextServerId| id@).no_duplicates(),
            ids@.map_values(|id: ContextServerId| id@).to_set() == self@.servers.dom(),
    {
        let n = self.servers.len();
        let mut ids: Vec<ContextServerId> = Vec::new();
        let mut i: usize = 0;
        while i < n
            invariant
                n == self.servers.key_order().len(),
                i <= n,
                ids@.map_values(|id: ContextServerId| id@) == self.servers.key_order().take(
                    i as int,
                ),
            decreases n - i,
        {
            let (key, _) = self.servers.entry_at(i);
            let ghost before = ids@.map_values(|id: ContextServerId| id@);
            ids.push(ContextServerId(key.clone()));
            proof {
                let order = self.servers.key_order();
                assert(ids@.map_values(|id: ContextServerId| id@) =~= before.push(
                    order[i as int],
                ));
                assert(order.take(i + 1) =~= order.take(i as int).push(order[i as int]));
            }
            i += 1;
        }
        assert(self.servers.key_order().take(i as int) =~= self.servers.key_order());
        ids
    }

    /// The servers that are running, each once, in no particular order.
    pub fn running_servers(&self) -> (running: Vec<Arc<ContextServer>>)
        requires
            self@.wf(),
        ensures
            forall|i: int|
                0 <= i < running@.len() ==> self@.is_running((#[trigger] running@[i]).id@)
                    && self@.servers[running@[i].id@].spec_server() == running@[i],
            forall|i: int, j: int|
                0 <= i < j < running@.len() ==> (#[trigger] running@[i]).id@ != (
                #[trigger] running@[j]).id@,
            forall|key: Seq<char>| #[trigger]
                self@.is_running(key) ==> running@.contains(self@.servers[key].spec_server()),
    {
        let n = self.servers.len();
        let ghost order = self.servers.key_order();
        let mut running: Vec<Arc<ContextServer>> = Vec::new();
        let mut i: usize = 0;
        while i < n
            invariant
                self@.wf(),
                order == self.servers.key_order(),
                order.no_duplicates(),
                n == order.len(),
                i <= n,
                forall|j: int|
                    0 <= j < running@.len() ==> self@.is_running((#[trigger] running@[j]).id@)
                        && self@.servers[running@[j].id@].spec_server() == running@[j]
                        && order.take(i as int).contains(running@[j].id@),
                forall|j: int, k: int|
                    0 <= j < k < running@.len() ==> (#[trigger] running@[j]).id@ != (
                    #[trigger] running@[k]).id@,
                forall|j: int|
                    0 <= j < i && self@.is_running(#[trigger] order[j]) ==> running@.contains(
                        self@.servers[order[j]].spec_server(),
                    ),
            decreases n - i,
        {
            let (_, state) = self.servers.entry_at(i);
            let ghost before = running@;
            proof {
                assert(order.take(i + 1) =~= order.take(i as int).push(order[i as int]));
                assert forall|key: Seq<char>| order.take(i as int).contains(key) implies order.take(
                    i + 1,
                ).contains(key) by {
                    let j = choose|j: int| 0 <= j < i && order.take(i as int)[j] == key;
                    assert(order.take(i + 1)[j] == key);
                }
                assert(order.take(i + 1)[i as int] == order[i as int]);
                assert(!order.take(i as int).contains(order[i as int])) by {
                    if order.take(i as int).contains(order[i as int]) {
                        let j = choose|j: int|
                            0 <= j < i && order.take(i as int)[j] == order[i as int];
                        assert(order[j] == order[i as int]);
                    }
                }
            }
            if let ContextServerState::Running { server, .. } = state {
                running.push(server.clone());
                proof {
                    assert(running@[before.len() as int] == *server);
                    assert forall|s: Arc<ContextServer>|
                        before.contains(s) implies running@.contains(s) by {
                        let j = choose|j: int| 0 <= j < before.len() && before[j] == s;
                        assert(running@[j] == s);
                    }
                }
            }
            i += 1;
        }
        proof {
            assert forall|key: Seq<char>| #[trigger] self@.is_running(key) implies running@.contains(
                self@.servers[key].spec_server(),
            ) by {
                assert(order.to_set().contains(key));
                let j = choose|j: int| 0 <= j < order.len() && order[j] == key;
                assert(self@.is_running(order[j]));
            }
        }
        running
    }

    /// Runs `server` with the configuration that the settings hold for it. The settings are
    /// those at [`WorktreeStore::settings_location`].
    pub fn start_server(
        &mut self,
        server: Arc<ContextServer>,
        settings: &ProjectSettings,
        cx: &mut Context,
    ) -> (result: Result<(), StoreError>)
        requires
            old(self)@.wf(),
        ensures
            final(self)@.wf(),
            match result {
                Ok(()) => {
                    &&& settings.context_servers@.contains_key(server.id@)
                    &&& exists|configuration: Arc<ContextServerConfiguration>|
                        {
                            &&& configuration@ == settings.context_servers@[server.id@]@
                            &&& final(self)@ == #[trigger] old(self)@.run(server, configuration)
                            &&& final(cx)@ == old(cx)@ + old(self)@.run_effects(
                                server,
                                configuration,
                            )
                        }
                },
                Err(error) => {
                    &&& !settings.context_servers@.contains_key(server.id@)
                    &&& error == StoreError::ConfigurationNotFound
                    &&& final(self)@ == old(self)@
                    &&& final(cx)@ == old(cx)@
                },
            },
    {
        match settings.context_servers.get(&server.id.0) {
            Some(configuration) => {
                self.run_server(server, Arc::new(configuration.clone()), cx);
                Ok(())
            },
            None => Err(StoreError::ConfigurationNotFound),
        }
    }

    /// Stops the server `id`. A server that is starting is stopped at once, by dropping
    /// the task that starts it; a server that runs is stopped by the host, and
    /// [`Stop::finish`] turns the outcome of that into the result of the request.
    pub fn stop_server(&mut self, id: &ContextServerId, cx: &mut Context) -> (result: Result<
        Stop,
        StoreError,
    >)
        requires
            old(self)@.wf(),
        ensures
            final(self)@.wf(),
            final(self)@ == old(self)@.stopped(id@),
            final(cx)@ == old(cx)@ + old(self)@.stop_effects(*id),
            result == (if old(self)@.servers.contains_key(id@) {
                Ok(old(self)@.stop_result(id@))
            } else {
                Err(StoreError::ServerNotFound)
            }),
    {
        let ghost before = self@;
        let ghost effects = cx@;
        let state = match self.servers.remove(&id.0) {
            Some(state) => state,
            None => {
                assert(self@ =~= before);
                assert(cx@ =~= effects + before.stop_effects(*id));
                return Err(StoreError::ServerNotFound);
            },
        };
        let server = state.server();
        let configuration = state.configuration();
        let mut stop = Stop::Done;
        if let ContextServerState::Running { server, .. } = &state {
            cx.add_effect(Effect::StopServer(server.clone()));
            stop = Stop::Requested(server.clone());
        }
        Self::drop_state(&state, cx);
        self.update_server_state(
            id.clone(),
            ContextServerState::Stopped { server, configuration, error: None },
            cx,
        );
        assert(self@ =~= before.stopped(id@));
        proof {
            lemma_free_stays(before, self@, before.next_task);
        }
        assert(cx@ =~= effects + before.stop_effects(*id));
        Ok(stop)
    }

    /// Begins to restart the server `id`, by stopping it. The restart goes on with
    /// [`ContextServerStore::finish_restart`], once the host has stopped the server. For a
    /// server that the store does not know there is nothing to do.
    pub fn restart_server(&mut self, id: &ContextServerId, cx: &mut Context) -> (restart: Option<
        PendingRestart,
    >)
        requires
            old(self)@.wf(),
        ensures
            final(self)@.wf(),
            match restart {
                Some(restart) => {
                    let state = old(self)@.servers[id@];
                    &&& old(self)@.servers.contains_key(id@)
                    &&& restart.id == *id
                    &&& restart.configuration == state.spec_configuration()
                    &&& restart.stop == old(self)@.stop_result(id@)
                    &&& final(self)@ == old(self)@.stopped(id@)
                    &&& final(cx)@ == old(cx)@ + old(self)@.stop_effects(state.spec_server().id)
                },
                None => {
                    &&& !old(self)@.servers.contains_key(id@)
                    &&& final(self)@ == old(self)@
                    &&& final(cx)@ == old(cx)@
                },
            },
    {
        let (configuration, server_id) = match self.servers.get(&id.0) {
            Some(state) => (state.configuration(), state.server().id()),
            None => {
                return None;
            },
        };
        match self.stop_server(&server_id, cx) {
            Ok(stop) => Some(PendingRestart { id: id.clone(), configuration, stop }),
            Err(_) => None,
        }
    }

    /// Goes on with a restart: `outcome` is how stopping the server went. A server that did
    /// not stop, or whose configuration launches nothing, is not run again. The
    /// configuration counts as a global one.
    pub fn finish_restart(
        &mut self,
        restart: PendingRestart,
        outcome: Result<(), Arc<str>>,
        cx: &mut Context,
    ) -> (result: Result<(), StoreError>)
        requires
            old(self)@.wf(),
        ensures
            final(self)@.wf(),
            match result {
                Ok(()) => {
                    &&& !(restart.stop is Requested && outcome is Err)
                    &&& launch(
                        restart.configuration@,
                        Seq::empty(),
                        None,
                    ) matches Launch::Command(command)
                    &&& exists|server: Arc<ContextServer>|
                        {
                            &&& old(self)@.makes(
                                restart.id,
                                restart.configuration,
                                command,
                                server,
                            )
                            &&& final(self)@ == #[trigger] old(self)@.run(
                                server,
                                restart.configuration,
                            )
                            &&& final(cx)@ == old(cx)@ + old(self)@.run_effects(
                                server,
                                restart.configuration,
                            )
                        }
                },
                Err(error) => {
                    &&& error == (match (restart.stop, outcome) {
                        (Stop::Requested(_), Err(reason)) => StoreError::StopFailed(reason),
                        _ => StoreError::MissingCommand(restart.id),
                    })
                    &&& (restart.stop is Requested && outcome is Err)
                        || restart.configuration@.command is None
                    &&& final(self)@ == old(self)@
                    &&& final(cx)@ == old(cx)@
                },
            },
    {
        match restart.stop.finish(outcome) {
            Ok(()) => {},
            Err(error) => {
                return Err(error);
            },
        }
        let worktrees = WorktreeStore { worktrees: Vec::new() };
        assert(worktrees.worktrees@ =~= Seq::empty());
        match self.create_context_server(
            restart.id,
            restart.configuration.clone(),
            &worktrees,
            None,
        ) {
            Ok(server) => {
                self.run_server(server, restart.configuration, cx);
                Ok(())
            },
            Err(error) => Err(error),
        }
    }

    /// Runs `server`: whatever runs or starts under its identifier is stopped, and the host
    /// is asked to start the server.
    pub fn run_server(
        &mut self,
        server: Arc<ContextServer>,
        configuration: Arc<ContextServerConfiguration>,
        cx: &mut Context,
    )
        requires
            old(self)@.wf(),
        ensures
            final(self)@.wf(),
            final(self)@ == old(self)@.run(server, configuration),
            final(cx)@ == old(cx)@ + old(self)@.run_effects(server, configuration),
    {
        let ghost before = self@;
        let ghost effects = cx@;
        let id = server.id();
        let active = match self.servers.get(&id.0) {
            Some(ContextServerState::Starting { .. }) => true,
            Some(ContextServerState::Running { .. }) => true,
            _ => false,
        };
        if active {
            let _ = self.stop_server(&id, cx);
        }
        let task = TaskId(self.next_task);
        cx.add_effect(
            Effect::StartServer {
                task,
                server: server.clone(),
                configuration: configuration.clone(),
            },
        );
        self.update_server_state(
            id,
            ContextServerState::Starting { server, configuration, task },
            cx,
        );
        assert(self@ =~= before.with_start(server, configuration));
        self.advance_task();
        assert(cx@ =~= effects + before.run_effects(server, configuration));
    }

    /// Hears from the host how the task that starts the server `id` ended. Where the store
    /// does not wait for that task any more, nothing changes.
    pub fn finish_start(
        &mut self,
        id: &ContextServerId,
        task: TaskId,
        outcome: Result<(), Arc<str>>,
        cx: &mut Context,
    )
        requires
            old(self)@.wf(),
        ensures
            final(self)@.wf(),
            final(self)@ == old(self)@.reported(id@, task, outcome),
            final(cx)@ == old(cx)@ + old(self)@.report_effects(id@, task, outcome),
    {
        let (server, configuration) = match self.servers.get(&id.0) {
            Some(ContextServerState::Starting { server, configuration, task: awaited }) => {
                if *awaited != task {
                    return;
                }
                (server.clone(), configuration.clone())
            },
            _ => {
                return;
            },
        };
        let server_id = server.id();
        let state = match outcome {
            Ok(()) => ContextServerState::Running { server, configuration },
            Err(error) => ContextServerState::Stopped { server, configuration, error: Some(error) },
        };
        let ghost before = self@;
        self.update_server_state(server_id, state, cx);
        proof {
            lemma_free_stays(before, self@, before.next_task);
        }
    }

    /// Takes the server `id` out of the store. Its host is not asked to stop it.
    pub fn remove_server(&mut self, id: &ContextServerId, cx: &mut Context) -> (result: Result<
        (),
        StoreError,
    >)
        requires
            old(self)@.wf(),
        ensures
            final(self)@.wf(),
            final(self)@ == old(self)@.removed(id@),
            final(cx)@ == old(cx)@ + old(self)@.remove_effects(*id),
            result == (if old(self)@.servers.contains_key(id@) {
                Ok(())
            } else {
                Err(StoreError::ServerNotFound)
            }),
    {
        let ghost before = self@;
        let ghost effects = cx@;
        let state = match self.servers.remove(&id.0) {
            Some(state) => state,
            None => {
                assert(before.servers.remove(id@) =~= before.servers);
                assert(self@ =~= before);
                assert(self@ =~= before.removed(id@));
                assert(cx@ =~= effects + before.remove_effects(*id));
                return Err(StoreError::ServerNotFound);
            },
        };
        Self::drop_state(&state, cx);
        cx.add_effect(
            Effect::Emit(
                Event::ServerStatusChanged {
                    server_id: id.clone(),
                    status: ContextServerStatus::Stopped,
                },
            ),
        );
        assert(self@ =~= before.removed(id@));
        proof {
            lemma_free_stays(before, self@, before.next_task);
        }
        assert(cx@ =~= effects + before.remove_effects(*id));
        Ok(())
    }

    /// Whether the configuration can be run: without a factory it needs a command.
    pub fn is_configuration_valid(&self, configuration: &ContextServerConfiguration) -> (valid:
        bool)
        ensures
            valid == (self@.factory is Some || configuration@.command is Some),
    {
        self.context_server_factory.is_some() || configuration.command.is_some()
    }

    /// Makes the server that the configuration asks for. `source_worktree_id` is the
    /// worktree whose settings the configuration comes from, if it is not a global one. A
    /// factory gets the configuration as it stands.
    pub fn create_context_server(
        &self,
        id: ContextServerId,
        configuration: Arc<ContextServerConfiguration>,
        worktrees: &WorktreeStore,
        source_worktree_id: Option<WorktreeId>,
    ) -> (result: Result<Arc<ContextServer>, StoreError>)
        requires
            self@.wf(),
        ensures
            match launch(configuration@, worktrees.worktrees@, source_worktree_id) {
                Launch::Command(command) => result matches Ok(server) && self@.makes(
                    id,
                    configuration,
                    command,
                    server,
                ),
                Launch::MissingCommand => result == Err::<Arc<ContextServer>, StoreError>(
                    StoreError::MissingCommand(id),
                ),
                Launch::UnresolvedPlaceholder => result == Err::<Arc<ContextServer>, StoreError>(
                    StoreError::UnresolvedPlaceholder(id),
                ),
            },
    {
        let mut command_to_run = match &configuration.command {
            Some(command) => command.clone(),
            None => {
                return Err(StoreError::MissingCommand(id));
            },
        };
        if let Some(worktree_id) = source_worktree_id {
            if uses_placeholder(&command_to_run) {
                let substituted = match worktrees.local_path_for_id(worktree_id) {
                    Some(path) => substitute_command_placeholders(&mut command_to_run, path),
                    None => false,
                };
                if !substituted {
                    return Err(StoreError::UnresolvedPlaceholder(id));
                }
            }
        }
        match &self.context_server_factory {
            Some(factory) => Ok(factory(id, configuration)),
            None => Ok(Arc::new(ContextServer::stdio(id, command_to_run))),
        }
    }

    /// Lets go of a state.
    fn drop_state(state: &ContextServerState, cx: &mut Context)
        ensures
            final(cx)@ == (match state {
                ContextServerState::Starting { task, .. } => old(cx)@.push(
                    Effect::DropTask(*task),
                ),
                _ => old(cx)@,
            }),
    {
        if let ContextServerState::Starting { task, .. } = state {
            cx.add_effect(Effect::DropTask(*task));
        }
    }

    /// Puts `state` under `id` and announces its status.
    fn update_server_state(
        &mut self,
        id: ContextServerId,
        state: ContextServerState,
        cx: &mut Context,
    )
        ensures
            old(self)@.sound() && state.spec_server().id@ == id@ ==> final(self)@.sound(),
            final(self)@ == old(self)@.with_state(id@, state),
            final(cx)@ == old(cx)@ + old(self)@.state_effects(id, state),
    {
        let ghost before = self@;
        let ghost effects = cx@;
        let status = ContextServerStatus::from_state(&state);
        if let Some(previous) = self.servers.insert(id.0.clone(), state) {
            Self::drop_state(&previous, cx);
        }
        cx.add_effect(Effect::Emit(Event::ServerStatusChanged { server_id: id, status }));
        assert(self@ =~= before.with_state(id@, state));
        assert(cx@ =~= effects + before.state_effects(id, state));
    }

    /// Hears from the host that the update of the servers is done. Where another is owed, it
    /// begins.
    pub fn finish_update(&mut self, cx: &mut Context)
        requires
            old(self)@.wf(),
        ensures
            final(self)@.wf(),
            final(self)@ == old(self)@.updated(),
            final(cx)@ == old(cx)@ + old(self)@.updated_effects(),
    {
        let ghost before = self@;
        let owed = self.needs_server_update;
        self.needs_server_update = false;
        self.update_servers_task = None;
        proof {
            lemma_free_stays(before, self@, before.next_task);
        }
        if owed {
            self.available_context_servers_changed(cx);
        }
    }
}

} // verus!
