//! How the store follows the settings: an update gathers the servers that there should
//! be, compares them with the servers that there are, and carries the difference out.

use crate::bookkeeping::{in_order, lemma_step_keeps_order};
use crate::context_server::{
    CommandView, ConfigurationView, ContextServer, ContextServerCommand, ContextServerConfiguration,
    ContextServerId, ContextServerTransport,
};
use crate::history::{awaits_live_starts, law_steps_keep_live_starts_awaited};
use crate::laws::law_steps_make_the_plan;
use crate::project::{
    configuration_texts, ProjectSettings, SettingsLocation, Worktree, WorktreeId, WorktreeStore,
};
use crate::state::{Context, Effect, StoreError};
use crate::store::{launch, ContextServerStore, Launch, StoreView};
use crate::str_map::StrMap;
use std::sync::Arc;
use vstd::prelude::*;

verus! {

/// The servers that there should be, as far as an update has gathered them.
#[derive(Debug)]
pub struct DesiredServers {
    pub servers: StrMap<ContextServerConfiguration>,
    /// The worktree that the settings were looked up in, if there was one.
    pub source_worktree_id: Option<WorktreeId>,
    /// The servers that only the global settings mention.
    pub global_only: StrMap<()>,
}

/// The text of the servers that there should be.
#[verifier::ext_equal]
pub struct DesiredView {
    pub servers: Map<Seq<char>, ConfigurationView>,
    pub source_worktree_id: Option<WorktreeId>,
    pub global_only: Set<Seq<char>>,
}

impl View for DesiredServers {
    type V = DesiredView;

    open spec fn view(&self) -> DesiredView {
        DesiredView {
            servers: configuration_texts(self.servers@),
            source_worktree_id: self.source_worktree_id,
            global_only: self.global_only@.dom(),
        }
    }
}

impl DesiredView {
    /// The worktree whose settings the server `key` comes from, if its configuration is not
    /// a global one.
    pub open spec fn source(self, key: Seq<char>) -> Option<WorktreeId> {
        if self.global_only.contains(key) {
            None
        } else {
            self.source_worktree_id
        }
    }

    /// The servers once the registry has named the server `key`: if the settings do not
    /// mention it, it comes with an empty configuration.
    pub open spec fn with_descriptor(self, key: Seq<char>) -> DesiredView {
        if self.servers.contains_key(key) {
            self
        } else {
            DesiredView {
                servers: self.servers.insert(key, ConfigurationView::unset()),
                ..self
            }
        }
    }

    /// The server `key` is there, and still lacks a command.
    pub open spec fn lacks_command(self, key: Seq<char>) -> bool {
        self.servers.contains_key(key) && self.servers[key].command is None
    }

    /// The servers once the extension behind the server `key` has been asked for the
    /// server's command.
    pub open spec fn with_reply(
        self,
        key: Seq<char>,
        reply: Option<ContextServerCommand>,
    ) -> DesiredView {
        match reply {
            Some(command) if self.lacks_command(key) => DesiredView {
                servers: self.servers.insert(key, self.servers[key].with_command(command@)),
                ..self
            },
            _ => self,
        }
    }

    /// The servers once all servers that the registry names have been taken up, in order, and
    /// their extensions asked for a command.
    pub open spec fn gathered(self, offers: Seq<Offer>) -> DesiredView
        decreases offers.len(),
    {
        if offers.len() == 0 {
            self
        } else {
            self.with_descriptor(offers[0].key).with_reply(
                offers[0].key,
                offers[0].reply,
            ).gathered(offers.skip(1))
        }
    }
}

/// A server that the registry names, and what its extension replies when it is asked for the
/// server's command.
pub struct Offer {
    pub key: Seq<char>,
    pub reply: Option<ContextServerCommand>,
}

/// One of the offers is for the server `key`.
pub open spec fn is_offered(offers: Seq<Offer>, key: Seq<char>) -> bool {
    exists|i: int| 0 <= i < offers.len() && (#[trigger] offers[i]).key == key
}

/// The first command that is offered for the server `key`.
pub open spec fn first_command(offers: Seq<Offer>, key: Seq<char>) -> Option<CommandView>
    decreases offers.len(),
{
    if offers.len() == 0 {
        None
    } else {
        match offers[0].reply {
            Some(command) if offers[0].key == key => Some(command@),
            _ => first_command(offers.skip(1), key),
        }
    }
}

fn copy_keys(keys: &StrMap<()>) -> (copy: StrMap<()>)
    ensures
        copy@.dom() == keys@.dom(),
{
    let mut copy: StrMap<()> = StrMap::new();
    let n = keys.len();
    let ghost order = keys.key_order();
    let mut i: usize = 0;
    while i < n
        invariant
            order == keys.key_order(),
            n == order.len(),
            i <= n,
            copy@.dom() == order.take(i as int).to_set(),
        decreases n - i,
    {
        let (key, _) = keys.entry_at(i);
        copy.insert(key.clone(), ());
        proof {
            assert(order.take(i + 1) =~= order.take(i as int).push(order[i as int]));
            order.take(i as int).lemma_push_to_set_commute(order[i as int]);
        }
        i += 1;
        assert(copy@.dom() =~= order.take(i as int).to_set());
    }
    assert(order.take(n as int) =~= order);
    copy
}

impl DesiredServers {
    /// The servers that the settings mention. `location` is where the settings were looked
    /// up: a server comes from the worktree there, unless only the global settings mention
    /// it.
    pub fn from_settings(location: &Option<SettingsLocation>, settings: &ProjectSettings) -> (desired:
        Self)
        ensures
            desired@.servers == configuration_texts(settings.context_servers@),
            desired@.global_only == settings.global_only@.dom(),
            forall|key: Seq<char>| #[trigger]
                desired@.source(key) == (if settings.global_only@.contains_key(key) {
                    None
                } else {
                    match location {
                        Some(location) => Some(location.worktree_id),
                        None => None,
                    }
                }),
    {
        let from = &settings.context_servers;
        let mut servers: StrMap<ContextServerConfiguration> = StrMap::new();
        let n = from.len();
        let ghost order = from.key_order();
        let mut i: usize = 0;
        while i < n
            invariant
                order == from.key_order(),
                n == order.len(),
                i <= n,
                configuration_texts(servers@) == configuration_texts(from@).restrict(
                    order.take(i as int).to_set(),
                ),
            decreases n - i,
        {
            let (key, configuration) = from.entry_at(i);
            let ghost before = configuration_texts(servers@);
            servers.insert(key.clone(), configuration.clone());
            proof {
                assert(configuration_texts(servers@) =~= before.insert(
                    order[i as int],
                    configuration@,
                ));
                assert(order.take(i + 1) =~= order.take(i as int).push(order[i as int]));
                order.take(i as int).lemma_push_to_set_commute(order[i as int]);
            }
            i += 1;
            assert(configuration_texts(servers@) =~= configuration_texts(from@).restrict(
                order.take(i as int).to_set(),
            ));
        }
        assert(order.take(n as int) =~= order);
        assert(configuration_texts(servers@) =~= configuration_texts(from@));
        DesiredServers {
            servers,
            source_worktree_id: match location {
                Some(location) => Some(location.worktree_id),
                None => None,
            },
            global_only: copy_keys(&settings.global_only),
        }
    }

    /// The worktree whose settings the server `id` comes from, if its configuration is not a
    /// global one.
    pub fn source(&self, id: &str) -> (source: Option<WorktreeId>)
        ensures
            source == self@.source(id@),
    {
        if self.global_only.contains_key(id) {
            None
        } else {
            self.source_worktree_id
        }
    }

    /// Takes up a server that the registry names. The result says whether the extension
    /// behind it has to be asked for its command.
    pub fn add_descriptor(&mut self, id: &Arc<str>) -> (ask: bool)
        ensures
            final(self)@ == old(self)@.with_descriptor((**id)@),
            ask == final(self)@.lacks_command((**id)@),
    {
        let ghost before = self@;
        match self.servers.get(id) {
            Some(configuration) => configuration.command.is_none(),
            None => {
                self.servers.insert(id.clone(), ContextServerConfiguration::default());
                assert(self@ =~= before.with_descriptor((**id)@));
                true
            },
        }
    }

    /// Takes up the command that an extension gave for the server `id`, if it gave one. It
    /// counts only where the settings give none.
    pub fn provide_command(&mut self, id: &Arc<str>, reply: Option<ContextServerCommand>)
        ensures
            final(self)@ == old(self)@.with_reply((**id)@, reply),
    {
        let ghost before = self@;
        let lacks_command = match self.servers.get(id) {
            Some(configuration) => configuration.command.is_none(),
            None => false,
        };
        if lacks_command {
            if let Some(command) = reply {
                if let Some(configuration) = self.servers.remove(id) {
                    self.servers.insert(
                        id.clone(),
                        ContextServerConfiguration {
                            command: Some(command),
                            settings: configuration.settings,
                        },
                    );
                    assert(self@ =~= before.with_reply((**id)@, reply));
                }
            }
        }
    }
}

/// A server that is to be run.
#[derive(Debug)]
pub struct PlannedServer {
    /// The identifier that the server was made for.
    pub id: ContextServerId,
    pub server: Arc<ContextServer>,
    pub configuration: Arc<ContextServerConfiguration>,
}

/// A server that could not be made, and why.
#[derive(Debug)]
pub struct FailedServer {
    pub id: ContextServerId,
    pub error: StoreError,
}

/// What is to be done to bring the servers in line with the settings. First servers are
/// stopped, then servers are removed, then servers are run.
#[derive(Debug)]
pub struct UpdatePlan {
    pub servers_to_stop: Vec<ContextServerId>,
    pub servers_to_remove: Vec<ContextServerId>,
    pub servers_to_start: Vec<PlannedServer>,
    /// The servers that should have been run but could not be made.
    pub failures: Vec<FailedServer>,
}

/// The text of each identifier.
pub open spec fn id_texts(ids: Seq<ContextServerId>) -> Seq<Seq<char>> {
    ids.map_values(|id: ContextServerId| id@)
}

/// The text of the identifier that each server was made for.
pub open spec fn planned_texts(planned: Seq<PlannedServer>) -> Seq<Seq<char>> {
    planned.map_values(|planned: PlannedServer| planned.id@)
}

/// The text of the identifier of each server that could not be made.
pub open spec fn failed_texts(failures: Seq<FailedServer>) -> Seq<Seq<char>> {
    failures.map_values(|failed: FailedServer| failed.id@)
}

impl UpdatePlan {
    /// The number of steps that are left.
    pub open spec fn steps(self) -> nat {
        self.servers_to_stop@.len() + self.servers_to_remove@.len() + self.servers_to_start@.len()
    }

    /// The servers that are still to be stopped after the next step.
    pub open spec fn rest_to_stop(self) -> Seq<ContextServerId> {
        if self.servers_to_stop@.len() > 0 {
            self.servers_to_stop@.skip(1)
        } else {
            self.servers_to_stop@
        }
    }

    /// The servers that are still to be removed after the next step.
    pub open spec fn rest_to_remove(self) -> Seq<ContextServerId> {
        if self.servers_to_stop@.len() == 0 && self.servers_to_remove@.len() > 0 {
            self.servers_to_remove@.skip(1)
        } else {
            self.servers_to_remove@
        }
    }

    /// The servers that are still to be run after the next step.
    pub open spec fn rest_to_start(self) -> Seq<PlannedServer> {
        if self.servers_to_stop@.len() == 0 && self.servers_to_remove@.len() == 0
            && self.servers_to_start@.len() > 0 {
            self.servers_to_start@.skip(1)
        } else {
            self.servers_to_start@
        }
    }
}

/// The keys of the first `i + 1` places are those of the first `i` and the one at `i`.
proof fn lemma_take_next(keys: Seq<Seq<char>>, i: int)
    requires
        0 <= i < keys.len(),
    ensures
        forall|key: Seq<char>| #[trigger]
            keys.take(i + 1).contains(key) <==> keys.take(i).contains(key) || key == keys[i],
        keys.no_duplicates() ==> !keys.take(i).contains(keys[i]),
{
    assert forall|key: Seq<char>| #[trigger]
        keys.take(i + 1).contains(key) <==> keys.take(i).contains(key) || key == keys[i] by {
        let next = keys.take(i + 1);
        if next.contains(key) {
            let j = choose|j: int| 0 <= j < next.len() && next[j] == key;
            if j < i {
                assert(keys.take(i)[j] == key);
            }
        }
        if keys.take(i).contains(key) {
            let j = choose|j: int| 0 <= j < i && keys.take(i)[j] == key;
            assert(keys.take(i + 1)[j] == key);
        }
        assert(keys.take(i + 1)[i] == keys[i]);
    }
    if keys.no_duplicates() && keys.take(i).contains(keys[i]) {
        let j = choose|j: int| 0 <= j < i && keys.take(i)[j] == keys[i];
        assert(keys[j] == keys[i]);
    }
}

/// A key that is added to a list without duplicates that does not hold it.
proof fn lemma_push_fresh(keys: Seq<Seq<char>>, added: Seq<char>)
    ensures
        keys.no_duplicates() && !keys.contains(added) ==> keys.push(added).no_duplicates(),
        forall|key: Seq<char>| #[trigger]
            keys.push(added).contains(key) <==> keys.contains(key) || key == added,
{
    let pushed = keys.push(added);
    assert forall|key: Seq<char>| #[trigger]
        pushed.contains(key) <==> keys.contains(key) || key == added by {
        if pushed.contains(key) {
            let j = choose|j: int| 0 <= j < pushed.len() && pushed[j] == key;
            if j < keys.len() {
                assert(keys[j] == key);
            }
        }
        if keys.contains(key) {
            let j = choose|j: int| 0 <= j < keys.len() && keys[j] == key;
            assert(pushed[j] == key);
        }
        assert(pushed[keys.len() as int] == added);
    }
}

impl<F> StoreView<F> {
    /// The desired servers that can be run at all: without a factory those that have a
    /// command.
    pub open spec fn runnable(self, desired: DesiredView) -> Map<Seq<char>, ConfigurationView> {
        Map::new(
            |key: Seq<char>|
                desired.servers.contains_key(key) && (self.factory is Some
                    || desired.servers[key].command is Some),
            |key: Seq<char>| desired.servers[key],
        )
    }

    /// The server `key` is one that there should not be.
    pub open spec fn is_surplus(self, desired: DesiredView, key: Seq<char>) -> bool {
        self.servers.contains_key(key) && !self.runnable(desired).contains_key(key)
    }

    /// The store has the server `key` with the desired configuration.
    pub open spec fn is_current(self, desired: DesiredView, key: Seq<char>) -> bool {
        self.servers.contains_key(key) && self.servers[key].spec_configuration()@
            == desired.servers[key]
    }

    /// The server `key` is one that there should be, that the store does not have with the
    /// desired configuration, and that can be made.
    pub open spec fn is_due(
        self,
        desired: DesiredView,
        worktrees: Seq<Worktree>,
        key: Seq<char>,
    ) -> bool {
        &&& self.runnable(desired).contains_key(key)
        &&& !self.is_current(desired, key)
        &&& launch(desired.servers[key], worktrees, desired.source(key)) is Command
    }

    /// The server `key` is one that there should be and that the store does not have with the
    /// desired configuration, but that cannot be made.
    pub open spec fn is_failing(
        self,
        desired: DesiredView,
        worktrees: Seq<Worktree>,
        key: Seq<char>,
    ) -> bool {
        &&& self.runnable(desired).contains_key(key)
        &&& !self.is_current(desired, key)
        &&& !(launch(desired.servers[key], worktrees, desired.source(key)) is Command)
    }

    /// The store after all of the servers were stopped, in order.
    pub open spec fn stopped_all(self, ids: Seq<ContextServerId>) -> StoreView<F>
        decreases ids.len(),
    {
        if ids.len() == 0 {
            self
        } else {
            self.stopped(ids[0]@).stopped_all(ids.skip(1))
        }
    }

    /// The effects of stopping all of the servers, in order.
    pub open spec fn stop_all_effects(self, ids: Seq<ContextServerId>) -> Seq<Effect>
        decreases ids.len(),
    {
        if ids.len() == 0 {
            Seq::empty()
        } else {
            self.stop_effects(ids[0]) + self.stopped(ids[0]@).stop_all_effects(ids.skip(1))
        }
    }

    /// The store after all of the servers were removed, in order.
    pub open spec fn removed_all(self, ids: Seq<ContextServerId>) -> StoreView<F>
        decreases ids.len(),
    {
        if ids.len() == 0 {
            self
        } else {
            self.removed(ids[0]@).removed_all(ids.skip(1))
        }
    }

    /// The effects of removing all of the servers, in order.
    pub open spec fn remove_all_effects(self, ids: Seq<ContextServerId>) -> Seq<Effect>
        decreases ids.len(),
    {
        if ids.len() == 0 {
            Seq::empty()
        } else {
            self.remove_effects(ids[0]) + self.removed(ids[0]@).remove_all_effects(ids.skip(1))
        }
    }

    /// The store after all of the planned servers were run, in order.
    pub open spec fn run_all(self, planned: Seq<PlannedServer>) -> StoreView<F>
        decreases planned.len(),
    {
        if planned.len() == 0 {
            self
        } else {
            self.run(planned[0].server, planned[0].configuration).run_all(planned.skip(1))
        }
    }

    /// The effects of running all of the planned servers, in order.
    pub open spec fn run_all_effects(self, planned: Seq<PlannedServer>) -> Seq<Effect>
        decreases planned.len(),
    {
        if planned.len() == 0 {
            Seq::empty()
        } else {
            self.run_effects(planned[0].server, planned[0].configuration) + self.run(
                planned[0].server,
                planned[0].configuration,
            ).run_all_effects(planned.skip(1))
        }
    }

    /// The store after the next step of the plan.
    pub open spec fn after_step(self, plan: UpdatePlan) -> StoreView<F> {
        if plan.servers_to_stop@.len() > 0 {
            self.stopped(plan.servers_to_stop@[0]@)
        } else if plan.servers_to_remove@.len() > 0 {
            self.removed(plan.servers_to_remove@[0]@)
        } else if plan.servers_to_start@.len() > 0 {
            self.run(plan.servers_to_start@[0].server, plan.servers_to_start@[0].configuration)
        } else {
            self
        }
    }

    /// The effects of the next step of the plan.
    pub open spec fn step_effects(self, plan: UpdatePlan) -> Seq<Effect> {
        if plan.servers_to_stop@.len() > 0 {
            self.stop_effects(plan.servers_to_stop@[0])
        } else if plan.servers_to_remove@.len() > 0 {
            self.remove_effects(plan.servers_to_remove@[0])
        } else if plan.servers_to_start@.len() > 0 {
            self.run_effects(
                plan.servers_to_start@[0].server,
                plan.servers_to_start@[0].configuration,
            )
        } else {
            Seq::empty()
        }
    }

    /// The store after the plan was carried out.
    pub open spec fn after(self, plan: UpdatePlan) -> StoreView<F> {
        self.stopped_all(plan.servers_to_stop@).removed_all(plan.servers_to_remove@).run_all(
            plan.servers_to_start@,
        )
    }

    /// The effects of carrying the plan out.
    pub open spec fn plan_effects(self, plan: UpdatePlan) -> Seq<Effect> {
        let stopped = self.stopped_all(plan.servers_to_stop@);
        let removed = stopped.removed_all(plan.servers_to_remove@);
        self.stop_all_effects(plan.servers_to_stop@) + stopped.remove_all_effects(
            plan.servers_to_remove@,
        ) + removed.run_all_effects(plan.servers_to_start@)
    }
}

impl<F: Fn(ContextServerId, Arc<ContextServerConfiguration>) -> Arc<ContextServer>> StoreView<F> {
    /// `planned` is a server that the store makes from the desired configuration.
    pub open spec fn plans(
        self,
        desired: DesiredView,
        worktrees: Seq<Worktree>,
        planned: PlannedServer,
    ) -> bool {
        &&& planned.configuration@ == desired.servers[planned.id@]
        &&& launch(
            desired.servers[planned.id@],
            worktrees,
            desired.source(planned.id@),
        ) matches Launch::Command(command)
        &&& self.makes(planned.id, planned.configuration, command, planned.server)
    }

    /// `failed` says why the store cannot make the server from the desired configuration.
    pub open spec fn fails(
        self,
        desired: DesiredView,
        worktrees: Seq<Worktree>,
        failed: FailedServer,
    ) -> bool {
        match launch(desired.servers[failed.id@], worktrees, desired.source(failed.id@)) {
            Launch::Command(_) => false,
            Launch::MissingCommand => failed.error == StoreError::MissingCommand(failed.id),
            Launch::UnresolvedPlaceholder => failed.error == StoreError::UnresolvedPlaceholder(
                failed.id,
            ),
        }
    }

    /// `plan` brings the store in line with the desired servers: it removes the servers that
    /// there should not be, runs those that are due, and first stops those of them that the
    /// store has. It names the servers that cannot be made. No server is named twice in a
    /// list.
    pub open spec fn is_plan(
        self,
        desired: DesiredView,
        worktrees: Seq<Worktree>,
        plan: UpdatePlan,
    ) -> bool {
        let stop = id_texts(plan.servers_to_stop@);
        let remove = id_texts(plan.servers_to_remove@);
        let start = planned_texts(plan.servers_to_start@);
        let failed = failed_texts(plan.failures@);
        &&& remove.no_duplicates()
        &&& forall|key: Seq<char>| #[trigger]
            remove.contains(key) <==> self.is_surplus(desired, key)
        &&& start.no_duplicates()
        &&& forall|key: Seq<char>| #[trigger]
            start.contains(key) <==> self.is_due(desired, worktrees, key)
        &&& forall|i: int|
            0 <= i < plan.servers_to_start@.len() ==> self.plans(
                desired,
                worktrees,
                #[trigger] plan.servers_to_start@[i],
            )
        &&& stop.no_duplicates()
        &&& forall|key: Seq<char>| #[trigger]
            stop.contains(key) <==> self.is_due(desired, worktrees, key)
                && self.servers.contains_key(key)
        &&& failed.no_duplicates()
        &&& forall|key: Seq<char>| #[trigger]
            failed.contains(key) <==> self.is_failing(desired, worktrees, key)
        &&& forall|i: int|
            0 <= i < plan.failures@.len() ==> self.fails(
                desired,
                worktrees,
                #[trigger] plan.failures@[i],
            )
    }
}

impl<
    F: Fn(ContextServerId, Arc<ContextServerConfiguration>) -> Arc<ContextServer>,
> ContextServerStore<F> {
    /// The desired servers whose configuration is valid.
    fn retain_valid(&self, desired: &DesiredServers) -> (retained: StrMap<
        ContextServerConfiguration,
    >)
        ensures
            configuration_texts(retained@) == self@.runnable(desired@),
    {
        let mut retained: StrMap<ContextServerConfiguration> = StrMap::new();
        let n = desired.servers.len();
        let ghost order = desired.servers.key_order();
        let ghost runnable = self@.runnable(desired@);
        let mut i: usize = 0;
        while i < n
            invariant
                order == desired.servers.key_order(),
                n == order.len(),
                i <= n,
                runnable == self@.runnable(desired@),
                configuration_texts(retained@) == runnable.restrict(order.take(i as int).to_set()),
            decreases n - i,
        {
            let (key, configuration) = desired.servers.entry_at(i);
            let ghost before = configuration_texts(retained@);
            let ghost k = order[i as int];
            proof {
                assert(order.take(i + 1) =~= order.take(i as int).push(k));
                order.take(i as int).lemma_push_to_set_commute(k);
                assert(desired@.servers[k] == configuration@);
            }
            if self.is_configuration_valid(configuration) {
                retained.insert(key.clone(), configuration.clone());
                assert(configuration_texts(retained@) =~= before.insert(k, configuration@));
            }
            i += 1;
            assert(configuration_texts(retained@) =~= runnable.restrict(
                order.take(i as int).to_set(),
            ));
        }
        assert(order.take(n as int) =~= order);
        assert(desired@.servers.dom() =~= desired.servers@.dom());
        assert(configuration_texts(retained@) =~= runnable);
        retained
    }

    /// The servers of the store that are not among `desired`.
    fn surplus_servers(&self, desired: &StrMap<ContextServerConfiguration>) -> (surplus: Vec<
        ContextServerId,
    >)
        ensures
            id_texts(surplus@).no_duplicates(),
            forall|key: Seq<char>| #[trigger]
                id_texts(surplus@).contains(key) <==> self@.servers.contains_key(key)
                    && !desired@.contains_key(key),
    {
        let ids = self.all_server_ids();
        let ghost all = id_texts(ids@);
        let mut surplus: Vec<ContextServerId> = Vec::new();
        let mut i: usize = 0;
        while i < ids.len()
            invariant
                all == id_texts(ids@),
                all.no_duplicates(),
                all.to_set() == self@.servers.dom(),
                i <= ids@.len(),
                id_texts(surplus@).no_duplicates(),
                forall|key: Seq<char>| #[trigger]
                    id_texts(surplus@).contains(key) <==> all.take(i as int).contains(key)
                        && !desired@.contains_key(key),
            decreases ids@.len() - i,
        {
            let ghost before = id_texts(surplus@);
            let ghost key = all[i as int];
            proof {
                lemma_take_next(all, i as int);
            }
            if !desired.contains_key(&ids[i].0) {
                surplus.push(ids[i].clone());
                assert(id_texts(surplus@) =~= before.push(key));
                proof {
                    lemma_push_fresh(before, key);
                }
            }
            i += 1;
        }
        proof {
            assert(all.take(i as int) =~= all);
            assert forall|key: Seq<char>| all.contains(key) <==> self@.servers.contains_key(
                key,
            ) by {
                assert(all.to_set().contains(key) <==> self@.servers.dom().contains(key));
            }
        }
        surplus
    }

    /// Plans what brings the store in line with the desired servers. A server that cannot be
    /// made is left as it is. A server of a global configuration is launched by its command
    /// as it stands.
    pub fn plan_update(&self, desired: &DesiredServers, worktrees: &WorktreeStore) -> (plan:
        UpdatePlan)
        requires
            self@.wf(),
        ensures
            self@.is_plan(desired@, worktrees.worktrees@, plan),
            self@.factory is None ==> forall|i: int|
                0 <= i < plan.servers_to_start@.len() && desired@.source(
                    (#[trigger] plan.servers_to_start@[i]).id@,
                ) is None ==> {
                    &&& plan.servers_to_start@[i].server.transport
                        matches ContextServerTransport::Stdio(launched)
                    &&& Some(launched@)
                        == desired@.servers[plan.servers_to_start@[i].id@].command
                },
    {
        let retained = self.retain_valid(desired);
        let servers_to_remove = self.surplus_servers(&retained);
        let mut servers_to_start: Vec<PlannedServer> = Vec::new();
        let mut servers_to_stop: Vec<ContextServerId> = Vec::new();
        let mut failures: Vec<FailedServer> = Vec::new();
        let n = retained.len();
        let ghost order = retained.key_order();
        let ghost goal = desired@;
        let ghost trees = worktrees.worktrees@;
        assert(retained@.dom() =~= self@.runnable(goal).dom());
        let mut i: usize = 0;
        while i < n
            invariant
                self@.wf(),
                goal == desired@,
                trees == worktrees.worktrees@,
                configuration_texts(retained@) == self@.runnable(goal),
                order == retained.key_order(),
                order.no_duplicates(),
                n == order.len(),
                i <= n,
                planned_texts(servers_to_start@).no_duplicates(),
                forall|key: Seq<char>| #[trigger]
                    planned_texts(servers_to_start@).contains(key) <==> order.take(
                        i as int,
                    ).contains(key) && self@.is_due(goal, trees, key),
                forall|j: int|
                    0 <= j < servers_to_start@.len() ==> self@.plans(
                        goal,
                        trees,
                        #[trigger] servers_to_start@[j],
                    ),
                id_texts(servers_to_stop@).no_duplicates(),
                forall|key: Seq<char>| #[trigger]
                    id_texts(servers_to_stop@).contains(key) <==> order.take(i as int).contains(
                        key,
                    ) && self@.is_due(goal, trees, key) && self@.servers.contains_key(key),
                failed_texts(failures@).no_duplicates(),
                forall|key: Seq<char>| #[trigger]
                    failed_texts(failures@).contains(key) <==> order.take(i as int).contains(key)
                        && self@.is_failing(goal, trees, key),
                forall|j: int|
                    0 <= j < failures@.len() ==> self@.fails(goal, trees, #[trigger] failures@[j]),
            decreases n - i,
        {
            let (key, configuration) = retained.entry_at(i);
            let ghost k = order[i as int];
            proof {
                lemma_take_next(order, i as int);
                assert(configuration_texts(retained@)[k] == configuration@);
                assert(self@.runnable(goal).contains_key(k));
                assert(self@.runnable(goal)[k] == goal.servers[k]);
            }
            let id = ContextServerId(key.clone());
            let existing_config = self.configuration_for_server(&id);
            let exists = existing_config.is_some();
            let current = match &existing_config {
                Some(existing) => **existing == *configuration,
                None => false,
            };
            if !current {
                let configuration = Arc::new(configuration.clone());
                match self.create_context_server(
                    id.clone(),
                    configuration.clone(),
                    worktrees,
                    desired.source(key),
                ) {
                    Ok(server) => {
                        let ghost started = planned_texts(servers_to_start@);
                        let ghost planned_before = servers_to_start@;
                        servers_to_start.push(
                            PlannedServer { id: id.clone(), server, configuration },
                        );
                        proof {
                            assert(planned_texts(servers_to_start@) =~= started.push(k));
                            lemma_push_fresh(started, k);
                            assert forall|j: int|
                                0 <= j < servers_to_start@.len() implies self@.plans(
                                goal,
                                trees,
                                #[trigger] servers_to_start@[j],
                            ) by {
                                if j < planned_before.len() {
                                    assert(servers_to_start@[j] == planned_before[j]);
                                }
                            }
                        }
                        if exists {
                            let ghost stopped = id_texts(servers_to_stop@);
                            servers_to_stop.push(id);
                            proof {
                                assert(id_texts(servers_to_stop@) =~= stopped.push(k));
                                lemma_push_fresh(stopped, k);
                            }
                        }
                    },
                    Err(error) => {
                        let ghost failed = failed_texts(failures@);
                        let ghost failures_before = failures@;
                        failures.push(FailedServer { id, error });
                        proof {
                            assert(failed_texts(failures@) =~= failed.push(k));
                            lemma_push_fresh(failed, k);
                            assert forall|j: int| 0 <= j < failures@.len() implies self@.fails(
                                goal,
                                trees,
                                #[trigger] failures@[j],
                            ) by {
                                if j < failures_before.len() {
                                    assert(failures@[j] == failures_before[j]);
                                }
                            }
                        }
                    },
                }
            }
            i += 1;
        }
        proof {
            assert(order.take(i as int) =~= order);
            assert forall|key: Seq<char>| order.contains(key) <==> self@.runnable(
                goal,
            ).contains_key(key) by {
                assert(order.to_set().contains(key) <==> retained@.dom().contains(key));
                assert(configuration_texts(retained@).contains_key(key) <==> retained@.contains_key(
                    key,
                ));
            }
        }
        UpdatePlan { servers_to_stop, servers_to_remove, servers_to_start, failures }
    }

    /// Carries out the next step of the plan and takes it off the plan. The result is
    /// `false` when there was none left.
    pub fn apply_step(&mut self, plan: &mut UpdatePlan, cx: &mut Context) -> (more: bool)
        requires
            old(self)@.wf(),
        ensures
            final(self)@.wf(),
            more == (old(plan).steps() > 0),
            final(plan).servers_to_stop@ == old(plan).rest_to_stop(),
            final(plan).servers_to_remove@ == old(plan).rest_to_remove(),
            final(plan).servers_to_start@ == old(plan).rest_to_start(),
            final(plan).failures@ == old(plan).failures@,
            final(self)@ == old(self)@.after_step(*old(plan)),
            final(cx)@ == old(cx)@ + old(self)@.step_effects(*old(plan)),
    {
        if plan.servers_to_stop.len() > 0 {
            let id = plan.servers_to_stop.remove(0);
            assert(plan.servers_to_stop@ =~= old(plan).servers_to_stop@.skip(1));
            let _ = self.stop_server(&id, cx);
            true
        } else if plan.servers_to_remove.len() > 0 {
            let id = plan.servers_to_remove.remove(0);
            assert(plan.servers_to_remove@ =~= old(plan).servers_to_remove@.skip(1));
            let _ = self.remove_server(&id, cx);
            true
        } else if plan.servers_to_start.len() > 0 {
            let planned = plan.servers_to_start.remove(0);
            assert(plan.servers_to_start@ =~= old(plan).servers_to_start@.skip(1));
            self.run_server(planned.server, planned.configuration, cx);
            true
        } else {
            assert(cx@ + Seq::<Effect>::empty() =~= cx@);
            false
        }
    }

    /// Carries the whole plan out. The store then still waits for just those starts that the
    /// host has under way, and its books are still in order.
    pub fn apply_plan(&mut self, plan: UpdatePlan, cx: &mut Context)
        requires
            old(self)@.wf(),
        ensures
            final(self)@.wf(),
            final(self)@ == old(self)@.after(plan),
            final(cx)@ == old(cx)@ + old(self)@.plan_effects(plan),
            forall|history: Seq<Effect>| #[trigger]
                awaits_live_starts(old(self)@, history) ==> awaits_live_starts(
                    final(self)@,
                    history + old(self)@.plan_effects(plan),
                ),
            forall|history: Seq<Effect>, ended: nat| #[trigger]
                in_order(old(self)@, history, ended) ==> in_order(
                    final(self)@,
                    history + old(self)@.plan_effects(plan),
                    ended,
                ),
    {
        let mut left = plan;
        let ghost mut done: Seq<Effect> = Seq::empty();
        assert forall|history: Seq<Effect>| #[trigger]
            awaits_live_starts(self@, history) implies awaits_live_starts(
            self@,
            history + done,
        ) by {
            assert(history + done =~= history);
        }
        assert forall|history: Seq<Effect>, ended: nat| #[trigger]
            in_order(self@, history, ended) implies in_order(self@, history + done, ended) by {
            assert(history + done =~= history);
        }
        let ghost goal = self@.after(plan);
        let ghost effects = cx@ + self@.plan_effects(plan);
        loop
            invariant
                self@.wf(),
                goal == old(self)@.after(plan),
                goal == self@.after(left),
                effects == old(cx)@ + old(self)@.plan_effects(plan),
                effects == cx@ + self@.plan_effects(left),
                done + self@.plan_effects(left) == old(self)@.plan_effects(plan),
                forall|history: Seq<Effect>| #[trigger]
                    awaits_live_starts(old(self)@, history) ==> awaits_live_starts(
                        self@,
                        history + done,
                    ),
                forall|history: Seq<Effect>, ended: nat| #[trigger]
                    in_order(old(self)@, history, ended) ==> in_order(
                        self@,
                        history + done,
                        ended,
                    ),
            decreases left.steps(),
        {
            let ghost store = self@;
            let ghost before = left;
            let ghost asked = cx@;
            let more = self.apply_step(&mut left, cx);
            if !more {
                assert(effects =~= cx@);
                assert(done =~= old(self)@.plan_effects(plan));
                return;
            }
            proof {
                let step = store.step_effects(before);
                law_steps_make_the_plan(store, before, left);
                assert(cx@ + self@.plan_effects(left) =~= asked + store.plan_effects(before));
                assert forall|history: Seq<Effect>| #[trigger]
                    awaits_live_starts(old(self)@, history) implies awaits_live_starts(
                    self@,
                    history + (done + step),
                ) by {
                    law_steps_keep_live_starts_awaited(store, history + done, before);
                    assert(history + done + step =~= history + (done + step));
                }
                assert forall|history: Seq<Effect>, ended: nat| #[trigger]
                    in_order(old(self)@, history, ended) implies in_order(
                    self@,
                    history + (done + step),
                    ended,
                ) by {
                    lemma_step_keeps_order(store, history + done, ended, before);
                    assert(history + done + step =~= history + (done + step));
                }
                assert(done + step + self@.plan_effects(left) =~= done + store.plan_effects(
                    before,
                ));
                done = done + step;
            }
        }
    }
}

} // verus!
