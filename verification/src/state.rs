//! The state of a context server, what the store tells the outside, and what it asks
//! of its host.

use crate::context_server::{ContextServer, ContextServerConfiguration, ContextServerId};
use crate::placeholder::PLACEHOLDER;
use std::sync::Arc;
use vstd::prelude::*;

verus! {

/// The status of a context server, as it is shown to users.
#[derive(Debug, PartialEq, Eq, Hash)]
pub enum ContextServerStatus {
    Starting,
    Running,
    Stopped,
    Error(Arc<str>),
}

impl Clone for ContextServerStatus {
    fn clone(&self) -> (status: Self)
        ensures
            status == *self,
    {
        match self {
            ContextServerStatus::Starting => ContextServerStatus::Starting,
            ContextServerStatus::Running => ContextServerStatus::Running,
            ContextServerStatus::Stopped => ContextServerStatus::Stopped,
            ContextServerStatus::Error(error) => ContextServerStatus::Error(error.clone()),
        }
    }
}

impl ContextServerStatus {
    /// The status of a server in the given state.
    pub fn from_state(state: &ContextServerState) -> (status: Self)
        ensures
            status == state.status(),
    {
        match state {
            ContextServerState::Starting { .. } => ContextServerStatus::Starting,
            ContextServerState::Running { .. } => ContextServerStatus::Running,
            ContextServerState::Stopped { error, .. } => {
                if let Some(error) = error {
                    ContextServerStatus::Error(error.clone())
                } else {
                    ContextServerStatus::Stopped
                }
            },
        }
    }
}

/// The number of a task that the host runs for the store.
#[derive(Debug, Clone, Copy, PartialEq, Eq, Hash, Structural)]
pub struct TaskId(pub u64);

/// What the store knows of a server. A server that is starting comes with the task that
/// starts it: when the store lets go of the state, the task ends without effect.
#[derive(Debug)]
pub enum ContextServerState {
    Starting {
        server: Arc<ContextServer>,
        configuration: Arc<ContextServerConfiguration>,
        task: TaskId,
    },
    Running { server: Arc<ContextServer>, configuration: Arc<ContextServerConfiguration> },
    Stopped {
        server: Arc<ContextServer>,
        configuration: Arc<ContextServerConfiguration>,
        error: Option<Arc<str>>,
    },
}

impl ContextServerState {
    /// The server that is in this state.
    pub open spec fn spec_server(self) -> Arc<ContextServer> {
        match self {
            ContextServerState::Starting { server, .. } => server,
            ContextServerState::Running { server, .. } => server,
            ContextServerState::Stopped { server, .. } => server,
        }
    }

    /// The configuration that the server was run with.
    pub open spec fn spec_configuration(self) -> Arc<ContextServerConfiguration> {
        match self {
            ContextServerState::Starting { configuration, .. } => configuration,
            ContextServerState::Running { configuration, .. } => configuration,
            ContextServerState::Stopped { configuration, .. } => configuration,
        }
    }

    /// The status that goes with the state.
    pub open spec fn status(self) -> ContextServerStatus {
        match self {
            ContextServerState::Starting { .. } => ContextServerStatus::Starting,
            ContextServerState::Running { .. } => ContextServerStatus::Running,
            ContextServerState::Stopped { error: Some(error), .. } => ContextServerStatus::Error(
                error,
            ),
            ContextServerState::Stopped { error: None, .. } => ContextServerStatus::Stopped,
        }
    }

    /// The state once the server has been stopped: same server, same configuration, no
    /// error.
    pub open spec fn halted(self) -> ContextServerState {
        ContextServerState::Stopped {
            server: self.spec_server(),
            configuration: self.spec_configuration(),
            error: None,
        }
    }

    /// The server that is in this state.
    pub fn server(&self) -> (server: Arc<ContextServer>)
        ensures
            server == self.spec_server(),
    {
        match self {
            ContextServerState::Starting { server, .. } => server.clone(),
            ContextServerState::Running { server, .. } => server.clone(),
            ContextServerState::Stopped { server, .. } => server.clone(),
        }
    }

    /// The configuration that the server was run with.
    pub fn configuration(&self) -> (configuration: Arc<ContextServerConfiguration>)
        ensures
            configuration == self.spec_configuration(),
    {
        match self {
            ContextServerState::Starting { configuration, .. } => configuration.clone(),
            ContextServerState::Running { configuration, .. } => configuration.clone(),
            ContextServerState::Stopped { configuration, .. } => configuration.clone(),
        }
    }
}

/// What the store announces.
#[derive(Debug, PartialEq, Eq)]
pub enum Event {
    ServerStatusChanged { server_id: ContextServerId, status: ContextServerStatus },
}

/// What the store asks of its host.
#[derive(Debug)]
pub enum Effect {
    /// Announce the event.
    Emit(Event),
    /// Stop the server.
    StopServer(Arc<ContextServer>),
    /// Start the server in a task of the given number, and report how that went.
    StartServer {
        task: TaskId,
        server: Arc<ContextServer>,
        configuration: Arc<ContextServerConfiguration>,
    },
    /// Drop the task that starts a server.
    DropTask(TaskId),
    /// Bring the servers in line with the settings, in a task of the given number, and
    /// report when that is done.
    MaintainServers(TaskId),
}

/// The effects that the host still has to perform, in order.
#[derive(Debug)]
pub struct Context {
    pub effects: Vec<Effect>,
}

impl View for Context {
    type V = Seq<Effect>;

    open spec fn view(&self) -> Seq<Effect> {
        self.effects@
    }
}

impl Context {
    /// A context without effects.
    pub fn new() -> (cx: Context)
        ensures
            cx@ == Seq::<Effect>::empty(),
    {
        Context { effects: Vec::new() }
    }

    /// Adds an effect.
    pub fn add_effect(&mut self, effect: Effect)
        ensures
            final(self)@ == old(self)@.push(effect),
    {
        self.effects.push(effect);
    }

    /// Takes all effects out, for the host to perform.
    pub fn take_effects(&mut self) -> (effects: Vec<Effect>)
        ensures
            effects@ == old(self)@,
            final(self)@ == Seq::<Effect>::empty(),
    {
        let mut effects: Vec<Effect> = Vec::new();
        std::mem::swap(&mut effects, &mut self.effects);
        effects
    }
}

/// Why the store refused a request.
#[derive(Debug, PartialEq, Eq)]
pub enum StoreError {
    /// The store does not know the server.
    ServerNotFound,
    /// The settings do not mention the server.
    ConfigurationNotFound,
    /// The configuration of the server has no command.
    MissingCommand(ContextServerId),
    /// The command needs the root of the worktree, which is not known or leaves the
    /// placeholder standing.
    UnresolvedPlaceholder(ContextServerId),
    /// The server did not stop, for the given reason.
    StopFailed(Arc<str>),
}

impl StoreError {
    /// The text that describes the error.
    pub open spec fn spec_message(self) -> Seq<char> {
        match self {
            StoreError::ServerNotFound => "Context server not found"@,
            StoreError::ConfigurationNotFound =>
                "Failed to load context server configuration from settings"@,
            StoreError::MissingCommand(id) => "ContextServerId "@ + id@
                + ": Missing command in configuration"@,
            StoreError::UnresolvedPlaceholder(id) => "ContextServerId "@ + id@
                + ": Failed to resolve "@ + PLACEHOLDER@
                + " for command. Check logs for details."@,
            StoreError::StopFailed(reason) => (*reason)@,
        }
    }

    /// The text that describes the error.
    pub fn message(&self) -> (message: String)
        ensures
            message@ == self.spec_message(),
    {
        match self {
            StoreError::ServerNotFound => "Context server not found".to_owned(),
            StoreError::ConfigurationNotFound =>
                "Failed to load context server configuration from settings".to_owned(),
            StoreError::MissingCommand(id) => "ContextServerId ".to_owned().concat(&id.0).concat(
                ": Missing command in configuration",
            ),
            StoreError::UnresolvedPlaceholder(id) => "ContextServerId ".to_owned().concat(
                &id.0,
            ).concat(": Failed to resolve ").concat(PLACEHOLDER).concat(
                " for command. Check logs for details.",
            ),
            StoreError::StopFailed(reason) => (**reason).to_owned(),
        }
    }
}

} // verus!
