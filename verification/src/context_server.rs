//! Context servers as the store sees them: their identifiers, the commands that
//! launch them and the configurations that the project's settings hold.

use crate::str_map::StrMap;
use crate::text::same_text;
use std::sync::Arc;
use vstd::prelude::*;

verus! {

/// The identifier of a context server. Two identifiers are the same when they hold
/// the same characters.
#[derive(Debug, Eq, Hash)]
pub struct ContextServerId(pub Arc<str>);

impl View for ContextServerId {
    type V = Seq<char>;

    open spec fn view(&self) -> Seq<char> {
        (*self.0)@
    }
}

impl Clone for ContextServerId {
    fn clone(&self) -> (id: Self)
        ensures
            id == *self,
    {
        ContextServerId(self.0.clone())
    }
}

impl PartialEq for ContextServerId {
    fn eq(&self, other: &Self) -> (same: bool) {
        same_text(&self.0, &other.0)
    }
}

impl vstd::std_specs::cmp::PartialEqSpecImpl for ContextServerId {
    open spec fn obeys_eq_spec() -> bool {
        true
    }

    open spec fn eq_spec(&self, other: &Self) -> bool {
        self@ == other@
    }
}

/// The command that launches a context server.
#[derive(Debug)]
pub struct ContextServerCommand {
    pub path: String,
    pub args: Vec<String>,
    pub env: Option<StrMap<String>>,
}

/// The text of a command: its path, its arguments in order, and the environment
/// variables that it sets.
#[verifier::ext_equal]
pub struct CommandView {
    pub path: Seq<char>,
    pub args: Seq<Seq<char>>,
    pub env: Option<Map<Seq<char>, Seq<char>>>,
}

/// The characters of each string.
pub open spec fn texts(strings: Seq<String>) -> Seq<Seq<char>> {
    strings.map_values(|s: String| s@)
}

/// The characters of each value.
pub open spec fn text_values(map: Map<Seq<char>, String>) -> Map<Seq<char>, Seq<char>> {
    map.map_values(|s: String| s@)
}

impl View for ContextServerCommand {
    type V = CommandView;

    open spec fn view(&self) -> CommandView {
        CommandView {
            path: self.path@,
            args: texts(self.args@),
            env: match self.env {
                Some(env) => Some(text_values(env@)),
                None => None,
            },
        }
    }
}

fn copy_strings(strings: &Vec<String>) -> (copy: Vec<String>)
    ensures
        texts(copy@) == texts(strings@),
{
    let mut copy: Vec<String> = Vec::new();
    let mut i: usize = 0;
    while i < strings.len()
        invariant
            i <= strings@.len(),
            copy@ == strings@.take(i as int),
        decreases strings@.len() - i,
    {
        copy.push(strings[i].clone());
        i += 1;
        assert(copy@ =~= strings@.take(i as int));
    }
    assert(copy@ =~= strings@);
    copy
}

fn copy_env(env: &StrMap<String>) -> (copy: StrMap<String>)
    ensures
        copy@ == env@,
{
    let mut copy: StrMap<String> = StrMap::new();
    let n = env.len();
    let mut i: usize = 0;
    while i < n
        invariant
            n == env.key_order().len(),
            i <= n,
            copy@ == env@.restrict(env.key_order().take(i as int).to_set()),
        decreases n - i,
    {
        let (key, value) = env.entry_at(i);
        copy.insert(key.clone(), value.clone());
        proof {
            let order = env.key_order();
            assert(order.take(i + 1) =~= order.take(i as int).push(order[i as int]));
            order.take(i as int).lemma_push_to_set_commute(order[i as int]);
        }
        i += 1;
        assert(copy@ =~= env@.restrict(env.key_order().take(i as int).to_set()));
    }
    assert(env.key_order().take(n as int) =~= env.key_order());
    assert(copy@ =~= env@);
    copy
}

fn same_strings(a: &Vec<String>, b: &Vec<String>) -> (same: bool)
    ensures
        same == (texts(a@) == texts(b@)),
{
    if a.len() != b.len() {
        assert(texts(a@).len() != texts(b@).len());
        return false;
    }
    let mut i: usize = 0;
    while i < a.len()
        invariant
            i <= a@.len() == b@.len(),
            forall|j: int| 0 <= j < i ==> #[trigger] texts(a@)[j] == texts(b@)[j],
        decreases a@.len() - i,
    {
        if a[i] != b[i] {
            assert(texts(a@)[i as int] != texts(b@)[i as int]);
            return false;
        }
        i += 1;
    }
    assert(texts(a@) =~= texts(b@));
    true
}

/// Whether every entry of `a` stands in `b` too.
fn env_within(a: &StrMap<String>, b: &StrMap<String>) -> (within: bool)
    ensures
        within == text_values(a@).submap_of(text_values(b@)),
{
    let n = a.len();
    let mut i: usize = 0;
    while i < n
        invariant
            n == a.key_order().len(),
            i <= n,
            forall|j: int|
                0 <= j < i ==> b@.contains_key(#[trigger] a.key_order()[j])
                    && a@[a.key_order()[j]]@ == b@[a.key_order()[j]]@,
        decreases n - i,
    {
        let (key, value) = a.entry_at(i);
        let ghost k = a.key_order()[i as int];
        assert(text_values(a@).dom().contains(k));
        match b.get(key) {
            Some(other) => {
                if *value != *other {
                    assert(text_values(b@).dom().contains(k));
                    assert(text_values(a@)[k] != text_values(b@)[k]);
                    return false;
                }
            },
            None => {
                assert(!text_values(b@).dom().contains(k));
                return false;
            },
        }
        i += 1;
    }
    assert forall|k: Seq<char>| #[trigger]
        text_values(a@).dom().contains(k) implies text_values(b@).dom().contains(k)
        && text_values(a@)[k] == text_values(b@)[k] by {
        assert(a.key_order().to_set().contains(k));
        let j = choose|j: int| 0 <= j < a.key_order().len() && a.key_order()[j] == k;
    }
    true
}

fn same_env(a: &StrMap<String>, b: &StrMap<String>) -> (same: bool)
    ensures
        same == (text_values(a@) == text_values(b@)),
{
    let same = env_within(a, b) && env_within(b, a);
    proof {
        if same {
            assert(text_values(a@) =~= text_values(b@));
        }
    }
    same
}

impl Clone for ContextServerCommand {
    fn clone(&self) -> (copy: Self)
        ensures
            copy@ == self@,
    {
        ContextServerCommand {
            path: self.path.clone(),
            args: copy_strings(&self.args),
            env: match &self.env {
                Some(env) => Some(copy_env(env)),
                None => None,
            },
        }
    }
}

impl PartialEq for ContextServerCommand {
    fn eq(&self, other: &Self) -> (same: bool) {
        self.path == other.path && same_strings(&self.args, &other.args) && match (
            &self.env,
            &other.env,
        ) {
            (Some(a), Some(b)) => same_env(a, b),
            (None, None) => true,
            _ => false,
        }
    }
}

impl vstd::std_specs::cmp::PartialEqSpecImpl for ContextServerCommand {
    open spec fn obeys_eq_spec() -> bool {
        true
    }

    open spec fn eq_spec(&self, other: &Self) -> bool {
        self@ == other@
    }
}

/// What the settings say of one context server. `settings` is the server's own
/// settings in canonical form: they are compared, never interpreted.
#[derive(Debug)]
pub struct ContextServerConfiguration {
    pub command: Option<ContextServerCommand>,
    pub settings: Option<String>,
}

/// The text of a configuration.
#[verifier::ext_equal]
pub struct ConfigurationView {
    pub command: Option<CommandView>,
    pub settings: Option<Seq<char>>,
}

impl ConfigurationView {
    /// The configuration with the given command.
    pub open spec fn with_command(self, command: CommandView) -> ConfigurationView {
        ConfigurationView { command: Some(command), ..self }
    }

    /// The configuration of a server that the settings do not mention.
    pub open spec fn unset() -> ConfigurationView {
        ConfigurationView { command: None, settings: None }
    }
}

impl View for ContextServerConfiguration {
    type V = ConfigurationView;

    open spec fn view(&self) -> ConfigurationView {
        ConfigurationView {
            command: match self.command {
                Some(command) => Some(command@),
                None => None,
            },
            settings: match self.settings {
                Some(settings) => Some(settings@),
                None => None,
            },
        }
    }
}

impl Default for ContextServerConfiguration {
    fn default() -> (configuration: Self)
        ensures
            configuration@ == ConfigurationView::unset(),
    {
        ContextServerConfiguration { command: None, settings: None }
    }
}

impl Clone for ContextServerConfiguration {
    fn clone(&self) -> (copy: Self)
        ensures
            copy@ == self@,
    {
        ContextServerConfiguration {
            command: match &self.command {
                Some(command) => Some(command.clone()),
                None => None,
            },
            settings: match &self.settings {
                Some(settings) => Some(settings.clone()),
                None => None,
            },
        }
    }
}

impl PartialEq for ContextServerConfiguration {
    fn eq(&self, other: &Self) -> (same: bool) {
        (match (&self.command, &other.command) {
            (Some(a), Some(b)) => *a == *b,
            (None, None) => true,
            _ => false,
        }) && (match (&self.settings, &other.settings) {
            (Some(a), Some(b)) => *a == *b,
            (None, None) => true,
            _ => false,
        })
    }
}

impl vstd::std_specs::cmp::PartialEqSpecImpl for ContextServerConfiguration {
    open spec fn obeys_eq_spec() -> bool {
        true
    }

    open spec fn eq_spec(&self, other: &Self) -> bool {
        self@ == other@
    }
}

/// How the store's host reaches a server.
#[derive(Debug)]
pub enum ContextServerTransport {
    /// A process that is launched by a command and spoken to over its standard streams.
    Stdio(ContextServerCommand),
    /// A transport of the host's own, under the number by which the host finds it.
    Custom(u64),
}

/// A context server.
#[derive(Debug)]
pub struct ContextServer {
    pub id: ContextServerId,
    pub transport: ContextServerTransport,
}

impl ContextServer {
    /// A server that `command` launches.
    pub fn stdio(id: ContextServerId, command: ContextServerCommand) -> (server: ContextServer)
        ensures
            server.id == id,
            server.transport == ContextServerTransport::Stdio(command),
    {
        ContextServer { id, transport: ContextServerTransport::Stdio(command) }
    }

    /// A server behind a transport of the host's own.
    pub fn custom(id: ContextServerId, transport: u64) -> (server: ContextServer)
        ensures
            server.id == id,
            server.transport == ContextServerTransport::Custom(transport),
    {
        ContextServer { id, transport: ContextServerTransport::Custom(transport) }
    }

    /// The identifier of the server.
    pub fn id(&self) -> (id: ContextServerId)
        ensures
            id == self.id,
    {
        self.id.clone()
    }
}

} // verus!
