//! What the store reads of the project: its worktrees and its settings.

use crate::context_server::{ConfigurationView, ContextServerConfiguration};
use crate::str_map::StrMap;
use vstd::prelude::*;

verus! {

/// The number of a worktree.
#[derive(Debug, Clone, Copy, PartialEq, Eq, Hash, Structural)]
pub struct WorktreeId(pub u64);

/// A worktree of the project. `local_path` is the absolute path of its root, if the
/// worktree is a local one.
#[derive(Debug)]
pub struct Worktree {
    pub id: WorktreeId,
    pub visible: bool,
    pub local_path: Option<String>,
}

/// The worktrees of the project, in the project's order.
#[derive(Debug)]
pub struct WorktreeStore {
    pub worktrees: Vec<Worktree>,
}

/// The first worktree that is visible.
pub open spec fn first_visible(worktrees: Seq<Worktree>) -> Option<WorktreeId>
    decreases worktrees.len(),
{
    if worktrees.len() == 0 {
        None
    } else if worktrees[0].visible {
        Some(worktrees[0].id)
    } else {
        first_visible(worktrees.skip(1))
    }
}

/// The root of the first worktree with the number `id`, if that worktree is local.
pub open spec fn local_root(worktrees: Seq<Worktree>, id: WorktreeId) -> Option<Seq<char>>
    decreases worktrees.len(),
{
    if worktrees.len() == 0 {
        None
    } else if worktrees[0].id == id {
        match worktrees[0].local_path {
            Some(path) => Some(path@),
            None => None,
        }
    } else {
        local_root(worktrees.skip(1), id)
    }
}

impl WorktreeStore {
    /// The first worktree that is visible.
    pub fn first_visible_worktree(&self) -> (id: Option<WorktreeId>)
        ensures
            id == first_visible(self.worktrees@),
    {
        let mut i: usize = 0;
        assert(self.worktrees@.skip(0) =~= self.worktrees@);
        while i < self.worktrees.len()
            invariant
                i <= self.worktrees@.len(),
                first_visible(self.worktrees@) == first_visible(self.worktrees@.skip(i as int)),
            decreases self.worktrees@.len() - i,
        {
            if self.worktrees[i].visible {
                return Some(self.worktrees[i].id);
            }
            assert(self.worktrees@.skip(i as int).skip(1) =~= self.worktrees@.skip(i + 1));
            i += 1;
        }
        None
    }

    /// The path of the root of the worktree `id`, if there is such a worktree and it is
    /// local.
    pub fn local_path_for_id(&self, id: WorktreeId) -> (path: Option<&String>)
        ensures
            (match path {
                Some(path) => Some(path@),
                None => None,
            }) == local_root(self.worktrees@, id),
    {
        let mut i: usize = 0;
        assert(self.worktrees@.skip(0) =~= self.worktrees@);
        while i < self.worktrees.len()
            invariant
                i <= self.worktrees@.len(),
                local_root(self.worktrees@, id) == local_root(self.worktrees@.skip(i as int), id),
            decreases self.worktrees@.len() - i,
        {
            if self.worktrees[i].id == id {
                return self.worktrees[i].local_path.as_ref();
            }
            assert(self.worktrees@.skip(i as int).skip(1) =~= self.worktrees@.skip(i + 1));
            i += 1;
        }
        None
    }

    /// Where the settings of the project are looked up: at the root of the first visible
    /// worktree, or, without one, globally.
    pub fn settings_location(&self) -> (location: Option<SettingsLocation>)
        ensures
            match location {
                Some(location) => first_visible(self.worktrees@) == Some(location.worktree_id)
                    && location.path@ == Seq::<char>::empty(),
                None => first_visible(self.worktrees@) is None,
            },
    {
        match self.first_visible_worktree() {
            Some(worktree_id) => Some(SettingsLocation { worktree_id, path: String::new() }),
            None => None,
        }
    }
}

/// A place in a worktree whose settings apply.
#[derive(Debug)]
pub struct SettingsLocation {
    pub worktree_id: WorktreeId,
    pub path: String,
}

/// The settings that the store reads: the configuration of each context server, by the
/// server's identifier. `global_only` holds the identifiers of those servers that only the
/// global settings mention, and no settings of a worktree.
#[derive(Debug)]
pub struct ProjectSettings {
    pub context_servers: StrMap<ContextServerConfiguration>,
    pub global_only: StrMap<()>,
}

/// The text of each configuration.
pub open spec fn configuration_texts(
    configurations: Map<Seq<char>, ContextServerConfiguration>,
) -> Map<Seq<char>, ConfigurationView> {
    configurations.map_values(|configuration: ContextServerConfiguration| configuration@)
}

} // verus!
