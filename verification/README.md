# context_server_store

The store of the context servers of a project: which servers are known, what state each of
them is in, and how the store follows the project's settings. Written and proved in Verus.

The store decides and its host acts. Every operation leaves what the host is to do (announce
a status, start or stop a server, drop a task, bring the servers in line with the settings)
as effects in a `Context`, and the host reports back what came of it.

- `src/text.rs`: comparison, search and replacement on strings.
- `src/str_map.rs`: a map with string keys.
- `src/context_server.rs`: identifiers, commands, configurations, servers.
- `src/placeholder.rs`: `$ZED_WORKTREE_ROOT` in commands, and its substitution.
- `src/project.rs`: what the store reads of worktrees and settings.
- `src/state.rs`: states, statuses, events, effects, errors.
- `src/store.rs`: the store and its operations.
- `src/maintain.rs`: an update: the desired servers, the plan, and carrying it out.
- `src/laws.rs`: laws that relate several operations.
- `src/history.rs`: laws on what the host was asked over many operations.
- `app/`: runs a store on the services of an editor.
- `tests/`: the library on concrete values.
