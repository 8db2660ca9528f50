//! The placeholder that stands for the root of a worktree in the commands of context
//! servers, and its substitution.

use crate::context_server::{text_values, texts, CommandView, ContextServerCommand};
use crate::str_map::StrMap;
use crate::text::{contains_text, fences, occurs, occurs_at, replace_text, replaced};
use crate::text::{
    lemma_match_left_without_fence, lemma_replaced_leaves_no_match, lemma_replaced_without_match,
};
use vstd::prelude::*;

verus! {

/// What commands write where the root of the worktree belongs.
pub const PLACEHOLDER: &'static str = "$ZED_WORKTREE_ROOT";

/// A text in which the placeholder stands.
pub open spec fn has_placeholder(text: Seq<char>) -> bool {
    occurs(text, PLACEHOLDER@)
}

/// A text with every placeholder exchanged for `root`.
pub open spec fn with_root(text: Seq<char>, root: Seq<char>) -> Seq<char> {
    replaced(text, PLACEHOLDER@, root)
}

/// The placeholder stands in one of the texts.
pub open spec fn some_has_placeholder(lines: Seq<Seq<char>>) -> bool {
    exists|i: int| 0 <= i < lines.len() && has_placeholder(#[trigger] lines[i])
}

/// The placeholder stands in one of the values.
pub open spec fn some_value_has_placeholder(map: Map<Seq<char>, Seq<char>>) -> bool {
    exists|key: Seq<char>| #[trigger] map.contains_key(key) && has_placeholder(map[key])
}

impl CommandView {
    /// The placeholder stands in the path, in an argument, or in the value of an
    /// environment variable.
    pub open spec fn uses_placeholder(self) -> bool {
        ||| has_placeholder(self.path)
        ||| some_has_placeholder(self.args)
        ||| self.env matches Some(env) && some_value_has_placeholder(env)
    }

    /// The command with every placeholder exchanged for `root`. The names of the
    /// environment variables stay as they are.
    pub open spec fn substituted(self, root: Seq<char>) -> CommandView {
        CommandView {
            path: with_root(self.path, root),
            args: self.args.map_values(|arg: Seq<char>| with_root(arg, root)),
            env: match self.env {
                Some(env) => Some(env.map_values(|value: Seq<char>| with_root(value, root))),
                None => None,
            },
        }
    }
}

fn any_has_placeholder(strings: &Vec<String>) -> (found: bool)
    ensures
        found == some_has_placeholder(texts(strings@)),
{
    let mut i: usize = 0;
    while i < strings.len()
        invariant
            i <= strings@.len(),
            forall|j: int| 0 <= j < i ==> !has_placeholder(#[trigger] texts(strings@)[j]),
        decreases strings@.len() - i,
    {
        if contains_text(&strings[i], PLACEHOLDER) {
            assert(has_placeholder(texts(strings@)[i as int]));
            return true;
        }
        i += 1;
    }
    false
}

fn any_value_has_placeholder(env: &StrMap<String>) -> (found: bool)
    ensures
        found == some_value_has_placeholder(text_values(env@)),
{
    let n = env.len();
    let mut i: usize = 0;
    while i < n
        invariant
            n == env.key_order().len(),
            i <= n,
            forall|j: int|
                0 <= j < i ==> !has_placeholder(env@[#[trigger] env.key_order()[j]]@),
        decreases n - i,
    {
        let (_, value) = env.entry_at(i);
        if contains_text(value, PLACEHOLDER) {
            assert(text_values(env@).contains_key(env.key_order()[i as int]));
            return true;
        }
        i += 1;
    }
    assert forall|key: Seq<char>| #[trigger]
        text_values(env@).contains_key(key) implies !has_placeholder(text_values(env@)[key]) by {
        assert(env.key_order().to_set().contains(key));
        let j = choose|j: int| 0 <= j < env.key_order().len() && env.key_order()[j] == key;
    }
    false
}

/// Whether the placeholder stands anywhere in the command.
pub fn uses_placeholder(command: &ContextServerCommand) -> (used: bool)
    ensures
        used == command@.uses_placeholder(),
{
    if contains_text(&command.path, PLACEHOLDER) || any_has_placeholder(&command.args) {
        return true;
    }
    match &command.env {
        Some(env) => any_value_has_placeholder(env),
        None => false,
    }
}

/// Exchanges the placeholders of one text. The flag says whether the placeholder is
/// gone.
fn substitute_text(text: &str, root: &str) -> (result: (String, bool))
    ensures
        result.0@ == with_root(text@, root@),
        result.1 == !has_placeholder(result.0@),
{
    proof {
        reveal_strlit("$ZED_WORKTREE_ROOT");
    }
    if contains_text(text, PLACEHOLDER) {
        let replacement = replace_text(text, PLACEHOLDER, root);
        let gone = !contains_text(&replacement, PLACEHOLDER);
        (replacement, gone)
    } else {
        proof {
            lemma_replaced_without_match(text@, PLACEHOLDER@, root@);
        }
        (text.to_owned(), true)
    }
}

/// Exchanges the placeholders of each string. The flag says whether the placeholder
/// is gone from all of them.
fn substitute_strings(strings: &Vec<String>, root: &str) -> (result: (Vec<String>, bool))
    ensures
        texts(result.0@) == texts(strings@).map_values(|s: Seq<char>| with_root(s, root@)),
        result.1 == !some_has_placeholder(texts(result.0@)),
{
    let mut results: Vec<String> = Vec::new();
    let mut all_gone = true;
    let mut i: usize = 0;
    while i < strings.len()
        invariant
            i <= strings@.len(),
            texts(results@) == texts(strings@).take(i as int).map_values(
                |s: Seq<char>| with_root(s, root@),
            ),
            all_gone == !some_has_placeholder(texts(results@)),
        decreases strings@.len() - i,
    {
        let (result, gone) = substitute_text(&strings[i], root);
        let ghost before = texts(results@);
        results.push(result);
        if !gone {
            all_gone = false;
        }
        proof {
            let after = texts(results@);
            assert(after =~= before.push(result@));
            if some_has_placeholder(before) {
                let j = choose|j: int| 0 <= j < before.len() && has_placeholder(#[trigger] before[j]);
                assert(has_placeholder(after[j]));
            }
            assert(has_placeholder(result@) == has_placeholder(after[i as int]));
            if some_has_placeholder(after) {
                let j = choose|j: int| 0 <= j < after.len() && has_placeholder(#[trigger] after[j]);
                if j < i {
                    assert(has_placeholder(before[j]));
                }
            }
        }
        i += 1;
        assert(texts(results@) =~= texts(strings@).take(i as int).map_values(
            |s: Seq<char>| with_root(s, root@),
        ));
    }
    assert(texts(strings@).take(i as int) =~= texts(strings@));
    (results, all_gone)
}

/// Exchanges the placeholders of each value. The flag says whether the placeholder is
/// gone from all of them.
fn substitute_values(env: &StrMap<String>, root: &str) -> (result: (StrMap<String>, bool))
    ensures
        text_values(result.0@) == text_values(env@).map_values(
            |value: Seq<char>| with_root(value, root@),
        ),
        result.1 == !some_value_has_placeholder(text_values(result.0@)),
{
    let mut results: StrMap<String> = StrMap::new();
    let mut all_gone = true;
    let n = env.len();
    let ghost order = env.key_order();
    let mut i: usize = 0;
    while i < n
        invariant
            order == env.key_order(),
            n == order.len(),
            order.no_duplicates(),
            i <= n,
            results@.dom() == order.take(i as int).to_set(),
            forall|key: Seq<char>| #[trigger]
                results@.contains_key(key) ==> results@[key]@ == with_root(env@[key]@, root@),
            all_gone == !some_value_has_placeholder(text_values(results@)),
        decreases n - i,
    {
        let (key, value) = env.entry_at(i);
        let (result, gone) = substitute_text(value, root);
        let ghost before = results@;
        results.insert(key.clone(), result);
        if !gone {
            all_gone = false;
        }
        proof {
            let k = order[i as int];
            assert(order.take(i + 1) =~= order.take(i as int).push(k));
            order.take(i as int).lemma_push_to_set_commute(k);
            assert(!before.contains_key(k)) by {
                if order.take(i as int).contains(k) {
                    let j = choose|j: int| 0 <= j < i && order.take(i as int)[j] == k;
                    assert(order[j] == order[i as int]);
                }
            }
            if some_value_has_placeholder(text_values(before)) {
                let other = choose|other: Seq<char>| #[trigger]
                    text_values(before).contains_key(other) && has_placeholder(
                        text_values(before)[other],
                    );
                assert(text_values(results@).contains_key(other));
            }
            assert(text_values(results@).contains_key(k));
            if some_value_has_placeholder(text_values(results@)) {
                let other = choose|other: Seq<char>| #[trigger]
                    text_values(results@).contains_key(other) && has_placeholder(
                        text_values(results@)[other],
                    );
                if other != k {
                    assert(text_values(before).contains_key(other));
                }
            }
        }
        i += 1;
    }
    assert(order.take(n as int) =~= order);
    assert(text_values(results@) =~= text_values(env@).map_values(
        |value: Seq<char>| with_root(value, root@),
    ));
    (results, all_gone)
}

/// Exchanges every placeholder of the command for the path of the worktree's root.
/// The result says whether no placeholder is left.
pub fn substitute_command_placeholders(
    command: &mut ContextServerCommand,
    worktree_root_path: &str,
) -> (all_substituted_or_not_present: bool)
    ensures
        final(command)@ == old(command)@.substituted(worktree_root_path@),
        all_substituted_or_not_present == !final(command)@.uses_placeholder(),
{
    let (path, path_done) = substitute_text(&command.path, worktree_root_path);
    let (args, args_done) = substitute_strings(&command.args, worktree_root_path);
    let (env, env_done) = match &command.env {
        Some(env) => {
            let (env, env_done) = substitute_values(env, worktree_root_path);
            (Some(env), env_done)
        },
        None => (None, true),
    };
    command.path = path;
    command.args = args;
    command.env = env;
    path_done && args_done && env_done
}

/// A command without the placeholder is its own substitution, whatever the root.
pub proof fn law_substitution_needs_a_placeholder(command: CommandView, root: Seq<char>)
    requires
        !command.uses_placeholder(),
    ensures
        command.substituted(root) == command,
{
    let after = command.substituted(root);
    lemma_replaced_without_match(command.path, PLACEHOLDER@, root);
    assert forall|i: int| 0 <= i < command.args.len() implies #[trigger] after.args[i]
        == command.args[i] by {
        lemma_replaced_without_match(command.args[i], PLACEHOLDER@, root);
    }
    assert(after.args =~= command.args);
    if let Some(env) = command.env {
        assert forall|key: Seq<char>| #[trigger] env.contains_key(key) implies after.env->0[key]
            == env[key] by {
            assert(!has_placeholder(env[key]));
            lemma_replaced_without_match(env[key], PLACEHOLDER@, root);
        }
        assert(after.env->0 =~= env);
    }
}

/// The placeholder starts with a `$` and has no other.
proof fn lemma_placeholder()
    ensures
        PLACEHOLDER@.len() > 1,
        PLACEHOLDER@[0] == '$',
        forall|i: int| 0 < i < PLACEHOLDER@.len() ==> #[trigger] PLACEHOLDER@[i] != '$',
        !PLACEHOLDER@.contains('/'),
{
    reveal_strlit("$ZED_WORKTREE_ROOT");
}

/// Substitution succeeds for every command where the root cannot take part in a
/// placeholder: none is left, not even one put together from the root and the text around
/// it.
pub proof fn law_substitution_is_complete(command: CommandView, root: Seq<char>)
    requires
        fences(root, PLACEHOLDER@),
    ensures
        !command.substituted(root).uses_placeholder(),
{
    lemma_placeholder();
    let after = command.substituted(root);
    lemma_replaced_leaves_no_match(command.path, PLACEHOLDER@, root);
    assert forall|i: int| 0 <= i < after.args.len() implies !has_placeholder(
        #[trigger] after.args[i],
    ) by {
        lemma_replaced_leaves_no_match(command.args[i], PLACEHOLDER@, root);
    }
    if let Some(env) = command.env {
        assert forall|key: Seq<char>| #[trigger]
            after.env->0.contains_key(key) implies !has_placeholder(after.env->0[key]) by {
            lemma_replaced_leaves_no_match(env[key], PLACEHOLDER@, root);
        }
    }
}

/// For every other root there is a command for which it fails.
pub proof fn law_substitution_needs_a_fence(root: Seq<char>)
    requires
        !fences(root, PLACEHOLDER@),
    ensures
        exists|command: CommandView| (#[trigger] command.substituted(root)).uses_placeholder(),
{
    lemma_placeholder();
    let path = lemma_match_left_without_fence(PLACEHOLDER@, root);
    let command = CommandView { path, args: Seq::empty(), env: None };
    assert(has_placeholder(command.substituted(root).path));
}

/// Every path that starts with a slash and holds no `$` is a root for which substitution
/// succeeds.
pub proof fn law_absolute_paths_substitute(root: Seq<char>)
    requires
        root.len() > 0,
        root[0] == '/',
        !root.contains('$'),
    ensures
        fences(root, PLACEHOLDER@),
{
    lemma_placeholder();
    let placeholder = PLACEHOLDER@;
    let m = placeholder.len() as int;
    let n = root.len() as int;
    assert forall|i: int| !#[trigger] occurs_at(root, placeholder, i) by {
        if occurs_at(root, placeholder, i) {
            assert(root.subrange(i, i + m)[0] == '$');
            assert(root[i] == '$');
        }
    }
    assert forall|i: int| !#[trigger] occurs_at(placeholder, root, i) by {
        if occurs_at(placeholder, root, i) {
            assert(placeholder.subrange(i, i + n)[0] == '/');
            assert(placeholder[i] == '/');
        }
    }
    assert forall|k: int| 0 < k < m implies !(#[trigger] placeholder.take(k)).is_suffix_of(root) by {
        if placeholder.take(k).is_suffix_of(root) {
            assert(placeholder.take(k)[0] == root.subrange(n - k, n)[0]);
            assert(root[n - k] == '$');
        }
    }
    assert forall|k: int| 0 < k < m implies !(#[trigger] placeholder.skip(k)).is_prefix_of(root) by {
        if placeholder.skip(k).is_prefix_of(root) {
            assert(placeholder.skip(k)[0] == root[0]);
            assert(placeholder[k] == '/');
        }
    }
}

} // verus!
