//! What texts, commands and configurations come to in the operations on them, told by their
//! characters and fields.

use crate::context_server::{
    text_values, texts, ContextServer, ContextServerCommand, ContextServerConfiguration,
    ContextServerId, ContextServerTransport,
};
use crate::placeholder::{
    has_placeholder, some_has_placeholder, some_value_has_placeholder,
    substitute_command_placeholders, uses_placeholder, PLACEHOLDER,
};
use crate::str_map::StrMap;
use crate::text::{
    contains_text, lemma_replaced_without_match, occurs, occurs_at, replace_text, replaced,
    same_text,
};
use vstd::prelude::*;

verus! {

/// `part` stands in `text`, with something before and after it.
pub open spec fn holds(text: Seq<char>, part: Seq<char>) -> bool {
    exists|before: Seq<char>, after: Seq<char>| text == #[trigger] (before + part + after)
}

pub(crate) proof fn lemma_holds(text: Seq<char>, part: Seq<char>)
    ensures
        holds(text, part) <==> occurs(text, part),
{
    let n = part.len() as int;
    if holds(text, part) {
        let (before, after) = choose|before: Seq<char>, after: Seq<char>|
            text == #[trigger] (before + part + after);
        let i = before.len() as int;
        assert(text.subrange(i, i + n) =~= part);
        assert(occurs_at(text, part, i));
    }
    if occurs(text, part) {
        let i = choose|i: int| occurs_at(text, part, i);
        let before = text.take(i);
        let after = text.skip(i + n);
        assert(before + text.subrange(i, i + n) + after =~= text);
    }
}

/// Two strings are the same exactly if they hold the same characters.
pub proof fn law_same_text(a: &str, b: &str, same: bool)
    requires
        call_ensures(same_text, (a, b), same),
    ensures
        same <==> a@ == b@,
{
}

/// A text is found in another exactly if it stands there, with something before and after it.
pub proof fn law_search(text: &str, pattern: &str, found: bool)
    requires
        call_ensures(contains_text, (text, pattern), found),
    ensures
        found <==> holds(text@, pattern@),
{
    lemma_holds(text@, pattern@);
}

/// To replace what does not stand in the text changes nothing.
pub proof fn law_replacing_nothing(text: &str, pattern: &str, replacement: &str, result: String)
    requires
        call_ensures(replace_text, (text, pattern, replacement), result),
        !holds(text@, pattern@),
    ensures
        result@ == text@,
{
    lemma_holds(text@, pattern@);
    lemma_replaced_without_match(text@, pattern@, replacement@);
}

proof fn lemma_replaced_first(
    before: Seq<char>,
    pattern: Seq<char>,
    after: Seq<char>,
    replacement: Seq<char>,
)
    requires
        pattern.len() > 0,
        forall|i: int| 0 <= i < before.len() ==> !#[trigger] occurs_at(
            before + pattern + after,
            pattern,
            i,
        ),
    ensures
        replaced(before + pattern + after, pattern, replacement) == before + replacement
            + replaced(after, pattern, replacement),
    decreases before.len(),
{
    let m = pattern.len() as int;
    let text = before + pattern + after;
    let tail = replaced(after, pattern, replacement);
    if before.len() == 0 {
        assert(text.take(m) =~= pattern);
        assert(text.skip(m) =~= after);
        assert(replacement + tail =~= before + replacement + tail);
    } else {
        let rest = before.skip(1);
        assert(!occurs_at(text, pattern, 0));
        assert(text.take(m) =~= text.subrange(0, m));
        assert(text.skip(1) =~= rest + pattern + after);
        assert forall|i: int| 0 <= i < rest.len() implies !#[trigger] occurs_at(
            rest + pattern + after,
            pattern,
            i,
        ) by {
            if occurs_at(rest + pattern + after, pattern, i) {
                assert(text.subrange(i + 1, i + 1 + m) =~= (rest + pattern + after).subrange(
                    i,
                    i + m,
                ));
                assert(occurs_at(text, pattern, i + 1));
            }
        }
        lemma_replaced_first(rest, pattern, after, replacement);
        assert(seq![text[0]] + (rest + replacement + tail) =~= before + replacement + tail);
    }
}

/// Where a text holds the pattern, what stands before its first place stays, the pattern is
/// exchanged, and what stands after it is replaced as if it stood alone.
pub proof fn law_replacing_goes_on_after_the_first_place(
    text: &str,
    before: Seq<char>,
    after: &str,
    pattern: &str,
    replacement: &str,
    result: String,
    rest: String,
)
    requires
        call_ensures(replace_text, (text, pattern, replacement), result),
        call_ensures(replace_text, (after, pattern, replacement), rest),
        pattern@.len() > 0,
        text@ == before + pattern@ + after@,
        forall|earlier: Seq<char>, later: Seq<char>|
            text@ == #[trigger] (earlier + pattern@ + later) ==> earlier.len() >= before.len(),
    ensures
        result@ == before + replacement@ + rest@,
{
    let m = pattern@.len() as int;
    assert forall|i: int| 0 <= i < before.len() implies !#[trigger] occurs_at(
        before + pattern@ + after@,
        pattern@,
        i,
    ) by {
        if occurs_at(text@, pattern@, i) {
            let earlier = text@.take(i);
            let later = text@.skip(i + m);
            assert(earlier + text@.subrange(i, i + m) + later =~= text@);
            assert(text@ == earlier + pattern@ + later);
        }
    }
    lemma_replaced_first(before, pattern@, after@, replacement@);
}

/// The same strings in the same order.
pub open spec fn same_lines(a: Vec<String>, b: Vec<String>) -> bool {
    a@.len() == b@.len() && forall|i: int| 0 <= i < a@.len() ==> (#[trigger] a@[i])@ == b@[i]@
}

/// The same variables with the same values, or none on both sides.
pub open spec fn same_variables(a: Option<StrMap<String>>, b: Option<StrMap<String>>) -> bool {
    match (a, b) {
        (None, None) => true,
        (Some(a), Some(b)) => forall|key: Seq<char>|
            #![trigger a@.contains_key(key)]
            #![trigger b@.contains_key(key)]
            {
                &&& a@.contains_key(key) <==> b@.contains_key(key)
                &&& a@.contains_key(key) ==> a@[key]@ == b@[key]@
            },
        _ => false,
    }
}

/// Commands with the same path, arguments and variables.
pub open spec fn same_command(a: ContextServerCommand, b: ContextServerCommand) -> bool {
    a.path@ == b.path@ && same_lines(a.args, b.args) && same_variables(a.env, b.env)
}

/// Configurations with the same command, or none, and the same settings, or none.
pub open spec fn same_configuration(
    a: ContextServerConfiguration,
    b: ContextServerConfiguration,
) -> bool {
    &&& match (a.command, b.command) {
        (None, None) => true,
        (Some(a), Some(b)) => same_command(a, b),
        _ => false,
    }
    &&& match (a.settings, b.settings) {
        (None, None) => true,
        (Some(a), Some(b)) => a@ == b@,
        _ => false,
    }
}

pub(crate) proof fn lemma_same_command(a: ContextServerCommand, b: ContextServerCommand)
    ensures
        same_command(a, b) <==> a@ == b@,
{
    if same_command(a, b) {
        assert(a@.args =~= b@.args);
        if let (Some(x), Some(y)) = (a.env, b.env) {
            assert forall|key: Seq<char>| text_values(x@).contains_key(key) <==> text_values(
                y@,
            ).contains_key(key) by {
                assert(x@.contains_key(key) <==> y@.contains_key(key));
            }
            assert(text_values(x@) =~= text_values(y@));
        }
    }
    if a@ == b@ {
        assert(a@.args.len() == b@.args.len());
        assert forall|i: int| 0 <= i < a.args@.len() implies (#[trigger] a.args@[i])@
            == b.args@[i]@ by {
            assert(a@.args[i] == b@.args[i]);
        }
        if let (Some(x), Some(y)) = (a.env, b.env) {
            assert(text_values(x@) == text_values(y@));
            assert forall|key: Seq<char>|
                #![trigger x@.contains_key(key)]
                #![trigger y@.contains_key(key)]
                {
                    &&& x@.contains_key(key) <==> y@.contains_key(key)
                    &&& x@.contains_key(key) ==> x@[key]@ == y@[key]@
                } by {
                assert(text_values(x@).contains_key(key) <==> text_values(y@).contains_key(key));
                assert(text_values(x@)[key] == text_values(y@)[key]);
            }
        }
    }
}

pub(crate) proof fn lemma_same_configuration(
    a: ContextServerConfiguration,
    b: ContextServerConfiguration,
)
    ensures
        same_configuration(a, b) <==> a@ == b@,
{
    if let (Some(x), Some(y)) = (a.command, b.command) {
        lemma_same_command(x, y);
    }
}

/// Two commands are equal exactly if they have the same path, arguments and variables.
pub proof fn law_command_equality(a: ContextServerCommand, b: ContextServerCommand, same: bool)
    requires
        call_ensures(<ContextServerCommand as PartialEq>::eq, (&a, &b), same),
    ensures
        same <==> same_command(a, b),
{
    lemma_same_command(a, b);
}

/// Two configurations are equal exactly if they have the same command and the same settings.
pub proof fn law_configuration_equality(
    a: ContextServerConfiguration,
    b: ContextServerConfiguration,
    same: bool,
)
    requires
        call_ensures(<ContextServerConfiguration as PartialEq>::eq, (&a, &b), same),
    ensures
        same <==> same_configuration(a, b),
{
    lemma_same_configuration(a, b);
}

/// Two identifiers are equal exactly if they hold the same characters.
pub proof fn law_identifier_equality(a: ContextServerId, b: ContextServerId, same: bool)
    requires
        call_ensures(<ContextServerId as PartialEq>::eq, (&a, &b), same),
    ensures
        same <==> (*a.0)@ == (*b.0)@,
{
}

/// A copy of an identifier, a command or a configuration is the same in every field.
pub proof fn law_copies(
    id: ContextServerId,
    id_copy: ContextServerId,
    command: ContextServerCommand,
    command_copy: ContextServerCommand,
    configuration: ContextServerConfiguration,
    configuration_copy: ContextServerConfiguration,
)
    requires
        call_ensures(<ContextServerId as Clone>::clone, (&id,), id_copy),
        call_ensures(<ContextServerCommand as Clone>::clone, (&command,), command_copy),
        call_ensures(
            <ContextServerConfiguration as Clone>::clone,
            (&configuration,),
            configuration_copy,
        ),
    ensures
        (*id.0)@ == (*id_copy.0)@,
        same_command(command, command_copy),
        same_configuration(configuration, configuration_copy),
{
    lemma_same_command(command, command_copy);
    lemma_same_configuration(configuration, configuration_copy);
}

/// The configuration of a server that the settings do not mention has no command and no
/// settings.
pub proof fn law_default_configuration(configuration: ContextServerConfiguration)
    requires
        call_ensures(<ContextServerConfiguration as Default>::default, (), configuration),
    ensures
        configuration.command is None,
        configuration.settings is None,
{
}

/// A server is what it was made from.
pub proof fn law_servers_are_what_they_are_made_from(
    id: ContextServerId,
    command: ContextServerCommand,
    launched: ContextServer,
    transport: u64,
    custom: ContextServer,
    named: ContextServerId,
)
    requires
        call_ensures(ContextServer::stdio, (id, command), launched),
        call_ensures(ContextServer::custom, (id, transport), custom),
        call_ensures(ContextServer::id, (&launched,), named),
    ensures
        launched.id == id,
        launched.transport == ContextServerTransport::Stdio(command),
        custom.id == id,
        custom.transport == ContextServerTransport::Custom(transport),
        named == id,
{
}

/// The text has the root of a worktree still to be filled in.
pub open spec fn is_open(text: Seq<char>) -> bool {
    holds(text, "$ZED_WORKTREE_ROOT"@)
}

/// The path, an argument or the value of a variable has the root still to be filled in.
pub open spec fn command_is_open(command: ContextServerCommand) -> bool {
    ||| is_open(command.path@)
    ||| exists|i: int| 0 <= i < command.args@.len() && is_open((#[trigger] command.args@[i])@)
    ||| command.env matches Some(env) && exists|key: Seq<char>| #[trigger]
        env@.contains_key(key) && is_open(env@[key]@)
}

/// The text with the root filled in wherever it belongs.
pub open spec fn filled(text: Seq<char>, root: Seq<char>) -> Seq<char> {
    replaced(text, "$ZED_WORKTREE_ROOT"@, root)
}

/// `after` has the path and the arguments of `before`, in order, and the same variables as
/// `before`, each text with the root filled in. The names of the variables stay.
pub open spec fn is_filled(
    before: ContextServerCommand,
    after: ContextServerCommand,
    root: Seq<char>,
) -> bool {
    &&& after.path@ == filled(before.path@, root)
    &&& after.args@.len() == before.args@.len()
    &&& forall|i: int|
        0 <= i < before.args@.len() ==> (#[trigger] after.args@[i])@ == filled(
            before.args@[i]@,
            root,
        )
    &&& match (before.env, after.env) {
        (None, None) => true,
        (Some(env), Some(filled_env)) => forall|key: Seq<char>|
            #![trigger env@.contains_key(key)]
            #![trigger filled_env@.contains_key(key)]
            {
                &&& env@.contains_key(key) <==> filled_env@.contains_key(key)
                &&& env@.contains_key(key) ==> filled_env@[key]@ == filled(env@[key]@, root)
            },
        _ => false,
    }
}

/// With the root filled in, the command is still open somewhere.
pub open spec fn stays_open(command: ContextServerCommand, root: Seq<char>) -> bool {
    ||| is_open(filled(command.path@, root))
    ||| exists|i: int|
        0 <= i < command.args@.len() && is_open(filled((#[trigger] command.args@[i])@, root))
    ||| command.env matches Some(env) && exists|key: Seq<char>| #[trigger]
        env@.contains_key(key) && is_open(filled(env@[key]@, root))
}

pub(crate) proof fn lemma_command_is_open(command: ContextServerCommand)
    ensures
        command_is_open(command) <==> command@.uses_placeholder(),
{
    let lines = texts(command.args@);
    assert(PLACEHOLDER@ == "$ZED_WORKTREE_ROOT"@);
    assert forall|text: Seq<char>| #[trigger] has_placeholder(text) <==> is_open(text) by {
        lemma_holds(text, PLACEHOLDER@);
    }
    assert(has_placeholder(command.path@) <==> is_open(command.path@));
    if some_has_placeholder(lines) {
        let i = choose|i: int| 0 <= i < lines.len() && has_placeholder(#[trigger] lines[i]);
        assert(is_open(command.args@[i]@));
    }
    if exists|i: int| 0 <= i < command.args@.len() && is_open((#[trigger] command.args@[i])@) {
        let i = choose|i: int|
            0 <= i < command.args@.len() && is_open((#[trigger] command.args@[i])@);
        assert(has_placeholder(lines[i]));
    }
    if let Some(env) = command.env {
        let values = text_values(env@);
        if some_value_has_placeholder(values) {
            let key = choose|key: Seq<char>| #[trigger]
                values.contains_key(key) && has_placeholder(values[key]);
            assert(env@.contains_key(key) && is_open(env@[key]@));
        }
        if exists|key: Seq<char>| #[trigger] env@.contains_key(key) && is_open(env@[key]@) {
            let key = choose|key: Seq<char>| #[trigger]
                env@.contains_key(key) && is_open(env@[key]@);
            assert(values.contains_key(key) && has_placeholder(values[key]));
        }
    }
}

pub(crate) proof fn lemma_is_filled(
    before: ContextServerCommand,
    after: ContextServerCommand,
    root: Seq<char>,
)
    requires
        after@ == before@.substituted(root),
    ensures
        is_filled(before, after, root),
        command_is_open(after) <==> stays_open(before, root),
{
    assert(PLACEHOLDER@ == "$ZED_WORKTREE_ROOT"@);
    assert(after@.args.len() == before@.args.len());
    assert forall|i: int| 0 <= i < before.args@.len() implies (#[trigger] after.args@[i])@
        == filled(before.args@[i]@, root) by {
        assert(after@.args[i] == before@.substituted(root).args[i]);
    }
    if let (Some(env), Some(filled_env)) = (before.env, after.env) {
        assert(text_values(filled_env@) == before@.substituted(root).env->0);
        assert forall|key: Seq<char>|
            #![trigger env@.contains_key(key)]
            #![trigger filled_env@.contains_key(key)]
            {
                &&& env@.contains_key(key) <==> filled_env@.contains_key(key)
                &&& env@.contains_key(key) ==> filled_env@[key]@ == filled(env@[key]@, root)
            } by {
            assert(text_values(filled_env@).contains_key(key) <==> filled_env@.contains_key(key));
            assert(text_values(env@).contains_key(key) <==> env@.contains_key(key));
            if env@.contains_key(key) {
                assert(text_values(filled_env@)[key] == filled_env@[key]@);
            }
        }
        if exists|key: Seq<char>| #[trigger]
            env@.contains_key(key) && is_open(filled(env@[key]@, root)) {
            let key = choose|key: Seq<char>| #[trigger]
                env@.contains_key(key) && is_open(filled(env@[key]@, root));
            assert(filled_env@.contains_key(key) && is_open(filled_env@[key]@));
        }
        if exists|key: Seq<char>| #[trigger]
            filled_env@.contains_key(key) && is_open(filled_env@[key]@) {
            let key = choose|key: Seq<char>| #[trigger]
                filled_env@.contains_key(key) && is_open(filled_env@[key]@);
            assert(env@.contains_key(key) && is_open(filled(env@[key]@, root)));
        }
    }
    if exists|i: int|
        0 <= i < before.args@.len() && is_open(filled((#[trigger] before.args@[i])@, root)) {
        let i = choose|i: int|
            0 <= i < before.args@.len() && is_open(filled((#[trigger] before.args@[i])@, root));
        assert(is_open(after.args@[i]@));
    }
    if exists|i: int| 0 <= i < after.args@.len() && is_open((#[trigger] after.args@[i])@) {
        let i = choose|i: int| 0 <= i < after.args@.len() && is_open((#[trigger] after.args@[i])@);
        assert(is_open(filled(before.args@[i]@, root)));
    }
}

pub(crate) proof fn lemma_stays_open(command: ContextServerCommand, root: Seq<char>)
    ensures
        stays_open(command, root) <==> command@.substituted(root).uses_placeholder(),
{
    let after = command@.substituted(root);
    assert(PLACEHOLDER@ == "$ZED_WORKTREE_ROOT"@);
    assert forall|text: Seq<char>| #[trigger] has_placeholder(text) <==> is_open(text) by {
        lemma_holds(text, PLACEHOLDER@);
    }
    assert(has_placeholder(after.path) <==> is_open(filled(command.path@, root)));
    if some_has_placeholder(after.args) {
        let i = choose|i: int| 0 <= i < after.args.len() && has_placeholder(#[trigger] after.args[i]);
        assert(is_open(filled(command.args@[i]@, root)));
    }
    if exists|i: int|
        0 <= i < command.args@.len() && is_open(filled((#[trigger] command.args@[i])@, root)) {
        let i = choose|i: int|
            0 <= i < command.args@.len() && is_open(filled((#[trigger] command.args@[i])@, root));
        assert(has_placeholder(after.args[i]));
    }
    if let Some(env) = command.env {
        let values = after.env->0;
        if some_value_has_placeholder(values) {
            let key = choose|key: Seq<char>| #[trigger]
                values.contains_key(key) && has_placeholder(values[key]);
            assert(env@.contains_key(key) && is_open(filled(env@[key]@, root)));
        }
        if exists|key: Seq<char>| #[trigger]
            env@.contains_key(key) && is_open(filled(env@[key]@, root)) {
            let key = choose|key: Seq<char>| #[trigger]
                env@.contains_key(key) && is_open(filled(env@[key]@, root));
            assert(values.contains_key(key) && has_placeholder(values[key]));
        }
    }
}

/// A command is recognised as open by its path, its arguments and the values of its
/// variables.
pub proof fn law_open_commands(command: ContextServerCommand, used: bool)
    requires
        call_ensures(uses_placeholder, (&command,), used),
    ensures
        used <==> command_is_open(command),
{
    lemma_command_is_open(command);
}

/// Substitution fills the root in wherever it belongs and leaves everything else as it is. It
/// succeeds exactly if the command is then not open any more.
pub proof fn law_substitution_fills_the_root_in(
    command: &mut ContextServerCommand,
    root: &str,
    done: bool,
)
    requires
        call_ensures(substitute_command_placeholders, (command, root), done),
    ensures
        is_filled(*old(command), *final(command), root@),
        done <==> !command_is_open(*final(command)),
        done <==> !stays_open(*old(command), root@),
{
    lemma_is_filled(*old(command), *final(command), root@);
    lemma_command_is_open(*final(command));
}

/// The root is filled in at the first place where it belongs, what stands before that place
/// stays, and what stands after it is filled in as if it stood alone.
pub proof fn law_filling_goes_on_after_the_first_place(
    before: Seq<char>,
    after: Seq<char>,
    root: Seq<char>,
)
    requires
        !is_open(before + "$ZED_WORKTREE_ROOT"@.drop_last()),
    ensures
        filled(before + "$ZED_WORKTREE_ROOT"@ + after, root) == before + root + filled(
            after,
            root,
        ),
{
    reveal_strlit("$ZED_WORKTREE_ROOT");
    let pattern = "$ZED_WORKTREE_ROOT"@;
    let m = pattern.len() as int;
    let text = before + pattern + after;
    let start = before + pattern.drop_last();
    assert forall|i: int| 0 <= i < before.len() implies !#[trigger] occurs_at(text, pattern, i) by {
        if occurs_at(text, pattern, i) {
            assert(start.subrange(i, i + m) =~= text.subrange(i, i + m));
            assert(occurs_at(start, pattern, i));
            lemma_holds(start, pattern);
        }
    }
    lemma_replaced_first(before, pattern, after, root);
}

/// A text that is not open stays as it is, whatever is filled in.
pub proof fn law_closed_texts_stay(text: Seq<char>, root: Seq<char>)
    requires
        !is_open(text),
    ensures
        filled(text, root) == text,
{
    lemma_holds(text, "$ZED_WORKTREE_ROOT"@);
    lemma_replaced_without_match(text, "$ZED_WORKTREE_ROOT"@, root);
}

} // verus!
