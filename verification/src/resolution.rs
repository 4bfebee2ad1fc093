//! How the declared flags are resolved against a command line, as a
//! function of the tokens and the declarations, and what holds of it.
use crate::flag::{
    convert, lemma_locate_from, locate, trigger_token, FlagModel, FlagType, Outcome, Value,
    MISSING_VALUE,
};
use crate::literal::float_literal;
use vstd::prelude::*;
use vstd::seq_lib::{group_to_multiset_ensures, to_multiset_remove};

verus! {

/// The state of a resolution: the tokens that are left, and the outcome of
/// each flag found so far, by name.
pub struct Resolution {
    pub args: Seq<Seq<char>>,
    pub outcomes: Map<Seq<char>, Outcome>,
}

impl Resolution {
    /// The outcome kept under `name`, if there is one.
    pub open spec fn outcome(self, name: Seq<char>) -> Option<Outcome> {
        if self.outcomes.contains_key(name) {
            Some(self.outcomes[name])
        } else {
            None
        }
    }
}

/// Resolves one declared flag against the tokens that are left. Where its
/// trigger stands among them, the first one is taken out; a flag that is not
/// Boolean also takes out the token that followed it, if there is one, as its
/// value. The outcome is kept under the flag's name, in place of an earlier
/// one. Where the trigger does not stand among the tokens, nothing changes.
pub open spec fn resolve_flag(state: Resolution, flag: FlagModel) -> Resolution {
    match locate(state.args, trigger_token(flag.name)) {
        None => state,
        Some(i) => {
            let rest = state.args.remove(i);
            if flag.flag_type != FlagType::Bool && i < rest.len() {
                Resolution {
                    args: rest.remove(i),
                    outcomes: state.outcomes.insert(
                        flag.name,
                        convert(flag.flag_type, Some(rest[i])),
                    ),
                }
            } else {
                Resolution {
                    args: rest,
                    outcomes: state.outcomes.insert(flag.name, convert(flag.flag_type, None)),
                }
            }
        },
    }
}

/// Resolves the declared flags one after the other, in the order of their
/// declaration, each against the tokens that the ones before it have left.
pub open spec fn resolve(tokens: Seq<Seq<char>>, flags: Seq<FlagModel>) -> Resolution
    decreases flags.len(),
{
    if flags.len() == 0 {
        Resolution { args: tokens, outcomes: Map::empty() }
    } else {
        resolve_flag(resolve(tokens, flags.drop_last()), flags.last())
    }
}

/// `keep` lists positions of `tokens` in rising order, and `args` holds the
/// tokens at these positions: `args` is what is left of `tokens` when the
/// other positions are struck out.
pub open spec fn picks(args: Seq<Seq<char>>, tokens: Seq<Seq<char>>, keep: Seq<int>) -> bool {
    &&& keep.len() == args.len()
    &&& forall|j: int|
        0 <= j < keep.len() ==> 0 <= #[trigger] keep[j] < tokens.len() && args[j]
            == tokens[keep[j]]
    &&& forall|i: int, j: int| 0 <= i < j < keep.len() ==> keep[i] < keep[j]
}

/// A token is found exactly where it stands in the list, and then at the
/// first of its positions.
pub proof fn lemma_locate(tokens: Seq<Seq<char>>, token: Seq<char>)
    ensures
        locate(tokens, token) is Some <==> tokens.contains(token),
        match locate(tokens, token) {
            Some(i) => 0 <= i < tokens.len() && tokens[i] == token && forall|j: int|
                0 <= j < i ==> tokens[j] != token,
            None => true,
        },
{
    lemma_locate_from(tokens, token, 0);
}

/// Flags of different names have different triggers.
pub proof fn lemma_trigger_names(a: Seq<char>, b: Seq<char>)
    requires
        trigger_token(a) == trigger_token(b),
    ensures
        a == b,
{
    assert(trigger_token(a).subrange(2, 2 + a.len() as int) =~= a);
    assert(trigger_token(b).subrange(2, 2 + b.len() as int) =~= b);
    assert(trigger_token(a).len() == 2 + a.len());
    assert(trigger_token(b).len() == 2 + b.len());
}

/// Striking one more position out of what `keep` picks.
pub proof fn lemma_picks_remove(
    args: Seq<Seq<char>>,
    tokens: Seq<Seq<char>>,
    keep: Seq<int>,
    i: int,
)
    requires
        picks(args, tokens, keep),
        0 <= i < args.len(),
    ensures
        picks(args.remove(i), tokens, keep.remove(i)),
        forall|p: int| keep.remove(i).contains(p) <==> keep.contains(p) && p != keep[i],
{
    let shorter = keep.remove(i);
    assert forall|p: int| shorter.contains(p) <==> keep.contains(p) && p != keep[i] by {
        if shorter.contains(p) {
            let j = choose|j: int| 0 <= j < shorter.len() && shorter[j] == p;
            if j < i {
                assert(keep[j] == p);
            } else {
                assert(keep[j + 1] == p);
            }
        }
        if keep.contains(p) && p != keep[i] {
            let j = choose|j: int| 0 <= j < keep.len() && keep[j] == p;
            if j < i {
                assert(shorter[j] == p);
            } else {
                assert(shorter[j - 1] == p);
            }
        }
    }
}

/// Resolving one flag strikes positions out and adds none.
proof fn lemma_resolve_flag_picks(
    state: Resolution,
    flag: FlagModel,
    tokens: Seq<Seq<char>>,
    keep: Seq<int>,
) -> (shorter: Seq<int>)
    requires
        picks(state.args, tokens, keep),
    ensures
        picks(resolve_flag(state, flag).args, tokens, shorter),
{
    lemma_locate(state.args, trigger_token(flag.name));
    match locate(state.args, trigger_token(flag.name)) {
        None => keep,
        Some(i) => {
            lemma_picks_remove(state.args, tokens, keep, i);
            let rest = state.args.remove(i);
            if flag.flag_type != FlagType::Bool && i < rest.len() {
                lemma_picks_remove(rest, tokens, keep.remove(i), i);
                keep.remove(i).remove(i)
            } else {
                keep.remove(i)
            }
        },
    }
}

/// The positional arguments are tokens of the command line, in the order in
/// which they stood there: `keep` gives their positions.
pub proof fn lemma_args_keep_order(tokens: Seq<Seq<char>>, flags: Seq<FlagModel>) -> (keep: Seq<
    int,
>)
    ensures
        picks(resolve(tokens, flags).args, tokens, keep),
    decreases flags.len(),
{
    if flags.len() == 0 {
        Seq::new(tokens.len(), |i: int| i)
    } else {
        let before = lemma_args_keep_order(tokens, flags.drop_last());
        lemma_resolve_flag_picks(resolve(tokens, flags.drop_last()), flags.last(), tokens, before)
    }
}

/// How often `token` stands in `tokens`.
pub open spec fn occurrences(tokens: Seq<Seq<char>>, token: Seq<char>) -> nat {
    tokens.to_multiset().count(token)
}

/// A token stands in a list exactly where it occurs there at least once.
pub proof fn lemma_occurrences_contains(tokens: Seq<Seq<char>>, token: Seq<char>)
    ensures
        tokens.contains(token) <==> occurrences(tokens, token) > 0,
{
    broadcast use group_to_multiset_ensures;
}

/// Resolving one flag adds no occurrence of any token, and takes away one of
/// the flag's trigger where there is one.
pub proof fn lemma_resolve_flag_occurrences(state: Resolution, flag: FlagModel, token: Seq<char>)
    ensures
        occurrences(resolve_flag(state, flag).args, token) <= occurrences(state.args, token),
        token == trigger_token(flag.name) && occurrences(state.args, token) > 0 ==> occurrences(
            resolve_flag(state, flag).args,
            token,
        ) < occurrences(state.args, token),
{
    lemma_locate(state.args, trigger_token(flag.name));
    lemma_occurrences_contains(state.args, trigger_token(flag.name));
    match locate(state.args, trigger_token(flag.name)) {
        None => {},
        Some(i) => {
            to_multiset_remove(state.args, i);
            let rest = state.args.remove(i);
            if flag.flag_type != FlagType::Bool && i < rest.len() {
                to_multiset_remove(rest, i);
            }
        },
    }
}

/// Resolution adds no occurrence of any token.
pub proof fn lemma_resolve_occurrences(
    tokens: Seq<Seq<char>>,
    flags: Seq<FlagModel>,
    token: Seq<char>,
)
    ensures
        occurrences(resolve(tokens, flags).args, token) <= occurrences(tokens, token),
    decreases flags.len(),
{
    if flags.len() > 0 {
        lemma_resolve_occurrences(tokens, flags.drop_last(), token);
        lemma_resolve_flag_occurrences(resolve(tokens, flags.drop_last()), flags.last(), token);
    }
}

/// Of the trigger of each declared flag, one occurrence at least has left the
/// positional arguments, if there was one in the command line.
pub proof fn lemma_trigger_taken(tokens: Seq<Seq<char>>, flags: Seq<FlagModel>, k: int)
    requires
        0 <= k < flags.len(),
    ensures
        occurrences(tokens, trigger_token(flags[k].name)) > 0 ==> occurrences(
            resolve(tokens, flags).args,
            trigger_token(flags[k].name),
        ) < occurrences(tokens, trigger_token(flags[k].name)),
        occurrences(tokens, trigger_token(flags[k].name)) == 0 ==> occurrences(
            resolve(tokens, flags).args,
            trigger_token(flags[k].name),
        ) == 0,
    decreases flags.len(),
{
    let token = trigger_token(flags[k].name);
    let before = resolve(tokens, flags.drop_last());
    lemma_resolve_flag_occurrences(before, flags.last(), token);
    if k == flags.len() - 1 {
        lemma_resolve_occurrences(tokens, flags.drop_last(), token);
    } else {
        lemma_trigger_taken(tokens, flags.drop_last(), k);
    }
}

/// Where the trigger of a declared flag stands in the command line at most
/// once, it does not stand among the positional arguments.
pub proof fn lemma_args_hold_no_trigger(tokens: Seq<Seq<char>>, flags: Seq<FlagModel>, k: int)
    requires
        0 <= k < flags.len(),
        occurrences(tokens, trigger_token(flags[k].name)) <= 1,
    ensures
        !resolve(tokens, flags).args.contains(trigger_token(flags[k].name)),
{
    lemma_trigger_taken(tokens, flags, k);
    lemma_occurrences_contains(resolve(tokens, flags).args, trigger_token(flags[k].name));
}

/// Resolving a flag leaves the outcomes under all other names as they were.
pub proof fn lemma_resolve_flag_other_name(state: Resolution, flag: FlagModel, name: Seq<char>)
    requires
        flag.name != name,
    ensures
        resolve_flag(state, flag).outcome(name) == state.outcome(name),
{
}

/// A name that no declaration bears has no outcome.
pub proof fn lemma_undeclared_has_no_outcome(
    tokens: Seq<Seq<char>>,
    flags: Seq<FlagModel>,
    name: Seq<char>,
)
    requires
        forall|k: int| 0 <= k < flags.len() ==> flags[k].name != name,
    ensures
        resolve(tokens, flags).outcome(name) is None,
    decreases flags.len(),
{
    if flags.len() > 0 {
        lemma_undeclared_has_no_outcome(tokens, flags.drop_last(), name);
        assert(flags.last().name != name);
    }
}

/// A flag whose trigger does not stand in the command line has no outcome,
/// however it is declared.
pub proof fn lemma_omitted_has_no_outcome(
    tokens: Seq<Seq<char>>,
    flags: Seq<FlagModel>,
    name: Seq<char>,
)
    requires
        !tokens.contains(trigger_token(name)),
    ensures
        resolve(tokens, flags).outcome(name) is None,
    decreases flags.len(),
{
    if flags.len() > 0 {
        let before = resolve(tokens, flags.drop_last());
        lemma_omitted_has_no_outcome(tokens, flags.drop_last(), name);
        if flags.last().name == name {
            lemma_resolve_occurrences(tokens, flags.drop_last(), trigger_token(name));
            lemma_occurrences_contains(tokens, trigger_token(name));
            lemma_occurrences_contains(before.args, trigger_token(name));
            lemma_locate(before.args, trigger_token(name));
        }
    }
}

/// The outcome under a name is settled by the last declaration of that name:
/// it is what resolving that declaration, against what the declarations
/// before it have left, puts or leaves under the name.
pub proof fn lemma_outcome_of_declaration(tokens: Seq<Seq<char>>, flags: Seq<FlagModel>, k: int)
    requires
        0 <= k < flags.len(),
        forall|j: int| k < j < flags.len() ==> flags[j].name != flags[k].name,
    ensures
        resolve(tokens, flags).outcome(flags[k].name) == resolve_flag(
            resolve(tokens, flags.take(k)),
            flags[k],
        ).outcome(flags[k].name),
    decreases flags.len(),
{
    if k == flags.len() - 1 {
        assert(flags.take(k) =~= flags.drop_last());
    } else {
        lemma_outcome_of_declaration(tokens, flags.drop_last(), k);
        assert(flags.drop_last().take(k) =~= flags.take(k));
        lemma_resolve_flag_other_name(
            resolve(tokens, flags.drop_last()),
            flags.last(),
            flags[k].name,
        );
    }
}

/// The outcome that a flag finds for itself in a list of tokens: none where
/// its trigger does not stand there, else what its type makes of the token
/// after the first trigger; a Boolean flag looks at no token, and after a
/// trigger in the last place there is none.
pub open spec fn outcome_on(tokens: Seq<Seq<char>>, flag: FlagModel) -> Option<Outcome> {
    match locate(tokens, trigger_token(flag.name)) {
        None => None,
        Some(p) => Some(
            convert(
                flag.flag_type,
                if flag.flag_type != FlagType::Bool && p + 1 < tokens.len() {
                    Some(tokens[p + 1])
                } else {
                    None
                },
            ),
        ),
    }
}

/// The outcome of a flag whose name is declared once is what it finds for
/// itself in the tokens that the declarations before it have left: for the
/// flag declared first, in the command line as it is.
pub proof fn lemma_outcome_of_single_declaration(
    tokens: Seq<Seq<char>>,
    flags: Seq<FlagModel>,
    k: int,
)
    requires
        0 <= k < flags.len(),
        forall|j: int| 0 <= j < flags.len() && j != k ==> flags[j].name != flags[k].name,
    ensures
        resolve(tokens, flags).outcome(flags[k].name) == outcome_on(
            resolve(tokens, flags.take(k)).args,
            flags[k],
        ),
        k == 0 ==> resolve(tokens, flags).outcome(flags[k].name) == outcome_on(tokens, flags[k]),
{
    lemma_outcome_of_declaration(tokens, flags, k);
    lemma_undeclared_has_no_outcome(tokens, flags.take(k), flags[k].name);
    lemma_locate(resolve(tokens, flags.take(k)).args, trigger_token(flags[k].name));
}

/// A flag that is not Boolean and finds its trigger in the last place takes
/// the trigger out and nothing else, and has the error of a missing value,
/// whatever was resolved before it.
pub proof fn lemma_trigger_in_last_place(state: Resolution, flag: FlagModel)
    requires
        flag.flag_type != FlagType::Bool,
        locate(state.args, trigger_token(flag.name)) == Some(state.args.len() - 1),
    ensures
        resolve_flag(state, flag).args == state.args.drop_last(),
        resolve_flag(state, flag).outcome(flag.name) == Some(
            Err::<Value, Seq<char>>(MISSING_VALUE@),
        ),
{
    lemma_locate(state.args, trigger_token(flag.name));
    assert(state.args.remove(state.args.len() - 1) =~= state.args.drop_last());
}

/// What the first `k` declarations have left holds each token at least as
/// often as what all of them leave.
pub proof fn lemma_resolve_occurrences_from(
    tokens: Seq<Seq<char>>,
    flags: Seq<FlagModel>,
    k: int,
    token: Seq<char>,
)
    requires
        0 <= k <= flags.len(),
    ensures
        occurrences(resolve(tokens, flags).args, token) <= occurrences(
            resolve(tokens, flags.take(k)).args,
            token,
        ),
    decreases flags.len(),
{
    if k == flags.len() {
        assert(flags.take(k) =~= flags);
    } else {
        lemma_resolve_occurrences_from(tokens, flags.drop_last(), k, token);
        assert(flags.drop_last().take(k) =~= flags.take(k));
        lemma_resolve_flag_occurrences(resolve(tokens, flags.drop_last()), flags.last(), token);
    }
}

/// The value of a flag has left the positional arguments. A flag that is not
/// Boolean, whose name is declared once and which has an outcome, has it
/// from a token `value` of which the positional arguments hold one
/// occurrence less than the command line, or more than one less; or, where
/// `value` is `None`, from the lack of a token after its trigger.
pub proof fn lemma_value_taken(tokens: Seq<Seq<char>>, flags: Seq<FlagModel>, k: int) -> (value:
    Option<Seq<char>>)
    requires
        0 <= k < flags.len(),
        forall|j: int| 0 <= j < flags.len() && j != k ==> flags[j].name != flags[k].name,
        flags[k].flag_type != FlagType::Bool,
        resolve(tokens, flags).outcome(flags[k].name) is Some,
    ensures
        resolve(tokens, flags).outcome(flags[k].name) == Some(convert(flags[k].flag_type, value)),
        match value {
            Some(token) => occurrences(resolve(tokens, flags).args, token) < occurrences(
                tokens,
                token,
            ),
            None => true,
        },
{
    let before = resolve(tokens, flags.take(k));
    let flag = flags[k];
    lemma_outcome_of_single_declaration(tokens, flags, k);
    lemma_locate(before.args, trigger_token(flag.name));
    let i = locate(before.args, trigger_token(flag.name))->0;
    if i + 1 < before.args.len() {
        let token = before.args[i + 1];
        let rest = before.args.remove(i);
        to_multiset_remove(before.args, i);
        to_multiset_remove(rest, i);
        assert(rest[i] == token);
        assert(flags.take(k + 1).drop_last() =~= flags.take(k));
        assert(flags.take(k + 1).last() == flag);
        assert(resolve(tokens, flags.take(k + 1)).args == rest.remove(i));
        lemma_resolve_occurrences(tokens, flags.take(k), token);
        lemma_resolve_occurrences_from(tokens, flags, k + 1, token);
        lemma_occurrences_contains(rest, token);
        assert(rest.contains(token));
        Some(token)
    } else {
        None
    }
}

/// A command line in which no declared trigger stands is left as it is, and
/// no flag has an outcome.
pub proof fn lemma_without_triggers(tokens: Seq<Seq<char>>, flags: Seq<FlagModel>)
    requires
        forall|k: int|
            0 <= k < flags.len() ==> !tokens.contains(trigger_token((#[trigger] flags[k]).name)),
    ensures
        resolve(tokens, flags) == (Resolution { args: tokens, outcomes: Map::empty() }),
    decreases flags.len(),
{
    if flags.len() > 0 {
        assert forall|k: int| 0 <= k < flags.len() - 1 implies !tokens.contains(
            trigger_token((#[trigger] flags.drop_last()[k]).name),
        ) by {
            assert(flags.drop_last()[k] == flags[k]);
        }
        lemma_without_triggers(tokens, flags.drop_last());
        assert(!tokens.contains(trigger_token(flags[flags.len() - 1].name)));
        lemma_locate(tokens, trigger_token(flags.last().name));
    }
}

/// The literal of every floating-point value is a floating-point literal.
pub proof fn lemma_float_values_are_literals(
    tokens: Seq<Seq<char>>,
    flags: Seq<FlagModel>,
    name: Seq<char>,
)
    ensures
        match resolve(tokens, flags).outcome(name) {
            Some(Ok(Value::Float(literal))) => float_literal(literal),
            _ => true,
        },
    decreases flags.len(),
{
    if flags.len() > 0 {
        lemma_float_values_are_literals(tokens, flags.drop_last(), name);
    }
}

} // verus!
