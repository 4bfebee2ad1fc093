//! Command lines on which the declared flags do not get in each other's way,
//! so that the order of the declarations does not matter: what is left of
//! them, and what each flag gets, in closed form.
use crate::context::context_of;
use crate::flag::{
    convert, locate, trigger_token, FlagModel, FlagType, Value, INVALID_FLOAT, INVALID_INT,
    MISSING_VALUE,
};
use crate::literal::{float_literal, isize_literal};
use crate::resolution::{
    lemma_locate, lemma_picks_remove, lemma_resolve_flag_other_name, lemma_trigger_names,
    lemma_undeclared_has_no_outcome, outcome_on, picks, resolve,
};
use vstd::prelude::*;

verus! {

/// `token` is the trigger of a declared flag.
pub open spec fn is_trigger(flags: Seq<FlagModel>, token: Seq<char>) -> bool {
    exists|k: int| 0 <= k < flags.len() && trigger_token((#[trigger] flags[k]).name) == token
}

/// `token` is the trigger of a declared flag that is not Boolean.
pub open spec fn takes_value(flags: Seq<FlagModel>, token: Seq<char>) -> bool {
    exists|k: int|
        0 <= k < flags.len() && (#[trigger] flags[k]).flag_type != FlagType::Bool && trigger_token(
            flags[k].name,
        ) == token
}

/// The token at position `p` stands at no earlier position.
pub open spec fn stands_first(tokens: Seq<Seq<char>>, p: int) -> bool {
    0 <= p < tokens.len() && locate(tokens, tokens[p]) == Some(p)
}

/// Position `p` holds the first trigger of a declared flag.
pub open spec fn is_first_trigger(tokens: Seq<Seq<char>>, flags: Seq<FlagModel>, p: int) -> bool {
    stands_first(tokens, p) && is_trigger(flags, tokens[p])
}

/// Position `p` follows the first trigger of a declared flag that is not Boolean.
pub open spec fn is_first_value(tokens: Seq<Seq<char>>, flags: Seq<FlagModel>, p: int) -> bool {
    stands_first(tokens, p - 1) && takes_value(flags, tokens[p - 1])
}

/// Position `p` holds the first trigger of a declared flag, or follows the
/// first trigger of one that is not Boolean.
pub open spec fn is_flag_part(tokens: Seq<Seq<char>>, flags: Seq<FlagModel>, p: int) -> bool {
    is_first_trigger(tokens, flags, p) || is_first_value(tokens, flags, p)
}

/// A command line on which the declared flags do not get in each other's
/// way: no name is declared twice, and the token after the first trigger of
/// a flag that is not Boolean is not itself the first trigger of a flag.
pub open spec fn is_plain(tokens: Seq<Seq<char>>, flags: Seq<FlagModel>) -> bool {
    &&& forall|i: int, j: int|
        0 <= i < j < flags.len() ==> (#[trigger] flags[i]).name != (#[trigger] flags[j]).name
    &&& forall|p: int|
        0 <= p < tokens.len() && is_first_value(tokens, flags, p) ==> !(
        #[trigger] is_first_trigger(tokens, flags, p))
}

/// The tokens at the positions before `n` that are no flag parts, in their order.
pub open spec fn positionals_before(tokens: Seq<Seq<char>>, flags: Seq<FlagModel>, n: int) -> Seq<
    Seq<char>,
>
    decreases n,
{
    if n <= 0 {
        Seq::empty()
    } else if is_flag_part(tokens, flags, n - 1) {
        positionals_before(tokens, flags, n - 1)
    } else {
        positionals_before(tokens, flags, n - 1).push(tokens[n - 1])
    }
}

/// The tokens that are no flag parts, in their order.
pub open spec fn positionals(tokens: Seq<Seq<char>>, flags: Seq<FlagModel>) -> Seq<Seq<char>> {
    positionals_before(tokens, flags, tokens.len() as int)
}

/// What the last declaration adds to the triggers of the ones before it.
proof fn lemma_last_declaration(flags: Seq<FlagModel>)
    requires
        flags.len() > 0,
    ensures
        forall|token: Seq<char>|
            #![trigger is_trigger(flags, token)]
            #![trigger is_trigger(flags.drop_last(), token)]
            is_trigger(flags, token) <==> is_trigger(flags.drop_last(), token) || token
                == trigger_token(flags.last().name),
        forall|token: Seq<char>|
            #![trigger takes_value(flags, token)]
            #![trigger takes_value(flags.drop_last(), token)]
            takes_value(flags, token) <==> takes_value(flags.drop_last(), token) || (
            flags.last().flag_type != FlagType::Bool && token == trigger_token(flags.last().name)),
{
    let before = flags.drop_last();
    let last = flags.len() - 1;
    assert forall|token: Seq<char>|
        #![trigger is_trigger(flags, token)]
        #![trigger is_trigger(before, token)]
        is_trigger(flags, token) <==> is_trigger(before, token) || token == trigger_token(
            flags.last().name,
        ) by {
        if is_trigger(flags, token) {
            let k = choose|k: int|
                0 <= k < flags.len() && trigger_token((#[trigger] flags[k]).name) == token;
            if k < last {
                assert(before[k] == flags[k]);
            }
        }
        if is_trigger(before, token) {
            let k = choose|k: int|
                0 <= k < before.len() && trigger_token((#[trigger] before[k]).name) == token;
            assert(flags[k] == before[k]);
        }
        if token == trigger_token(flags.last().name) {
            assert(trigger_token(flags[last].name) == token);
        }
    }
    assert forall|token: Seq<char>|
        #![trigger takes_value(flags, token)]
        #![trigger takes_value(before, token)]
        takes_value(flags, token) <==> takes_value(before, token) || (flags.last().flag_type
            != FlagType::Bool && token == trigger_token(flags.last().name)) by {
        if takes_value(flags, token) {
            let k = choose|k: int|
                0 <= k < flags.len() && (#[trigger] flags[k]).flag_type != FlagType::Bool
                    && trigger_token(flags[k].name) == token;
            if k < last {
                assert(before[k] == flags[k]);
            }
        }
        if takes_value(before, token) {
            let k = choose|k: int|
                0 <= k < before.len() && (#[trigger] before[k]).flag_type != FlagType::Bool
                    && trigger_token(before[k].name) == token;
            assert(flags[k] == before[k]);
        }
        if flags.last().flag_type != FlagType::Bool && token == trigger_token(flags.last().name) {
            assert(flags[last].flag_type != FlagType::Bool && trigger_token(flags[last].name)
                == token);
        }
    }
}

/// A command line that is plain for a list of declarations is plain for the
/// list without its last, which does not declare the trigger of the last.
proof fn lemma_plain_drop_last(tokens: Seq<Seq<char>>, flags: Seq<FlagModel>)
    requires
        is_plain(tokens, flags),
        flags.len() > 0,
    ensures
        is_plain(tokens, flags.drop_last()),
        !is_trigger(flags.drop_last(), trigger_token(flags.last().name)),
        forall|k: int|
            0 <= k < flags.len() - 1 ==> (#[trigger] flags[k]).name != flags.last().name,
{
    let before = flags.drop_last();
    let last = flags.len() - 1;
    lemma_last_declaration(flags);
    assert forall|k: int| 0 <= k < last implies (#[trigger] flags[k]).name
        != flags.last().name by {
        assert(flags[k].name != flags[last].name);
    }
    if is_trigger(before, trigger_token(flags.last().name)) {
        let k = choose|k: int|
            0 <= k < before.len() && trigger_token((#[trigger] before[k]).name) == trigger_token(
                flags.last().name,
            );
        lemma_trigger_names(before[k].name, flags.last().name);
        assert(flags[k].name != flags[last].name);
    }
    assert forall|i: int, j: int| 0 <= i < j < before.len() implies (#[trigger] before[i]).name != (
    #[trigger] before[j]).name by {
        assert(flags[i].name != flags[j].name);
    }
    assert forall|p: int| 0 <= p < tokens.len() && is_first_value(tokens, before, p) implies !(
    #[trigger] is_first_trigger(tokens, before, p)) by {
        assert(is_first_value(tokens, flags, p));
        assert(!is_first_trigger(tokens, flags, p));
    }
}

/// On a plain command line, the positions that are left are those that are
/// no flag parts, and each flag has the outcome that it finds for itself in
/// the command line as it is.
proof fn lemma_plain_resolve(tokens: Seq<Seq<char>>, flags: Seq<FlagModel>) -> (keep: Seq<int>)
    requires
        is_plain(tokens, flags),
    ensures
        picks(resolve(tokens, flags).args, tokens, keep),
        forall|p: int|
            0 <= p < tokens.len() ==> (#[trigger] keep.contains(p) <==> !is_flag_part(
                tokens,
                flags,
                p,
            )),
        forall|k: int|
            0 <= k < flags.len() ==> resolve(tokens, flags).outcome((#[trigger] flags[k]).name)
                == outcome_on(tokens, flags[k]),
    decreases flags.len(),
{
    if flags.len() == 0 {
        let keep = Seq::new(tokens.len(), |i: int| i);
        assert forall|p: int| 0 <= p < tokens.len() implies (#[trigger] keep.contains(p)
            <==> !is_flag_part(tokens, flags, p)) by {
            assert(keep[p] == p);
        }
        keep
    } else {
        let before = flags.drop_last();
        let flag = flags.last();
        let token = trigger_token(flag.name);
        lemma_last_declaration(flags);
        lemma_plain_drop_last(tokens, flags);
        let kept = lemma_plain_resolve(tokens, before);
        let state = resolve(tokens, before);
        let after = resolve(tokens, flags);
        lemma_locate(state.args, token);
        lemma_locate(tokens, token);
        assert(is_trigger(flags, token));
        assert forall|k: int| 0 <= k < before.len() implies after.outcome(
            (#[trigger] flags[k]).name,
        ) == outcome_on(tokens, flags[k]) by {
            assert(before[k] == flags[k]);
            lemma_resolve_flag_other_name(state, flag, flags[k].name);
        }
        match locate(tokens, token) {
            None => {
                if state.args.contains(token) {
                    let j = choose|j: int| 0 <= j < state.args.len() && state.args[j] == token;
                    assert(tokens[kept[j]] == token);
                }
                assert forall|p: int| 0 <= p < tokens.len() implies (#[trigger] kept.contains(p)
                    <==> !is_flag_part(tokens, flags, p)) by {
                    assert(tokens[p] != token);
                    if p > 0 {
                        assert(tokens[p - 1] != token);
                    }
                }
                assert(state.outcome(flag.name) is None) by {
                    assert forall|k: int| 0 <= k < before.len() implies before[k].name
                        != flag.name by {
                        assert(before[k] == flags[k]);
                    }
                    lemma_undeclared_has_no_outcome(tokens, before, flag.name);
                }
                assert(after.outcome(flags[flags.len() - 1].name) == outcome_on(
                    tokens,
                    flags[flags.len() - 1],
                ));
                kept
            },
            Some(p) => {
                assert(is_first_trigger(tokens, flags, p));
                assert(!is_first_value(tokens, flags, p));
                assert(!is_flag_part(tokens, before, p));
                assert(kept.contains(p));
                let i = choose|i: int| 0 <= i < kept.len() && kept[i] == p;
                assert(state.args[i] == token);
                assert forall|j: int| 0 <= j < i implies state.args[j] != token by {
                    assert(state.args[j] == tokens[kept[j]]);
                    assert(kept[j] < kept[i]);
                }
                assert(locate(state.args, token) == Some(i));
                lemma_picks_remove(state.args, tokens, kept, i);
                let rest = state.args.remove(i);
                let shorter = kept.remove(i);
                if flag.flag_type != FlagType::Bool && p + 1 < tokens.len() {
                    assert(takes_value(flags, tokens[p]));
                    assert(is_first_value(tokens, flags, p + 1));
                    assert(!is_first_trigger(tokens, flags, p + 1));
                    assert(!is_flag_part(tokens, before, p + 1));
                    assert(kept.contains(p + 1));
                    let j = choose|j: int| 0 <= j < kept.len() && kept[j] == p + 1;
                    assert(j > i) by {
                        if j < i {
                            assert(kept[j] < kept[i]);
                        }
                    }
                    assert(j == i + 1) by {
                        if j > i + 1 {
                            assert(kept[i] < kept[i + 1]);
                            assert(kept[i + 1] < kept[j]);
                        }
                    }
                    assert(rest[i] == tokens[p + 1]);
                    lemma_picks_remove(rest, tokens, shorter, i);
                    let keep = shorter.remove(i);
                    assert(shorter[i] == p + 1);
                    assert forall|q: int| 0 <= q < tokens.len() implies (#[trigger] keep.contains(
                        q,
                    ) <==> !is_flag_part(tokens, flags, q)) by {
                        assert(kept.contains(q) <==> !is_flag_part(tokens, before, q));
                        assert(shorter.contains(q) <==> kept.contains(q) && q != p);
                    }
                    assert(after.outcome(flag.name) == outcome_on(tokens, flag));
                    keep
                } else {
                    if flag.flag_type != FlagType::Bool {
                        assert(i == kept.len() - 1) by {
                            if i < kept.len() - 1 {
                                assert(kept[i] < kept[i + 1]);
                            }
                        }
                    }
                    assert forall|q: int| 0 <= q < tokens.len() implies (
                    #[trigger] shorter.contains(q) <==> !is_flag_part(tokens, flags, q)) by {
                        assert(kept.contains(q) <==> !is_flag_part(tokens, before, q));
                    }
                    assert(after.outcome(flag.name) == outcome_on(tokens, flag));
                    shorter
                }
            },
        }
    }
}

/// What `keep` picks below position `n` are the positionals before `n`, where
/// `keep` holds just the positions that are no flag parts.
proof fn lemma_picks_positionals(
    args: Seq<Seq<char>>,
    tokens: Seq<Seq<char>>,
    flags: Seq<FlagModel>,
    keep: Seq<int>,
    n: int,
    c: int,
)
    requires
        picks(args, tokens, keep),
        forall|p: int|
            0 <= p < tokens.len() ==> (#[trigger] keep.contains(p) <==> !is_flag_part(
                tokens,
                flags,
                p,
            )),
        0 <= n <= tokens.len(),
        0 <= c <= keep.len(),
        forall|j: int| 0 <= j < c ==> #[trigger] keep[j] < n,
        forall|j: int| c <= j < keep.len() ==> #[trigger] keep[j] >= n,
    ensures
        args.take(c) == positionals_before(tokens, flags, n),
    decreases n,
{
    if n == 0 {
        if c > 0 {
            assert(keep[0] < 0);
        }
        assert(args.take(c) =~= Seq::empty());
    } else if is_flag_part(tokens, flags, n - 1) {
        assert(!keep.contains(n - 1));
        assert forall|j: int| 0 <= j < c implies #[trigger] keep[j] < n - 1 by {
            assert(keep.contains(keep[j]));
        }
        lemma_picks_positionals(args, tokens, flags, keep, n - 1, c);
    } else {
        assert(keep.contains(n - 1));
        let at = choose|j: int| 0 <= j < keep.len() && keep[j] == n - 1;
        assert(at == c - 1) by {
            if at >= c {
                assert(keep[at] >= n);
            }
            if at < c - 1 {
                assert(keep[at] < keep[c - 1]);
            }
        }
        assert forall|j: int| 0 <= j < c - 1 implies #[trigger] keep[j] < n - 1 by {
            assert(keep[j] < keep[c - 1]);
        }
        lemma_picks_positionals(args, tokens, flags, keep, n - 1, c - 1);
        assert(args.take(c) =~= args.take(c - 1).push(tokens[n - 1]));
    }
}

/// On a plain command line the declared flags do not get in each other's
/// way, in whatever order they are declared. The positional arguments are
/// the tokens that are neither the first trigger of a flag nor the token
/// after the first trigger of a flag that is not Boolean, and each flag has
/// the outcome that it finds for itself in the command line as it is.
pub proof fn lemma_plain_command_line(tokens: Seq<Seq<char>>, flags: Seq<FlagModel>)
    requires
        is_plain(tokens, flags),
    ensures
        resolve(tokens, flags).args == positionals(tokens, flags),
        forall|k: int|
            0 <= k < flags.len() ==> resolve(tokens, flags).outcome((#[trigger] flags[k]).name)
                == outcome_on(tokens, flags[k]),
{
    let keep = lemma_plain_resolve(tokens, flags);
    let args = resolve(tokens, flags).args;
    lemma_picks_positionals(args, tokens, flags, keep, tokens.len() as int, keep.len() as int);
    assert(args.take(keep.len() as int) =~= args);
}

/// A command line on which no trigger follows the trigger of a flag that is
/// not Boolean is plain for declarations of distinct names.
pub proof fn lemma_single_triggers_are_plain(tokens: Seq<Seq<char>>, flags: Seq<FlagModel>)
    requires
        forall|i: int, j: int|
            0 <= i < j < flags.len() ==> (#[trigger] flags[i]).name != (#[trigger] flags[j]).name,
        forall|p: int|
            0 < p < tokens.len() && takes_value(flags, tokens[p - 1]) ==> !is_trigger(
                flags,
                #[trigger] tokens[p],
            ),
    ensures
        is_plain(tokens, flags),
{
    assert forall|p: int| 0 <= p < tokens.len() && is_first_value(tokens, flags, p) implies !(
    #[trigger] is_first_trigger(tokens, flags, p)) by {
        assert(!is_trigger(flags, tokens[p]));
    }
}

/// On a plain command line the positional arguments of the context are the
/// tokens that are no flag parts, in their order.
pub proof fn lemma_plain_args(tokens: Seq<Seq<char>>, flags: Seq<FlagModel>)
    requires
        is_plain(tokens, flags),
    ensures
        context_of(tokens, Some(flags)).args == positionals(tokens, flags),
{
    lemma_plain_command_line(tokens, flags);
}

/// On a plain command line a declared Boolean flag is set exactly where its
/// trigger stands in the command line.
pub proof fn lemma_bool_round_trip(tokens: Seq<Seq<char>>, flags: Seq<FlagModel>, k: int)
    requires
        is_plain(tokens, flags),
        0 <= k < flags.len(),
        flags[k].flag_type == FlagType::Bool,
    ensures
        context_of(tokens, Some(flags)).bool_flag(flags[k].name) == tokens.contains(
            trigger_token(flags[k].name),
        ),
{
    lemma_plain_command_line(tokens, flags);
    lemma_locate(tokens, trigger_token(flags[k].name));
}

/// On a plain command line a declared flag that is not Boolean, whose first
/// trigger stands at position `p` with a token after it, has the value that
/// its type makes of that token: a string flag the token itself, an integer
/// flag the number that it denotes, a floating-point flag the literal; and
/// the error of its type where the token denotes no such number.
pub proof fn lemma_typed_round_trip(tokens: Seq<Seq<char>>, flags: Seq<FlagModel>, k: int, p: int)
    requires
        is_plain(tokens, flags),
        0 <= k < flags.len(),
        flags[k].flag_type != FlagType::Bool,
        locate(tokens, trigger_token(flags[k].name)) == Some(p),
        p + 1 < tokens.len(),
    ensures
        context_of(tokens, Some(flags)).outcome(flags[k].name) == Some(
            convert(flags[k].flag_type, Some(tokens[p + 1])),
        ),
        flags[k].flag_type == FlagType::String ==> context_of(tokens, Some(flags)).string_flag(
            flags[k].name,
        ) == Ok::<Seq<char>, Seq<char>>(tokens[p + 1]),
        flags[k].flag_type == FlagType::Int ==> context_of(tokens, Some(flags)).int_flag(
            flags[k].name,
        ) == match isize_literal(tokens[p + 1]) {
            Some(i) => Ok::<isize, Seq<char>>(i),
            None => Err(INVALID_INT@),
        },
        flags[k].flag_type == FlagType::Float ==> context_of(tokens, Some(flags)).float_flag(
            flags[k].name,
        ) == if float_literal(tokens[p + 1]) {
            Ok::<Seq<char>, Seq<char>>(tokens[p + 1])
        } else {
            Err(INVALID_FLOAT@)
        },
{
    lemma_plain_command_line(tokens, flags);
}

/// On a plain command line a declared flag that is not Boolean, whose first
/// trigger is the last token, has the error of a missing value in every
/// accessor but `bool_flag`, which is `false`.
pub proof fn lemma_missing_value(tokens: Seq<Seq<char>>, flags: Seq<FlagModel>, k: int)
    requires
        is_plain(tokens, flags),
        0 <= k < flags.len(),
        flags[k].flag_type != FlagType::Bool,
        locate(tokens, trigger_token(flags[k].name)) == Some(tokens.len() - 1),
    ensures
        context_of(tokens, Some(flags)).outcome(flags[k].name) == Some(
            Err::<Value, Seq<char>>(MISSING_VALUE@),
        ),
        !context_of(tokens, Some(flags)).bool_flag(flags[k].name),
        context_of(tokens, Some(flags)).string_flag(flags[k].name) == Err::<Seq<char>, Seq<char>>(
            MISSING_VALUE@,
        ),
        context_of(tokens, Some(flags)).int_flag(flags[k].name) == Err::<isize, Seq<char>>(
            MISSING_VALUE@,
        ),
        context_of(tokens, Some(flags)).float_flag(flags[k].name) == Err::<Seq<char>, Seq<char>>(
            MISSING_VALUE@,
        ),
{
    lemma_plain_command_line(tokens, flags);
}

} // verus!
