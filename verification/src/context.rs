//! The context of a command: the positional arguments that are left once the
//! declared flags and their values are taken out of the command line, and the
//! value of each flag that was found, for typed lookup by name.
use crate::flag::{
    lemma_locate_from, outcome_view, texts, trigger_token, Flag, FlagModel, FlagType, FlagValue,
    Outcome, Value,
};
use crate::literal::float_literal;
use crate::resolution::{
    lemma_float_values_are_literals, lemma_omitted_has_no_outcome,
    lemma_undeclared_has_no_outcome, resolve, Resolution,
};
use vstd::prelude::*;
use vstd::string::*;

verus! {

/// The error text of `int_flag` and `float_flag` for a flag that has no
/// outcome, or one of another type.
pub const NOT_FOUND: &'static str = "hoge";

/// What a `Context` holds: the positional arguments, and the outcomes by flag
/// name. Without declarations there is no map of outcomes at all.
pub struct ContextModel {
    pub args: Seq<Seq<char>>,
    pub flags: Option<Map<Seq<char>, Outcome>>,
}

impl ContextModel {
    /// The outcome kept under `name`, if there is one.
    pub open spec fn outcome(self, name: Seq<char>) -> Option<Outcome> {
        match self.flags {
            Some(outcomes) => if outcomes.contains_key(name) {
                Some(outcomes[name])
            } else {
                None
            },
            None => None,
        }
    }

    /// Whether the flag `name` was found and is a Boolean that is set.
    pub open spec fn bool_flag(self, name: Seq<char>) -> bool {
        self.outcome(name) == Some(Ok::<Value, Seq<char>>(Value::Bool(true)))
    }

    /// The text of the string flag `name`, or its error text; the empty error
    /// text where the flag has no outcome, or a value of another type.
    pub open spec fn string_flag(self, name: Seq<char>) -> Result<Seq<char>, Seq<char>> {
        match self.outcome(name) {
            Some(Ok(Value::String(s))) => Ok(s),
            Some(Err(e)) => Err(e),
            _ => Err(Seq::empty()),
        }
    }

    /// The number of the integer flag `name`, or its error text; `NOT_FOUND`
    /// where the flag has no outcome, or a value of another type.
    pub open spec fn int_flag(self, name: Seq<char>) -> Result<isize, Seq<char>> {
        match self.outcome(name) {
            Some(Ok(Value::Int(i))) => Ok(i),
            Some(Err(e)) => Err(e),
            _ => Err(NOT_FOUND@),
        }
    }

    /// The literal of the floating-point flag `name`, or its error text;
    /// `NOT_FOUND` where the flag has no outcome, or a value of another type.
    pub open spec fn float_flag(self, name: Seq<char>) -> Result<Seq<char>, Seq<char>> {
        match self.outcome(name) {
            Some(Ok(Value::Float(s))) => Ok(s),
            Some(Err(e)) => Err(e),
            _ => Err(NOT_FOUND@),
        }
    }
}

/// The context that a command line and its declared flags give.
pub open spec fn context_of(tokens: Seq<Seq<char>>, flags: Option<Seq<FlagModel>>) -> ContextModel {
    match flags {
        Some(declared) => ContextModel {
            args: resolve(tokens, declared).args,
            flags: Some(resolve(tokens, declared).outcomes),
        },
        None => ContextModel { args: tokens, flags: None },
    }
}

/// A flag without an outcome misses in every accessor.
pub open spec fn misses(context: ContextModel, name: Seq<char>) -> bool {
    &&& context.outcome(name) is None
    &&& !context.bool_flag(name)
    &&& context.string_flag(name) == Err::<Seq<char>, Seq<char>>(Seq::empty())
    &&& context.int_flag(name) == Err::<isize, Seq<char>>(NOT_FOUND@)
    &&& context.float_flag(name) == Err::<Seq<char>, Seq<char>>(NOT_FOUND@)
}

/// A name that no declaration bears misses in every accessor, whatever
/// stands in the command line.
pub proof fn lemma_unknown_flag_misses(
    tokens: Seq<Seq<char>>,
    flags: Option<Seq<FlagModel>>,
    name: Seq<char>,
)
    requires
        match flags {
            Some(declared) => forall|k: int| 0 <= k < declared.len() ==> declared[k].name != name,
            None => true,
        },
    ensures
        misses(context_of(tokens, flags), name),
{
    if let Some(declared) = flags {
        lemma_undeclared_has_no_outcome(tokens, declared, name);
    }
}

/// A flag whose trigger does not stand in the command line misses in every
/// accessor, however it is declared.
pub proof fn lemma_omitted_flag_misses(
    tokens: Seq<Seq<char>>,
    flags: Option<Seq<FlagModel>>,
    name: Seq<char>,
)
    requires
        !tokens.contains(trigger_token(name)),
    ensures
        misses(context_of(tokens, flags), name),
{
    if let Some(declared) = flags {
        lemma_omitted_has_no_outcome(tokens, declared, name);
    }
}

/// What `float_flag` gives as the literal of a flag is a floating-point
/// literal.
pub proof fn lemma_float_flag_is_literal(
    tokens: Seq<Seq<char>>,
    flags: Option<Seq<FlagModel>>,
    name: Seq<char>,
)
    ensures
        match context_of(tokens, flags).float_flag(name) {
            Ok(literal) => float_literal(literal),
            Err(_) => true,
        },
{
    if let Some(declared) = flags {
        lemma_float_values_are_literals(tokens, declared, name);
    }
}

/// What a list of declarations holds.
pub open spec fn models(flags: Seq<Flag>) -> Seq<FlagModel> {
    flags.map_values(|f: Flag| f@)
}

/// What an optional list of declarations holds.
pub open spec fn declared(flags: Option<Vec<Flag>>) -> Option<Seq<FlagModel>> {
    match flags {
        Some(v) => Some(models(v@)),
        None => None,
    }
}

/// The outcomes by name that a list of entries stands for: a later entry
/// takes the place of an earlier one of the same name.
pub open spec fn recorded(entries: Seq<(String, Result<FlagValue, String>)>) -> Map<
    Seq<char>,
    Outcome,
>
    decreases entries.len(),
{
    if entries.len() == 0 {
        Map::empty()
    } else {
        recorded(entries.drop_last()).insert(entries.last().0@, outcome_view(entries.last().1))
    }
}

/// The name of the last entry decides what is kept under that name; under
/// every other name stands what the entries before it left there.
pub proof fn lemma_recorded_last(entries: Seq<(String, Result<FlagValue, String>)>, name: Seq<char>)
    requires
        entries.len() > 0,
    ensures
        entries.last().0@ == name ==> recorded(entries).contains_key(name) && recorded(
            entries,
        )[name] == outcome_view(entries.last().1),
        entries.last().0@ != name ==> (recorded(entries).contains_key(name) <==> recorded(
            entries.drop_last(),
        ).contains_key(name)),
        entries.last().0@ != name && recorded(entries).contains_key(name) ==> recorded(
            entries,
        )[name] == recorded(entries.drop_last())[name],
{
}

/// What a text or an error text holds.
pub open spec fn text_view(r: Result<String, String>) -> Result<Seq<char>, Seq<char>> {
    match r {
        Ok(s) => Ok(s@),
        Err(e) => Err(e@),
    }
}

/// What a number or an error text holds.
pub open spec fn number_view(r: Result<isize, String>) -> Result<isize, Seq<char>> {
    match r {
        Ok(i) => Ok(i),
        Err(e) => Err(e@),
    }
}

/// The positional arguments of a command, and the values of its flags.
pub struct Context {
    /// The command line without the flags and their values.
    pub args: Vec<String>,
    /// The name and the outcome of each flag that was found, in the order of
    /// their declaration.
    flags: Option<Vec<(String, Result<FlagValue, String>)>>,
}

impl View for Context {
    type V = ContextModel;

    closed spec fn view(&self) -> ContextModel {
        ContextModel {
            args: texts(self.args@),
            flags: match self.flags {
                Some(entries) => Some(recorded(entries@)),
                None => None,
            },
        }
    }
}

impl Context {
    /// Resolves the declared flags against the command line `args`.
    pub fn new(args: Vec<String>, flags: Option<Vec<Flag>>) -> (context: Context)
        ensures
            context@ == context_of(texts(args@), declared(flags)),
    {
        let mut parsed_args = args;
        let flags_val = match flags {
            Some(flags) => {
                let mut v: Vec<(String, Result<FlagValue, String>)> = Vec::new();
                let ghost tokens = texts(args@);
                let ghost all = models(flags@);
                let mut k: usize = 0;
                while k < flags.len()
                    invariant
                        k <= flags.len(),
                        all == models(flags@),
                        resolve(tokens, all.take(k as int)) == (Resolution {
                            args: texts(parsed_args@),
                            outcomes: recorded(v@),
                        }),
                    decreases flags.len() - k,
                {
                    let flag = &flags[k];
                    proof {
                        assert(all.take(k + 1).drop_last() =~= all.take(k as int));
                        assert(all.take(k + 1).last() == flag@);
                    }
                    match flag.option_index(&parsed_args) {
                        Some(index) => {
                            proof {
                                lemma_locate_from(
                                    texts(parsed_args@),
                                    trigger_token(flag.name@),
                                    0,
                                );
                            }
                            let ghost found = parsed_args@;
                            parsed_args.remove(index);
                            assert(texts(parsed_args@) =~= texts(found).remove(index as int));
                            let val = if flag.flag_type != FlagType::Bool && index
                                < parsed_args.len() {
                                let ghost rest = parsed_args@;
                                let token = parsed_args.remove(index);
                                assert(texts(parsed_args@) =~= texts(rest).remove(index as int));
                                assert(token@ == texts(rest)[index as int]);
                                Some(token)
                            } else {
                                None
                            };
                            let ghost entries = v@;
                            let outcome = flag.value(val);
                            v.push((flag.name.clone(), outcome));
                            assert(v@.drop_last() =~= entries);
                        },
                        None => {},
                    }
                    k = k + 1;
                }
                assert(all.take(k as int) =~= all);
                Some(v)
            },
            None => None,
        };
        Context { args: parsed_args, flags: flags_val }
    }

    /// The positional arguments.
    pub fn args(&self) -> (args: &Vec<String>)
        ensures
            texts(args@) == self@.args,
    {
        &self.args
    }

    /// The outcome of the flag `name`, if it has one.
    pub fn result_flag_value(&self, name: &str) -> (r: Option<&Result<FlagValue, String>>)
        ensures
            match r {
                Some(outcome) => self@.outcome(name@) == Some(outcome_view(*outcome)),
                None => self@.outcome(name@) is None,
            },
    {
        match &self.flags {
            Some(entries) => {
                let wanted = String::from_str(name);
                let mut i: usize = entries.len();
                assert(entries@.take(i as int) =~= entries@);
                while i > 0
                    invariant
                        i <= entries.len(),
                        self@.flags == Some(recorded(entries@)),
                        wanted@ == name@,
                        recorded(entries@).contains_key(name@) <==> recorded(
                            entries@.take(i as int),
                        ).contains_key(name@),
                        recorded(entries@).contains_key(name@) ==> recorded(entries@)[name@]
                            == recorded(entries@.take(i as int))[name@],
                    decreases i,
                {
                    proof {
                        lemma_recorded_last(entries@.take(i as int), name@);
                        assert(entries@.take(i as int).drop_last() =~= entries@.take(i - 1));
                    }
                    i = i - 1;
                    if entries[i].0 == wanted {
                        return Some(&entries[i].1);
                    }
                }
                assert(entries@.take(0) =~= Seq::empty());
                None
            },
            None => None,
        }
    }

    /// Whether the flag `name` was found and is a Boolean that is set.
    pub fn bool_flag(&self, name: &str) -> (r: bool)
        ensures
            r == self@.bool_flag(name@),
    {
        match self.result_flag_value(name) {
            Some(Ok(FlagValue::Bool(val))) => *val,
            _ => false,
        }
    }

    /// The text of the string flag `name`, or its error text. Never `None`:
    /// where the flag has no outcome, or a value of another type, the error
    /// text is empty.
    pub fn string_flag(&self, name: &str) -> (r: Option<Result<String, String>>)
        ensures
            match r {
                Some(text) => text_view(text) == self@.string_flag(name@),
                None => false,
            },
    {
        match self.result_flag_value(name) {
            Some(Ok(FlagValue::String(val))) => Some(Ok(val.clone())),
            Some(Err(e)) => Some(Err(e.clone())),
            _ => Some(Err(String::new())),
        }
    }

    /// The number of the integer flag `name`, or its error text; `NOT_FOUND`
    /// where the flag has no outcome, or a value of another type.
    pub fn int_flag(&self, name: &str) -> (r: Result<isize, String>)
        ensures
            number_view(r) == self@.int_flag(name@),
    {
        match self.result_flag_value(name) {
            Some(Ok(FlagValue::Int(val))) => Ok(*val),
            Some(Err(e)) => Err(e.clone()),
            _ => Err(String::from_str(NOT_FOUND)),
        }
    }

    /// The literal of the floating-point flag `name`, or its error text;
    /// `NOT_FOUND` where the flag has no outcome, or a value of another type.
    pub fn float_flag(&self, name: &str) -> (r: Result<String, String>)
        ensures
            text_view(r) == self@.float_flag(name@),
    {
        match self.result_flag_value(name) {
            Some(Ok(FlagValue::Float(val))) => Ok(val.clone()),
            Some(Err(e)) => Err(e.clone()),
            _ => Err(String::from_str(NOT_FOUND)),
        }
    }
}

} // verus!
