//! Flag declarations and the typed values that a flag can hold.
use crate::literal::{float_literal, is_float_literal, isize_literal, parse_isize};
use vstd::prelude::*;
use vstd::string::*;

verus! {

/// The error text of a flag that needs a value and stands last on the command line.
pub const MISSING_VALUE: &'static str = "flag value is missing";

/// The error text of an integer flag whose value is no integer, or too large for an `isize`.
pub const INVALID_INT: &'static str = "flag value is not an integer";

/// The error text of a floating-point flag whose value is no number.
pub const INVALID_FLOAT: &'static str = "flag value is not a number";

/// The type that a flag's value is declared to have.
#[derive(Clone, Copy, Debug, PartialEq, Eq, Structural)]
pub enum FlagType {
    Bool,
    String,
    Int,
    Float,
}

/// The value of a flag, by its declared type. A floating-point value is kept
/// as its literal: `Flag::value` makes one only of a text that is a
/// floating-point literal.
#[derive(Clone, Debug, PartialEq, Eq)]
pub enum FlagValue {
    Bool(bool),
    String(String),
    Int(isize),
    Float(String),
}

/// What a `FlagValue` holds.
pub enum Value {
    Bool(bool),
    String(Seq<char>),
    Int(isize),
    Float(Seq<char>),
}

impl View for FlagValue {
    type V = Value;

    open spec fn view(&self) -> Value {
        match self {
            FlagValue::Bool(b) => Value::Bool(*b),
            FlagValue::String(s) => Value::String(s@),
            FlagValue::Int(i) => Value::Int(*i),
            FlagValue::Float(s) => Value::Float(s@),
        }
    }
}

/// What became of a flag that was found: its value, or the reason why it has none.
pub type Outcome = Result<Value, Seq<char>>;

/// What an executable outcome holds.
pub open spec fn outcome_view(r: Result<FlagValue, String>) -> Outcome {
    match r {
        Ok(v) => Ok(v@),
        Err(e) => Err(e@),
    }
}

/// A declared flag: its name, a line of help, and the type of its value.
#[derive(Clone, Debug, PartialEq, Eq)]
pub struct Flag {
    pub name: String,
    pub usage: String,
    pub flag_type: FlagType,
}

/// What a `Flag` holds.
pub struct FlagModel {
    pub name: Seq<char>,
    pub usage: Seq<char>,
    pub flag_type: FlagType,
}

impl View for Flag {
    type V = FlagModel;

    open spec fn view(&self) -> FlagModel {
        FlagModel { name: self.name@, usage: self.usage@, flag_type: self.flag_type }
    }
}

/// The token that switches a flag of the given name on: two hyphens, then the name.
pub open spec fn trigger_token(name: Seq<char>) -> Seq<char> {
    seq!['-', '-'] + name
}

/// The texts of a list of tokens.
pub open spec fn texts(tokens: Seq<String>) -> Seq<Seq<char>> {
    tokens.map_values(|t: String| t@)
}

/// The first position at or after `from` at which `token` stands in `tokens`.
pub open spec fn locate_from(tokens: Seq<Seq<char>>, token: Seq<char>, from: int) -> Option<int>
    decreases tokens.len() - from,
{
    if from < 0 || from >= tokens.len() {
        None
    } else if tokens[from] == token {
        Some(from)
    } else {
        locate_from(tokens, token, from + 1)
    }
}

/// The first position at which `token` stands in `tokens`.
pub open spec fn locate(tokens: Seq<Seq<char>>, token: Seq<char>) -> Option<int> {
    locate_from(tokens, token, 0)
}

/// The value that a flag of type `flag_type` gets from the token that follows
/// its trigger, or from the lack of one.
pub open spec fn convert(flag_type: FlagType, token: Option<Seq<char>>) -> Outcome {
    match flag_type {
        FlagType::Bool => Ok(Value::Bool(true)),
        FlagType::String => match token {
            Some(t) => Ok(Value::String(t)),
            None => Err(MISSING_VALUE@),
        },
        FlagType::Int => match token {
            Some(t) => match isize_literal(t) {
                Some(i) => Ok(Value::Int(i)),
                None => Err(INVALID_INT@),
            },
            None => Err(MISSING_VALUE@),
        },
        FlagType::Float => match token {
            Some(t) => if float_literal(t) {
                Ok(Value::Float(t))
            } else {
                Err(INVALID_FLOAT@)
            },
            None => Err(MISSING_VALUE@),
        },
    }
}

/// The view of an optional token.
pub open spec fn token_view(token: Option<String>) -> Option<Seq<char>> {
    match token {
        Some(t) => Some(t@),
        None => None,
    }
}

/// `locate_from` finds the first position at or after `from`, and `None` only
/// where the token stands at none of them.
pub proof fn lemma_locate_from(tokens: Seq<Seq<char>>, token: Seq<char>, from: int)
    requires
        0 <= from,
    ensures
        match locate_from(tokens, token, from) {
            Some(i) => from <= i < tokens.len() && tokens[i] == token && forall|j: int|
                from <= j < i ==> tokens[j] != token,
            None => forall|j: int| from <= j < tokens.len() ==> tokens[j] != token,
        },
    decreases tokens.len() - from,
{
    if from < tokens.len() && tokens[from] != token {
        lemma_locate_from(tokens, token, from + 1);
    }
}

impl Flag {
    /// A flag of the given name, help line and type.
    pub fn new(name: &str, usage: &str, flag_type: FlagType) -> (flag: Flag)
        ensures
            flag@ == (FlagModel { name: name@, usage: usage@, flag_type }),
    {
        Flag { name: String::from_str(name), usage: String::from_str(usage), flag_type }
    }

    /// The first position in `v` at which this flag's trigger stands.
    pub fn option_index(&self, v: &Vec<String>) -> (r: Option<usize>)
        ensures
            match r {
                Some(i) => locate(texts(v@), trigger_token(self.name@)) == Some(i as int),
                None => locate(texts(v@), trigger_token(self.name@)) is None,
            },
    {
        let wanted = String::from_str("--").concat(self.name.as_str());
        proof {
            reveal_strlit("--");
            assert(wanted@ =~= trigger_token(self.name@));
        }
        let ghost tokens = texts(v@);
        let mut i: usize = 0;
        while i < v.len()
            invariant
                i <= v.len(),
                tokens == texts(v@),
                wanted@ == trigger_token(self.name@),
                locate(tokens, wanted@) == locate_from(tokens, wanted@, i as int),
            decreases v.len() - i,
        {
            assert(tokens[i as int] == v@[i as int]@);
            if v[i] == wanted {
                return Some(i);
            }
            i = i + 1;
        }
        None
    }

    /// The value that this flag gets from the token `v` that followed its
    /// trigger, or from the lack of one.
    pub fn value(&self, v: Option<String>) -> (r: Result<FlagValue, String>)
        ensures
            outcome_view(r) == convert(self.flag_type, token_view(v)),
    {
        match self.flag_type {
            FlagType::Bool => Ok(FlagValue::Bool(true)),
            FlagType::String => match v {
                Some(t) => Ok(FlagValue::String(t)),
                None => Err(String::from_str(MISSING_VALUE)),
            },
            FlagType::Int => match v {
                Some(t) => match parse_isize(t.as_str()) {
                    Some(i) => Ok(FlagValue::Int(i)),
                    None => Err(String::from_str(INVALID_INT)),
                },
                None => Err(String::from_str(MISSING_VALUE)),
            },
            FlagType::Float => match v {
                Some(t) => if is_float_literal(t.as_str()) {
                    Ok(FlagValue::Float(t))
                } else {
                    Err(String::from_str(INVALID_FLOAT))
                },
                None => Err(String::from_str(MISSING_VALUE)),
            },
        }
    }
}

} // verus!
