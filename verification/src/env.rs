//! Tunables read from environment variables.
//!
//! A driver captures the process environment in an `Environment`. A variable
//! whose value is a binary64 number is captured by its bit pattern as well.

use vstd::prelude::*;

use crate::binary64::Binary64;
use crate::text;
use crate::time::Duration;

verus! {

/// A captured variable.
pub struct Variable {
    pub name: String,
    pub value: String,
    /// The number that the value denotes, where it denotes one.
    pub number: Option<Binary64>,
}

/// The last variable of a name.
pub open spec fn last_named(variables: Seq<Variable>, key: Seq<char>) -> Option<Variable>
    decreases variables.len(),
{
    if variables.len() == 0 {
        None
    } else if variables.last().name@ == key {
        Some(variables.last())
    } else {
        last_named(variables.drop_last(), key)
    }
}

/// The captured variables; of two of one name the later one counts.
pub struct Environment {
    pub variables: Vec<Variable>,
}

impl Environment {
    /// The text of a variable, where it is set.
    pub open spec fn text_of(&self, key: Seq<char>) -> Option<Seq<char>> {
        match last_named(self.variables@, key) {
            Some(v) => Some(v.value@),
            None => None,
        }
    }

    /// The number that a variable holds, where it holds one.
    pub open spec fn number_of(&self, key: Seq<char>) -> Option<Binary64> {
        match last_named(self.variables@, key) {
            Some(v) => v.number,
            None => None,
        }
    }

    /// An environment without variables.
    pub fn empty() -> (r: Environment)
        ensures
            forall|key: Seq<char>| #[trigger] r.text_of(key) is None,
            forall|key: Seq<char>| #[trigger] r.number_of(key) is None,
    {
        Environment { variables: Vec::new() }
    }

    /// Captures a variable.
    pub fn capture(&mut self, name: String, value: String, number: Option<Binary64>)
        ensures
            forall|key: Seq<char>| #[trigger]
                final(self).text_of(key) == (if key == name@ {
                    Some(value@)
                } else {
                    old(self).text_of(key)
                }),
            forall|key: Seq<char>| #[trigger]
                final(self).number_of(key) == (if key == name@ {
                    number
                } else {
                    old(self).number_of(key)
                }),
    {
        self.variables.push(Variable { name, value, number });
        assert(self.variables@.drop_last() =~= old(self).variables@);
    }

    fn find(&self, key: &str) -> (r: Option<&Variable>)
        ensures
            r is Some <==> last_named(self.variables@, key@) is Some,
            r matches Some(v) ==> last_named(self.variables@, key@) == Some(*v),
    {
        let wanted: String = key.to_owned();
        let mut n: usize = self.variables.len();
        proof {
            assert(self.variables@.take(n as int) =~= self.variables@);
        }
        while n > 0
            invariant
                n <= self.variables.len(),
                wanted@ == key@,
                last_named(self.variables@, key@) == last_named(
                    self.variables@.take(n as int),
                    key@,
                ),
            decreases n,
        {
            proof {
                assert(self.variables@.take(n as int).drop_last() =~= self.variables@.take(n - 1));
            }
            if self.variables[n - 1].name == wanted {
                return Some(&self.variables[n - 1]);
            }
            n = n - 1;
        }
        None
    }

    /// The text of a variable.
    pub fn text(&self, key: &str) -> (r: Option<String>)
        ensures
            r is Some <==> self.text_of(key@) is Some,
            r matches Some(v) ==> self.text_of(key@) == Some(v@),
    {
        match self.find(key) {
            Some(v) => Some(v.value.clone()),
            None => None,
        }
    }

    /// The number that a variable holds.
    pub fn number(&self, key: &str) -> (r: Option<Binary64>)
        ensures
            r == self.number_of(key@),
    {
        match self.find(key) {
            Some(v) => v.number,
            None => None,
        }
    }
}

/// A value that can be read from the text of a variable.
pub trait EnvValue: Sized {
    /// Whether `value` is what `text` denotes.
    spec fn denotes(text: Seq<char>, value: Self) -> bool;

    /// Whether `text` denotes a value.
    spec fn readable(text: Seq<char>) -> bool;

    fn read(text: &str) -> (r: Option<Self>)
        ensures
            r is Some <==> Self::readable(text@),
            r matches Some(v) ==> Self::denotes(text@, v),
    ;
}

impl EnvValue for u16 {
    open spec fn denotes(text: Seq<char>, value: Self) -> bool {
        text::unsigned_value(text, u16::MAX as nat) == Some(value as nat)
    }

    open spec fn readable(text: Seq<char>) -> bool {
        text::unsigned_value(text, u16::MAX as nat) is Some
    }

    fn read(text: &str) -> (r: Option<Self>) {
        match text::read_unsigned(text, u16::MAX as u64) {
            Some(v) => Some(v as u16),
            None => None,
        }
    }
}

impl EnvValue for u32 {
    open spec fn denotes(text: Seq<char>, value: Self) -> bool {
        text::unsigned_value(text, u32::MAX as nat) == Some(value as nat)
    }

    open spec fn readable(text: Seq<char>) -> bool {
        text::unsigned_value(text, u32::MAX as nat) is Some
    }

    fn read(text: &str) -> (r: Option<Self>) {
        match text::read_unsigned(text, u32::MAX as u64) {
            Some(v) => Some(v as u32),
            None => None,
        }
    }
}

impl EnvValue for u64 {
    open spec fn denotes(text: Seq<char>, value: Self) -> bool {
        text::unsigned_value(text, u64::MAX as nat) == Some(value as nat)
    }

    open spec fn readable(text: Seq<char>) -> bool {
        text::unsigned_value(text, u64::MAX as nat) is Some
    }

    fn read(text: &str) -> (r: Option<Self>) {
        text::read_unsigned(text, u64::MAX)
    }
}

impl EnvValue for usize {
    open spec fn denotes(text: Seq<char>, value: Self) -> bool {
        text::unsigned_value(text, usize::MAX as nat) == Some(value as nat)
    }

    open spec fn readable(text: Seq<char>) -> bool {
        text::unsigned_value(text, usize::MAX as nat) is Some
    }

    fn read(text: &str) -> (r: Option<Self>) {
        match text::read_unsigned(text, usize::MAX as u64) {
            Some(v) => Some(v as usize),
            None => None,
        }
    }
}

impl EnvValue for String {
    open spec fn denotes(text: Seq<char>, value: Self) -> bool {
        value@ == text
    }

    open spec fn readable(text: Seq<char>) -> bool {
        true
    }

    fn read(text: &str) -> (r: Option<Self>) {
        Some(text.to_owned())
    }
}

/// Whether `value` is what a variable asks for: what its text denotes, or the
/// default where it is unset or denotes nothing.
pub open spec fn asked<T: EnvValue>(
    env: &Environment,
    key: Seq<char>,
    default: T,
    value: T,
) -> bool {
    match env.text_of(key) {
        Some(text) => if T::readable(text) {
            T::denotes(text, value)
        } else {
            value == default
        },
        None => value == default,
    }
}

/// The value of a variable, or a default.
pub fn env_or<T: EnvValue>(env: &Environment, key: &str, default: T) -> (r: T)
    ensures
        asked(env, key@, default, r),
{
    match env.text(key) {
        Some(text) => match T::read(text.as_str()) {
            Some(v) => v,
            None => default,
        },
        None => default,
    }
}

/// The number that a variable asks for.
pub open spec fn asked_number(env: &Environment, key: Seq<char>, default: Binary64) -> Binary64 {
    match env.number_of(key) {
        Some(n) => n,
        None => default,
    }
}

/// The binary64 value of a variable, or a default.
pub fn env_number_or(env: &Environment, key: &str, default: Binary64) -> (r: Binary64)
    ensures
        r == asked_number(env, key@, default),
{
    match env.number(key) {
        Some(n) => n,
        None => default,
    }
}

/// The whole number that a variable asks for: what its text denotes, where
/// that is a number up to `max`, or the default.
pub open spec fn asked_whole(
    env: &Environment,
    key: Seq<char>,
    max: nat,
    default: nat,
) -> nat {
    match env.text_of(key) {
        Some(text) => match text::unsigned_value(text, max) {
            Some(v) => v,
            None => default,
        },
        None => default,
    }
}

/// The text that a variable asks for.
pub open spec fn asked_text(env: &Environment, key: Seq<char>, default: Seq<char>) -> Seq<char> {
    match env.text_of(key) {
        Some(text) => text,
        None => default,
    }
}

/// The span of a variable that holds a number of seconds, or a default.
pub fn duration_secs(env: &Environment, key: &str, default_secs: u64) -> (r: Duration)
    ensures
        r.nanos == asked_whole(env, key@, u64::MAX as nat, default_secs as nat)
            * crate::time::NANOS_PER_SEC,
{
    let secs: u64 = env_or(env, key, default_secs);
    Duration::from_secs(secs)
}

/// The span of a variable that holds a number of milliseconds, or a default.
pub fn duration_millis(env: &Environment, key: &str, default_millis: u64) -> (r: Duration)
    ensures
        r.nanos == asked_whole(env, key@, u64::MAX as nat, default_millis as nat)
            * crate::time::NANOS_PER_MILLI,
{
    let millis: u64 = env_or(env, key, default_millis);
    Duration::from_millis(millis)
}

/// A variable that is set to a number in decimal asks for that number; one that
/// is not set, or whose text is no number in range, asks for the default.
pub proof fn law_variables_ask_for_what_they_say(
    env: Environment,
    key: Seq<char>,
    n: nat,
    max: nat,
    default: nat,
)
    ensures
        env.text_of(key) == Some(text::decimal(n)) && n <= max ==> asked_whole(
            &env,
            key,
            max,
            default,
        ) == n,
        env.text_of(key) is None ==> asked_whole(&env, key, max, default) == default,
        env.text_of(key) matches Some(t) ==> text::unsigned_value(t, max) is None ==> asked_whole(
            &env,
            key,
            max,
            default,
        ) == default,
{
    if n <= max {
        text::law_decimal_reads_back(n, max);
    }
}

/// The text and the number of a variable are asked for where it has them, and
/// the defaults where it has not.
pub proof fn law_defaults_stand_in(
    env: Environment,
    key: Seq<char>,
    text: Seq<char>,
    number: Binary64,
)
    ensures
        env.text_of(key) matches Some(t) ==> asked_text(&env, key, text) == t,
        env.text_of(key) is None ==> asked_text(&env, key, text) == text,
        env.number_of(key) matches Some(n) ==> asked_number(&env, key, number) == n,
        env.number_of(key) is None ==> asked_number(&env, key, number) == number,
{
}

/// Of the variables of one name the last one counts, and variables of other
/// names do not.
pub proof fn law_last_variable_counts(before: Seq<Variable>, v: Variable, key: Seq<char>)
    ensures
        last_named(Seq::empty(), key) is None,
        v.name@ == key ==> last_named(before.push(v), key) == Some(v),
        v.name@ != key ==> last_named(before.push(v), key) == last_named(before, key),
{
    assert(before.push(v).drop_last() =~= before);
}

} // verus!
