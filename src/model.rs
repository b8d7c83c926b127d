//! The tokenizer as a mathematical state machine: each operation of the
//! [`Parser`](crate::Parser) is a function from the raw arguments and the
//! current state to the next state and a result.
use vstd::prelude::*;

use crate::text::{
    char_width_at, is_text, lemma_valid_prefix_len_bounds, lemma_valid_up_to_from_bounds,
    next_boundary, valid_prefix_len, valid_up_to_from,
};

verus! {

/// The byte `-`.
pub const DASH: u8 = 0x2D;

/// The byte `=`.
pub const EQUALS: u8 = 0x3D;

/// A classified argument, with its payload bytes.
pub enum ArgModel {
    Short(Seq<u8>),
    Long(Seq<u8>),
    Value(Seq<u8>),
    Escape(Seq<u8>),
    Unexpected(Seq<u8>),
}

/// What is left of a partially consumed raw argument.
pub enum StateModel {
    /// The value split off `--name=value`, not yet claimed.
    PendingValue(Seq<u8>),
    /// Inside a short-option cluster: the argument's longest valid-text prefix,
    /// the bytes after it, and the next unread offset in the prefix.
    PendingShorts(Seq<u8>, Seq<u8>, int),
    /// `--` was seen: every later argument is a positional value.
    Escaped,
}

/// The parser's state: the index of the next unconsumed argument, what is left of
/// a partially consumed one, and whether the last value returned was attached.
pub struct ParserModel {
    pub current: int,
    pub state: Option<StateModel>,
    pub was_attached: bool,
}

/// `s` is exactly `--`.
pub open spec fn is_escape_marker(s: Seq<u8>) -> bool {
    s.len() == 2 && s[0] == DASH && s[1] == DASH
}

/// `s` is exactly `-`.
pub open spec fn is_lone_dash(s: Seq<u8>) -> bool {
    s.len() == 1 && s[0] == DASH
}

/// `s` starts with `--`.
pub open spec fn has_long_prefix(s: Seq<u8>) -> bool {
    s.len() >= 2 && s[0] == DASH && s[1] == DASH
}

/// `s` starts with `-`.
pub open spec fn has_dash_prefix(s: Seq<u8>) -> bool {
    s.len() >= 1 && s[0] == DASH
}

/// The offset of the first `=` in `s` at or after `i`, or the length of `s`.
pub open spec fn equals_from(s: Seq<u8>, i: int) -> int
    decreases s.len() - i,
{
    if i >= s.len() {
        s.len() as int
    } else if s[i] == EQUALS {
        i
    } else {
        equals_from(s, i + 1)
    }
}

/// The offset of the first `=` in `s`, or the length of `s` where there is none.
pub open spec fn first_equals(s: Seq<u8>) -> int {
    equals_from(s, 0)
}

/// A state may hold an attached value that nobody has claimed yet.
pub open spec fn has_pending(m: ParserModel) -> bool {
    match m.state {
        Some(StateModel::PendingValue(_)) => true,
        Some(StateModel::PendingShorts(_, _, _)) => true,
        _ => false,
    }
}

/// The state is consistent with the raw arguments.
pub open spec fn parser_wf(raw: Seq<Seq<u8>>, m: ParserModel) -> bool {
    &&& 0 <= m.current <= raw.len()
    &&& match m.state {
        Some(StateModel::PendingValue(_)) => m.current < raw.len(),
        Some(StateModel::PendingShorts(valid, invalid, index)) => {
            &&& m.current < raw.len()
            &&& valid + invalid == raw[m.current]
            &&& 1 <= index <= valid.len()
            &&& valid_up_to_from(valid, index) == valid.len()
        },
        _ => true,
    }
}

/// A state with the given cursor and pending state, and no attached value.
pub open spec fn at(current: int, state: Option<StateModel>) -> ParserModel {
    ParserModel { current, state, was_attached: false }
}

/// One step through a short-option cluster at offset `index` of its valid prefix.
pub open spec fn shorts_step(
    raw: Seq<Seq<u8>>,
    current: int,
    valid: Seq<u8>,
    invalid: Seq<u8>,
    index: int,
) -> (ParserModel, Option<ArgModel>) {
    match next_boundary(valid, index) {
        Some(next) => {
            let m = if next < valid.len() {
                at(current, Some(StateModel::PendingShorts(valid, invalid, next)))
            } else if invalid.len() > 0 {
                at(current, Some(StateModel::PendingValue(invalid)))
            } else {
                at(current + 1, None)
            };
            (m, Some(ArgModel::Short(valid.subrange(index, next))))
        },
        None => {
            let payload = if index == 1 { raw[current] } else { invalid };
            (at(current + 1, None), Some(ArgModel::Unexpected(payload)))
        },
    }
}

/// Classification of the fresh argument at `current`.
pub open spec fn classify_step(raw: Seq<Seq<u8>>, current: int) -> (ParserModel, Option<ArgModel>) {
    let arg = raw[current];
    if is_escape_marker(arg) {
        (at(current + 1, Some(StateModel::Escaped)), Some(ArgModel::Escape(arg)))
    } else if is_lone_dash(arg) {
        (at(current + 1, None), Some(ArgModel::Value(arg)))
    } else if has_long_prefix(arg) {
        let long = arg.subrange(2, arg.len() as int);
        let k = first_equals(long);
        let name = long.subrange(0, k);
        if name.len() == 0 || !is_text(name) {
            (at(current + 1, None), Some(ArgModel::Unexpected(arg)))
        } else if k < long.len() {
            let value = long.subrange(k + 1, long.len() as int);
            (at(current, Some(StateModel::PendingValue(value))), Some(ArgModel::Long(name)))
        } else {
            (at(current + 1, None), Some(ArgModel::Long(name)))
        }
    } else if has_dash_prefix(arg) {
        let n = valid_prefix_len(arg);
        shorts_step(raw, current, arg.subrange(0, n), arg.subrange(n, arg.len() as int), 1)
    } else {
        (at(current + 1, None), Some(ArgModel::Value(arg)))
    }
}

/// `next_arg`: the next option or positional argument.
pub open spec fn next_arg_step(raw: Seq<Seq<u8>>, m: ParserModel) -> (ParserModel, Option<ArgModel>) {
    match m.state {
        Some(StateModel::PendingValue(v)) => (at(m.current + 1, None), Some(ArgModel::Unexpected(v))),
        Some(StateModel::PendingShorts(valid, invalid, index)) => shorts_step(
            raw,
            m.current,
            valid,
            invalid,
            index,
        ),
        Some(StateModel::Escaped) => if m.current < raw.len() {
            (at(m.current + 1, m.state), Some(ArgModel::Value(raw[m.current])))
        } else {
            (at(m.current, m.state), None)
        },
        None => if m.current < raw.len() {
            classify_step(raw, m.current)
        } else {
            (at(m.current, None), None)
        },
    }
}

/// `rest` without one leading `=`, where it has one.
pub open spec fn strip_one_equals(rest: Seq<u8>) -> Seq<u8> {
    if rest.len() > 0 && rest[0] == EQUALS {
        rest.subrange(1, rest.len() as int)
    } else {
        rest
    }
}

/// `next_attached_value`: a value glued to the option just returned.
pub open spec fn next_attached_step(raw: Seq<Seq<u8>>, m: ParserModel) -> (ParserModel, Option<Seq<u8>>) {
    match m.state {
        Some(StateModel::PendingValue(v)) => (
            ParserModel { current: m.current + 1, state: None, was_attached: true },
            Some(v),
        ),
        Some(StateModel::PendingShorts(_, _, index)) => {
            let arg = raw[m.current];
            if index == arg.len() {
                (ParserModel { current: m.current + 1, state: None, ..m }, None)
            } else {
                (
                    ParserModel { current: m.current + 1, state: None, was_attached: true },
                    Some(strip_one_equals(arg.subrange(index, arg.len() as int))),
                )
            }
        },
        _ => (m, None),
    }
}

/// A value in the following argument, unless options have ended or that
/// argument is `--`.
pub open spec fn next_detached_step(raw: Seq<Seq<u8>>, m: ParserModel) -> (ParserModel, Option<Seq<u8>>) {
    if m.state == Some(StateModel::Escaped) || m.current >= raw.len() || is_escape_marker(
        raw[m.current],
    ) {
        (m, None)
    } else {
        (ParserModel { current: m.current + 1, ..m }, Some(raw[m.current]))
    }
}

/// `next_flag_value`: the value of the option just returned, attached or detached.
pub open spec fn next_flag_value_step(raw: Seq<Seq<u8>>, m: ParserModel) -> (ParserModel, Option<Seq<u8>>) {
    if m.was_attached {
        (m, None)
    } else {
        let (m1, r1) = next_attached_step(raw, m);
        if r1 is Some {
            (m1, r1)
        } else {
            next_detached_step(raw, m1)
        }
    }
}

/// The raw argument at the cursor, if any.
pub open spec fn raw_at(raw: Seq<Seq<u8>>, m: ParserModel) -> Option<Seq<u8>> {
    if 0 <= m.current < raw.len() {
        Some(raw[m.current])
    } else {
        None
    }
}

/// `next_raw`: the next argument as it is, refused while a value is pending.
pub open spec fn next_raw_step(raw: Seq<Seq<u8>>, m: ParserModel) -> (ParserModel, Result<Option<Seq<u8>>, ()>) {
    if has_pending(m) {
        (m, Err(()))
    } else if m.current < raw.len() {
        (at(m.current + 1, m.state), Ok(Some(raw[m.current])))
    } else {
        (at(m.current, m.state), Ok(None))
    }
}

/// An argument that starts with `-` has at least that dash as valid text.
pub proof fn lemma_dash_prefix_valid(s: Seq<u8>)
    requires
        has_dash_prefix(s),
    ensures
        1 <= valid_prefix_len(s) <= s.len(),
        valid_up_to_from(s, 1) == valid_prefix_len(s),
{
    assert(char_width_at(s, 0) == 1);
    assert(valid_prefix_len(s) == valid_up_to_from(s, 1));
    lemma_valid_prefix_len_bounds(s);
    if s.len() > 1 {
        lemma_valid_up_to_from_bounds(s, 1);
    }
}

} // verus!
