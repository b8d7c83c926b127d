//! The tokenizer.
use vstd::prelude::*;
use vstd::slice::slice_subrange;

use crate::model::{
    at, equals_from, first_equals, has_pending, is_escape_marker, lemma_dash_prefix_valid,
    next_arg_step, next_attached_step, next_detached_step, next_flag_value_step, next_raw_step,
    parser_wf, raw_at, shorts_step, ArgModel, ParserModel, StateModel, DASH, EQUALS,
};
use crate::raw::RawArgs;
use crate::text::{
    ceil_char_boundary, lemma_next_boundary_is_width, lemma_prefix_decodes, split_nonutf8_once,
    valid_up_to, valid_up_to_from,
};

verus! {

/// A command-line argument found by [`Parser`]: an option or a positional argument.
#[derive(Debug, Copy, Clone, PartialEq, Eq)]
pub enum Arg<'a> {
    /// A short option, e.g. `Short(b"q")` for `-q`.
    Short(&'a [u8]),
    /// A long option, e.g. `Long(b"verbose")` for `--verbose`; the dashes are not included.
    Long(&'a [u8]),
    /// A positional argument, e.g. `/dev/null`.
    Value(&'a [u8]),
    /// Marks that the following values have been escaped with `--`.
    Escape(&'a [u8]),
    /// Input that could not be classified.
    Unexpected(&'a [u8]),
}

impl<'a> View for Arg<'a> {
    type V = ArgModel;

    open spec fn view(&self) -> ArgModel {
        match *self {
            Arg::Short(s) => ArgModel::Short(s@),
            Arg::Long(s) => ArgModel::Long(s@),
            Arg::Value(s) => ArgModel::Value(s@),
            Arg::Escape(s) => ArgModel::Escape(s@),
            Arg::Unexpected(s) => ArgModel::Unexpected(s@),
        }
    }
}

/// The model of an optional argument.
pub open spec fn arg_opt(r: Option<Arg<'_>>) -> Option<ArgModel> {
    match r {
        Some(a) => Some(a@),
        None => None,
    }
}

/// The bytes of an optional byte string.
pub open spec fn bytes_opt(r: Option<&[u8]>) -> Option<Seq<u8>> {
    match r {
        Some(b) => Some(b@),
        None => None,
    }
}

/// The bytes of each of a sequence of byte strings.
pub open spec fn views(v: Seq<&[u8]>) -> Seq<Seq<u8>> {
    v.map_values(|b: &[u8]| b@)
}

#[derive(Debug, Copy, Clone)]
enum State<'a> {
    /// A value left over from `--option=value`.
    PendingValue(&'a [u8]),
    /// In the middle of `-abc`: valid prefix, bytes after it, next offset.
    PendingShorts(&'a [u8], &'a [u8], usize),
    /// `--` was seen and no more options are coming.
    Escaped,
}

impl<'a> State<'a> {
    fn has_pending(&self) -> (r: bool)
        ensures
            r == (self.model() is PendingValue || self.model() is PendingShorts),
    {
        match self {
            State::PendingValue(_) | State::PendingShorts(_, _, _) => true,
            State::Escaped => false,
        }
    }

    spec fn model(self) -> StateModel {
        match self {
            State::PendingValue(v) => StateModel::PendingValue(v@),
            State::PendingShorts(valid, invalid, index) => StateModel::PendingShorts(
                valid@,
                invalid@,
                index as int,
            ),
            State::Escaped => StateModel::Escaped,
        }
    }
}

/// A parser for command-line arguments.
///
/// Cloning is a shallow copy: the clone reads the same arguments and moves on
/// independently, so a caller can try a step ahead without disturbing it.
#[derive(Debug)]
pub struct Parser<'a, R: RawArgs> {
    raw: &'a R,
    current: usize,
    state: Option<State<'a>>,
    was_attached: bool,
}

impl<'a, R: RawArgs> View for Parser<'a, R> {
    type V = ParserModel;

    closed spec fn view(&self) -> ParserModel {
        ParserModel {
            current: self.current as int,
            state: match self.state {
                Some(s) => Some(s.model()),
                None => None,
            },
            was_attached: self.was_attached,
        }
    }
}

impl<'a, R: RawArgs> Clone for Parser<'a, R> {
    fn clone(&self) -> (r: Self)
        ensures
            r.raw_args() == self.raw_args(),
            r@ == self@,
            r.wf() == self.wf(),
    {
        Parser {
            raw: self.raw,
            current: self.current,
            state: self.state,
            was_attached: self.was_attached,
        }
    }
}

fn is_escape(arg: &[u8]) -> (r: bool)
    ensures
        r == is_escape_marker(arg@),
{
    arg.len() == 2 && arg[0] == DASH && arg[1] == DASH
}

fn find_equals(s: &[u8]) -> (k: usize)
    ensures
        k == first_equals(s@),
        k <= s@.len(),
{
    let mut i: usize = 0;
    while i < s.len()
        invariant
            i <= s@.len(),
            equals_from(s@, i as int) == first_equals(s@),
        decreases s@.len() - i,
    {
        if s[i] == EQUALS {
            return i;
        }
        i = i + 1;
    }
    i
}

impl<'a, R: RawArgs> Parser<'a, R> {
    /// The raw arguments the parser reads.
    pub closed spec fn raw_args(&self) -> Seq<Seq<u8>> {
        self.raw.elements()
    }

    /// The parser's state is consistent with its arguments.
    pub open spec fn wf(&self) -> bool {
        &&& parser_wf(self.raw_args(), self@)
        &&& self.raw_args().len() <= usize::MAX
    }

    /// Creates a parser over `raw`, starting at its first element.
    ///
    /// Every element is a candidate argument: exclude a program name before.
    pub fn new(raw: &'a R) -> (p: Self)
        ensures
            p.wf(),
            p.raw_args() == raw.elements(),
            p@ == (ParserModel { current: 0, state: None, was_attached: false }),
    {
        let _count = raw.len();
        Parser { raw, current: 0, state: None, was_attached: false }
    }

    fn next_short(&mut self, valid: &'a [u8], invalid: &'a [u8], index: usize) -> (r: Option<Arg<'a>>)
        requires
            old(self).current < old(self).raw_args().len(),
            valid@ + invalid@ == old(self).raw_args()[old(self).current as int],
            1 <= index <= valid@.len(),
            valid_up_to_from(valid@, index as int) == valid@.len(),
            old(self).wf(),
        ensures
            final(self).raw == old(self).raw,
            final(self).wf(),
            (final(self)@, arg_opt(r)) == shorts_step(
                old(self).raw_args(),
                old(self).current as int,
                valid@,
                invalid@,
                index as int,
            ),
    {
        self.was_attached = false;
        if index < valid.len() {
            proof {
                lemma_next_boundary_is_width(valid@, index as int);
            }
        }
        if let Some(next_index) = ceil_char_boundary(valid, index) {
            if next_index < valid.len() {
                self.state = Some(State::PendingShorts(valid, invalid, next_index));
            } else if invalid.len() != 0 {
                self.state = Some(State::PendingValue(invalid));
            } else {
                self.state = None;
                self.current = self.current + 1;
            }
            Some(Arg::Short(slice_subrange(valid, index, next_index)))
        } else if index == 1 {
            let arg = self.raw.get(self.current).unwrap();
            self.state = None;
            self.current = self.current + 1;
            Some(Arg::Unexpected(arg))
        } else {
            self.state = None;
            self.current = self.current + 1;
            Some(Arg::Unexpected(invalid))
        }
    }

    /// Gets the next option or positional argument.
    ///
    /// Returns `None` once the arguments are exhausted, and [`Arg::Unexpected`]
    /// for input that cannot be classified. `=` inside a short-option cluster is
    /// an ordinary short option here.
    pub fn next_arg(&mut self) -> (r: Option<Arg<'a>>)
        requires
            old(self).wf(),
        ensures
            final(self).wf(),
            final(self).raw_args() == old(self).raw_args(),
            (final(self)@, arg_opt(r)) == next_arg_step(old(self).raw_args(), old(self)@),
    {
        self.was_attached = false;
        match self.state {
            Some(State::PendingValue(attached)) => {
                self.state = None;
                self.current = self.current + 1;
                Some(Arg::Unexpected(attached))
            },
            Some(State::PendingShorts(valid, invalid, index)) => {
                self.next_short(valid, invalid, index)
            },
            Some(State::Escaped) => {
                match self.raw.get(self.current) {
                    Some(arg) => {
                        self.current = self.current + 1;
                        Some(Arg::Value(arg))
                    },
                    None => None,
                }
            },
            None => {
                let arg = match self.raw.get(self.current) {
                    Some(arg) => arg,
                    None => {
                        return None;
                    },
                };
                if is_escape(arg) {
                    self.state = Some(State::Escaped);
                    self.current = self.current + 1;
                    Some(Arg::Escape(arg))
                } else if arg.len() == 1 && arg[0] == DASH {
                    self.current = self.current + 1;
                    Some(Arg::Value(arg))
                } else if arg.len() >= 2 && arg[0] == DASH && arg[1] == DASH {
                    let long = slice_subrange(arg, 2, arg.len());
                    let k = find_equals(long);
                    let name = slice_subrange(long, 0, k);
                    if name.len() == 0 || valid_up_to(name) != name.len() {
                        self.current = self.current + 1;
                        Some(Arg::Unexpected(arg))
                    } else {
                        if k < long.len() {
                            self.state = Some(State::PendingValue(slice_subrange(long, k + 1, long.len())));
                        } else {
                            self.current = self.current + 1;
                        }
                        Some(Arg::Long(name))
                    }
                } else if arg.len() >= 1 && arg[0] == DASH {
                    let (valid, invalid) = split_nonutf8_once(arg);
                    let invalid = match invalid {
                        Some(b) => b,
                        None => slice_subrange(arg, arg.len(), arg.len()),
                    };
                    proof {
                        lemma_dash_prefix_valid(arg@);
                        lemma_prefix_decodes(arg@, 1);
                        assert(valid@ + invalid@ =~= arg@);
                    }
                    self.next_short(valid, invalid, 1)
                } else {
                    self.current = self.current + 1;
                    Some(Arg::Value(arg))
                }
            },
        }
    }

    /// Gets the value of the option just returned.
    ///
    /// Call it right after an option that expects a value. A value is collected
    /// even if it looks like an option. `None` when there is no further argument,
    /// when options have been ended by `--` or the next argument is `--`, and when
    /// called again after an attached value (`--flag=value`, `-Fvalue`, `-F=value`).
    pub fn next_flag_value(&mut self) -> (r: Option<&'a [u8]>)
        requires
            old(self).wf(),
        ensures
            final(self).wf(),
            final(self).raw_args() == old(self).raw_args(),
            (final(self)@, bytes_opt(r)) == next_flag_value_step(old(self).raw_args(), old(self)@),
    {
        if self.was_attached {
            None
        } else if let Some(value) = self.next_attached_value() {
            Some(value)
        } else {
            self.next_detached_value()
        }
    }

    /// Gets the value attached to the option just returned (`--flag=value`,
    /// `-Fvalue`, `-F=value`), without reading a further argument. Of a short
    /// option's value one leading `=` is dropped.
    pub fn next_attached_value(&mut self) -> (r: Option<&'a [u8]>)
        requires
            old(self).wf(),
        ensures
            final(self).wf(),
            final(self).raw_args() == old(self).raw_args(),
            (final(self)@, bytes_opt(r)) == next_attached_step(old(self).raw_args(), old(self)@),
    {
        match self.state {
            Some(State::PendingValue(attached)) => {
                self.state = None;
                self.current = self.current + 1;
                self.was_attached = true;
                Some(attached)
            },
            Some(State::PendingShorts(_, _, index)) => {
                let arg = self.raw.get(self.current).unwrap();
                self.state = None;
                self.current = self.current + 1;
                if index == arg.len() {
                    None
                } else {
                    let remainder = slice_subrange(arg, index, arg.len());
                    let remainder = if remainder.len() > 0 && remainder[0] == EQUALS {
                        slice_subrange(remainder, 1, remainder.len())
                    } else {
                        remainder
                    };
                    self.was_attached = true;
                    Some(remainder)
                }
            },
            _ => None,
        }
    }

    fn next_detached_value(&mut self) -> (r: Option<&'a [u8]>)
        requires
            old(self).wf(),
            !has_pending(old(self)@),
        ensures
            final(self).wf(),
            final(self).raw_args() == old(self).raw_args(),
            (final(self)@, bytes_opt(r)) == next_detached_step(old(self).raw_args(), old(self)@),
    {
        if let Some(State::Escaped) = self.state {
            return None;
        }
        match self.peek_raw_() {
            None => None,
            Some(arg) => if is_escape(arg) {
                None
            } else {
                self.current = self.current + 1;
                Some(arg)
            },
        }
    }

    /// Gets the next argument as it is, whatever it looks like.
    ///
    /// `Err(())` while an attached value is pending.
    pub fn next_raw(&mut self) -> (r: Result<Option<&'a [u8]>, ()>)
        requires
            old(self).wf(),
        ensures
            final(self).wf(),
            final(self).raw_args() == old(self).raw_args(),
            final(self)@ == next_raw_step(old(self).raw_args(), old(self)@).0,
            r matches Ok(v) ==> next_raw_step(old(self).raw_args(), old(self)@).1 == Ok::<Option<Seq<u8>>, ()>(bytes_opt(v)),
            r is Err <==> next_raw_step(old(self).raw_args(), old(self)@).1 is Err,
    {
        if self.has_pending() {
            Err(())
        } else {
            self.was_attached = false;
            Ok(self.next_raw_())
        }
    }

    /// Takes all remaining arguments as they are, whatever they look like.
    ///
    /// `Err(())` while an attached value is pending.
    pub fn remaining_raw(&mut self) -> (r: Result<Vec<&'a [u8]>, ()>)
        requires
            old(self).wf(),
        ensures
            final(self).wf(),
            final(self).raw_args() == old(self).raw_args(),
            has_pending(old(self)@) ==> r is Err && final(self)@ == old(self)@,
            !has_pending(old(self)@) ==> r is Ok && final(self)@ == at(
                old(self).raw_args().len() as int,
                old(self)@.state,
            ),
            r matches Ok(v) ==> views(v@) == old(self).raw_args().subrange(
                old(self)@.current,
                old(self).raw_args().len() as int,
            ),
    {
        if self.has_pending() {
            return Err(());
        }
        self.was_attached = false;
        let mut out: Vec<&'a [u8]> = Vec::new();
        let ghost start = self.current as int;
        loop
            invariant
                self.wf(),
                self.raw == old(self).raw,
                !has_pending(self@),
                !self.was_attached,
                self.state == old(self).state,
                start == old(self)@.current,
                start <= self.current,
                views(out@) == self.raw_args().subrange(start, self.current as int),
            decreases self.raw_args().len() - self.current,
        {
            let ghost before = out@;
            match self.next_raw_() {
                Some(arg) => {
                    out.push(arg);
                    proof {
                        let raw = self.raw_args();
                        assert(out@ =~= before.push(arg));
                        assert(views(out@) =~= views(before).push(arg@));
                        assert(raw.subrange(start, self.current as int) =~= raw.subrange(
                            start,
                            self.current - 1,
                        ).push(raw[self.current - 1]));
                    }
                },
                None => {
                    return Ok(out);
                },
            }
        }
    }

    /// Looks at the next argument as it is, without consuming it.
    ///
    /// `Err(())` while an attached value is pending.
    pub fn peek_raw(&self) -> (r: Result<Option<&'a [u8]>, ()>)
        requires
            self.wf(),
        ensures
            r matches Ok(v) ==> bytes_opt(v) == raw_at(self.raw_args(), self@),
            r is Err <==> has_pending(self@),
    {
        if self.has_pending() {
            Err(())
        } else {
            Ok(self.peek_raw_())
        }
    }

    fn peek_raw_(&self) -> (r: Option<&'a [u8]>)
        requires
            self.wf(),
        ensures
            bytes_opt(r) == raw_at(self.raw_args(), self@),
    {
        self.raw.get(self.current)
    }

    fn next_raw_(&mut self) -> (r: Option<&'a [u8]>)
        requires
            old(self).wf(),
            !has_pending(old(self)@),
        ensures
            final(self).wf(),
            final(self).raw == old(self).raw,
            final(self).state == old(self).state,
            final(self).was_attached == old(self).was_attached,
            bytes_opt(r) == raw_at(old(self).raw_args(), old(self)@),
            r is Some ==> final(self).current == old(self).current + 1,
            r is None ==> final(self).current == old(self).current && old(self).current == old(self).raw_args().len(),
    {
        let next = self.raw.get(self.current);
        if next.is_some() {
            self.current = self.current + 1;
        }
        next
    }

    fn has_pending(&self) -> (r: bool)
        ensures
            r == has_pending(self@),
    {
        match self.state {
            Some(s) => s.has_pending(),
            None => false,
        }
    }
}

} // verus!
