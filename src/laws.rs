//! Properties of the tokenizer that relate several calls, proved over the model.
use vstd::prelude::*;

use crate::model::{
    at, has_dash_prefix, lemma_dash_prefix_valid, next_arg_step, parser_wf, ArgModel, ParserModel,
    StateModel, DASH,
};
use crate::text::{
    char_width_at, lemma_next_boundary_is_width, lemma_prefix_decodes, lemma_width_of_slice,
    next_boundary, valid_prefix_len, valid_up_to_from,
};

verus! {

/// The state after `n` calls of `next_arg`, and what each call returned.
pub open spec fn next_arg_run(raw: Seq<Seq<u8>>, m: ParserModel, n: nat) -> (
    ParserModel,
    Seq<Option<ArgModel>>,
)
    decreases n,
{
    if n == 0 {
        (m, Seq::empty())
    } else {
        let (m1, t) = next_arg_step(raw, m);
        let (m2, ts) = next_arg_run(raw, m1, (n - 1) as nat);
        (m2, seq![t] + ts)
    }
}

proof fn lemma_run_len(raw: Seq<Seq<u8>>, m: ParserModel, n: nat)
    ensures
        next_arg_run(raw, m, n).1.len() == n,
    decreases n,
{
    if n > 0 {
        lemma_run_len(raw, next_arg_step(raw, m).0, (n - 1) as nat);
    }
}

/// The state of a fresh parser.
pub open spec fn initial() -> ParserModel {
    at(0, None)
}

/// The payload bytes of a token.
pub open spec fn payload(t: ArgModel) -> Seq<u8> {
    match t {
        ArgModel::Short(s) => s,
        ArgModel::Long(s) => s,
        ArgModel::Value(s) => s,
        ArgModel::Escape(s) => s,
        ArgModel::Unexpected(s) => s,
    }
}

/// The token is an option, short or long.
pub open spec fn is_option(t: Option<ArgModel>) -> bool {
    t matches Some(a) && (a is Short || a is Long)
}

/// The payloads of a run of tokens, with `None` for the end.
pub open spec fn payloads(ts: Seq<Option<ArgModel>>) -> Seq<Seq<u8>> {
    ts.map_values(|t: Option<ArgModel>| if t is Some { payload(t->0) } else { Seq::empty() })
}

/// Once `next_arg` has returned `None`, every later call returns `None` too, and
/// the cursor and state stay as they are.
pub proof fn exhaustion_is_stable(raw: Seq<Seq<u8>>, m: ParserModel, n: nat)
    requires
        parser_wf(raw, m),
        next_arg_step(raw, m).1 is None,
    ensures
        next_arg_step(raw, m).0.current == m.current,
        next_arg_run(raw, next_arg_step(raw, m).0, n).0 == next_arg_step(raw, m).0,
        forall|i: int|
            0 <= i < n ==> #[trigger] next_arg_run(raw, next_arg_step(raw, m).0, n).1[i] is None,
    decreases n,
{
    let m1 = next_arg_step(raw, m).0;
    assert(next_arg_step(raw, m1) == (m1, None::<ArgModel>));
    if n > 0 {
        exhaustion_is_stable(raw, m, (n - 1) as nat);
        lemma_run_len(raw, m1, (n - 1) as nat);
        let (m2, ts) = next_arg_run(raw, m1, (n - 1) as nat);
        assert(next_arg_run(raw, m1, n) == (m2, seq![None::<ArgModel>] + ts));
        assert forall|i: int| 0 <= i < n implies #[trigger] next_arg_run(raw, m1, n).1[i] is None by {
            if i > 0 {
                assert(next_arg_run(raw, m1, n).1[i] == ts[i - 1]);
            }
        }
    }
}

proof fn lemma_escaped_run(raw: Seq<Seq<u8>>, c: int, n: nat)
    requires
        0 <= c,
        c + n <= raw.len(),
    ensures
        next_arg_run(raw, at(c, Some(StateModel::Escaped)), n).0 == at(
            c + n,
            Some(StateModel::Escaped),
        ),
        next_arg_run(raw, at(c, Some(StateModel::Escaped)), n).1.len() == n,
        forall|i: int|
            0 <= i < n ==> #[trigger] next_arg_run(raw, at(c, Some(StateModel::Escaped)), n).1[i]
                == Some(ArgModel::Value(raw[c + i])),
    decreases n,
{
    if n > 0 {
        lemma_escaped_run(raw, c + 1, (n - 1) as nat);
        let ts = next_arg_run(raw, at(c + 1, Some(StateModel::Escaped)), (n - 1) as nat).1;
        let all = next_arg_run(raw, at(c, Some(StateModel::Escaped)), n).1;
        assert(all == seq![Some(ArgModel::Value(raw[c]))] + ts);
        assert forall|i: int| 0 <= i < n implies #[trigger] all[i] == Some(
            ArgModel::Value(raw[c + i]),
        ) by {
            if i > 0 {
                assert(all[i] == ts[i - 1]);
            }
        }
    }
}

/// Where the first argument is exactly `--`, the first token is the escape
/// marker and every later argument, whatever it holds, comes back unchanged as a
/// positional value, in order; then the arguments are exhausted.
pub proof fn escape_absorbs_the_rest(raw: Seq<Seq<u8>>)
    requires
        raw.len() >= 1,
        raw[0] == seq![DASH, DASH],
    ensures
        next_arg_run(raw, initial(), raw.len()).1[0] == Some(ArgModel::Escape(raw[0])),
        forall|i: int|
            1 <= i < raw.len() ==> #[trigger] next_arg_run(raw, initial(), raw.len()).1[i]
                == Some(ArgModel::Value(raw[i])),
        next_arg_step(raw, next_arg_run(raw, initial(), raw.len()).0).1 is None,
{
    let n = (raw.len() - 1) as nat;
    let m1 = at(1, Some(StateModel::Escaped));
    assert(next_arg_step(raw, initial()) == (m1, Some(ArgModel::Escape(raw[0]))));
    lemma_escaped_run(raw, 1, n);
    let ts = next_arg_run(raw, m1, n).1;
    let all = next_arg_run(raw, initial(), raw.len()).1;
    assert(all == seq![Some(ArgModel::Escape(raw[0]))] + ts);
    assert forall|i: int| 1 <= i < raw.len() implies #[trigger] all[i] == Some(
        ArgModel::Value(raw[i]),
    ) by {
        assert(all[i] == ts[i - 1]);
    }
}

/// An argument made of a dash and bytes whose first does not start a valid
/// encoded character is classified as one `Unexpected` token that carries the
/// whole argument, and the cursor moves on to the next argument.
pub proof fn undecodable_short_is_unexpected(raw: Seq<Seq<u8>>, c: int, rest: Seq<u8>)
    requires
        0 <= c < raw.len(),
        raw[c] == seq![DASH] + rest,
        rest.len() >= 1,
        char_width_at(rest, 0) == 0,
    ensures
        next_arg_step(raw, at(c, None)) == (at(c + 1, None), Some(ArgModel::Unexpected(raw[c]))),
{
    let arg = raw[c];
    assert(arg[0] == DASH);
    assert(arg[1] == rest[0]);
    assert(char_width_at(arg, 0) == 1);
    assert(char_width_at(arg, 1) == 0);
    assert(valid_prefix_len(arg) == valid_up_to_from(arg, 1));
    assert(valid_prefix_len(arg) == 1);
    assert(has_dash_prefix(arg));
}

proof fn lemma_plain_step(raw: Seq<Seq<u8>>, m: ParserModel)
    requires
        parser_wf(raw, m),
        m.state is None || m.state == Some(StateModel::Escaped),
        m.current < raw.len(),
        !is_option(next_arg_step(raw, m).1),
    ensures
        next_arg_step(raw, m).1 matches Some(t) && payload(t) == raw[m.current],
        next_arg_step(raw, m).0.current == m.current + 1,
        next_arg_step(raw, m).0.state is None || next_arg_step(raw, m).0.state == Some(
            StateModel::Escaped,
        ),
{
    if m.state is None {
        let arg = raw[m.current];
        if !(arg.len() == 2 && arg[0] == DASH && arg[1] == DASH) && !(arg.len() == 1 && arg[0]
            == DASH) && !(arg.len() >= 2 && arg[0] == DASH && arg[1] == DASH) && has_dash_prefix(
            arg,
        ) {
            crate::text::lemma_valid_prefix_len_bounds(arg);
        }
    }
}

/// Where no token of a run from a fresh parser is an option, the payloads of the
/// tokens are the arguments themselves, one token per argument, in order:
/// nothing is dropped or repeated.
pub proof fn no_data_loss_without_options(raw: Seq<Seq<u8>>)
    requires
        forall|i: int|
            0 <= i < raw.len() ==> !is_option(#[trigger] next_arg_run(raw, initial(), raw.len()).1[i]),
    ensures
        payloads(next_arg_run(raw, initial(), raw.len()).1) == raw,
{
    lemma_run_len(raw, initial(), raw.len());
    lemma_plain_run(raw, initial(), raw.len());
    assert(raw.subrange(0, raw.len() as int) =~= raw);
}

proof fn lemma_plain_run(raw: Seq<Seq<u8>>, m: ParserModel, n: nat)
    requires
        parser_wf(raw, m),
        m.state is None || m.state == Some(StateModel::Escaped),
        m.current + n == raw.len(),
        forall|i: int| 0 <= i < n ==> !is_option(#[trigger] next_arg_run(raw, m, n).1[i]),
    ensures
        payloads(next_arg_run(raw, m, n).1) =~= raw.subrange(m.current, raw.len() as int),
    decreases n,
{
    if n > 0 {
        let (m1, t) = next_arg_step(raw, m);
        let (m2, ts) = next_arg_run(raw, m1, (n - 1) as nat);
        lemma_run_len(raw, m1, (n - 1) as nat);
        let all = next_arg_run(raw, m, n).1;
        assert(all == seq![t] + ts);
        assert(all[0] == t);
        lemma_plain_step(raw, m);
        assert forall|i: int| 0 <= i < n - 1 implies !is_option(#[trigger] ts[i]) by {
            assert(ts[i] == all[i + 1]);
        }
        lemma_plain_run(raw, m1, (n - 1) as nat);
        assert(payloads(all) =~= seq![payload(t->0)] + payloads(ts));
    }
}

/// Every `Short` token is exactly one well-formed encoded character.
pub proof fn short_is_one_character(raw: Seq<Seq<u8>>, m: ParserModel, s: Seq<u8>)
    requires
        parser_wf(raw, m),
        next_arg_step(raw, m).1 == Some(ArgModel::Short(s)),
    ensures
        s.len() >= 1,
        char_width_at(s, 0) == s.len(),
{
    match m.state {
        Some(StateModel::PendingShorts(valid, invalid, index)) => {
            lemma_short_at(valid, index);
        },
        _ => {
            let arg = raw[m.current];
            lemma_dash_prefix_valid(arg);
            lemma_prefix_decodes(arg, 1);
            lemma_short_at(arg.subrange(0, valid_prefix_len(arg)), 1);
        },
    }
}

proof fn lemma_short_at(valid: Seq<u8>, index: int)
    requires
        1 <= index <= valid.len(),
        valid_up_to_from(valid, index) == valid.len(),
    ensures
        next_boundary(valid, index) matches Some(next) ==> next == index + char_width_at(valid, index)
            && char_width_at(valid.subrange(index, next), 0) == next - index && next - index >= 1,
{
    if index < valid.len() {
        lemma_next_boundary_is_width(valid, index);
        lemma_width_of_slice(valid, index);
    }
}

} // verus!
