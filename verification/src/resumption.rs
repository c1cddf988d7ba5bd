//! Resumption: a stream fed in two slices against the same stream fed
//! whole.
//!
//! The two yield the same tokens where the first slice ends between two
//! fields of the root message, or inside the value of a number of the
//! root message. They need not where it ends elsewhere: a chunk that the
//! end of the slice cuts is owed and skipped, not yielded, and a tag or a
//! length that it cuts is finished as if it were the value of a number.

use crate::context::{stack_wf, MessageContext};
use crate::laws::lemma_token_clears_error;
use crate::tokenizer::{descends, extract, next_token, Outcome};
use crate::types::WireType;
use crate::wire::{
    continuation_run, lemma_continuation_run, lemma_continuation_run_props,
    lemma_parse_tagged_data_bounds, parse_tag, parse_tagged_data, parse_varint, Error, TaggedData,
};
use vstd::prelude::*;

verus! {

/// The stack of a stream that has entered no message: the root alone.
pub open spec fn root_only() -> Seq<MessageContext> {
    seq![MessageContext { start: 0, length: None }]
}

/// Whether every bounded message of the stack ends inside a slice of
/// `len` bytes.
pub open spec fn lies_within(messages: Seq<MessageContext>, len: int) -> bool {
    forall|i: int|
        0 <= i < messages.len() ==> match (#[trigger] messages[i]).length {
            Some(l) => messages[i].start + l <= len,
            None => true,
        }
}

/// The tokens that successive calls on one slice yield, up to the first
/// call that yields none, and `limit` tokens at most.
pub open spec fn tokens_of_slice(
    data: Seq<u8>,
    pos: int,
    messages: Seq<MessageContext>,
    error: Option<Error>,
    limit: nat,
) -> Seq<Seq<u8>>
    decreases limit,
{
    if limit == 0 {
        Seq::empty()
    } else {
        let out = next_token(data, pos, messages, error);
        match out.token {
            None => Seq::empty(),
            Some(token) => seq![token] + tokens_of_slice(
                data,
                out.pos,
                out.messages,
                out.error,
                (limit - 1) as nat,
            ),
        }
    }
}

/// The tokens that successive calls yield on `first` and then, once a
/// call has yielded none there, on `second` with the state that `first`
/// left: `limit` tokens at most.
pub open spec fn tokens_of_two_slices(
    first: Seq<u8>,
    second: Seq<u8>,
    pos: int,
    messages: Seq<MessageContext>,
    error: Option<Error>,
    limit: nat,
) -> Seq<Seq<u8>>
    decreases limit,
{
    if limit == 0 {
        Seq::empty()
    } else {
        let out = next_token(first, pos, messages, error);
        match out.token {
            None => tokens_of_slice(second, 0, out.messages, out.error, limit),
            Some(token) => seq![token] + tokens_of_two_slices(
                first,
                second,
                out.pos,
                out.messages,
                out.error,
                (limit - 1) as nat,
            ),
        }
    }
}

/// Where the loop makes its last step of a call, and with which stack:
/// the field, or the end, that decides how the call ends.
pub open spec fn last_step(data: Seq<u8>, pos: int, messages: Seq<MessageContext>) -> (
    int,
    Seq<MessageContext>,
)
    decreases data.len() - pos, messages.len(),
{
    if messages.len() == 0 || pos < 0 || pos >= data.len() {
        (pos, messages)
    } else if messages.last().exhausted_at(pos) {
        last_step(data, pos, messages.drop_last())
    } else if messages.last().overrun_at(pos) {
        (pos, messages)
    } else {
        let (field, used) = parse_tagged_data(data.skip(pos));
        let next = pos + used;
        proof {
            lemma_parse_tagged_data_bounds(data.skip(pos));
        }
        match field {
            Ok(TaggedData::Others) => last_step(data, next, messages),
            Ok(TaggedData::ChunkMetadata { length }) => if length <= usize::MAX && descends(
                data,
                next,
                length as int,
            ) {
                last_step(
                    data,
                    next,
                    messages.push(
                        MessageContext { start: next as usize, length: Some(length as usize) },
                    ),
                )
            } else {
                (pos, messages)
            },
            _ => (pos, messages),
        }
    }
}

/// Whether the field that begins at `at` in `first` is a number whose tag
/// lies in `first` and whose value the end of `first` cuts, while
/// `second` holds the rest of it.
pub open spec fn cut_inside_number(first: Seq<u8>, second: Seq<u8>, at: int) -> bool {
    &&& 0 <= at < first.len()
    &&& parse_tag(first.skip(at)).0 matches Ok((_, wire_type)) && (wire_type is Varint
        || wire_type is Bit32 || wire_type is Bit64)
    &&& parse_tagged_data(first.skip(at)).0 is Err
    &&& parse_tagged_data((first + second).skip(at)).0 is Ok
}

/// Whether the calls on `first`, if they come to an end within `limit`
/// tokens, end where the stream can be taken up again: with no message
/// left open, and either between two fields or inside the value of a
/// number that `second` completes.
pub open spec fn ends_resumably(
    first: Seq<u8>,
    second: Seq<u8>,
    pos: int,
    messages: Seq<MessageContext>,
    limit: nat,
) -> bool
    decreases limit,
{
    if limit == 0 {
        true
    } else {
        let out = extract(first, pos, messages);
        match out.token {
            None => out.messages == root_only() && (out.error is None || cut_inside_number(
                first,
                second,
                last_step(first, pos, messages).0,
            )),
            Some(_) => ends_resumably(first, second, out.pos, out.messages, (limit - 1) as nat),
        }
    }
}

/// A run of continuation bytes that stops inside `x` is the same run
/// whatever follows `x`.
proof fn lemma_continuation_run_prefix(x: Seq<u8>, y: Seq<u8>, limit: nat)
    requires
        continuation_run(x, limit) < x.len() || continuation_run(x, limit) == limit,
    ensures
        continuation_run(x + y, limit) == continuation_run(x, limit),
{
    let k = continuation_run(x, limit);
    lemma_continuation_run_props(x, limit);
    assert forall|i: int| 0 <= i < k implies (x + y)[i] >= 128 by {
        assert((x + y)[i] == x[i]);
    }
    if k < limit {
        assert((x + y)[k as int] == x[k as int]);
    }
    lemma_continuation_run(x + y, limit, k);
}

/// A number that is read without reaching the end of `x` reads the same
/// whatever follows `x`.
proof fn lemma_parse_varint_prefix(x: Seq<u8>, y: Seq<u8>)
    requires
        parse_varint(x).0 != Err::<u64, Error>(Error::VarintEof),
    ensures
        parse_varint(x + y) == parse_varint(x),
{
    let run = continuation_run(x, 10);
    lemma_continuation_run_props(x, 10);
    lemma_continuation_run_prefix(x, y, 10);
    if run < 10 {
        assert((x + y).take((run + 1) as int) =~= x.take((run + 1) as int));
    }
}

/// A field that is read without running out of bytes reads the same
/// whatever follows them.
pub proof fn lemma_parse_tagged_data_prefix(x: Seq<u8>, y: Seq<u8>)
    requires
        parse_tagged_data(x).0 is Ok || parse_tagged_data(x).0 == Err::<TaggedData, Error>(
            Error::InvalidData,
        ),
    ensures
        parse_tagged_data(x + y) == parse_tagged_data(x),
{
    reveal(parse_tagged_data);
    lemma_parse_varint_prefix(x, y);
    let (tag, used) = parse_tag(x);
    crate::wire::lemma_parse_tag_bounds(x);
    if let Ok((_, wire_type)) = tag {
        let after = x.skip(used as int);
        assert((x + y).skip(used as int) =~= after + y);
        match wire_type {
            WireType::Varint | WireType::Chunk => {
                lemma_parse_varint_prefix(after, y);
            },
            _ => {},
        }
    }
}

/// What the loop does on a slice without running into its end, it does
/// the same on that slice with more bytes behind it; and where it stops
/// at the end of the slice with nothing pending, it goes on from there
/// on the longer slice.
pub proof fn lemma_extract_prefix(
    first: Seq<u8>,
    second: Seq<u8>,
    pos: int,
    messages: Seq<MessageContext>,
)
    requires
        stack_wf(messages),
        lies_within(messages, first.len() as int),
        0 <= pos <= first.len(),
    ensures
        ({
            let out = extract(first, pos, messages);
            let whole = first + second;
            &&& stack_wf(out.messages)
            &&& out.token is Some ==> extract(whole, pos, messages) == out && lies_within(
                out.messages,
                first.len() as int,
            ) && 0 <= out.pos <= first.len()
            &&& out.token is None && out.error is None ==> extract(whole, pos, messages)
                == extract(whole, first.len() as int, out.messages)
        }),
    decreases first.len() - pos, messages.len(),
{
    let whole = first + second;
    let active = messages.last();
    if pos >= first.len() {
    } else if active.exhausted_at(pos) {
        assert(stack_wf(messages.drop_last()));
        assert(lies_within(messages.drop_last(), first.len() as int)) by {
            assert forall|i: int| 0 <= i < messages.drop_last().len() implies match (
            #[trigger] messages.drop_last()[i]).length {
                Some(l) => messages.drop_last()[i].start + l <= first.len(),
                None => true,
            } by {
                assert(messages.drop_last()[i] == messages[i]);
            }
        }
        lemma_extract_prefix(first, second, pos, messages.drop_last());
    } else if active.overrun_at(pos) {
        lemma_give_up_prefix(first, second, pos, messages);
    } else {
        let rest = first.skip(pos);
        assert(whole.skip(pos) =~= rest + second);
        lemma_parse_tagged_data_bounds(rest);
        let (field, used) = parse_tagged_data(rest);
        let next = pos + used;
        match field {
            Ok(TaggedData::Others) => {
                lemma_parse_tagged_data_prefix(rest, second);
                lemma_extract_prefix(first, second, next, messages);
            },
            Ok(TaggedData::ChunkMetadata { length }) => {
                lemma_parse_tagged_data_prefix(rest, second);
                if length > usize::MAX {
                    lemma_give_up_prefix(first, second, next, messages);
                } else if length <= first.len() - next {
                    assert(whole.subrange(next, next + length) =~= first.subrange(
                        next,
                        next + length,
                    ));
                    if descends(first, next, length as int) {
                        let entered = messages.push(
                            MessageContext { start: next as usize, length: Some(length as usize) },
                        );
                        assert(stack_wf(entered));
                        assert(lies_within(entered, first.len() as int)) by {
                            assert forall|i: int| 0 <= i < entered.len() implies match (
                            #[trigger] entered[i]).length {
                                Some(l) => entered[i].start + l <= first.len(),
                                None => true,
                            } by {
                                if i < messages.len() {
                                    assert(entered[i] == messages[i]);
                                }
                            }
                        }
                        lemma_extract_prefix(first, second, next, entered);
                    }
                } else {
                    lemma_save_keeps_shape(
                        first,
                        next,
                        messages,
                        Error::Eof((length - (first.len() - next)) as usize),
                    );
                }
            },
            Err(Error::InvalidData) => {
                lemma_parse_tagged_data_prefix(rest, second);
                lemma_give_up_prefix(first, second, next, messages);
            },
            Err(e) => {
                lemma_save_keeps_shape(first, next, messages, e);
            },
        }
    }
}

/// A saved state keeps the shape of the stack.
proof fn lemma_save_keeps_shape(
    data: Seq<u8>,
    pos: int,
    messages: Seq<MessageContext>,
    error: Error,
)
    requires
        stack_wf(messages),
    ensures
        stack_wf(crate::tokenizer::save(data, pos, messages, error).messages),
        crate::tokenizer::save(data, pos, messages, error).error is Some,
{
    crate::context::lemma_rebased_wf(messages, data.len() - pos);
}

/// Giving up a guess inside a slice comes to the same on that slice
/// with more bytes behind it.
proof fn lemma_give_up_prefix(
    first: Seq<u8>,
    second: Seq<u8>,
    pos: int,
    messages: Seq<MessageContext>,
)
    requires
        stack_wf(messages),
        lies_within(messages, first.len() as int),
        0 <= pos <= first.len(),
    ensures
        ({
            let out = crate::tokenizer::give_up(first, pos, messages);
            &&& stack_wf(out.messages)
            &&& out.token is Some || out.error is Some
            &&& out.token is Some ==> crate::tokenizer::give_up(first + second, pos, messages) == out
                && lies_within(out.messages, first.len() as int) && 0 <= out.pos <= first.len()
        }),
{
    let active = messages.last();
    if active.length is Some {
        let l = active.length.unwrap();
        assert(messages.len() >= 2);
        assert(stack_wf(messages.drop_last()));
        assert((first + second).subrange(active.start as int, active.start + l) =~= first.subrange(
            active.start as int,
            active.start + l,
        ));
        assert forall|i: int| 0 <= i < messages.drop_last().len() implies match (
        #[trigger] messages.drop_last()[i]).length {
            Some(l) => messages.drop_last()[i].start + l <= first.len(),
            None => true,
        } by {
            assert(messages.drop_last()[i] == messages[i]);
        }
    } else {
        lemma_save_keeps_shape(first, pos, messages, Error::InvalidData);
    }
}

/// Whether `outer` is the stack `inner` seen from `offset` bytes
/// further back: every bounded message starts that much later.
pub open spec fn shifted_by(inner: Seq<MessageContext>, outer: Seq<MessageContext>, offset: int)
    -> bool {
    &&& inner.len() == outer.len()
    &&& forall|i: int|
        0 <= i < inner.len() ==> match (#[trigger] inner[i]).length {
            Some(l) => outer[i].length == Some(l) && outer[i].start == inner[i].start + offset,
            None => outer[i] == inner[i],
        }
}

proof fn lemma_shifted_drop_last(
    inner: Seq<MessageContext>,
    outer: Seq<MessageContext>,
    offset: int,
    len: int,
)
    requires
        stack_wf(inner),
        stack_wf(outer),
        shifted_by(inner, outer, offset),
        lies_within(inner, len),
        inner.len() >= 2,
    ensures
        stack_wf(inner.drop_last()),
        stack_wf(outer.drop_last()),
        shifted_by(inner.drop_last(), outer.drop_last(), offset),
        lies_within(inner.drop_last(), len),
{
    let a = inner.drop_last();
    let b = outer.drop_last();
    assert forall|i: int| 0 <= i < a.len() implies match (#[trigger] a[i]).length {
        Some(l) => b[i].length == Some(l) && b[i].start == a[i].start + offset && a[i].start + l
            <= len,
        None => b[i] == a[i],
    } by {
        assert(a[i] == inner[i]);
        assert(b[i] == outer[i]);
    }
}

proof fn lemma_shifted_push(
    inner: Seq<MessageContext>,
    outer: Seq<MessageContext>,
    offset: int,
    len: int,
    start: usize,
    length: usize,
)
    requires
        stack_wf(inner),
        stack_wf(outer),
        shifted_by(inner, outer, offset),
        lies_within(inner, len),
        start + length <= len,
        0 <= offset,
        start + offset <= usize::MAX,
    ensures
        ({
            let a = inner.push(MessageContext { start, length: Some(length) });
            let b = outer.push(
                MessageContext { start: (start + offset) as usize, length: Some(length) },
            );
            &&& stack_wf(a)
            &&& stack_wf(b)
            &&& shifted_by(a, b, offset)
            &&& lies_within(a, len)
        }),
{
    let a = inner.push(MessageContext { start, length: Some(length) });
    let b = outer.push(MessageContext { start: (start + offset) as usize, length: Some(length) });
    assert forall|i: int| 0 <= i < a.len() implies match (#[trigger] a[i]).length {
        Some(l) => b[i].length == Some(l) && b[i].start == a[i].start + offset && a[i].start + l
            <= len,
        None => b[i] == a[i],
    } by {
        if i < inner.len() {
            assert(a[i] == inner[i]);
            assert(b[i] == outer[i]);
        }
    }
    assert forall|i: int| 1 <= i < b.len() implies (#[trigger] b[i]).length is Some by {
        if i < outer.len() {
            assert(b[i] == outer[i]);
        }
    }
    assert forall|i: int| 1 <= i < a.len() implies (#[trigger] a[i]).length is Some by {
        if i < inner.len() {
            assert(a[i] == inner[i]);
        }
    }
}

/// Whether two calls come to the same: the same token, and where there
/// is one, the same state but for the offset between the two slices.
pub open spec fn same_but_shifted(inner: Outcome, outer: Outcome, offset: int, len: int) -> bool {
    &&& inner.token == outer.token
    &&& inner.token is Some ==> {
        &&& outer.pos == inner.pos + offset
        &&& 0 <= inner.pos <= len
        &&& inner.error is None
        &&& outer.error is None
        &&& stack_wf(inner.messages)
        &&& stack_wf(outer.messages)
        &&& shifted_by(inner.messages, outer.messages, offset)
        &&& lies_within(inner.messages, len)
    }
}

proof fn lemma_give_up_shift(
    first: Seq<u8>,
    second: Seq<u8>,
    pos: int,
    inner: Seq<MessageContext>,
    outer: Seq<MessageContext>,
)
    requires
        stack_wf(inner),
        stack_wf(outer),
        shifted_by(inner, outer, first.len() as int),
        lies_within(inner, second.len() as int),
        0 <= pos <= second.len(),
    ensures
        same_but_shifted(
            crate::tokenizer::give_up(second, pos, inner),
            crate::tokenizer::give_up(first + second, first.len() + pos, outer),
            first.len() as int,
            second.len() as int,
        ),
{
    let offset = first.len() as int;
    let active = inner.last();
    assert(outer.last() == outer[inner.len() - 1]);
    assert(inner.last() == inner[inner.len() - 1]);
    if active.length is Some {
        let l = active.length.unwrap();
        lemma_shifted_drop_last(inner, outer, offset, second.len() as int);
        assert((first + second).subrange(active.start + offset, active.start + offset + l)
            =~= second.subrange(active.start as int, active.start + l));
    }
}

/// The loop on a slice does what the loop does on the same bytes with
/// other bytes in front of them, but for the offset.
proof fn lemma_extract_shift(
    first: Seq<u8>,
    second: Seq<u8>,
    pos: int,
    inner: Seq<MessageContext>,
    outer: Seq<MessageContext>,
)
    requires
        stack_wf(inner),
        stack_wf(outer),
        shifted_by(inner, outer, first.len() as int),
        lies_within(inner, second.len() as int),
        0 <= pos <= second.len(),
        first.len() + second.len() <= usize::MAX,
    ensures
        same_but_shifted(
            extract(second, pos, inner),
            extract(first + second, first.len() + pos, outer),
            first.len() as int,
            second.len() as int,
        ),
    decreases second.len() - pos, inner.len(),
{
    let offset = first.len() as int;
    let whole = first + second;
    let active = inner.last();
    assert(outer.last() == outer[inner.len() - 1]);
    assert(inner.last() == inner[inner.len() - 1]);
    if pos >= second.len() {
    } else if active.exhausted_at(pos) {
        lemma_shifted_drop_last(inner, outer, offset, second.len() as int);
        lemma_extract_shift(first, second, pos, inner.drop_last(), outer.drop_last());
    } else if active.overrun_at(pos) {
        lemma_give_up_shift(first, second, pos, inner, outer);
    } else {
        let rest = second.skip(pos);
        assert(whole.skip(offset + pos) =~= rest);
        lemma_parse_tagged_data_bounds(rest);
        let (field, used) = parse_tagged_data(rest);
        let next = pos + used;
        match field {
            Ok(TaggedData::Others) => {
                lemma_extract_shift(first, second, next, inner, outer);
            },
            Ok(TaggedData::ChunkMetadata { length }) => {
                if length > usize::MAX {
                    lemma_give_up_shift(first, second, next, inner, outer);
                } else if length <= second.len() - next {
                    assert(whole.subrange(offset + next, offset + next + length)
                        =~= second.subrange(next, next + length));
                    if descends(second, next, length as int) {
                        lemma_shifted_push(
                            inner,
                            outer,
                            offset,
                            second.len() as int,
                            next as usize,
                            length as usize,
                        );
                        lemma_extract_shift(
                            first,
                            second,
                            next,
                            inner.push(
                                MessageContext {
                                    start: next as usize,
                                    length: Some(length as usize),
                                },
                            ),
                            outer.push(
                                MessageContext {
                                    start: (next + offset) as usize,
                                    length: Some(length as usize),
                                },
                            ),
                        );
                    }
                }
            },
            Err(Error::InvalidData) => {
                lemma_give_up_shift(first, second, next, inner, outer);
            },
            Err(_) => {},
        }
    }
}

/// The tokens of a slice are the tokens of the same bytes with other
/// bytes in front of them.
proof fn lemma_tokens_shift(
    first: Seq<u8>,
    second: Seq<u8>,
    pos: int,
    inner: Seq<MessageContext>,
    outer: Seq<MessageContext>,
    limit: nat,
)
    requires
        stack_wf(inner),
        stack_wf(outer),
        shifted_by(inner, outer, first.len() as int),
        lies_within(inner, second.len() as int),
        0 <= pos <= second.len(),
        first.len() + second.len() <= usize::MAX,
    ensures
        tokens_of_slice(second, pos, inner, None, limit) == tokens_of_slice(
            first + second,
            first.len() + pos,
            outer,
            None,
            limit,
        ),
    decreases limit,
{
    if limit > 0 {
        lemma_extract_shift(first, second, pos, inner, outer);
        let out = extract(second, pos, inner);
        let far = extract(first + second, first.len() + pos, outer);
        if out.token is Some {
            lemma_tokens_shift(
                first,
                second,
                out.pos,
                out.messages,
                far.messages,
                (limit - 1) as nat,
            );
        }
    }
}

/// The last step of a call decides it, on the slice and on the slice
/// with more bytes behind it.
proof fn lemma_last_step(
    first: Seq<u8>,
    second: Seq<u8>,
    pos: int,
    messages: Seq<MessageContext>,
)
    requires
        stack_wf(messages),
        lies_within(messages, first.len() as int),
        0 <= pos <= first.len(),
    ensures
        ({
            let (at, stack) = last_step(first, pos, messages);
            &&& extract(first, pos, messages) == extract(first, at, stack)
            &&& extract(first + second, pos, messages) == extract(first + second, at, stack)
            &&& stack_wf(stack)
            &&& lies_within(stack, first.len() as int)
            &&& pos <= at <= first.len()
            &&& !stack.last().exhausted_at(at) || at >= first.len()
        }),
    decreases first.len() - pos, messages.len(),
{
    let whole = first + second;
    let active = messages.last();
    if pos >= first.len() {
    } else if active.exhausted_at(pos) {
        lemma_shifted_drop_last(messages, messages, 0, first.len() as int);
        lemma_last_step(first, second, pos, messages.drop_last());
    } else if active.overrun_at(pos) {
    } else {
        let rest = first.skip(pos);
        assert(whole.skip(pos) =~= rest + second);
        lemma_parse_tagged_data_bounds(rest);
        let (field, used) = parse_tagged_data(rest);
        let next = pos + used;
        match field {
            Ok(TaggedData::Others) => {
                lemma_parse_tagged_data_prefix(rest, second);
                lemma_last_step(first, second, next, messages);
            },
            Ok(TaggedData::ChunkMetadata { length }) => {
                if length <= usize::MAX && descends(first, next, length as int) {
                    lemma_parse_tagged_data_prefix(rest, second);
                    assert(whole.subrange(next, next + length) =~= first.subrange(
                        next,
                        next + length,
                    ));
                    lemma_shifted_push(
                        messages,
                        messages,
                        0,
                        first.len() as int,
                        next as usize,
                        length as usize,
                    );
                    lemma_last_step(
                        first,
                        second,
                        next,
                        messages.push(
                            MessageContext { start: next as usize, length: Some(length as usize) },
                        ),
                    );
                }
            },
            _ => {},
        }
    }
}

/// A number whose first bytes end `x` and whose last bytes begin `y` is
/// finished by reading `y` from its start.
proof fn lemma_varint_across(x: Seq<u8>, y: Seq<u8>)
    requires
        parse_varint(x).0 == Err::<u64, Error>(Error::VarintEof),
        parse_varint(x + y).0 is Ok,
    ensures
        parse_varint(y).0 is Ok,
        parse_varint(y).1 + x.len() == parse_varint(x + y).1,
{
    lemma_continuation_run_props(x, 10);
    lemma_continuation_run_props(x + y, 10);
    let whole_run = continuation_run(x + y, 10);
    if whole_run < x.len() {
        assert((x + y)[whole_run as int] == x[whole_run as int]);
    }
    let r = (whole_run - x.len()) as nat;
    assert forall|i: int| 0 <= i < r implies y[i] >= 128 by {
        assert(y[i] == (x + y)[x.len() + i]);
    }
    assert(y[r as int] == (x + y)[whole_run as int]);
    lemma_continuation_run(y, 10, r);
}

/// What the cut does to a number field: in the first slice the field is
/// truncated at the end of the slice; in the whole it is a number read
/// to its end, and that end is where the pending read, finished on the
/// second slice, stops.
proof fn lemma_cut_field(first: Seq<u8>, second: Seq<u8>, at: int)
    requires
        cut_inside_number(first, second, at),
    ensures
        ({
            let (cut, used) = parse_tagged_data(first.skip(at));
            let (whole, reach) = parse_tagged_data((first + second).skip(at));
            &&& whole == Ok::<TaggedData, Error>(TaggedData::Others)
            &&& at + used == first.len()
            &&& cut is Err
            &&& cut->Err_0 is VarintEof || cut->Err_0 is Eof
            &&& cut->Err_0 is VarintEof ==> parse_varint(second).1 + first.len() == at + reach
                && parse_varint(second).1 <= second.len()
            &&& cut->Err_0 is Eof ==> cut->Err_0->Eof_0 <= second.len() && first.len()
                + cut->Err_0->Eof_0 == at + reach
        }),
{
    reveal(parse_tagged_data);
    let rest = first.skip(at);
    assert((first + second).skip(at) =~= rest + second);
    let (tag, used) = parse_tag(rest);
    crate::wire::lemma_parse_tag_bounds(rest);
    lemma_parse_varint_prefix(rest, second);
    assert(parse_tag(rest + second) == parse_tag(rest));
    let wire_type = tag->Ok_0.1;
    let value = rest.skip(used as int);
    assert((rest + second).skip(used as int) =~= value + second);
    if wire_type is Varint {
        crate::wire::lemma_parse_varint_bounds(value);
        if parse_varint(value).0 != Err::<u64, Error>(Error::VarintEof) {
            lemma_parse_varint_prefix(value, second);
        }
        lemma_varint_across(value, second);
        crate::wire::lemma_parse_varint_bounds(second);
    }
}

/// A number that the end of the first slice cuts: the call on the first
/// slice saves what is pending, and the call on the second slice goes on
/// as the call on the whole does.
proof fn lemma_number_cut(first: Seq<u8>, second: Seq<u8>, at: int)
    requires
        cut_inside_number(first, second, at),
        first.len() + second.len() <= usize::MAX,
    ensures
        ({
            let out = extract(first, at, root_only());
            &&& out.token is None
            &&& out.error is Some
            &&& out.messages == root_only()
            &&& same_but_shifted(
                next_token(second, 0, root_only(), out.error),
                extract(first + second, at, root_only()),
                first.len() as int,
                second.len() as int,
            )
        }),
{
    let whole = first + second;
    lemma_cut_field(first, second, at);
    let (cut, used) = parse_tagged_data(first.skip(at));
    let (field, reach) = parse_tagged_data(whole.skip(at));
    let e = cut->Err_0;
    assert(crate::context::rebased(root_only(), 0) =~= root_only());
    assert(crate::context::can_rebase(root_only(), 0));
    assert(root_only().last() == (MessageContext { start: 0, length: None }));
    let out = extract(first, at, root_only());
    assert(out == crate::tokenizer::save(first, first.len() as int, root_only(), e));
    assert(extract(whole, at, root_only()) == extract(whole, at + reach, root_only()));
    assert(second.skip(0) =~= second);
    let resume_at = at + reach - first.len();
    assert(next_token(second, 0, root_only(), Some(e)) == extract(second, resume_at, root_only()));
    lemma_extract_shift(first, second, resume_at, root_only(), root_only());
}

/// A call that a cut number ends, and that leaves the root alone on the
/// stack, was made with the root alone on the stack.
proof fn lemma_cut_is_at_root(
    first: Seq<u8>,
    second: Seq<u8>,
    at: int,
    stack: Seq<MessageContext>,
)
    requires
        stack_wf(stack),
        lies_within(stack, first.len() as int),
        cut_inside_number(first, second, at),
        !stack.last().exhausted_at(at),
        extract(first, at, stack).messages == root_only(),
        extract(first, at, stack).token is None,
    ensures
        stack == root_only(),
{
    lemma_cut_field(first, second, at);
    let active = stack.last();
    let out = extract(first, at, stack);
    if active.overrun_at(at) {
        assert(out == crate::tokenizer::give_up(first, at, stack));
        assert(active == stack[stack.len() - 1]);
        assert(out.token is Some);
    } else {
        let (cut, used) = parse_tagged_data(first.skip(at));
        let e = cut->Err_0;
        assert(out == crate::tokenizer::save(first, at + used, stack, e));
        assert(out.messages.len() == stack.len());
        assert(stack =~= root_only());
    }
}

/// Two slices against the whole where the first call on the first slice
/// ends inside a number.
proof fn lemma_resume_inside_number(
    first: Seq<u8>,
    second: Seq<u8>,
    pos: int,
    messages: Seq<MessageContext>,
    limit: nat,
)
    requires
        stack_wf(messages),
        lies_within(messages, first.len() as int),
        0 <= pos <= first.len(),
        first.len() + second.len() <= usize::MAX,
        limit > 0,
        extract(first, pos, messages).token is None,
        extract(first, pos, messages).messages == root_only(),
        cut_inside_number(first, second, last_step(first, pos, messages).0),
    ensures
        tokens_of_slice(
            second,
            0,
            root_only(),
            extract(first, pos, messages).error,
            limit,
        ) == tokens_of_slice(first + second, pos, messages, None, limit),
{
    let whole = first + second;
    let out = extract(first, pos, messages);
    let (at, stack) = last_step(first, pos, messages);
    lemma_last_step(first, second, pos, messages);
    lemma_cut_is_at_root(first, second, at, stack);
    lemma_number_cut(first, second, at);
    let resumed = next_token(second, 0, root_only(), out.error);
    let far = extract(whole, at, root_only());
    assert(next_token(whole, pos, messages, None) == far);
    if resumed.token is Some {
        lemma_tokens_shift(
            first,
            second,
            resumed.pos,
            resumed.messages,
            far.messages,
            (limit - 1) as nat,
        );
    }
}

/// Two slices against the whole, from any point of the first slice on.
proof fn lemma_two_slices(
    first: Seq<u8>,
    second: Seq<u8>,
    pos: int,
    messages: Seq<MessageContext>,
    limit: nat,
)
    requires
        stack_wf(messages),
        lies_within(messages, first.len() as int),
        0 <= pos <= first.len(),
        first.len() + second.len() <= usize::MAX,
        ends_resumably(first, second, pos, messages, limit),
    ensures
        tokens_of_two_slices(first, second, pos, messages, None, limit) == tokens_of_slice(
            first + second,
            pos,
            messages,
            None,
            limit,
        ),
    decreases limit,
{
    if limit > 0 {
        let whole = first + second;
        let out = extract(first, pos, messages);
        lemma_extract_prefix(first, second, pos, messages);
        lemma_token_clears_error(first, pos, messages);
        if out.token is Some {
            lemma_two_slices(first, second, out.pos, out.messages, (limit - 1) as nat);
        } else if out.error is None {
            lemma_tokens_shift(first, second, 0, root_only(), root_only(), limit);
            assert(next_token(whole, pos, messages, None) == next_token(
                whole,
                first.len() as int,
                root_only(),
                None,
            ));
        } else {
            lemma_resume_inside_number(first, second, pos, messages, limit);
        }
    }
}

/// Resumption: where the calls on the first slice end either between
/// two fields of the root message or inside the value of a number of the
/// root message, the two slices fed one after the other through the same
/// state yield the tokens that the whole stream yields in one slice, in
/// the same order.
pub proof fn lemma_resumption(first: Seq<u8>, second: Seq<u8>, limit: nat)
    requires
        first.len() + second.len() <= usize::MAX,
        ends_resumably(first, second, 0, root_only(), limit),
    ensures
        tokens_of_two_slices(first, second, 0, root_only(), None, limit) == tokens_of_slice(
            first + second,
            0,
            root_only(),
            None,
            limit,
        ),
{
    lemma_two_slices(first, second, 0, root_only(), limit);
}

} // verus!
