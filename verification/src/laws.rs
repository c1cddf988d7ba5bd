//! What holds of the tokenizer on every input.

use crate::classifier::looks_like_message;
use crate::context::MessageContext;
use crate::tokenizer::{extract, lemma_extract_after_scan, next_token, scan_chunk, Outcome};
use crate::wire::{lemma_parse_tagged_data_bounds, parse_tagged_data, Error, TaggedData};
use vstd::prelude::*;

verus! {

/// Corruption is sticky: a stream that was given up yields no token from
/// any slice, and stays given up with its state untouched.
pub proof fn lemma_corruption_is_sticky(data: Seq<u8>, pos: int, messages: Seq<MessageContext>)
    ensures
        next_token(data, pos, messages, Some(Error::InvalidData)) == (Outcome {
            token: None,
            pos,
            messages,
            error: Some(Error::InvalidData),
        }),
{
}

/// Once a call has given the stream up, the call on the next slice,
/// whatever it holds, yields no token and leaves the stream given up.
pub proof fn lemma_no_token_after_corruption(
    data: Seq<u8>,
    pos: int,
    messages: Seq<MessageContext>,
    error: Option<Error>,
    later: Seq<u8>,
    later_pos: int,
)
    requires
        next_token(data, pos, messages, error).error == Some(Error::InvalidData),
    ensures
        ({
            let first = next_token(data, pos, messages, error);
            let second = next_token(later, later_pos, first.messages, first.error);
            &&& first.token is None
            &&& second.token is None
            &&& second.error == Some(Error::InvalidData)
            &&& second.messages == first.messages
        }),
{
    lemma_only_corruption_gives_up(data, pos, messages, error);
}

/// A call that yields a token leaves nothing pending; so a call that
/// ends with the stream given up has yielded none.
pub proof fn lemma_only_corruption_gives_up(
    data: Seq<u8>,
    pos: int,
    messages: Seq<MessageContext>,
    error: Option<Error>,
)
    ensures
        next_token(data, pos, messages, error).token is Some ==> next_token(
            data,
            pos,
            messages,
            error,
        ).error is None,
{
    match error {
        None => {
            lemma_token_clears_error(data, pos, messages);
        },
        Some(Error::VarintEof) => {
            crate::wire::lemma_parse_varint_bounds(data.skip(pos));
            lemma_token_clears_error(
                data,
                pos + crate::wire::parse_varint(data.skip(pos)).1,
                messages,
            );
        },
        Some(Error::Eof(owed)) => {
            if owed <= data.len() - pos {
                lemma_token_clears_error(data, pos + owed, messages);
            }
        },
        Some(Error::InvalidData) => {},
    }
}

/// The loop yields a token only with nothing pending.
pub proof fn lemma_token_clears_error(data: Seq<u8>, pos: int, messages: Seq<MessageContext>)
    ensures
        extract(data, pos, messages).token is Some ==> extract(data, pos, messages).error is None,
    decreases data.len() - pos, messages.len(),
{
    if messages.len() == 0 || pos < 0 || pos >= data.len() {
    } else if messages.last().exhausted_at(pos) {
        lemma_token_clears_error(data, pos, messages.drop_last());
    } else if messages.last().overrun_at(pos) {
    } else {
        let (field, used) = parse_tagged_data(data.skip(pos));
        let next = pos + used;
        lemma_parse_tagged_data_bounds(data.skip(pos));
        match field {
            Ok(TaggedData::Others) => {
                lemma_token_clears_error(data, next, messages);
            },
            Ok(TaggedData::ChunkMetadata { length }) => {
                if length <= usize::MAX && crate::tokenizer::descends(data, next, length as int) {
                    lemma_token_clears_error(
                        data,
                        next,
                        messages.push(
                            MessageContext { start: next as usize, length: Some(length as usize) },
                        ),
                    );
                }
            },
            _ => {},
        }
    }
}

/// Backtracking: inside a chunk that was entered as a message and that
/// lies in the slice, a search for the next chunk that ends in invalid
/// data (a bad field number, a bad wire type, a malformed number, or
/// the cursor behind the end of the chunk) makes the whole chunk, as it
/// stands in the slice, the token. The chunk is left and the cursor
/// stands behind it.
pub proof fn lemma_backtracking_yields_chunk(
    data: Seq<u8>,
    pos: int,
    messages: Seq<MessageContext>,
    start: usize,
    length: usize,
)
    requires
        messages.len() >= 1,
        messages.last() == (MessageContext { start, length: Some(length) }),
        start + length <= data.len(),
        0 <= pos < data.len(),
        scan_chunk(data, pos, messages.last()).0 == Err::<Option<usize>, Error>(
            Error::InvalidData,
        ),
    ensures
        extract(data, pos, messages) == (Outcome {
            token: Some(data.subrange(start as int, start + length)),
            pos: start + length,
            messages: messages.drop_last(),
            error: None,
        }),
{
    lemma_extract_after_scan(data, pos, messages);
}

/// Backtracking from the field on: a chunk field whose body passes the
/// probe is entered; if its fields then run into invalid data before
/// any of them is a chunk, the call yields the body of the chunk,
/// byte for byte, and goes on behind it in the message it came from.
pub proof fn lemma_failed_descent_yields_chunk(
    data: Seq<u8>,
    pos: int,
    messages: Seq<MessageContext>,
    length: usize,
)
    requires
        messages.len() >= 1,
        0 <= pos < data.len() <= usize::MAX,
        !messages.last().exhausted_at(pos),
        !messages.last().overrun_at(pos),
        parse_tagged_data(data.skip(pos)).0 == Ok::<TaggedData, Error>(
            TaggedData::ChunkMetadata { length: length as u64 },
        ),
        pos + parse_tagged_data(data.skip(pos)).1 + length <= data.len(),
        ({
            let body = pos + parse_tagged_data(data.skip(pos)).1;
            &&& looks_like_message(data.subrange(body, body + length)) == Ok::<bool, Error>(true)
            &&& scan_chunk(data, body, MessageContext { start: body as usize, length: Some(length) }).0
                == Err::<Option<usize>, Error>(Error::InvalidData)
        }),
    ensures
        ({
            let body = pos + parse_tagged_data(data.skip(pos)).1;
            extract(data, pos, messages) == (Outcome {
                token: Some(data.subrange(body, body + length)),
                pos: body + length,
                messages,
                error: None,
            })
        }),
{
    lemma_parse_tagged_data_bounds(data.skip(pos));
    let body = pos + parse_tagged_data(data.skip(pos)).1;
    let entered = messages.push(MessageContext { start: body as usize, length: Some(length) });
    assert(entered.drop_last() =~= messages);
    assert(crate::tokenizer::descends(data, body, length as int));
    assert(extract(data, pos, messages) == extract(data, body, entered));
    if body < data.len() {
        lemma_backtracking_yields_chunk(data, body, entered, body as usize, length);
    } else {
        // an empty body at the end of the slice does not pass the probe
        assert(data.subrange(body, body + length) =~= Seq::<u8>::empty());
        crate::wire::lemma_continuation_run_props(Seq::<u8>::empty(), 10);
    }
}

} // verus!
