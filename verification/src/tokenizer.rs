//! The incremental tokenizer: one opaque byte range per call, across
//! slices.

use crate::classifier::{guess_is_message, looks_like_message};
use crate::context::{can_rebase, rebased, MessageContext, ParserContext};
use crate::cursor::DataReader;
use crate::wire::{
    lemma_parse_tagged_data_bounds, lemma_parse_varint_bounds, parse_tagged_data, parse_varint,
    read_tagged_data, read_varint, Error, TaggedData,
};
use vstd::prelude::*;

verus! {

/// What one call makes of a slice: the token it yields, if any, the
/// offset at which the cursor is left, and the state kept for the next
/// call.
pub struct Outcome {
    pub token: Option<Seq<u8>>,
    pub pos: int,
    pub messages: Seq<MessageContext>,
    pub error: Option<Error>,
}

/// How a search for the next chunk inside `context` ends, starting at
/// `pos`, and where it leaves the cursor.
///
/// Fields that are no chunks are read and passed over. The search ends
/// without a chunk at the end of the slice or of the message, and with
/// invalid data where the cursor has left the message behind.
pub open spec fn scan_chunk(data: Seq<u8>, pos: int, context: MessageContext) -> (
    Result<Option<usize>, Error>,
    int,
)
    decreases data.len() - pos,
{
    if pos < 0 || pos >= data.len() {
        (Ok(None), pos)
    } else if context.exhausted_at(pos) {
        (Ok(None), pos)
    } else if context.overrun_at(pos) {
        (Err(Error::InvalidData), pos)
    } else {
        let (field, used) = parse_tagged_data(data.skip(pos));
        match field {
            Err(e) => (Err(e), pos + used),
            Ok(TaggedData::ChunkMetadata { length }) => if length > usize::MAX {
                (Err(Error::InvalidData), pos + used)
            } else {
                (Ok(Some(length as usize)), pos + used)
            },
            Ok(TaggedData::Others) => {
                proof {
                    lemma_parse_tagged_data_bounds(data.skip(pos));
                }
                scan_chunk(data, pos + used, context)
            },
        }
    }
}

/// The state saved when the slice ends inside a read: the stack rebased
/// by what is left in front of the cursor, and `error` to be finished by
/// the next slice. Where a context cannot be rebased, the stream is
/// given up instead.
pub open spec fn save(data: Seq<u8>, pos: int, messages: Seq<MessageContext>, error: Error)
    -> Outcome {
    let extra = data.len() - pos;
    if can_rebase(messages, extra) {
        Outcome { token: None, pos, messages: rebased(messages, extra), error: Some(error) }
    } else {
        Outcome { token: None, pos, messages, error: Some(Error::InvalidData) }
    }
}

/// Leaving the innermost message as a failed guess: its bytes, read
/// again from its start, are the token.
pub open spec fn backtrack(data: Seq<u8>, pos: int, messages: Seq<MessageContext>) -> Outcome {
    let active = messages.last();
    let length = active.length.unwrap();
    if active.start > data.len() {
        Outcome { token: None, pos, messages, error: None }
    } else if active.start + length > data.len() {
        Outcome { token: None, pos: active.start as int, messages: messages.drop_last(), error: None }
    } else {
        Outcome {
            token: Some(data.subrange(active.start as int, active.start + length)),
            pos: active.start + length,
            messages: messages.drop_last(),
            error: None,
        }
    }
}

/// What invalid data at `pos` leads to: inside a guessed message, the
/// guess is taken back; at the root, the stream is given up.
pub open spec fn give_up(data: Seq<u8>, pos: int, messages: Seq<MessageContext>) -> Outcome {
    if messages.last().length is Some {
        backtrack(data, pos, messages)
    } else {
        save(data, pos, messages, Error::InvalidData)
    }
}

/// The call that finds nothing more in the slice and nothing pending.
pub open spec fn end_of_slice(pos: int, messages: Seq<MessageContext>) -> Outcome {
    Outcome { token: None, pos, messages, error: None }
}

/// What the chunk of `length` bytes whose body begins at `pos` leads to,
/// short of a descent into it: a saved state where the slice does not
/// hold the whole body, and else the body as the token.
pub open spec fn take_chunk(data: Seq<u8>, pos: int, messages: Seq<MessageContext>, length: int)
    -> Outcome {
    if length > data.len() - pos {
        save(data, pos, messages, Error::Eof((length - (data.len() - pos)) as usize))
    } else {
        Outcome {
            token: Some(data.subrange(pos, pos + length)),
            pos: pos + length,
            messages,
            error: None,
        }
    }
}

/// Whether the tokenizer descends into the chunk of `length` bytes whose
/// body begins at `pos`: the slice holds all of it and the probe takes
/// it for a message.
pub open spec fn descends(data: Seq<u8>, pos: int, length: int) -> bool {
    length <= data.len() - pos && looks_like_message(data.subrange(pos, pos + length)) == Ok::<
        bool,
        Error,
    >(true)
}

/// The loop of the tokenizer from `pos` on, with nothing pending.
///
/// At the end of the slice the call ends without a token. A message that
/// is read to its end is left. A cursor behind the end of its message,
/// or a field that is invalid, ends the guess that this was a message.
/// A field that is no chunk is passed over. A chunk that looks like a
/// message is entered; any other chunk is the token.
pub open spec fn extract(data: Seq<u8>, pos: int, messages: Seq<MessageContext>) -> Outcome
    decreases data.len() - pos, messages.len(),
{
    if messages.len() == 0 || pos < 0 || pos >= data.len() {
        end_of_slice(pos, messages)
    } else if messages.last().exhausted_at(pos) {
        extract(data, pos, messages.drop_last())
    } else if messages.last().overrun_at(pos) {
        give_up(data, pos, messages)
    } else {
        let (field, used) = parse_tagged_data(data.skip(pos));
        let next = pos + used;
        proof {
            lemma_parse_tagged_data_bounds(data.skip(pos));
        }
        match field {
            Ok(TaggedData::Others) => extract(data, next, messages),
            Ok(TaggedData::ChunkMetadata { length }) => if length > usize::MAX {
                give_up(data, next, messages)
            } else if descends(data, next, length as int) {
                extract(
                    data,
                    next,
                    messages.push(
                        MessageContext { start: next as usize, length: Some(length as usize) },
                    ),
                )
            } else {
                take_chunk(data, next, messages, length as int)
            },
            Err(Error::InvalidData) => give_up(data, next, messages),
            Err(e) => save(data, next, messages, e),
        }
    }
}

/// One call of the tokenizer on the slice `data` with the cursor at
/// `pos`, given the state that the call before left.
///
/// A pending read is finished first: the rest of a variable-length
/// integer is read and dropped, the bytes owed to a fixed field are
/// skipped, and where the slice does not hold them all, what is still
/// owed is saved again. A stream that was given up yields nothing and
/// keeps its state.
pub open spec fn next_token(
    data: Seq<u8>,
    pos: int,
    messages: Seq<MessageContext>,
    error: Option<Error>,
) -> Outcome {
    match error {
        None => extract(data, pos, messages),
        Some(Error::VarintEof) => extract(
            data,
            pos + parse_varint(data.skip(pos)).1,
            messages,
        ),
        Some(Error::Eof(owed)) => if owed <= data.len() - pos {
            extract(data, pos + owed, messages)
        } else {
            save(
                data,
                data.len() as int,
                messages,
                Error::Eof((owed - (data.len() - pos)) as usize),
            )
        },
        Some(Error::InvalidData) => Outcome { token: None, pos, messages, error },
    }
}

/// Looks for the next chunk inside `message_context`: reads fields until
/// one is a chunk, and hands out the length of its body, which is not
/// read. `None` says that the slice or the message has ended.
pub fn find_next_chunk(reader: &mut DataReader, message_context: &mut MessageContext) -> (r:
    Result<Option<usize>, Error>)
    ensures
        final(reader).data() == old(reader).data(),
        *final(message_context) == *old(message_context),
        r == scan_chunk(old(reader).data(), old(reader).pos(), *old(message_context)).0,
        final(reader).pos() == scan_chunk(
            old(reader).data(),
            old(reader).pos(),
            *old(message_context),
        ).1,
{
    let ghost data = reader.data();
    let ghost context = *message_context;
    proof {
        use_type_invariant(&*reader);
    }
    while !reader.eof()
        invariant
            data == old(reader).data(),
            context == *old(message_context),
            reader.data() == data,
            *message_context == context,
            0 <= reader.pos() <= data.len(),
            scan_chunk(data, old(reader).pos(), context) == scan_chunk(
                data,
                reader.pos(),
                context,
            ),
        ensures
            scan_chunk(data, old(reader).pos(), context) == (
                Ok::<Option<usize>, Error>(None),
                reader.pos(),
            ),
        decreases data.len() - reader.pos(),
    {
        let ghost pos = reader.pos();
        if let Some(message_length) = message_context.length {
            let position = reader.position();
            if position >= message_context.start {
                let current_length = position - message_context.start;
                if current_length == message_length {
                    break ;
                }
                if current_length > message_length {
                    return Err(Error::InvalidData);
                }
            }
        }
        proof {
            use_type_invariant(&*reader);
            assert(reader.rest() =~= data.skip(pos));
            lemma_parse_tagged_data_bounds(data.skip(pos));
        }
        match read_tagged_data(reader) {
            Err(e) => {
                return Err(e);
            },
            Ok(TaggedData::ChunkMetadata { length }) => {
                if length > usize::MAX as u64 {
                    return Err(Error::InvalidData);
                }
                return Ok(Some(length as usize));
            },
            Ok(TaggedData::Others) => {},
        }
    }
    Ok(None)
}

/// How the loop goes on once the search for a chunk has ended at `pos`
/// with `found`.
pub open spec fn after_scan(
    data: Seq<u8>,
    pos: int,
    messages: Seq<MessageContext>,
    found: Result<Option<usize>, Error>,
) -> Outcome {
    match found {
        Ok(Some(length)) => if descends(data, pos, length as int) {
            extract(
                data,
                pos,
                messages.push(MessageContext { start: pos as usize, length: Some(length) }),
            )
        } else {
            take_chunk(data, pos, messages, length as int)
        },
        Ok(None) => if pos < 0 || pos >= data.len() {
            end_of_slice(pos, messages)
        } else {
            extract(data, pos, messages.drop_last())
        },
        Err(Error::InvalidData) => give_up(data, pos, messages),
        Err(e) => save(data, pos, messages, e),
    }
}

/// The loop is a search for a chunk inside the innermost message,
/// followed by what the end of that search calls for.
pub proof fn lemma_extract_after_scan(data: Seq<u8>, pos: int, messages: Seq<MessageContext>)
    requires
        messages.len() >= 1,
        0 <= pos <= data.len(),
    ensures
        ({
            let (found, end) = scan_chunk(data, pos, messages.last());
            &&& extract(data, pos, messages) == after_scan(data, end, messages, found)
            &&& pos <= end <= data.len()
            &&& found is Ok && found->Ok_0 is Some ==> end > pos
            &&& found is Ok && found->Ok_0 is None && end < data.len() ==> messages.last().exhausted_at(
                end,
            )
        }),
    decreases data.len() - pos,
{
    let context = messages.last();
    if pos >= data.len() {
    } else if context.exhausted_at(pos) {
    } else if context.overrun_at(pos) {
    } else {
        lemma_parse_tagged_data_bounds(data.skip(pos));
        let (field, used) = parse_tagged_data(data.skip(pos));
        match field {
            Ok(TaggedData::Others) => {
                lemma_extract_after_scan(data, pos + used, messages);
            },
            _ => {},
        }
    }
}

/// Whether `token`, `pos` and `context` are what `outcome` says.
pub open spec fn is_outcome(
    outcome: Outcome,
    token: Option<&[u8]>,
    pos: int,
    context: &ParserContext,
) -> bool {
    &&& match token {
        Some(bytes) => outcome.token == Some(bytes@),
        None => outcome.token is None,
    }
    &&& pos == outcome.pos
    &&& context.stack() == outcome.messages
    &&& context.pending() == outcome.error
}

/// Saves the state for the next slice, or gives the stream up where a
/// context cannot be carried over.
fn save_state(reader: &DataReader, parser_context: &mut ParserContext, error: Error)
    requires
        old(parser_context).wf(),
        !old(parser_context).is_corrupt(),
    ensures
        final(parser_context).wf(),
        is_outcome(
            save(reader.data(), reader.pos(), old(parser_context).stack(), error),
            None,
            reader.pos(),
            final(parser_context),
        ),
{
    let remain = reader.remains();
    if parser_context.can_rebase(remain) {
        parser_context.prepare_for_next_slice(remain, Some(error));
    } else {
        parser_context.error = Some(Error::InvalidData);
    }
}

/// Takes back the guess that the innermost message was one: seeks to its
/// start and reads its bytes again as the token.
fn take_back<'a>(
    reader: &mut DataReader<'a>,
    parser_context: &mut ParserContext,
    active: MessageContext,
    length: usize,
) -> (token: Option<&'a [u8]>)
    requires
        old(parser_context).wf(),
        old(parser_context).pending() is None,
        active == old(parser_context).stack().last(),
        active.length == Some(length),
    ensures
        final(parser_context).wf(),
        final(reader).data() == old(reader).data(),
        is_outcome(
            backtrack(old(reader).data(), old(reader).pos(), old(parser_context).stack()),
            token,
            final(reader).pos(),
            final(parser_context),
        ),
{
    proof {
        use_type_invariant(&*reader);
    }
    match reader.seek(active.start) {
        Ok(_) => {},
        Err(_) => {
            return None;
        },
    }
    let data = match reader.read(length) {
        Ok(bytes) => Some(bytes),
        Err(_) => None,
    };
    let _ = parser_context.pop();
    data
}

/// Pulls the next token out of the slice under `reader`.
///
/// First the read that the last slice interrupted is finished. Then
/// fields are read until a chunk turns up that does not look like a
/// message: its body is the token. A chunk that does look like one is
/// entered; if it then fails to parse, its whole body is the token after
/// all. `None` says that the slice holds no further token; the state
/// tells why.
pub fn read_next_token_raw<'a>(
    reader: &mut DataReader<'a>,
    parser_context: &mut ParserContext,
) -> (token: Option<&'a [u8]>)
    requires
        old(parser_context).wf(),
    ensures
        final(parser_context).wf(),
        final(reader).data() == old(reader).data(),
        is_outcome(
            next_token(
                old(reader).data(),
                old(reader).pos(),
                old(parser_context).stack(),
                old(parser_context).pending(),
            ),
            token,
            final(reader).pos(),
            final(parser_context),
        ),
        old(parser_context).is_corrupt() ==> token is None && final(parser_context).is_corrupt()
            && final(parser_context).stack() == old(parser_context).stack()
            && final(reader).pos() == old(reader).pos(),
{
    let ghost data = reader.data();
    let ghost goal = next_token(
        data,
        reader.pos(),
        parser_context.stack(),
        parser_context.pending(),
    );
    proof {
        use_type_invariant(&*reader);
        assert(reader.rest() =~= data.skip(reader.pos()));
        lemma_parse_varint_bounds(data.skip(reader.pos()));
    }
    match parser_context.error {
        None => {},
        Some(Error::VarintEof) => {
            let _ = read_varint(reader);
            parser_context.error = None;
        },
        Some(Error::Eof(length)) => match reader.skip(length) {
            Ok(_) => {
                parser_context.error = None;
            },
            Err(e) => {
                save_state(reader, parser_context, Error::Eof(length - e.available));
                return None;
            },
        },
        Some(Error::InvalidData) => {
            return None;
        },
    }
    proof {
        use_type_invariant(&*reader);
    }
    while !reader.eof()
        invariant
            data == old(reader).data(),
            reader.data() == data,
            0 <= reader.pos() <= data.len(),
            parser_context.wf(),
            parser_context.pending() is None,
            goal == next_token(
                data,
                old(reader).pos(),
                old(parser_context).stack(),
                old(parser_context).pending(),
            ),
            goal == extract(data, reader.pos(), parser_context.stack()),
        ensures
            goal == end_of_slice(reader.pos(), parser_context.stack()),
            parser_context.wf(),
            parser_context.pending() is None,
            reader.data() == data,
        decreases data.len() - reader.pos(), parser_context.stack().len(),
    {
        let mut active = parser_context.peek();
        proof {
            lemma_extract_after_scan(data, reader.pos(), parser_context.stack());
        }
        let chunk_length = find_next_chunk(reader, &mut active);
        proof {
            use_type_invariant(&*reader);
        }
        match chunk_length {
            Ok(Some(length)) => {
                match reader.peek(length) {
                    Err(e) => {
                        save_state(reader, parser_context, Error::Eof(length - e.available));
                        return None;
                    },
                    Ok(chunk) => {
                        let chunk_reader = DataReader::new(chunk);
                        assert(chunk_reader.rest() =~= chunk@);
                        let is_message = match guess_is_message(chunk_reader) {
                            Ok(verdict) => verdict,
                            Err(_) => false,
                        };
                        if is_message {
                            parser_context.push(reader.position(), length);
                            continue ;
                        } else {
                            let _ = reader.skip(length);
                            return Some(chunk);
                        }
                    },
                }
            },
            Ok(None) => {
                if reader.eof() {
                    return None;
                }
                let _ = parser_context.pop();
                continue ;
            },
            Err(Error::InvalidData) => {
                match active.length {
                    Some(length) => {
                        return take_back(reader, parser_context, active, length);
                    },
                    None => {
                        save_state(reader, parser_context, Error::InvalidData);
                        return None;
                    },
                }
            },
            Err(e) => {
                save_state(reader, parser_context, e);
                return None;
            },
        }
    }
    None
}

/// A token source over one slice of a stream.
pub struct ProtobufParser<'a> {
    pub reader: DataReader<'a>,
    pub context: ParserContext,
}

impl<'a> ProtobufParser<'a> {
    /// The next token of the slice, if it holds one more.
    pub fn next_token(&mut self) -> (token: Option<&'a [u8]>)
        requires
            old(self).context.wf(),
        ensures
            final(self).context.wf(),
            final(self).reader.data() == old(self).reader.data(),
            is_outcome(
                next_token(
                    old(self).reader.data(),
                    old(self).reader.pos(),
                    old(self).context.stack(),
                    old(self).context.pending(),
                ),
                token,
                final(self).reader.pos(),
                &final(self).context,
            ),
            old(self).context.is_corrupt() ==> token is None && final(self).context.is_corrupt()
                && final(self).context.stack() == old(self).context.stack()
                && final(self).reader.pos() == old(self).reader.pos(),
    {
        read_next_token_raw(&mut self.reader, &mut self.context)
    }
}

} // verus!
