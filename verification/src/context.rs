//! The state that outlives a slice: the nesting of message boundaries and
//! the read that the end of the last slice interrupted.

use crate::wire::Error;
use vstd::prelude::*;

verus! {

/// One message in progress.
///
/// `start` is the offset in the current slice at which its body begins;
/// `length` is the declared length of the body, and `None` for the root
/// message, which ends only with the stream.
#[derive(Debug, Clone, Copy, PartialEq, Eq, Structural)]
pub struct MessageContext {
    pub start: usize,
    pub length: Option<usize>,
}

impl MessageContext {
    pub fn new(start: usize, length: Option<usize>) -> (r: Self)
        ensures
            r == (MessageContext { start, length }),
    {
        MessageContext { start, length }
    }

    /// How many bytes of the body lie in front of `pos`.
    pub open spec fn consumed(self, pos: int) -> int {
        pos - self.start
    }

    /// Whether a bounded body ends exactly at `pos`.
    pub open spec fn exhausted_at(self, pos: int) -> bool {
        match self.length {
            Some(l) => self.consumed(pos) == l,
            None => false,
        }
    }

    /// Whether `pos` lies behind the end of a bounded body.
    pub open spec fn overrun_at(self, pos: int) -> bool {
        match self.length {
            Some(l) => self.consumed(pos) > l,
            None => false,
        }
    }

    /// Whether the context can be carried to a new slice when `extra`
    /// bytes count as consumed: the new length must not fall below zero.
    pub open spec fn can_shift(self, extra: int) -> bool {
        match self.length {
            Some(l) => self.start + extra <= l,
            None => true,
        }
    }

    /// The context as the next slice sees it: it starts at offset 0, and a
    /// declared length is shortened by the old start and by `extra`.
    pub open spec fn shifted(self, extra: int) -> MessageContext {
        MessageContext {
            start: 0,
            length: match self.length {
                Some(l) => Some((l - self.start - extra) as usize),
                None => None,
            },
        }
    }

    /// Carries the context to the next slice.
    pub fn shift(&mut self, extra_length: usize)
        requires
            old(self).can_shift(extra_length as int),
        ensures
            *final(self) == old(self).shifted(extra_length as int),
    {
        self.length =
        match self.length {
            Some(length) => Some(length - self.start - extra_length),
            None => None,
        };
        self.start = 0;
    }
}

/// Whether the stack keeps its shape: the root lies at the bottom, starts
/// at offset 0 and is unbounded, and every context above it is bounded.
pub open spec fn stack_wf(messages: Seq<MessageContext>) -> bool {
    &&& messages.len() >= 1
    &&& messages[0] == (MessageContext { start: 0, length: None })
    &&& forall|i: int| 1 <= i < messages.len() ==> (#[trigger] messages[i]).length is Some
}

/// Whether every context of the stack can be carried to a new slice.
pub open spec fn can_rebase(messages: Seq<MessageContext>, extra: int) -> bool {
    forall|i: int| 0 <= i < messages.len() ==> (#[trigger] messages[i]).can_shift(extra)
}

/// The stack as the next slice sees it.
pub open spec fn rebased(messages: Seq<MessageContext>, extra: int) -> Seq<MessageContext> {
    Seq::new(messages.len(), |i: int| messages[i].shifted(extra))
}

/// Rebasing keeps the shape of the stack.
pub proof fn lemma_rebased_wf(messages: Seq<MessageContext>, extra: int)
    requires
        stack_wf(messages),
    ensures
        stack_wf(rebased(messages, extra)),
{
    assert forall|i: int| 1 <= i < messages.len() implies (#[trigger] rebased(
        messages,
        extra,
    )[i]).length is Some by {
        assert(messages[i].length is Some);
    }
}

/// The state of one stream between two calls: the messages in progress
/// and what the last slice left unfinished.
pub struct ParserContext {
    pub(crate) messages: Vec<MessageContext>,
    pub(crate) error: Option<Error>,
}

impl ParserContext {
    /// The messages in progress, the root first, the innermost last.
    pub open(crate) spec fn stack(&self) -> Seq<MessageContext> {
        self.messages@
    }

    /// What the last slice left unfinished, if anything.
    pub open(crate) spec fn pending(&self) -> Option<Error> {
        self.error
    }

    /// Whether the stack keeps its shape. Every state that this library
    /// hands out does.
    pub open spec fn wf(&self) -> bool {
        stack_wf(self.stack())
    }

    /// Whether the stream is given up.
    pub open spec fn is_corrupt(&self) -> bool {
        self.pending() == Some(Error::InvalidData)
    }

    /// The state at the start of a stream: the root alone, nothing pending.
    pub fn new() -> (r: Self)
        ensures
            r.stack() == seq![MessageContext { start: 0, length: None }],
            r.pending() is None,
            r.wf(),
    {
        let mut messages: Vec<MessageContext> = Vec::new();
        messages.push(MessageContext::new(0, None));
        ParserContext { messages, error: None }
    }

    /// What the last slice left unfinished, if anything.
    pub fn error(&self) -> (e: Option<Error>)
        ensures
            e == self.pending(),
    {
        self.error
    }

    /// The number of messages in progress, the root included.
    pub fn depth(&self) -> (n: usize)
        ensures
            n == self.stack().len(),
    {
        self.messages.len()
    }

    /// Descends into a message whose body begins at `start`.
    pub fn push(&mut self, start: usize, length: usize)
        requires
            old(self).wf(),
        ensures
            final(self).stack() == old(self).stack().push(
                MessageContext { start, length: Some(length) },
            ),
            final(self).pending() == old(self).pending(),
            final(self).wf(),
    {
        self.messages.push(MessageContext::new(start, Some(length)));
    }

    /// Leaves the innermost message and hands it out; fails when only the
    /// root is left, which stays.
    pub fn pop(&mut self) -> (r: Option<MessageContext>)
        requires
            old(self).wf(),
        ensures
            final(self).wf(),
            final(self).pending() == old(self).pending(),
            old(self).stack().len() > 1 ==> r == Some(old(self).stack().last())
                && final(self).stack() == old(self).stack().drop_last(),
            old(self).stack().len() <= 1 ==> r is None && final(self).stack() == old(self).stack(),
    {
        if self.messages.len() > 1 {
            self.messages.pop()
        } else {
            None
        }
    }

    /// The innermost message.
    pub fn peek(&self) -> (r: MessageContext)
        requires
            self.wf(),
        ensures
            r == self.stack().last(),
    {
        self.messages[self.messages.len() - 1]
    }

    /// The innermost message, to be changed in place.
    pub fn peek_mut(&mut self) -> (top: &mut MessageContext)
        requires
            old(self).wf(),
        ensures
            *top == old(self).stack().last(),
            final(self).stack() == old(self).stack().update(
                old(self).stack().len() - 1,
                *final(top),
            ),
            final(self).pending() == old(self).pending(),
    {
        let last = self.messages.len() - 1;
        &mut self.messages[last]
    }

    /// Carries every context to the next slice.
    pub fn rebase(&mut self, extra_consumed: usize)
        requires
            old(self).wf(),
            can_rebase(old(self).stack(), extra_consumed as int),
        ensures
            final(self).stack() == rebased(old(self).stack(), extra_consumed as int),
            final(self).pending() == old(self).pending(),
            final(self).wf(),
    {
        let n = self.messages.len();
        let mut i: usize = 0;
        while i < n
            invariant
                n == old(self).messages@.len(),
                self.messages@.len() == n,
                i <= n,
                self.error == old(self).error,
                stack_wf(old(self).messages@),
                stack_wf(self.messages@),
                can_rebase(old(self).messages@, extra_consumed as int),
                forall|j: int|
                    0 <= j < i ==> self.messages@[j] == old(self).messages@[j].shifted(
                        extra_consumed as int,
                    ),
                forall|j: int| i <= j < n ==> self.messages@[j] == old(self).messages@[j],
            decreases n - i,
        {
            let mut entry = self.messages[i];
            assert(old(self).messages@[i as int].can_shift(extra_consumed as int));
            assert(i >= 1 ==> old(self).messages@[i as int].length is Some);
            entry.shift(extra_consumed);
            let ghost before = self.messages@;
            self.messages.set(i, entry);
            assert forall|j: int| 1 <= j < n implies (#[trigger] self.messages@[j]).length
                is Some by {
                assert(before[j].length is Some);
            }
            i = i + 1;
        }
        assert(self.messages@ =~= rebased(old(self).messages@, extra_consumed as int));
    }

    /// Whether every context can be carried to the next slice.
    pub fn can_rebase(&self, extra_consumed: usize) -> (b: bool)
        ensures
            b == can_rebase(self.stack(), extra_consumed as int),
    {
        let n = self.messages.len();
        let mut i: usize = 0;
        while i < n
            invariant
                n == self.messages@.len(),
                i <= n,
                forall|j: int| 0 <= j < i ==> (#[trigger] self.messages@[j]).can_shift(
                    extra_consumed as int,
                ),
            decreases n - i,
        {
            let entry = self.messages[i];
            let fits = match entry.length {
                Some(length) => entry.start <= length && extra_consumed <= length - entry.start,
                None => true,
            };
            if !fits {
                assert(!self.messages@[i as int].can_shift(extra_consumed as int));
                return false;
            }
            i = i + 1;
        }
        true
    }

    /// Saves the state at the end of a slice: every context is rebased and
    /// `current_error` is what the next slice has to finish. A stream that
    /// is given up stays as it is.
    pub fn prepare_for_next_slice(&mut self, remain_length: usize, current_error: Option<Error>)
        requires
            old(self).wf(),
            !old(self).is_corrupt() ==> can_rebase(old(self).stack(), remain_length as int),
        ensures
            final(self).wf(),
            old(self).is_corrupt() ==> final(self).stack() == old(self).stack()
                && final(self).pending() == old(self).pending(),
            !old(self).is_corrupt() ==> final(self).stack() == rebased(
                old(self).stack(),
                remain_length as int,
            ) && final(self).pending() == current_error,
    {
        match self.error {
            Some(Error::InvalidData) => {
                return ;
            },
            _ => {},
        }
        self.rebase(remain_length);
        self.error = current_error;
    }
}

} // verus!
