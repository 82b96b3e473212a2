//! Messages that found the mailbox of the checkpoint owner full.
use crate::checkpoints::Request;
use crate::types::Height;
use std::collections::VecDeque;
use vstd::prelude::*;

verus! {

/// What the owner of the checkpoints is told. A finalized block comes as an `F`.
#[derive(Debug, PartialEq, Eq)]
pub enum Message<F, P, V> {
    /// A block was finalized.
    Finalized(F),
    /// Someone asks about a checkpoint.
    Request {
        /// The height.
        height: Height,
        /// What is asked.
        request: Request<P, V>,
        /// How many requests may be kept here.
        maximum: usize,
    },
}

/// How many of `messages` are requests.
pub open spec fn request_count<F, P, V>(messages: Seq<Message<F, P, V>>) -> nat
    decreases messages.len(),
{
    if messages.len() == 0 {
        0
    } else {
        request_count(messages.drop_last()) + if messages.last() is Request {
            1nat
        } else {
            0
        }
    }
}

/// Requests count alike at both ends.
pub proof fn lemma_request_count_front<F, P, V>(
    first: Message<F, P, V>,
    messages: Seq<Message<F, P, V>>,
)
    ensures
        request_count(seq![first] + messages) == request_count(messages) + if first is Request {
            1nat
        } else {
            0
        },
    decreases messages.len(),
{
    let all = seq![first] + messages;
    if messages.len() == 0 {
        assert(all.drop_last() =~= Seq::empty());
        assert(all =~= seq![first]);
        reveal_with_fuel(request_count, 2);
    } else {
        lemma_request_count_front(first, messages.drop_last());
        assert(all.drop_last() =~= seq![first] + messages.drop_last());
    }
}

/// Messages that wait for room in the mailbox, in the order in which they came.
pub struct Pending<F, P, V> {
    messages: VecDeque<Message<F, P, V>>,
    requests: usize,
}

impl<F, P, V> View for Pending<F, P, V> {
    type V = Seq<Message<F, P, V>>;

    closed spec fn view(&self) -> Seq<Message<F, P, V>> {
        self.messages@
    }
}

/// Whether `push` can take the first `taken` of `messages` and then, if it refuses one, give
/// `refused` back.
pub open spec fn drained<F, P, V, T: FnMut(Message<F, P, V>) -> Option<Message<F, P, V>>>(
    messages: Seq<Message<F, P, V>>,
    push: T,
    taken: int,
    refused: Option<Message<F, P, V>>,
) -> bool {
    &&& 0 <= taken <= messages.len()
    &&& forall|i: int|
        #![trigger messages[i]]
        0 <= i < taken ==> call_ensures(push, (messages[i],), None)
    &&& match refused {
        Some(message) => taken < messages.len() && call_ensures(
            push,
            (messages[taken],),
            Some(message),
        ),
        None => taken == messages.len(),
    }
}

/// What waits on once the first `taken` of `messages` are gone, and the next was given back as
/// `refused`.
pub open spec fn left_over<F, P, V>(
    messages: Seq<Message<F, P, V>>,
    taken: int,
    refused: Option<Message<F, P, V>>,
) -> Seq<Message<F, P, V>> {
    match refused {
        Some(message) => seq![message] + messages.skip(taken + 1),
        None => Seq::empty(),
    }
}

impl<F, P, V> Pending<F, P, V> {
    /// The count kept is that of the requests.
    pub closed spec fn well_formed(self) -> bool {
        self.requests == request_count(self@)
    }

    /// With no message.
    pub fn new() -> (pending: Pending<F, P, V>)
        ensures
            pending.well_formed(),
            pending@ == Seq::<Message<F, P, V>>::empty(),
    {
        Pending { messages: VecDeque::new(), requests: 0 }
    }

    /// Whether no message waits.
    pub fn is_empty(&self) -> (empty: bool)
        ensures
            empty == (self@.len() == 0),
    {
        self.messages.len() == 0
    }

    /// How many requests wait.
    pub fn requests(&self) -> (count: usize)
        requires
            self.well_formed(),
        ensures
            count == request_count(self@),
    {
        self.requests
    }

    /// Hands messages to `push` in order, until it gives one back or none is left. What it gives
    /// back waits on, before all others.
    pub fn drain<T: FnMut(Message<F, P, V>) -> Option<Message<F, P, V>>>(&mut self, push: T)
        requires
            old(self).well_formed(),
            forall|message: Message<F, P, V>|
                old(self)@.contains(message) ==> #[trigger] call_requires(push, (message,)),
            forall|message: Message<F, P, V>, back: Message<F, P, V>| #[trigger]
                call_ensures(push, (message,), Some(back)) ==> back is Request == message is Request,
        ensures
            final(self).well_formed(),
            exists|taken: int, refused: Option<Message<F, P, V>>| #[trigger]
                drained(old(self)@, push, taken, refused) && final(self)@ == left_over(
                    old(self)@,
                    taken,
                    refused,
                ),
    {
        let mut offer = push;
        let ghost start = self@;
        let ghost mut taken: int = 0;
        assert(start.skip(0) =~= start);
        while self.messages.len() > 0
            invariant
                offer == push,
                start == old(self)@,
                self.well_formed(),
                0 <= taken <= start.len(),
                self@ == start.skip(taken),
                forall|message: Message<F, P, V>|
                    start.contains(message) ==> #[trigger] call_requires(push, (message,)),
                forall|message: Message<F, P, V>, back: Message<F, P, V>| #[trigger]
                    call_ensures(push, (message,), Some(back)) ==> back is Request
                        == message is Request,
                forall|i: int|
                    #![trigger start[i]]
                    0 <= i < taken ==> call_ensures(push, (start[i],), None),
            decreases self@.len(),
        {
            let ghost before = self@;
            if let Some(message) = self.messages.pop_front() {
                let ghost rest = self@;
                proof {
                    assert(before =~= seq![message] + rest);
                    lemma_request_count_front(message, rest);
                    assert(start[taken] == message);
                    assert(rest =~= start.skip(taken + 1));
                }
                let request = matches!(message, Message::Request { .. });
                if let Some(back) = offer(message) {
                    proof {
                        lemma_request_count_front(back, rest);
                    }
                    self.messages.push_front(back);
                    assert(self@ =~= seq![back] + rest);
                    assert(drained(start, push, taken, Some(back)));
                    return;
                }
                if request {
                    self.requests = self.requests - 1;
                }
                proof {
                    taken = taken + 1;
                }
            }
        }
        assert(drained(start, push, taken, None::<Message<F, P, V>>));
        assert(self@ =~= Seq::empty());
    }

    /// Keeps a message. A request is dropped where as many as may be kept are here already; a
    /// finalized block never is.
    pub fn handle(&mut self, message: Message<F, P, V>)
        requires
            old(self).well_formed(),
        ensures
            final(self).well_formed(),
            final(self)@ == kept(old(self)@, message),
    {
        if let Message::Request { maximum, .. } = &message {
            if self.requests >= *maximum {
                return;
            }
            self.requests = self.requests + 1;
        }
        self.messages.push_back(message);
        assert(self@.drop_last() =~= old(self)@);
    }
}

/// With a message kept, if it is.
pub open spec fn kept<F, P, V>(
    messages: Seq<Message<F, P, V>>,
    message: Message<F, P, V>,
) -> Seq<Message<F, P, V>> {
    match message {
        Message::Request { maximum, .. } if request_count(messages) >= maximum => messages,
        _ => messages.push(message),
    }
}

/// No more requests are kept than may be, and every finalized block is.
pub proof fn law_overflow_bounded<F, P, V>(
    messages: Seq<Message<F, P, V>>,
    message: Message<F, P, V>,
    maximum: nat,
)
    requires
        request_count(messages) <= maximum,
        message matches Message::Request { maximum: limit, .. } ==> limit == maximum,
    ensures
        request_count(kept(messages, message)) <= maximum,
        message is Finalized ==> kept(messages, message) == messages.push(message),
{
    assert(messages.push(message).drop_last() =~= messages);
}

/// A finalized block is always kept, and a request just where fewer are kept than may be. What is kept
/// goes behind all others, and these stay as they are.
pub proof fn law_messages_are_kept_in_order<F, P, V>(
    messages: Seq<Message<F, P, V>>,
    message: Message<F, P, V>,
)
    ensures
        ({
            let dropped = message matches Message::Request { maximum, .. } && request_count(messages)
                >= maximum;
            kept(messages, message) == if dropped {
                messages
            } else {
                messages.push(message)
            }
        }),
{
}

/// Each request counts once, wherever it is, and nothing else counts.
pub proof fn law_each_request_counts_once<F, P, V>(
    messages: Seq<Message<F, P, V>>,
    message: Message<F, P, V>,
)
    ensures
        request_count(Seq::<Message<F, P, V>>::empty()) == 0,
        message is Request ==> request_count(messages.push(message)) == request_count(messages) + 1,
        message is Finalized ==> request_count(messages.push(message)) == request_count(messages),
        request_count(seq![message] + messages) == request_count(messages.push(message)),
{
    assert(messages.push(message).drop_last() =~= messages);
    lemma_request_count_front(message, messages);
}

/// Messages are handed on from the first to the last. Where one is refused, it waits on before all
/// that came after it, and these wait in their order; otherwise none is left. None is lost.
pub proof fn law_messages_are_handed_on_in_order<
    F,
    P,
    V,
    T: FnMut(Message<F, P, V>) -> Option<Message<F, P, V>>,
>(messages: Seq<Message<F, P, V>>, push: T, taken: int, refused: Option<Message<F, P, V>>)
    requires
        drained(messages, push, taken, refused),
    ensures
        0 <= taken <= messages.len(),
        forall|i: int|
            0 <= i < taken ==> call_ensures(push, (#[trigger] messages[i],), None),
        refused is None ==> taken == messages.len() && left_over(messages, taken, refused).len()
            == 0,
        refused matches Some(message) ==> {
            &&& call_ensures(push, (messages[taken],), Some(message))
            &&& left_over(messages, taken, refused).len() == messages.len() - taken
            &&& left_over(messages, taken, refused)[0] == message
            &&& forall|i: int|
                taken < i < messages.len() ==> left_over(messages, taken, refused)[i - taken]
                    == #[trigger] messages[i]
        },
{
}

} // verus!
