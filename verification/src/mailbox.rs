//! Mailboxes: the queue of messages that wait for a process.
//!
//! Any process that holds the PID may send; only the owner receives.
//! Messages leave in the order in which they arrived, so what one sender
//! sends arrives in the order in which it was sent. The queue has no bound.

use std::collections::VecDeque;
use vstd::prelude::*;
use crate::message::{Message, MessageView};

verus! {

/// The messages of `queue` that `sender` sent, in queue order.
pub open spec fn from_sender(queue: Seq<MessageView>, sender: u64) -> Seq<MessageView> {
    queue.filter(|m: MessageView| m.sender == sender)
}

/// The queue after `message` has arrived.
pub open spec fn after_send(queue: Seq<MessageView>, message: MessageView) -> Seq<MessageView> {
    queue.push(message)
}

/// The queue after its oldest message has been taken.
pub open spec fn after_receive(queue: Seq<MessageView>) -> Seq<MessageView>
    recommends
        queue.len() > 0,
{
    queue.subrange(1, queue.len() as int)
}

/// The queue after every message of `sent` has arrived, in order.
pub open spec fn after_sends(queue: Seq<MessageView>, sent: Seq<MessageView>) -> Seq<MessageView>
    decreases sent.len(),
{
    if sent.len() == 0 {
        queue
    } else {
        after_send(after_sends(queue, sent.drop_last()), sent.last())
    }
}

/// What `n` receives in a row return, oldest first.
pub open spec fn received(queue: Seq<MessageView>, n: nat) -> Seq<MessageView>
    decreases n,
{
    if n == 0 || queue.len() == 0 {
        Seq::empty()
    } else {
        seq![queue[0]] + received(after_receive(queue), (n - 1) as nat)
    }
}

/// Receiving `n` times returns the `n` oldest messages in order.
pub proof fn lemma_received_prefix(queue: Seq<MessageView>, n: nat)
    requires
        n <= queue.len(),
    ensures
        received(queue, n) == queue.subrange(0, n as int),
    decreases n,
{
    if n == 0 {
        assert(queue.subrange(0, 0) =~= Seq::<MessageView>::empty());
    } else {
        let rest = after_receive(queue);
        lemma_received_prefix(rest, (n - 1) as nat);
        assert(seq![queue[0]] + rest.subrange(0, n - 1) =~= queue.subrange(0, n as int));
    }
}

/// Sending a sequence of messages appends it to the queue.
pub proof fn lemma_after_sends(queue: Seq<MessageView>, sent: Seq<MessageView>)
    ensures
        after_sends(queue, sent) == queue + sent,
    decreases sent.len(),
{
    if sent.len() == 0 {
        assert(queue + sent =~= queue);
    } else {
        lemma_after_sends(queue, sent.drop_last());
        assert((queue + sent.drop_last()).push(sent.last()) =~= queue + sent);
    }
}

/// Messages are received in the order in which they were sent: once the
/// messages that waited before have been received, the next receives return
/// what was sent, in the order of sending.
pub proof fn lemma_mailbox_order(queue: Seq<MessageView>, sent: Seq<MessageView>)
    ensures
        received(after_sends(queue, sent), queue.len() + sent.len()) == queue + sent,
        received(after_sends(queue, sent), queue.len() + sent.len()).subrange(
            queue.len() as int,
            (queue.len() + sent.len()) as int,
        ) == sent,
{
    lemma_after_sends(queue, sent);
    lemma_received_prefix(queue + sent, queue.len() + sent.len());
    assert((queue + sent).subrange(0, (queue.len() + sent.len()) as int) =~= queue + sent);
    assert((queue + sent).subrange(queue.len() as int, (queue.len() + sent.len()) as int) =~= sent);
}

/// What one sender sent stays in the order of sending, whatever other
/// senders add in between: a send by that sender appends to its messages in
/// the queue, and a send by another leaves them alone.
pub proof fn lemma_send_keeps_sender_order(
    queue: Seq<MessageView>,
    message: MessageView,
    sender: u64,
)
    ensures
        from_sender(after_send(queue, message), sender) == if message.sender == sender {
            from_sender(queue, sender).push(message)
        } else {
            from_sender(queue, sender)
        },
{
    reveal(Seq::filter);
    assert(queue.push(message).drop_last() =~= queue);
}

/// A receive takes the oldest message of its sender and leaves the messages
/// of every other sender alone.
pub proof fn lemma_receive_keeps_sender_order(queue: Seq<MessageView>, sender: u64)
    requires
        queue.len() > 0,
    ensures
        from_sender(after_receive(queue), sender) == if queue[0].sender == sender {
            from_sender(queue, sender).subrange(1, from_sender(queue, sender).len() as int)
        } else {
            from_sender(queue, sender)
        },
        queue[0].sender == sender ==> from_sender(queue, sender).len() > 0 && from_sender(
            queue,
            sender,
        )[0] == queue[0],
{
    let pred = |m: MessageView| m.sender == sender;
    let head = seq![queue[0]];
    let rest = after_receive(queue);
    assert(queue =~= head + rest);
    Seq::filter_distributes_over_add(head, rest, pred);
    reveal_with_fuel(Seq::filter, 3);
    assert(head.drop_last() =~= Seq::<MessageView>::empty());
    assert(Seq::<MessageView>::empty().filter(pred) =~= Seq::<MessageView>::empty());
    assert(head.last() == queue[0]);
    assert(Seq::<MessageView>::empty().push(queue[0]) =~= head);
    assert(head.filter(pred) =~= if queue[0].sender == sender {
        head
    } else {
        Seq::<MessageView>::empty()
    });
    if queue[0].sender == sender {
        assert((head + rest.filter(pred)).subrange(1, (head + rest.filter(pred)).len() as int)
            =~= rest.filter(pred));
    } else {
        assert(Seq::<MessageView>::empty() + rest.filter(pred) =~= rest.filter(pred));
    }
}

/// The queue with `message` put back in front.
pub open spec fn with_front(queue: Seq<MessageView>, message: MessageView) -> Seq<MessageView> {
    seq![message] + queue
}

/// The queue of messages that wait for one process.
pub struct Mailbox {
    pub(crate) queue: VecDeque<Message>,
}

impl Mailbox {
    /// The waiting messages, oldest first.
    pub open(crate) spec fn view(&self) -> Seq<MessageView> {
        Seq::new(self.queue@.len(), |i: int| self.queue@[i]@)
    }

    /// Every waiting message stands on its own.
    pub open(crate) spec fn wf(&self) -> bool {
        forall|i: int| 0 <= i < self.queue@.len() ==> (#[trigger] self.queue@[i]).wf()
    }

    /// An empty mailbox.
    pub fn new() -> (mailbox: Mailbox)
        ensures
            mailbox.wf(),
            mailbox@ == Seq::<MessageView>::empty(),
    {
        let mailbox = Mailbox { queue: VecDeque::new() };
        assert(mailbox@ =~= Seq::<MessageView>::empty());
        mailbox
    }

    /// The number of waiting messages.
    pub fn len(&self) -> (n: usize)
        ensures
            n == self@.len(),
    {
        self.queue.len()
    }

    /// Whether no message waits.
    pub fn is_empty(&self) -> (r: bool)
        ensures
            r == (self@.len() == 0),
    {
        self.queue.len() == 0
    }

    /// Adds a message behind those that wait.
    pub fn send(&mut self, message: Message)
        requires
            old(self).wf(),
            message.wf(),
        ensures
            final(self).wf(),
            final(self)@ == after_send(old(self)@, message@),
    {
        let ghost before = self.queue@;
        self.queue.push_back(message);
        assert(self@ =~= after_send(old(self)@, message@));
        assert forall|i: int| 0 <= i < self.queue@.len() implies (#[trigger] self.queue@[i]).wf() by {
            if i < before.len() {
                assert(before[i].wf());
            }
        }
    }

    /// Puts a message that was taken back in front of those that wait.
    pub fn put_back(&mut self, message: Message)
        requires
            old(self).wf(),
            message.wf(),
        ensures
            final(self).wf(),
            final(self)@ == with_front(old(self)@, message@),
            after_receive(final(self)@) == old(self)@,
    {
        let ghost before = self.queue@;
        self.queue.push_front(message);
        assert(self@ =~= with_front(old(self)@, message@));
        assert(after_receive(self@) =~= old(self)@);
        assert forall|i: int| 0 <= i < self.queue@.len() implies (#[trigger] self.queue@[i]).wf() by {
            if i > 0 {
                assert(before[i - 1].wf());
            }
        }
    }

    /// Takes the oldest message. `None`, changing nothing, when none waits.
    pub fn receive(&mut self) -> (r: Option<Message>)
        requires
            old(self).wf(),
        ensures
            final(self).wf(),
            r is Some <==> old(self)@.len() > 0,
            r matches Some(message) ==> message.wf() && message@ == old(self)@[0] && final(self)@
                == after_receive(old(self)@),
            r is None ==> final(self)@ == old(self)@,
    {
        let ghost before = self.queue@;
        let r = self.queue.pop_front();
        proof {
            if r is Some {
                assert(before[0].wf());
                assert(self@ =~= after_receive(old(self)@));
                assert forall|i: int| 0 <= i < self.queue@.len() implies (
                #[trigger] self.queue@[i]).wf() by {
                    assert(before[i + 1].wf());
                }
            } else {
                assert(self@ =~= old(self)@);
            }
        }
        r
    }
}

} // verus!
