//! The outbound queues: one unbounded channel for each open connection,
//! the delivery of events into them, and a journal of every attempt to
//! queue a text. Whether an attempt queues its text is for the channel to
//! say; which attempts are made, and what is returned for their outcomes,
//! is stated here.

use crate::managers::connection_manager::{outbounds, Outbound, OutboundView};
use std::collections::HashMap;
use tokio::sync::mpsc::{UnboundedReceiver, UnboundedSender};
use vstd::prelude::*;
use warp::ws::Message;

verus! {

broadcast use vstd::std_specs::hash::group_hash_axioms;

/// tokio's `mpsc::UnboundedSender`, the sending end of an unbounded
/// channel. Nothing is claimed of what it holds.
#[verifier::external_type_specification]
#[verifier::external_body]
#[verifier::reject_recursive_types(T)]
pub struct ExUnboundedSender<T>(UnboundedSender<T>);

/// tokio's `mpsc::UnboundedReceiver`, the receiving end of an unbounded
/// channel. Nothing is claimed of what it holds.
#[verifier::external_type_specification]
#[verifier::external_body]
#[verifier::reject_recursive_types(T)]
pub struct ExUnboundedReceiver<T>(UnboundedReceiver<T>);

/// warp's `ws::Message`, a websocket message. Nothing is claimed of what
/// it holds.
#[verifier::external_type_specification]
#[verifier::external_body]
pub struct ExMessage(Message);

/// Calls tokio's `mpsc::unbounded_channel`, which makes a new channel and
/// hands back its two ends. Nothing is claimed of them.
#[verifier::external_body]
fn open_channel() -> (ends: (UnboundedSender<Message>, UnboundedReceiver<Message>)) {
    tokio::sync::mpsc::unbounded_channel()
}

/// Calls warp's `Message::text`, which makes the websocket text message
/// that holds `text`. Nothing is claimed of it.
#[verifier::external_body]
fn text_message(text: &str) -> (message: Message) {
    Message::text(text)
}

/// Calls tokio's `UnboundedSender::send`. The send does not wait; it fails
/// when the receiving end is closed or dropped, and it ends the process if
/// the channel's count of messages overflows a `usize`. The result says
/// whether the message was queued, and nothing is claimed of it.
#[verifier::external_body]
fn enqueue(sender: &UnboundedSender<Message>, message: Message) -> (queued: bool) {
    sender.send(message).is_ok()
}

/// One attempt to queue a text on a connection, and whether the text was
/// queued.
pub struct Attempt {
    pub connection: usize,
    pub text: Seq<char>,
    pub queued: bool,
}

/// The connections of the attempts that did not queue their text, in
/// order.
pub open spec fn failures(made: Seq<Attempt>) -> Seq<usize> {
    made.filter(|a: Attempt| !a.queued).map_values(|a: Attempt| a.connection)
}

/// The delivery of one text to each of the connections, in order.
pub open spec fn to_each(connections: Seq<usize>, text: Seq<char>) -> Seq<(usize, Seq<char>)> {
    connections.map_values(|k: usize| (k, text))
}

/// The connection and the text of each delivery that an event asks for:
/// its payload for each of its recipients, in order.
pub open spec fn targets(event: OutboundView) -> Seq<(usize, Seq<char>)> {
    to_each(event.recipients, event.payload)
}

/// The deliveries that a sequence of events asks for, event by event.
pub open spec fn all_targets(events: Seq<OutboundView>) -> Seq<(usize, Seq<char>)>
    decreases events.len(),
{
    if events.len() == 0 {
        Seq::empty()
    } else {
        all_targets(events.drop_last()) + targets(events.last())
    }
}

/// `made` is one attempt for each target, in order, with the connection
/// and the text of the target, and nothing was queued on a connection
/// that has no queue.
pub open spec fn attempted(
    made: Seq<Attempt>,
    wanted: Seq<(usize, Seq<char>)>,
    open: Set<usize>,
) -> bool {
    &&& made.len() == wanted.len()
    &&& forall|i: int|
        0 <= i < made.len() ==> {
            &&& (#[trigger] made[i]).connection == wanted[i].0
            &&& made[i].text == wanted[i].1
            &&& (made[i].queued ==> open.contains(made[i].connection))
        }
}

/// One more attempt adds its connection to the failures if it did not
/// queue its text, and leaves them alone otherwise.
pub proof fn lemma_failures_push(made: Seq<Attempt>, a: Attempt)
    ensures
        failures(made.push(a)) == if a.queued {
            failures(made)
        } else {
            failures(made).push(a.connection)
        },
{
    let bad = |a: Attempt| !a.queued;
    let conn = |a: Attempt| a.connection;
    made.lemma_filter_push(a, bad);
    if !a.queued {
        made.filter(bad).lemma_push_map_commute(conn, a);
    }
}

/// The failures of two runs of attempts, one after the other, are the
/// failures of the first followed by those of the second.
pub proof fn lemma_failures_add(first: Seq<Attempt>, second: Seq<Attempt>)
    ensures
        failures(first + second) == failures(first) + failures(second),
    decreases second.len(),
{
    if second.len() == 0 {
        assert(first + second =~= first);
        reveal(Seq::filter);
        assert(failures(second) =~= Seq::<usize>::empty());
        assert(failures(first) + failures(second) =~= failures(first));
    } else {
        let front = second.drop_last();
        lemma_failures_add(first, front);
        lemma_failures_push(first + front, second.last());
        lemma_failures_push(front, second.last());
        assert((first + front).push(second.last()) =~= first + second);
        assert(front.push(second.last()) =~= second);
        if !second.last().queued {
            assert((failures(first) + failures(front)).push(second.last().connection)
                =~= failures(first) + failures(front).push(second.last().connection));
        }
    }
}

/// No attempts have no failures.
pub proof fn lemma_failures_empty()
    ensures
        failures(Seq::empty()) == Seq::<usize>::empty(),
{
    reveal(Seq::filter);
    assert(failures(Seq::empty()) =~= Seq::<usize>::empty());
}

/// The sending ends of the queues of the open connections, and the journal
/// of the attempts to queue a text.
pub struct Outbox {
    lines: HashMap<usize, UnboundedSender<Message>>,
    journal: Ghost<Seq<Attempt>>,
}

impl Outbox {
    /// The connections that have a queue.
    pub closed spec fn open_connections(&self) -> Set<usize> {
        self.lines@.dom()
    }

    /// Every attempt to queue a text that was made through this outbox,
    /// oldest first.
    pub closed spec fn attempts(&self) -> Seq<Attempt> {
        self.journal@
    }

    /// The attempts made since the outbox was as `before`.
    pub open spec fn made_since(&self, before: &Outbox) -> Seq<Attempt> {
        self.attempts().skip(before.attempts().len() as int)
    }

    /// The journal is that of `before` with attempts added at its end.
    pub open spec fn continues(&self, before: &Outbox) -> bool {
        self.attempts() == before.attempts() + self.made_since(before)
    }

    /// An outbox with no queue and an empty journal.
    pub fn new() -> (outbox: Outbox)
        ensures
            outbox.open_connections() == Set::<usize>::empty(),
            outbox.attempts() == Seq::<Attempt>::empty(),
    {
        Outbox { lines: HashMap::new(), journal: Ghost(Seq::empty()) }
    }

    /// Whether a connection has a queue.
    pub fn is_open(&self, connection: usize) -> (open: bool)
        ensures
            open == self.open_connections().contains(connection),
    {
        self.lines.contains_key(&connection)
    }

    /// Makes a queue for a connection and hands back its receiving end.
    /// A connection that has a queue keeps it and gets none.
    pub fn open(&mut self, connection: usize) -> (handle: Option<UnboundedReceiver<Message>>)
        ensures
            handle is Some <==> !old(self).open_connections().contains(connection),
            final(self).open_connections() == old(self).open_connections().insert(connection),
            final(self).attempts() == old(self).attempts(),
    {
        if self.lines.contains_key(&connection) {
            assert(self.open_connections().insert(connection) =~= self.open_connections());
            None
        } else {
            let (sender, receiver) = open_channel();
            self.lines.insert(connection, sender);
            Some(receiver)
        }
    }

    /// Drops the queue of a connection; what is queued can still be read
    /// from the receiving end, which then ends. Returns whether there was a
    /// queue.
    pub fn close(&mut self, connection: usize) -> (was_open: bool)
        ensures
            was_open == old(self).open_connections().contains(connection),
            final(self).open_connections() == old(self).open_connections().remove(connection),
            final(self).attempts() == old(self).attempts(),
    {
        let removed = self.lines.remove(&connection);
        removed.is_some()
    }

    /// Drops the queue of each of the connections.
    pub fn close_all(&mut self, connections: &Vec<usize>)
        ensures
            final(self).open_connections() == old(self).open_connections().difference(
                connections@.to_set(),
            ),
            final(self).attempts() == old(self).attempts(),
    {
        let mut i: usize = 0;
        assert(connections@.take(0).to_set() =~= Set::<usize>::empty());
        assert(self.open_connections().difference(Set::<usize>::empty())
            =~= self.open_connections());
        while i < connections.len()
            invariant
                i <= connections.len(),
                self.attempts() == old(self).attempts(),
                self.open_connections() == old(self).open_connections().difference(
                    connections@.take(i as int).to_set(),
                ),
            decreases connections.len() - i,
        {
            let _ = self.close(connections[i]);
            proof {
                connections@.lemma_take_succ_push(i as int);
                connections@.take(i as int).lemma_push_to_set_commute(connections@[i as int]);
                assert(self.open_connections() =~= old(self).open_connections().difference(
                    connections@.take(i + 1).to_set(),
                ));
            }
            i += 1;
        }
        assert(connections@.take(connections@.len() as int) =~= connections@);
    }

    /// Tries to queue a text on one connection and enters the attempt in
    /// the journal. The text is not queued where the connection has no
    /// queue, nor where its receiving end is gone. Returns whether it was
    /// queued.
    pub fn send(&mut self, connection: usize, text: &str) -> (queued: bool)
        ensures
            final(self).open_connections() == old(self).open_connections(),
            final(self).attempts() == old(self).attempts().push(
                Attempt { connection, text: text@, queued },
            ),
            queued ==> old(self).open_connections().contains(connection),
    {
        let queued = match self.lines.get(&connection) {
            Some(sender) => enqueue(sender, text_message(text)),
            None => false,
        };
        self.journal = Ghost(self.journal@.push(Attempt { connection, text: text@, queued }));
        queued
    }

    /// Tries to queue a text on each of the connections, in order, and
    /// returns the connections on which it could not be queued. One failure
    /// does not keep the text from the connections after it: the journal
    /// gains one attempt for each connection.
    pub fn send_each(&mut self, connections: &Vec<usize>, text: &str) -> (failed: Vec<usize>)
        ensures
            final(self).open_connections() == old(self).open_connections(),
            final(self).continues(old(self)),
            attempted(
                final(self).made_since(old(self)),
                to_each(connections@, text@),
                old(self).open_connections(),
            ),
            failed@ == failures(final(self).made_since(old(self))),
    {
        let mut failed: Vec<usize> = Vec::new();
        let mut i: usize = 0;
        let ghost start = self.attempts();
        let ghost wanted = to_each(connections@, text@);
        proof {
            lemma_failures_empty();
            assert(self.made_since(old(self)) =~= Seq::<Attempt>::empty());
            assert(start + Seq::<Attempt>::empty() =~= start);
        }
        while i < connections.len()
            invariant
                i <= connections.len(),
                start == old(self).attempts(),
                wanted == to_each(connections@, text@),
                self.open_connections() == old(self).open_connections(),
                self.continues(old(self)),
                self.made_since(old(self)).len() == i,
                attempted(
                    self.made_since(old(self)),
                    wanted.take(i as int),
                    old(self).open_connections(),
                ),
                failed@ == failures(self.made_since(old(self))),
            decreases connections.len() - i,
        {
            let to = connections[i];
            let ghost made = self.made_since(old(self));
            let queued = self.send(to, text);
            let ghost a = Attempt { connection: to, text: text@, queued };
            proof {
                assert(self.attempts() == (start + made).push(a));
                assert(self.made_since(old(self)) =~= made.push(a));
                assert(start + made.push(a) =~= (start + made).push(a));
                lemma_failures_push(made, a);
                assert(wanted[i as int] == (to, text@));
                assert forall|j: int| 0 <= j < made.push(a).len() implies {
                    &&& (#[trigger] made.push(a)[j]).connection == wanted.take(i + 1)[j].0
                    &&& made.push(a)[j].text == wanted.take(i + 1)[j].1
                    &&& (made.push(a)[j].queued ==> old(self).open_connections().contains(
                        made.push(a)[j].connection,
                    ))
                } by {
                    if j < i {
                        assert(made.push(a)[j] == made[j]);
                        assert(wanted.take(i as int)[j] == wanted.take(i + 1)[j]);
                    }
                }
            }
            if !queued {
                failed.push(to);
            }
            i += 1;
        }
        proof {
            assert(wanted.take(i as int) =~= wanted);
        }
        failed
    }

    /// Tries to queue the payload of an event on each of its recipients, in
    /// order, and returns the recipients on which it could not be queued.
    /// The journal gains one attempt for each recipient.
    pub fn deliver(&mut self, event: &Outbound) -> (failed: Vec<usize>)
        ensures
            final(self).open_connections() == old(self).open_connections(),
            final(self).continues(old(self)),
            attempted(
                final(self).made_since(old(self)),
                targets(event@),
                old(self).open_connections(),
            ),
            failed@ == failures(final(self).made_since(old(self))),
    {
        self.send_each(&event.recipients, event.payload.as_str())
    }

    /// Delivers each of the events, in order, and returns the recipients on
    /// which a payload could not be queued, in the order of the attempts.
    /// The journal gains one attempt for each recipient of each event.
    pub fn deliver_all(&mut self, events: &Vec<Outbound>) -> (failed: Vec<usize>)
        ensures
            final(self).open_connections() == old(self).open_connections(),
            final(self).continues(old(self)),
            attempted(
                final(self).made_since(old(self)),
                all_targets(outbounds(events@)),
                old(self).open_connections(),
            ),
            failed@ == failures(final(self).made_since(old(self))),
    {
        let mut failed: Vec<usize> = Vec::new();
        let mut i: usize = 0;
        let ghost start = self.attempts();
        proof {
            lemma_failures_empty();
            assert(self.made_since(old(self)) =~= Seq::<Attempt>::empty());
            assert(start + Seq::<Attempt>::empty() =~= start);
            assert(outbounds(events@).take(0) =~= Seq::<OutboundView>::empty());
        }
        while i < events.len()
            invariant
                i <= events.len(),
                start == old(self).attempts(),
                self.open_connections() == old(self).open_connections(),
                self.continues(old(self)),
                attempted(
                    self.made_since(old(self)),
                    all_targets(outbounds(events@).take(i as int)),
                    old(self).open_connections(),
                ),
                failed@ == failures(self.made_since(old(self))),
            decreases events.len() - i,
        {
            let ghost before = *self;
            let ghost made = self.made_since(old(self));
            let ghost base = failed@;
            let missed = self.deliver(&events[i]);
            let ghost more = self.made_since(&before);
            proof {
                let all = outbounds(events@);
                assert(all.take(i + 1).drop_last() =~= all.take(i as int));
                assert(all.take(i + 1).last() == events@[i as int]@);
                assert(self.attempts() == (start + made) + more);
                assert(self.made_since(old(self)) =~= made + more);
                assert(start + (made + more) =~= (start + made) + more);
                lemma_failures_add(made, more);
                let wanted = all_targets(all.take(i as int));
                let extra = targets(events@[i as int]@);
                assert forall|j: int| 0 <= j < (made + more).len() implies {
                    &&& (#[trigger] (made + more)[j]).connection == (wanted + extra)[j].0
                    &&& (made + more)[j].text == (wanted + extra)[j].1
                    &&& ((made + more)[j].queued ==> old(self).open_connections().contains(
                        (made + more)[j].connection,
                    ))
                } by {
                    if j < made.len() {
                        assert((made + more)[j] == made[j]);
                    } else {
                        assert((made + more)[j] == more[j - made.len()]);
                    }
                }
            }
            let mut k: usize = 0;
            assert(base + missed@.take(0) =~= base);
            while k < missed.len()
                invariant
                    k <= missed.len(),
                    failed@ == base + missed@.take(k as int),
                decreases missed.len() - k,
            {
                failed.push(missed[k]);
                assert(base + missed@.take(k + 1) =~= (base + missed@.take(k as int)).push(
                    missed@[k as int],
                ));
                k += 1;
            }
            assert(missed@.take(missed@.len() as int) =~= missed@);
            i += 1;
        }
        proof {
            assert(outbounds(events@).take(i as int) =~= outbounds(events@));
        }
        failed
    }
}

} // verus!
