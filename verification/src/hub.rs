//! The dispatcher together with the outbound queues: what the transport
//! calls when a connection opens, sends a message, or is lost. Every
//! attempt to queue a text is entered in the journal of the queues, so that
//! what was tried, on which connection and in which order, is part of what
//! each call states.

use crate::error::DispatchError;
use crate::laws::{
    law_closed_sessions_end, law_connect_opens_one, law_disconnect_closes_one, lemma_live, live,
};
use crate::managers::connection_manager::{
    audience, connection_of, outbounds, registered, text_of, NotConnected, Outbound,
};
use crate::managers::notices::{refused, refused_fields};
use crate::models::consts::ClassroomUserRole;
use crate::managers::payload_handler::{answer, dispatch, parsed_message, PayloadHandler, Reaction};
use crate::managers::rules::{connected, connections, disconnected, rejected, HubView, Outcome};
use crate::outbox::{
    all_targets, attempted, failures, lemma_failures_empty, lemma_failures_push, to_each, Attempt,
    Outbox,
};
use crate::text::{decode, decoded, encode, encoded, pairs};
use tokio::sync::mpsc::UnboundedReceiver;
use vstd::prelude::*;
use warp::ws::Message;

verus! {

/// What the dispatcher does with the text of an inbound message: a text
/// that is not made of whole payload lines is malformed; any other is
/// handled as the pairs it holds.
pub open spec fn received(
    s: HubView,
    text: Seq<char>,
    classroom_id: Seq<char>,
    connection: usize,
) -> Outcome {
    match decoded(text) {
        None => rejected(s, DispatchError::MalformedPayload),
        Some(fields) => dispatch(s, fields, classroom_id, connection),
    }
}

/// The dispatcher and the outbound queues, kept in step.
pub struct Hub {
    handler: PayloadHandler,
    outbox: Outbox,
}

impl Hub {
    /// The shared state.
    pub closed spec fn state(&self) -> HubView {
        self.handler.state()
    }

    /// The dispatcher is well formed, and the connections that have a
    /// queue are exactly the live ones.
    pub closed spec fn wf(&self) -> bool {
        &&& self.handler.wf()
        &&& forall|k: usize|
            self.outbox.open_connections().contains(k) <==> live(self.handler.state(), k)
    }

    /// The connections that have a queue.
    pub closed spec fn open_connections(&self) -> Set<usize> {
        self.outbox.open_connections()
    }

    /// Every attempt to queue a text that was made through this hub,
    /// oldest first.
    pub closed spec fn attempts(&self) -> Seq<Attempt> {
        self.outbox.attempts()
    }

    /// The attempts made since the hub was as `before`.
    pub open spec fn made_since(&self, before: &Hub) -> Seq<Attempt> {
        self.attempts().skip(before.attempts().len() as int)
    }

    /// The journal is that of `before` with attempts added at its end.
    pub open spec fn continues(&self, before: &Hub) -> bool {
        self.attempts() == before.attempts() + self.made_since(before)
    }

    /// In a well-formed hub the connections that have a queue are the
    /// live ones.
    pub proof fn lemma_open_is_live(&self, connection: usize)
        requires
            self.wf(),
        ensures
            self.open_connections().contains(connection) <==> live(self.state(), connection),
    {
    }

    /// A well-formed hub holds a well-formed state.
    pub proof fn lemma_wf_state(&self)
        requires
            self.wf(),
        ensures
            self.state().wf(),
    {
        self.handler.lemma_wf_state();
    }

    /// A hub with no classroom and no connection. With `remove_empty` it
    /// discards a classroom when its last member leaves.
    pub fn new(remove_empty: bool) -> (hub: Hub)
        ensures
            hub.wf(),
            hub.state() == HubView::initial(remove_empty),
            hub.attempts() == Seq::<Attempt>::empty(),
    {
        let hub = Hub { handler: PayloadHandler::with_policy(remove_empty), outbox: Outbox::new() };
        proof {
            assert forall|k: usize|
                hub.outbox.open_connections().contains(k) <==> live(hub.handler.state(), k) by {
                lemma_live(hub.handler.state(), k);
                assert(connections(hub.handler.state().registry)
                    =~= Seq::<usize>::empty());
            }
        }
        hub
    }

    /// The dispatcher.
    pub fn handler(&self) -> (handler: &PayloadHandler)
        requires
            self.wf(),
        ensures
            handler.wf(),
            handler.state() == self.state(),
    {
        &self.handler
    }

    /// The outbound queues.
    pub fn outbox(&self) -> (outbox: &Outbox)
        requires
            self.wf(),
        ensures
            outbox.open_connections() == self.open_connections(),
            outbox.attempts() == self.attempts(),
            forall|k: usize| outbox.open_connections().contains(k) <==> live(self.state(), k),
    {
        &self.outbox
    }

    /// Tries to queue a payload for one registered user of a classroom.
    /// Returns whether it was queued, or the condition that the user is not
    /// registered there, in which case nothing is tried.
    pub fn send_to(&mut self, classroom_id: &str, user_id: &str, payload: &str) -> (sent: Result<
        bool,
        NotConnected,
    >)
        requires
            old(self).wf(),
        ensures
            final(self).wf(),
            final(self).state() == old(self).state(),
            final(self).open_connections() == old(self).open_connections(),
            match sent {
                Ok(queued) => connection_of(old(self).state().registry, classroom_id@, user_id@)
                    is Some && final(self).attempts() == old(self).attempts().push(
                    Attempt {
                        connection: connection_of(
                            old(self).state().registry,
                            classroom_id@,
                            user_id@,
                        )->0,
                        text: payload@,
                        queued,
                    },
                ),
                Err(_) => !registered(old(self).state().registry, classroom_id@, user_id@)
                    && final(self).attempts() == old(self).attempts(),
            },
    {
        match self.handler.connections().send_to(classroom_id, user_id, payload) {
            Ok(d) => Ok(self.outbox.send(d.connection, d.payload.as_str())),
            Err(e) => Err(e),
        }
    }

    /// Tries to queue a payload for every registered user of a classroom
    /// that is not `exclude` and, where `role_filter` is given, holds that
    /// role, in registration order: the journal gains one attempt for each
    /// of them. Returns the connections on which the payload could not be
    /// queued.
    pub fn broadcast(
        &mut self,
        classroom_id: &str,
        payload: &str,
        exclude: Option<&str>,
        role_filter: Option<ClassroomUserRole>,
    ) -> (failed: Vec<usize>)
        requires
            old(self).wf(),
        ensures
            final(self).wf(),
            final(self).state() == old(self).state(),
            final(self).open_connections() == old(self).open_connections(),
            final(self).continues(old(self)),
            attempted(
                final(self).made_since(old(self)),
                to_each(
                    audience(
                        old(self).state().registry,
                        classroom_id@,
                        None,
                        text_of(exclude),
                        role_filter,
                    ),
                    payload@,
                ),
                old(self).open_connections(),
            ),
            failed@ == failures(final(self).made_since(old(self))),
    {
        let to = self.handler.connections().listeners(classroom_id, exclude, role_filter);
        self.outbox.send_each(&to, payload)
    }

    /// A connection opens: it becomes pending and gets a queue, whose
    /// receiving end is handed back. An id that is live is refused and
    /// gets none.
    pub fn on_connect(&mut self, connection: usize) -> (handle: Option<UnboundedReceiver<Message>>)
        requires
            old(self).wf(),
        ensures
            final(self).wf(),
            final(self).state() == connected(old(self).state(), connection).state,
            handle is Some <==> connected(old(self).state(), connection).result is Ok,
            final(self).attempts() == old(self).attempts(),
    {
        let ghost s = self.handler.state();
        proof {
            self.handler.lemma_wf_state();
            law_connect_opens_one(s, connection, connection);
        }
        match self.handler.on_connect(connection) {
            Err(_) => None,
            Ok(_) => {
                let handle = self.outbox.open(connection);
                proof {
                    assert forall|k: usize|
                        self.outbox.open_connections().contains(k) <==> live(
                            self.handler.state(),
                            k,
                        ) by {
                        law_connect_opens_one(s, connection, k);
                    }
                }
                handle
            },
        }
    }

    /// A connection sends a payload: the dispatcher handles it, each event
    /// is tried on each of its recipients, and the queues of the
    /// connections whose session ended are dropped. A rejection is tried on
    /// the sender alone. The journal gains one attempt for each of these.
    /// Returns what the dispatcher answered, and the connections on which
    /// something could not be queued.
    pub fn on_message(
        &mut self,
        connection: usize,
        classroom_id: &str,
        payload: Vec<(String, String)>,
    ) -> (result: (Result<Reaction, DispatchError>, Vec<usize>))
        requires
            old(self).wf(),
        ensures
            final(self).wf(),
            final(self).state() == dispatch(
                old(self).state(),
                pairs(payload@),
                classroom_id@,
                connection,
            ).state,
            answer(result.0) == dispatch(
                old(self).state(),
                pairs(payload@),
                classroom_id@,
                connection,
            ).result,
            final(self).continues(old(self)),
            attempted(
                final(self).made_since(old(self)),
                match result.0 {
                    Ok(reaction) => all_targets(reaction@.events),
                    Err(e) => seq![(connection, encoded(refused_fields(e)))],
                },
                old(self).open_connections(),
            ),
            result.1@ == failures(final(self).made_since(old(self))),
    {
        let ghost s = self.handler.state();
        let ghost fields = pairs(payload@);
        proof {
            self.handler.lemma_wf_state();
        }
        let answered = self.handler.process_message(payload, classroom_id, connection);
        let mut failed: Vec<usize> = Vec::new();
        match &answered {
            Ok(reaction) => {
                failed = self.outbox.deliver_all(&reaction.events);
                self.outbox.close_all(&reaction.closed);
                proof {
                    let m = parsed_message(fields, classroom_id@, connection)->0;
                    assert forall|k: usize|
                        self.outbox.open_connections().contains(k) <==> live(
                            self.handler.state(),
                            k,
                        ) by {
                        law_closed_sessions_end(s, m, k);
                    }
                }
            },
            Err(e) => {
                failed = self.report(connection, *e);
            },
        }
        (answered, failed)
    }

    /// Tries to queue the report of a rejection on the sender. Returns the
    /// sender where it could not be queued, and nothing otherwise.
    fn report(&mut self, connection: usize, e: DispatchError) -> (failed: Vec<usize>)
        ensures
            final(self).handler == old(self).handler,
            final(self).open_connections() == old(self).open_connections(),
            final(self).continues(old(self)),
            attempted(
                final(self).made_since(old(self)),
                seq![(connection, encoded(refused_fields(e)))],
                old(self).open_connections(),
            ),
            failed@ == failures(final(self).made_since(old(self))),
    {
        let mut failed: Vec<usize> = Vec::new();
        let text = encode(&refused(e));
        let queued = self.outbox.send(connection, text.as_str());
        if !queued {
            failed.push(connection);
        }
        proof {
            let a = Attempt { connection, text: text@, queued };
            assert(self.made_since(old(self)) =~= seq![a]);
            assert(old(self).attempts() + seq![a] =~= old(self).attempts().push(a));
            lemma_failures_empty();
            lemma_failures_push(Seq::empty(), a);
            assert(Seq::<Attempt>::empty().push(a) =~= seq![a]);
            assert(failed@ =~= failures(seq![a]));
        }
        failed
    }

    /// A connection sends a text: it is read as payload lines and handled
    /// as by `on_message`.
    pub fn on_text(&mut self, connection: usize, classroom_id: &str, text: &str) -> (result: (
        Result<Reaction, DispatchError>,
        Vec<usize>,
    ))
        requires
            old(self).wf(),
        ensures
            final(self).wf(),
            final(self).state() == received(old(self).state(), text@, classroom_id@, connection).state,
            answer(result.0) == received(
                old(self).state(),
                text@,
                classroom_id@,
                connection,
            ).result,
            final(self).continues(old(self)),
            attempted(
                final(self).made_since(old(self)),
                match result.0 {
                    Ok(reaction) => all_targets(reaction@.events),
                    Err(e) => seq![(connection, encoded(refused_fields(e)))],
                },
                old(self).open_connections(),
            ),
            result.1@ == failures(final(self).made_since(old(self))),
    {
        match decode(text) {
            Some(payload) => self.on_message(connection, classroom_id, payload),
            None => {
                let e = DispatchError::MalformedPayload;
                let failed = self.report(connection, e);
                (Err(e), failed)
            },
        }
    }

    /// A connection is lost: its session ends, those who remain in its
    /// classroom are told, and its queue is dropped. The journal gains one
    /// attempt for each recipient of each event. Returns the events, and
    /// the connections on which one could not be queued.
    pub fn on_disconnect(&mut self, connection: usize) -> (result: (Vec<Outbound>, Vec<usize>))
        requires
            old(self).wf(),
        ensures
            final(self).wf(),
            final(self).state() == disconnected(old(self).state(), connection).0,
            outbounds(result.0@) == disconnected(old(self).state(), connection).1,
            final(self).continues(old(self)),
            attempted(
                final(self).made_since(old(self)),
                all_targets(outbounds(result.0@)),
                old(self).open_connections(),
            ),
            result.1@ == failures(final(self).made_since(old(self))),
    {
        let ghost s = self.handler.state();
        proof {
            self.handler.lemma_wf_state();
        }
        let events = self.handler.on_disconnect(connection);
        let failed = self.outbox.deliver_all(&events);
        let _ = self.outbox.close(connection);
        proof {
            assert forall|k: usize|
                self.outbox.open_connections().contains(k) <==> live(self.handler.state(), k) by {
                law_disconnect_closes_one(s, connection, k);
            }
        }
        (events, failed)
    }
}

} // verus!
