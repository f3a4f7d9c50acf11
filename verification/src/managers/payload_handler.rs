//! The event dispatcher: it takes each inbound message, checks it against
//! the sender's session and role, changes the shared state, and says which
//! events go out to whom.

use crate::error::DispatchError;
use crate::managers::agreement::{
    lemma_assignment_create_keeps_wf, lemma_code_change_keeps_wf, lemma_connected_keeps_wf,
    lemma_delete_keeps_wf, lemma_depart_keeps_wf, lemma_disconnected_keeps_wf, lemma_enter_keeps_wf,
    lemma_grade_keeps_wf, lemma_has_user, lemma_initial_wf, lemma_sender, lemma_serving,
    lemma_set_lock_keeps_wf, lemma_slot, lemma_submit_keeps_wf,
};
use crate::managers::classroom_manager::ClassroomManager;
use crate::managers::connection_manager::{outbounds, ConnectionManager, Outbound, Selection};
use crate::managers::notices::{
    assignment_created, closed, code_changed, graded, joined, left, lock_changed, roster, snapshot,
    submitted,
};
use crate::managers::rules::{
    assignment_create, classroom_deleted, code_change, connected, connections, depart, disconnected,
    enrolled, enter, farewell, get_data, grade_assignment, leave, named_board, named_cursor,
    named_feedback, named_grade, named_outcome, rejected, sender, serving, set_lock, step,
    submit_assignment, teacher, HubView, MessageView, Outcome, ReactionView, SessionView,
};
use crate::models::assignment::Assignment;
use crate::models::classroom::{Board, BoardView, Classroom};
use crate::models::consts::{Actions, AssignmentStatus, ClassroomUserRole};
use crate::models::cursor_position::CursorPosition;
use crate::models::user::User;
use crate::text::{encode, field, lookup, pairs, parse_int, parsed_i32, same_text};
use vstd::prelude::*;

verus! {

/// What the dispatcher hands back for an accepted action: the events to
/// deliver, in order, and the connections to close after delivery.
#[derive(Debug)]
pub struct Reaction {
    pub events: Vec<Outbound>,
    pub closed: Vec<usize>,
}

impl View for Reaction {
    type V = ReactionView;

    open spec fn view(&self) -> ReactionView {
        ReactionView { events: outbounds(self.events@), closed: self.closed@ }
    }
}

/// The view of what an action method returns.
pub open spec fn answer(r: Result<Reaction, DispatchError>) -> Result<ReactionView, DispatchError> {
    match r {
        Ok(x) => Ok(x@),
        Err(e) => Err(e),
    }
}

/// The lifecycle state of a connection.
#[derive(Debug)]
pub enum Session {
    Connecting,
    Joined { classroom_id: String, user_id: String },
    Disconnected,
}

impl View for Session {
    type V = SessionView;

    open spec fn view(&self) -> SessionView {
        match self {
            Session::Connecting => SessionView::Connecting,
            Session::Joined { classroom_id, user_id } => SessionView::Joined {
                classroom_id: classroom_id@,
                user_id: user_id@,
            },
            Session::Disconnected => SessionView::Disconnected,
        }
    }
}

/// The action code that a payload carries in its `action` field.
pub open spec fn payload_action(payload: Seq<(Seq<char>, Seq<char>)>) -> Option<i32> {
    match field(payload, "action"@) {
        Some(t) => parsed_i32(t),
        None => None,
    }
}

/// The message that a payload stands for, if it carries a numeric `action`
/// and a `user_id`.
pub open spec fn parsed_message(
    payload: Seq<(Seq<char>, Seq<char>)>,
    classroom_id: Seq<char>,
    connection: usize,
) -> Option<MessageView> {
    match (payload_action(payload), field(payload, "user_id"@)) {
        (Some(action), Some(user_id)) => Some(
            MessageView { connection, action: action as int, user_id, classroom_id, fields: payload },
        ),
        _ => None,
    }
}

/// What the dispatcher does with a payload: one that carries no numeric
/// `action` or no `user_id` is malformed; any other is handled by the
/// rules.
pub open spec fn dispatch(
    s: HubView,
    payload: Seq<(Seq<char>, Seq<char>)>,
    classroom_id: Seq<char>,
    connection: usize,
) -> Outcome {
    match parsed_message(payload, classroom_id, connection) {
        None => rejected(s, DispatchError::MalformedPayload),
        Some(m) => step(s, m),
    }
}

/// The role that a join asks for: teacher for the code of `TeacherJoin`,
/// student for any other.
pub open spec fn joining_role(action: int) -> ClassroomUserRole {
    if action == Actions::TeacherJoin.spec_code() {
        ClassroomUserRole::Teacher
    } else {
        ClassroomUserRole::Student
    }
}

/// The dispatcher with the message it is working on.
pub struct PayloadHandler {
    pub payload_action: i32,
    pub payload_user_id: String,
    pub payload_data: Vec<(String, String)>,
    pub source_classroom_id: String,
    pub source_connection: usize,
    classrooms: ClassroomManager,
    connections: ConnectionManager,
    pending: Vec<usize>,
    remove_empty: bool,
}

impl PayloadHandler {
    /// The shared state.
    pub closed spec fn state(&self) -> HubView {
        HubView {
            classrooms: self.classrooms@,
            registry: self.connections@,
            pending: self.pending@,
            remove_empty: self.remove_empty,
        }
    }

    /// The message that the handler is working on.
    pub closed spec fn message(&self) -> MessageView {
        MessageView {
            connection: self.source_connection,
            action: self.payload_action as int,
            user_id: self.payload_user_id@,
            classroom_id: self.source_classroom_id@,
            fields: pairs(self.payload_data@),
        }
    }

    /// The store and the registry are sound and agree.
    pub closed spec fn wf(&self) -> bool {
        &&& self.classrooms.wf()
        &&& self.connections.wf()
        &&& self.state().wf()
    }

    /// A well-formed handler holds a well-formed state.
    pub proof fn lemma_wf_state(&self)
        requires
            self.wf(),
        ensures
            self.state().wf(),
    {
    }

    /// A dispatcher with no classroom, no connection and no message, which
    /// keeps a classroom after its last member has left.
    pub fn new() -> (h: PayloadHandler)
        ensures
            h.wf(),
            h.state() == HubView::initial(false),
            h.message() == MessageView::blank(),
    {
        PayloadHandler::with_policy(false)
    }

    /// A dispatcher with no classroom, no connection and no message. With
    /// `remove_empty` it discards a classroom when its last member leaves.
    pub fn with_policy(remove_empty: bool) -> (h: PayloadHandler)
        ensures
            h.wf(),
            h.state() == HubView::initial(remove_empty),
            h.message() == MessageView::blank(),
    {
        proof {
            lemma_initial_wf(remove_empty);
        }
        let h = PayloadHandler {
            payload_action: 0,
            payload_user_id: String::new(),
            payload_data: Vec::new(),
            source_classroom_id: String::new(),
            source_connection: 0,
            classrooms: ClassroomManager::new(),
            connections: ConnectionManager::new(),
            pending: Vec::new(),
            remove_empty,
        };
        assert(pairs(h.payload_data@) =~= Seq::empty());
        h
    }

    /// The classroom store.
    pub fn classrooms(&self) -> (store: &ClassroomManager)
        requires
            self.wf(),
        ensures
            store.wf(),
            store@ == self.state().classrooms,
    {
        &self.classrooms
    }

    /// The connection registry.
    pub fn connections(&self) -> (registry: &ConnectionManager)
        requires
            self.wf(),
        ensures
            registry.wf(),
            registry@ == self.state().registry,
    {
        &self.connections
    }

    fn find_pending(&self, connection: usize) -> (found: Option<usize>)
        ensures
            found is Some <==> self.pending@.contains(connection),
            match found {
                Some(p) => p < self.pending.len() && self.pending@.index_of_first(connection)
                    == Some(p as int),
                None => self.pending@.index_of_first(connection) is None,
            },
    {
        let mut p: usize = 0;
        while p < self.pending.len()
            invariant
                p <= self.pending.len(),
                forall|j: int| 0 <= j < p ==> self.pending@[j] != connection,
            decreases self.pending.len() - p,
        {
            if self.pending[p] == connection {
                proof {
                    self.pending@.index_of_first_ensures(connection);
                }
                return Some(p);
            }
            p += 1;
        }
        proof {
            self.pending@.index_of_first_ensures(connection);
        }
        None
    }

    /// The lifecycle state of a connection.
    pub fn session(&self, connection: usize) -> (session: Session)
        requires
            self.wf(),
        ensures
            session@ == self.state().session(connection),
    {
        if self.find_pending(connection).is_some() {
            return Session::Connecting;
        }
        proof {
            lemma_serving(self.connections@, connection);
        }
        match self.connections.find_connection(connection) {
            Some(i) => {
                proof {
                    connections(self.connections@).index_of_first_ensures(
                        connection,
                    );
                    assert(connections(self.connections@)[i as int]
                        == connection);
                    let f = serving(self.connections@, connection)->0;
                    assert(connections(self.connections@)[f]
                        == self.connections@[f].connection);
                }
                let e = self.connections.entry(i);
                Session::Joined { classroom_id: e.classroom_id.clone(), user_id: e.user_id.clone() }
            },
            None => {
                proof {
                    if let Some(f) = serving(self.connections@, connection) {
                        assert(self.connections@[f].connection == connection);
                    }
                }
                Session::Disconnected
            },
        }
    }

    /// The transport reports a new connection. An id that is pending or
    /// joined is refused with `InvalidState`; any other becomes pending.
    pub fn on_connect(&mut self, connection: usize) -> (result: Result<(), DispatchError>)
        requires
            old(self).wf(),
        ensures
            final(self).wf(),
            final(self).message() == old(self).message(),
            final(self).state() == connected(old(self).state(), connection).state,
            result is Ok <==> connected(old(self).state(), connection).result is Ok,
            result matches Err(e) ==> e == DispatchError::InvalidState,
    {
        proof {
            lemma_connected_keeps_wf(self.state(), connection);
        }
        let taken = match self.session(connection) {
            Session::Disconnected => false,
            _ => true,
        };
        if taken {
            Err(DispatchError::InvalidState)
        } else {
            self.pending.push(connection);
            Ok(())
        }
    }

    /// The position of the registration of whoever sent the message.
    fn sender(&self) -> (who: Result<usize, DispatchError>)
        requires
            self.wf(),
        ensures
            match who {
                Ok(i) => sender(self.state(), self.message()) == Ok::<int, DispatchError>(i as int),
                Err(e) => sender(self.state(), self.message()) == Err::<int, DispatchError>(e),
            },
    {
        proof {
            lemma_serving(self.connections@, self.source_connection);
            connections(self.connections@).index_of_first_ensures(
                self.source_connection,
            );
        }
        match self.connections.find_connection(self.source_connection) {
            None => {
                proof {
                    if let Some(f) = serving(self.connections@, self.source_connection) {
                        assert(self.connections@[f].connection == self.source_connection);
                    }
                }
                Err(DispatchError::Unauthenticated)
            },
            Some(i) => {
                proof {
                    assert(connections(self.connections@)[i as int]
                        == self.source_connection);
                    let f = serving(self.connections@, self.source_connection)->0;
                    assert(connections(self.connections@)[f]
                        == self.connections@[f].connection);
                }
                let e = self.connections.entry(i);
                if same_text(e.classroom_id.as_str(), self.source_classroom_id.as_str())
                    && same_text(e.user_id.as_str(), self.payload_user_id.as_str()) {
                    Ok(i)
                } else {
                    Err(DispatchError::PermissionDenied)
                }
            },
        }
    }

    /// The position of the registration of whoever sent the message, if
    /// that is a teacher.
    fn teacher(&self) -> (who: Result<usize, DispatchError>)
        requires
            self.wf(),
        ensures
            match who {
                Ok(i) => teacher(self.state(), self.message()) == Ok::<int, DispatchError>(i as int),
                Err(e) => teacher(self.state(), self.message()) == Err::<int, DispatchError>(e),
            },
    {
        proof {
            lemma_sender(self.state(), self.message());
        }
        match self.sender() {
            Err(e) => Err(e),
            Ok(i) => {
                if self.connections.entry(i).role == ClassroomUserRole::Teacher {
                    Ok(i)
                } else {
                    Err(DispatchError::PermissionDenied)
                }
            },
        }
    }

    /// Lets the pending connection of the message into its classroom.
    fn enter(&mut self, role: ClassroomUserRole) -> (result: Result<Reaction, DispatchError>)
        requires
            old(self).wf(),
        ensures
            final(self).wf(),
            final(self).message() == old(self).message(),
            final(self).state() == enter(old(self).state(), old(self).message(), role).state,
            answer(result) == enter(old(self).state(), old(self).message(), role).result,
    {
        let ghost s = self.state();
        let ghost m = self.message();
        proof {
            lemma_enter_keeps_wf(s, m, role);
            lemma_serving(s.registry, m.connection);
        }
        let k = self.source_connection;
        let p = match self.find_pending(k) {
            Some(p) => p,
            None => {
                let known = match self.session(k) {
                    Session::Disconnected => false,
                    _ => true,
                };
                return Err(
                    if known {
                        DispatchError::InvalidState
                    } else {
                        DispatchError::Unauthenticated
                    },
                );
            },
        };
        self.classrooms.add_classroom(self.source_classroom_id.as_str());
        let taken = self.classrooms.take_classroom(self.source_classroom_id.as_str());
        let mut cls = taken.unwrap();
        proof {
            old(self).classrooms.lemma_wf_view();
        }
        let held = match cls.find_user(self.payload_user_id.as_str()) {
            Some(j) => {
                let held = cls.users[j].role;
                cls.set_online(j);
                held
            },
            None => {
                cls.add_user(User::new(self.payload_user_id.as_str(), role));
                role
            },
        };
        let superseded = self.connections.connect(
            self.source_classroom_id.as_str(),
            self.payload_user_id.as_str(),
            held,
            k,
        );
        self.pending.remove(p);
        let mut events: Vec<Outbound> = Vec::new();
        let notice = self.connections.route(
            self.source_classroom_id.as_str(),
            Selection::AllExcept(self.payload_user_id.clone()),
            encode(&joined(self.payload_user_id.as_str(), held)),
        );
        events.push(notice);
        if held == ClassroomUserRole::Teacher {
            let list = self.connections.route(
                self.source_classroom_id.as_str(),
                Selection::Single(self.payload_user_id.clone()),
                encode(&roster(&cls)),
            );
            events.push(list);
        }
        let closed: Vec<usize> = match superseded {
            Some(x) => vec![x],
            None => Vec::new(),
        };
        self.classrooms.put_classroom(cls);
        let reaction = Reaction { events, closed };
        proof {
            let want = enter(s, m, role);
            assert(self.state().classrooms =~= want.state.classrooms);
            assert(self.state().pending =~= want.state.pending);
            assert(reaction@.events =~= want.result->Ok_0.events);
            assert(reaction@.closed =~= want.result->Ok_0.closed);
        }
        Ok(reaction)
    }

    /// Loads a message: the action code and the user id are read from the
    /// payload, which is kept as the fields of the message. Returns whether
    /// the payload carries both; if not, the message is loaded with the
    /// code of `NoAction` and an empty user id.
    pub fn set_message_data(
        &mut self,
        payload: Vec<(String, String)>,
        classroom_id: &str,
        connection: usize,
    ) -> (readable: bool)
        requires
            old(self).wf(),
        ensures
            final(self).wf(),
            final(self).state() == old(self).state(),
            readable == parsed_message(pairs(payload@), classroom_id@, connection) is Some,
            readable ==> Some(final(self).message()) == parsed_message(
                pairs(payload@),
                classroom_id@,
                connection,
            ),
            !readable ==> final(self).message() == (MessageView {
                connection,
                action: 0,
                user_id: Seq::empty(),
                classroom_id: classroom_id@,
                fields: pairs(payload@),
            }),
    {
        let action = match lookup(&payload, "action") {
            Some(t) => parse_int(t),
            None => None,
        };
        let user_id = match lookup(&payload, "user_id") {
            Some(u) => Some(u.to_owned()),
            None => None,
        };
        self.source_classroom_id = classroom_id.to_owned();
        self.source_connection = connection;
        let readable = match (action, user_id) {
            (Some(a), Some(u)) => {
                self.payload_action = a;
                self.payload_user_id = u;
                true
            },
            _ => {
                self.payload_action = 0;
                self.payload_user_id = String::new();
                false
            },
        };
        self.payload_data = payload;
        readable
    }

    /// Handles one inbound payload from a connection: loads it and applies
    /// the rule for its action.
    pub fn process_message(
        &mut self,
        payload: Vec<(String, String)>,
        classroom_id: &str,
        connection: usize,
    ) -> (result: Result<Reaction, DispatchError>)
        requires
            old(self).wf(),
        ensures
            final(self).wf(),
            final(self).state() == dispatch(
                old(self).state(),
                pairs(payload@),
                classroom_id@,
                connection,
            ).state,
            answer(result) == dispatch(
                old(self).state(),
                pairs(payload@),
                classroom_id@,
                connection,
            ).result,
    {
        if !self.set_message_data(payload, classroom_id, connection) {
            return Err(DispatchError::MalformedPayload);
        }
        let action = Actions::from_code(self.payload_action);
        match self.session(connection) {
            Session::Disconnected => Err(DispatchError::Unauthenticated),
            Session::Connecting => match action {
                Some(Actions::Join) => self.student_join(),
                Some(Actions::TeacherJoin) => self.join(),
                _ => Err(DispatchError::Unauthenticated),
            },
            Session::Joined { .. } => match action {
                None => Err(DispatchError::MalformedPayload),
                Some(Actions::NoAction) => Err(DispatchError::MalformedPayload),
                Some(Actions::Join) => Err(DispatchError::InvalidState),
                Some(Actions::TeacherJoin) => Err(DispatchError::InvalidState),
                Some(Actions::CodeChange) => self.code_change(),
                Some(Actions::SyncData) => self.get_data(),
                Some(Actions::GetData) => self.get_data(),
                Some(Actions::Leave) => self.leave(),
                Some(Actions::LockCode) => self.lock_code(),
                Some(Actions::UnlockCode) => self.unlock_code(),
                Some(Actions::ClassroomDeleted) => self.classroom_deleted(),
                Some(Actions::AssignmentCreate) => self.assignment_create(),
                Some(Actions::SubmitAssignment) => self.submit_assignment(),
                Some(Actions::GradeAssignment) => self.grade_assignment(),
            },
        }
    }

    /// Lets the pending connection of the message into its classroom, as a
    /// teacher where the message carries the code of `TeacherJoin` and as a
    /// student otherwise.
    pub fn join(&mut self) -> (result: Result<Reaction, DispatchError>)
        requires
            old(self).wf(),
        ensures
            final(self).wf(),
            final(self).message() == old(self).message(),
            final(self).state() == enter(
                old(self).state(),
                old(self).message(),
                joining_role(old(self).message().action),
            ).state,
            answer(result) == enter(
                old(self).state(),
                old(self).message(),
                joining_role(old(self).message().action),
            ).result,
    {
        if self.payload_action == Actions::TeacherJoin.code() {
            self.enter(ClassroomUserRole::Teacher)
        } else {
            self.enter(ClassroomUserRole::Student)
        }
    }

    /// Lets the pending connection of the message into its classroom as a
    /// student.
    pub fn student_join(&mut self) -> (result: Result<Reaction, DispatchError>)
        requires
            old(self).wf(),
        ensures
            final(self).wf(),
            final(self).message() == old(self).message(),
            final(self).state() == enter(
                old(self).state(),
                old(self).message(),
                ClassroomUserRole::Student,
            ).state,
            answer(result) == enter(
                old(self).state(),
                old(self).message(),
                ClassroomUserRole::Student,
            ).result,
    {
        self.enter(ClassroomUserRole::Student)
    }

    /// Takes the member behind registration `i` out of the classroom and
    /// the registry, and says what those who remain are told.
    fn depart(&mut self, i: usize) -> (event: Outbound)
        requires
            old(self).wf(),
            i < old(self).state().registry.len(),
        ensures
            final(self).wf(),
            final(self).message() == old(self).message(),
            final(self).state() == depart(old(self).state(), i as int),
            event@ == farewell(
                final(self).state(),
                old(self).state().registry[i as int].classroom_id,
                old(self).state().registry[i as int].user_id,
            ),
    {
        let ghost s = self.state();
        proof {
            lemma_depart_keeps_wf(s, i as int);
            lemma_slot(s.registry, i as int);
            assert(enrolled(s.classrooms, s.registry[i as int]));
            old(self).classrooms.lemma_wf_view();
        }
        let e = self.connections.entry(i);
        let c = e.classroom_id.clone();
        let u = e.user_id.clone();
        let taken = self.classrooms.take_classroom(c.as_str());
        let mut cls = taken.unwrap();
        proof {
            lemma_has_user(cls@, u@);
        }
        let j = cls.find_user(u.as_str()).unwrap();
        let _ = cls.remove_user(j);
        if !(self.remove_empty && cls.users.len() == 0) {
            self.classrooms.put_classroom(cls);
        }
        let _ = self.connections.disconnect(c.as_str(), u.as_str());
        let event = self.connections.route(c.as_str(), Selection::AllMembers, encode(&left(u.as_str())));
        proof {
            assert(self.state().classrooms =~= depart(s, i as int).classrooms);
        }
        event
    }

    /// A member leaves: the user is removed from the classroom and the
    /// registry, those who remain are told, and the connection is to be
    /// closed.
    pub fn leave(&mut self) -> (result: Result<Reaction, DispatchError>)
        requires
            old(self).wf(),
        ensures
            final(self).wf(),
            final(self).message() == old(self).message(),
            final(self).state() == leave(old(self).state(), old(self).message()).state,
            answer(result) == leave(old(self).state(), old(self).message()).result,
    {
        proof {
            lemma_sender(self.state(), self.message());
        }
        match self.sender() {
            Err(e) => Err(e),
            Ok(i) => {
                let event = self.depart(i);
                let reaction = Reaction { events: vec![event], closed: vec![self.source_connection] };
                proof {
                    let want = leave(old(self).state(), old(self).message()).result->Ok_0;
                    assert(reaction@.events =~= want.events);
                    assert(reaction@.closed =~= want.closed);
                }
                Ok(reaction)
            },
        }
    }

    /// The transport reports that a connection is gone. A pending
    /// connection is forgotten; a joined one leaves, and those who remain
    /// are told; any other changes nothing.
    pub fn on_disconnect(&mut self, connection: usize) -> (events: Vec<Outbound>)
        requires
            old(self).wf(),
        ensures
            final(self).wf(),
            final(self).message() == old(self).message(),
            final(self).state() == disconnected(old(self).state(), connection).0,
            outbounds(events@) == disconnected(old(self).state(), connection).1,
    {
        proof {
            lemma_disconnected_keeps_wf(self.state(), connection);
            lemma_serving(self.connections@, connection);
            connections(self.connections@).index_of_first_ensures(
                connection,
            );
        }
        match self.find_pending(connection) {
            Some(p) => {
                self.pending.remove(p);
                let events: Vec<Outbound> = Vec::new();
                assert(outbounds(events@) =~= Seq::empty());
                events
            },
            None => match self.connections.find_connection(connection) {
                Some(i) => {
                    proof {
                        assert(connections(self.connections@)[i as int]
                            == connection);
                        let f = serving(self.connections@, connection)->0;
                        assert(connections(self.connections@)[f]
                            == self.connections@[f].connection);
                    }
                    let event = self.depart(i);
                    let events = vec![event];
                    assert(outbounds(events@) =~= disconnected(old(self).state(), connection).1);
                    events
                },
                None => {
                    proof {
                        if let Some(f) = serving(self.connections@, connection) {
                            assert(self.connections@[f].connection == connection);
                        }
                    }
                    let events: Vec<Outbound> = Vec::new();
                    assert(outbounds(events@) =~= Seq::empty());
                    events
                },
            },
        }
    }

    /// A teacher closes the classroom: every member is told and is to be
    /// disconnected, and the classroom is discarded.
    pub fn classroom_deleted(&mut self) -> (result: Result<Reaction, DispatchError>)
        requires
            old(self).wf(),
        ensures
            final(self).wf(),
            final(self).message() == old(self).message(),
            final(self).state() == classroom_deleted(old(self).state(), old(self).message()).state,
            answer(result) == classroom_deleted(old(self).state(), old(self).message()).result,
    {
        proof {
            lemma_sender(self.state(), self.message());
            lemma_delete_keeps_wf(self.state(), self.message());
        }
        match self.teacher() {
            Err(e) => Err(e),
            Ok(_) => {
                let event = self.connections.route(
                    self.source_classroom_id.as_str(),
                    Selection::AllMembers,
                    encode(
                        &closed(self.source_classroom_id.as_str(), self.payload_user_id.as_str()),
                    ),
                );
                let gone = self.connections.disconnect_classroom(self.source_classroom_id.as_str());
                self.classrooms.remove_classroom(self.source_classroom_id.as_str());
                let reaction = Reaction { events: vec![event], closed: gone };
                proof {
                    let want = classroom_deleted(old(self).state(), old(self).message()).result->Ok_0;
                    assert(reaction@.events =~= want.events);
                }
                Ok(reaction)
            },
        }
    }

    /// A member asks for the state of the classroom and gets it, alone.
    pub fn get_data(&mut self) -> (result: Result<Reaction, DispatchError>)
        requires
            old(self).wf(),
        ensures
            final(self).wf(),
            final(self).message() == old(self).message(),
            final(self).state() == old(self).state(),
            answer(result) == get_data(old(self).state(), old(self).message()).result,
    {
        proof {
            lemma_sender(self.state(), self.message());
        }
        match self.sender() {
            Err(e) => Err(e),
            Ok(_) => {
                let found = self.classrooms.get_classroom(self.source_classroom_id.as_str());
                let cls = found.unwrap();
                let event = self.connections.route(
                    self.source_classroom_id.as_str(),
                    Selection::Single(self.payload_user_id.clone()),
                    encode(&snapshot(cls)),
                );
                let reaction = Reaction { events: vec![event], closed: Vec::new() };
                proof {
                    let want = get_data(old(self).state(), old(self).message()).result->Ok_0;
                    assert(reaction@.events =~= want.events);
                    assert(reaction@.closed =~= want.closed);
                }
                Ok(reaction)
            },
        }
    }

    /// Puts a classroom back and hands out one event.
    fn settle(&mut self, cls: Classroom, event: Outbound) -> (reaction: Reaction)
        requires
            old(self).classrooms.wf(),
        ensures
            final(self).classrooms.wf(),
            final(self).classrooms@ == old(self).classrooms@.insert(cls@.classroom_id, cls@),
            final(self).connections == old(self).connections,
            final(self).pending == old(self).pending,
            final(self).remove_empty == old(self).remove_empty,
            final(self).message() == old(self).message(),
            reaction@ == (ReactionView { events: seq![event@], closed: Seq::empty() }),
    {
        self.classrooms.put_classroom(cls);
        let reaction = Reaction { events: vec![event], closed: Vec::new() };
        assert(reaction@.events =~= seq![event@]);
        assert(reaction@.closed =~= Seq::<usize>::empty());
        reaction
    }

    /// A member replaces the code of the shared whiteboard or of one of
    /// their own; everyone else in the classroom is told.
    pub fn code_change(&mut self) -> (result: Result<Reaction, DispatchError>)
        requires
            old(self).wf(),
        ensures
            final(self).wf(),
            final(self).message() == old(self).message(),
            final(self).state() == code_change(old(self).state(), old(self).message()).state,
            answer(result) == code_change(old(self).state(), old(self).message()).result,
    {
        let ghost s = self.state();
        let ghost m = self.message();
        proof {
            lemma_sender(s, m);
            lemma_code_change_keeps_wf(s, m);
            old(self).classrooms.lemma_wf_view();
        }
        if let Err(e) = self.sender() {
            return Err(e);
        }
        let code = match lookup(&self.payload_data, "code") {
            Some(code) => code,
            None => {
                return Err(DispatchError::MalformedPayload);
            },
        };
        let board = match board_named(&self.payload_data, self.payload_user_id.as_str()) {
            Ok(board) => board,
            Err(_) => {
                return Err(DispatchError::MalformedPayload);
            },
        };
        let cursor = match cursor_named(&self.payload_data) {
            Ok(cursor) => cursor,
            Err(_) => {
                return Err(DispatchError::MalformedPayload);
            },
        };
        let event = self.connections.route(
            self.source_classroom_id.as_str(),
            Selection::AllExcept(self.payload_user_id.clone()),
            encode(&code_changed(self.payload_user_id.as_str(), &board, code, cursor)),
        );
        let mut cls = self.classrooms.take_classroom(self.source_classroom_id.as_str()).unwrap();
        let found = cls.write_code(&board, code.to_owned());
        let reaction = self.settle(cls, event);
        assert(self.state().classrooms =~= code_change(s, m).state.classrooms);
        if found {
            Ok(reaction)
        } else {
            Err(DispatchError::NotFound)
        }
    }

    fn set_lock(&mut self, locked: bool) -> (result: Result<Reaction, DispatchError>)
        requires
            old(self).wf(),
        ensures
            final(self).wf(),
            final(self).message() == old(self).message(),
            final(self).state() == set_lock(old(self).state(), old(self).message(), locked).state,
            answer(result) == set_lock(old(self).state(), old(self).message(), locked).result,
    {
        let ghost s = self.state();
        let ghost m = self.message();
        proof {
            lemma_sender(s, m);
            lemma_set_lock_keeps_wf(s, m, locked);
            old(self).classrooms.lemma_wf_view();
        }
        if let Err(e) = self.teacher() {
            return Err(e);
        }
        let owner = match lookup(&self.payload_data, "target_user") {
            Some(u) => u,
            None => self.payload_user_id.as_str(),
        };
        let board = match board_named(&self.payload_data, owner) {
            Ok(board) => board,
            Err(e) => {
                return Err(e);
            },
        };
        let event = self.connections.route(
            self.source_classroom_id.as_str(),
            Selection::AllExcept(self.payload_user_id.clone()),
            encode(&lock_changed(self.payload_user_id.as_str(), &board, locked)),
        );
        let mut cls = self.classrooms.take_classroom(self.source_classroom_id.as_str()).unwrap();
        let found = cls.write_lock(&board, locked);
        let reaction = self.settle(cls, event);
        assert(self.state().classrooms =~= set_lock(s, m, locked).state.classrooms);
        if found {
            Ok(reaction)
        } else {
            Err(DispatchError::NotFound)
        }
    }

    /// A teacher locks a whiteboard; everyone else in the classroom is
    /// told.
    pub fn lock_code(&mut self) -> (result: Result<Reaction, DispatchError>)
        requires
            old(self).wf(),
        ensures
            final(self).wf(),
            final(self).message() == old(self).message(),
            final(self).state() == set_lock(old(self).state(), old(self).message(), true).state,
            answer(result) == set_lock(old(self).state(), old(self).message(), true).result,
    {
        self.set_lock(true)
    }

    /// A teacher unlocks a whiteboard; everyone else in the classroom is
    /// told.
    pub fn unlock_code(&mut self) -> (result: Result<Reaction, DispatchError>)
        requires
            old(self).wf(),
        ensures
            final(self).wf(),
            final(self).message() == old(self).message(),
            final(self).state() == set_lock(old(self).state(), old(self).message(), false).state,
            answer(result) == set_lock(old(self).state(), old(self).message(), false).result,
    {
        self.set_lock(false)
    }

    /// A teacher hands out an assignment: every student of the classroom
    /// gets a fresh record of it, and the whole classroom is told.
    pub fn assignment_create(&mut self) -> (result: Result<Reaction, DispatchError>)
        requires
            old(self).wf(),
        ensures
            final(self).wf(),
            final(self).message() == old(self).message(),
            final(self).state() == assignment_create(old(self).state(), old(self).message()).state,
            answer(result) == assignment_create(old(self).state(), old(self).message()).result,
    {
        let ghost s = self.state();
        let ghost m = self.message();
        proof {
            lemma_sender(s, m);
            lemma_assignment_create_keeps_wf(s, m);
            old(self).classrooms.lemma_wf_view();
        }
        if let Err(e) = self.teacher() {
            return Err(e);
        }
        let name = match lookup(&self.payload_data, "assignment_name") {
            Some(t) => t,
            None => {
                return Err(DispatchError::MalformedPayload);
            },
        };
        let description = match lookup(&self.payload_data, "assignment_description") {
            Some(t) => t,
            None => {
                return Err(DispatchError::MalformedPayload);
            },
        };
        let code = match lookup(&self.payload_data, "assignment_code") {
            Some(t) => t,
            None => {
                return Err(DispatchError::MalformedPayload);
            },
        };
        let assignment = Assignment::new(name, description, code);
        let event = self.connections.route(
            self.source_classroom_id.as_str(),
            Selection::AllMembers,
            encode(&assignment_created(self.payload_user_id.as_str(), &assignment)),
        );
        let mut cls = self.classrooms.take_classroom(self.source_classroom_id.as_str()).unwrap();
        cls.assign(&assignment);
        let reaction = self.settle(cls, event);
        assert(self.state().classrooms =~= assignment_create(s, m).state.classrooms);
        Ok(reaction)
    }

    /// A student hands in the work on one of their assignments; the
    /// teachers of the classroom are told.
    pub fn submit_assignment(&mut self) -> (result: Result<Reaction, DispatchError>)
        requires
            old(self).wf(),
        ensures
            final(self).wf(),
            final(self).message() == old(self).message(),
            final(self).state() == submit_assignment(old(self).state(), old(self).message()).state,
            answer(result) == submit_assignment(old(self).state(), old(self).message()).result,
    {
        let ghost s = self.state();
        let ghost m = self.message();
        proof {
            lemma_sender(s, m);
            lemma_submit_keeps_wf(s, m);
            old(self).classrooms.lemma_wf_view();
        }
        let i = match self.sender() {
            Ok(i) => i,
            Err(e) => {
                return Err(e);
            },
        };
        if self.connections.entry(i).role != ClassroomUserRole::Student {
            return Err(DispatchError::PermissionDenied);
        }
        let name = match lookup(&self.payload_data, "assignment_name") {
            Some(t) => t,
            None => {
                return Err(DispatchError::MalformedPayload);
            },
        };
        let mut cls = self.classrooms.take_classroom(self.source_classroom_id.as_str()).unwrap();
        match cls.locate_record(self.payload_user_id.as_str(), name) {
            None => {
                self.classrooms.put_classroom(cls);
                assert(self.state().classrooms =~= s.classrooms);
                Err(DispatchError::NotFound)
            },
            Some((j, a)) => {
                let event = self.connections.route(
                    self.source_classroom_id.as_str(),
                    Selection::Role(ClassroomUserRole::Teacher),
                    encode(
                        &submitted(
                            self.payload_user_id.as_str(),
                            name,
                            cls.users[j].user_assignments[a].whiteboard.code(),
                        ),
                    ),
                );
                let accepted = cls.submit_record(j, a);
                let reaction = self.settle(cls, event);
                assert(self.state().classrooms =~= submit_assignment(s, m).state.classrooms);
                if accepted {
                    Ok(reaction)
                } else {
                    Err(DispatchError::InvalidState)
                }
            },
        }
    }

    /// A teacher grades the work of a student on an assignment; that
    /// student alone is told.
    pub fn grade_assignment(&mut self) -> (result: Result<Reaction, DispatchError>)
        requires
            old(self).wf(),
        ensures
            final(self).wf(),
            final(self).message() == old(self).message(),
            final(self).state() == grade_assignment(old(self).state(), old(self).message()).state,
            answer(result) == grade_assignment(old(self).state(), old(self).message()).result,
    {
        let ghost s = self.state();
        let ghost m = self.message();
        proof {
            lemma_sender(s, m);
            lemma_grade_keeps_wf(s, m);
            old(self).classrooms.lemma_wf_view();
        }
        if let Err(e) = self.teacher() {
            return Err(e);
        }
        let target = match lookup(&self.payload_data, "target_user") {
            Some(t) => t,
            None => {
                return Err(DispatchError::MalformedPayload);
            },
        };
        let name = match lookup(&self.payload_data, "assignment_name") {
            Some(t) => t,
            None => {
                return Err(DispatchError::MalformedPayload);
            },
        };
        let grade = match grade_named(&self.payload_data) {
            Some(g) => g,
            None => {
                return Err(DispatchError::MalformedPayload);
            },
        };
        let outcome = match outcome_named(&self.payload_data) {
            Some(o) => o,
            None => {
                return Err(DispatchError::MalformedPayload);
            },
        };
        let feedback = match lookup(&self.payload_data, "feedback") {
            Some(t) => t,
            None => "",
        };
        proof {
            reveal_strlit("");
            assert(feedback@ =~= named_feedback(m.fields));
        }
        let mut cls = self.classrooms.take_classroom(self.source_classroom_id.as_str()).unwrap();
        match cls.locate_record(target, name) {
            None => {
                self.classrooms.put_classroom(cls);
                assert(self.state().classrooms =~= s.classrooms);
                Err(DispatchError::NotFound)
            },
            Some((j, a)) => {
                let event = self.connections.route(
                    self.source_classroom_id.as_str(),
                    Selection::Single(target.to_owned()),
                    encode(
                        &graded(
                            self.payload_user_id.as_str(),
                            target,
                            name,
                            grade,
                            feedback,
                            outcome,
                        ),
                    ),
                );
                let accepted = cls.grade_record(j, a, grade, feedback, outcome);
                let reaction = self.settle(cls, event);
                assert(self.state().classrooms =~= grade_assignment(s, m).state.classrooms);
                if accepted {
                    Ok(reaction)
                } else {
                    Err(DispatchError::InvalidState)
                }
            },
        }
    }
}

/// The whiteboard that the fields name, with `owner` as the user whose
/// private or assignment whiteboard is meant.
pub fn board_named(fields: &Vec<(String, String)>, owner: &str) -> (board: Result<
    Board,
    DispatchError,
>)
    ensures
        match board {
            Ok(b) => named_board(pairs(fields@), owner@) == Ok::<BoardView, DispatchError>(b@),
            Err(e) => named_board(pairs(fields@), owner@) == Err::<BoardView, DispatchError>(e),
        },
{
    match lookup(fields, "target") {
        None => Ok(Board::Public),
        Some(t) => {
            if same_text(t, "public") {
                Ok(Board::Public)
            } else if same_text(t, "private") {
                Ok(Board::Private(owner.to_owned()))
            } else if same_text(t, "assignment") {
                match lookup(fields, "assignment_name") {
                    Some(name) => Ok(Board::Assignment(owner.to_owned(), name.to_owned())),
                    None => Err(DispatchError::MalformedPayload),
                }
            } else {
                Err(DispatchError::MalformedPayload)
            }
        },
    }
}

/// The cursor that the fields carry.
pub fn cursor_named(fields: &Vec<(String, String)>) -> (cursor: Result<
    Option<CursorPosition>,
    DispatchError,
>)
    ensures
        cursor == named_cursor(pairs(fields@)),
{
    let p = match lookup(fields, "position") {
        None => {
            return Ok(None);
        },
        Some(p) => p,
    };
    let position = parse_int(p);
    let r = lookup(fields, "row");
    let c = lookup(fields, "col");
    match (position, r, c) {
        (Some(position), Some(r), Some(c)) => match (parse_int(r), parse_int(c)) {
            (Some(row), Some(col)) => Ok(Some(CursorPosition { position, row, col })),
            _ => Err(DispatchError::MalformedPayload),
        },
        _ => Err(DispatchError::MalformedPayload),
    }
}

/// The grade that the fields give.
pub fn grade_named(fields: &Vec<(String, String)>) -> (grade: Option<i32>)
    ensures
        grade == named_grade(pairs(fields@)),
{
    match lookup(fields, "grade") {
        None => None,
        Some(t) => parse_int(t),
    }
}

/// The status that grading is to end in, as the fields give it.
pub fn outcome_named(fields: &Vec<(String, String)>) -> (outcome: Option<AssignmentStatus>)
    ensures
        outcome == named_outcome(pairs(fields@)),
{
    match lookup(fields, "status") {
        None => None,
        Some(t) => match parse_int(t) {
            None => None,
            Some(code) => match AssignmentStatus::from_code(code) {
                Some(AssignmentStatus::Completed) => Some(AssignmentStatus::Completed),
                Some(AssignmentStatus::Correctable) => Some(AssignmentStatus::Correctable),
                _ => None,
            },
        },
    }
}

} // verus!
