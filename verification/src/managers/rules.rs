//! The rules of the dispatcher, as functions from a state and a message to
//! the next state and the reaction.

use crate::error::DispatchError;
use crate::managers::classroom_manager::keyed;
use crate::managers::connection_manager::{
    audience, connection_of, distinct_keys, registered, routed, with_entry, without_classroom,
    OutboundView, RegistrationView, SelectionView,
};
use crate::managers::notices::{
    assignment_fields, closed_fields, code_fields, graded_fields, joined_fields, left_fields,
    lock_fields, roster_fields, snapshot_fields, submitted_fields,
};
use crate::models::assignment::AssignmentView;
use crate::models::classroom::{BoardView, ClassroomView};
use crate::models::consts::{Actions, AssignmentStatus, ClassroomUserRole, UserStatus};
use crate::models::cursor_position::CursorPosition;
use crate::models::user::UserView;
use crate::models::whiteboard::WhiteboardView;
use crate::text::{encoded, field, parsed_i32};
use vstd::prelude::*;

verus! {

/// The shared state: the classroom store, the connection registry, the
/// connections that have not joined yet, and the policy on empty classrooms.
pub struct HubView {
    pub classrooms: Map<Seq<char>, ClassroomView>,
    pub registry: Seq<RegistrationView>,
    pub pending: Seq<usize>,
    pub remove_empty: bool,
}

/// One inbound message with the connection it came in on.
pub struct MessageView {
    pub connection: usize,
    pub action: int,
    pub user_id: Seq<char>,
    pub classroom_id: Seq<char>,
    pub fields: Seq<(Seq<char>, Seq<char>)>,
}

impl MessageView {
    /// The message of a dispatcher that has loaded none: connection 0, the
    /// code of `NoAction`, and empty texts and fields.
    pub open spec fn blank() -> MessageView {
        MessageView {
            connection: 0,
            action: 0,
            user_id: Seq::empty(),
            classroom_id: Seq::empty(),
            fields: Seq::empty(),
        }
    }
}

/// What the dispatcher hands back for an accepted action: the events to
/// deliver, in order, and the connections to close after delivery.
pub struct ReactionView {
    pub events: Seq<OutboundView>,
    pub closed: Seq<usize>,
}

/// The state after an action and what the dispatcher answers.
pub struct Outcome {
    pub state: HubView,
    pub result: Result<ReactionView, DispatchError>,
}

/// The lifecycle state of a connection.
pub enum SessionView {
    Connecting,
    Joined { classroom_id: Seq<char>, user_id: Seq<char> },
    Disconnected,
}

/// The connections of a registry, in registration order.
pub open spec fn connections(reg: Seq<RegistrationView>) -> Seq<usize> {
    reg.map_values(|r: RegistrationView| r.connection)
}

/// The position of the registration that `connection` serves, if any.
pub open spec fn serving(reg: Seq<RegistrationView>, connection: usize) -> Option<int> {
    connections(reg).index_of_first(connection)
}

/// A member of a stored classroom stands behind the registration, with the
/// same role.
pub open spec fn enrolled(classrooms: Map<Seq<char>, ClassroomView>, r: RegistrationView) -> bool {
    &&& classrooms.contains_key(r.classroom_id)
    &&& classrooms[r.classroom_id].has_user(r.user_id)
    &&& classrooms[r.classroom_id].user(r.user_id).role == r.role
}

impl HubView {
    /// The state before anything has happened.
    pub open spec fn initial(remove_empty: bool) -> HubView {
        HubView {
            classrooms: Map::empty(),
            registry: Seq::empty(),
            pending: Seq::empty(),
            remove_empty,
        }
    }

    /// The store and the registry agree. Every registration stands for a
    /// member of a stored classroom, every member is online and registered,
    /// no user is registered twice in a classroom, no classroom holds a user
    /// twice, and no connection is in use twice.
    pub open spec fn wf(self) -> bool {
        &&& self.classrooms.dom().finite()
        &&& keyed(self.classrooms)
        &&& forall|c: Seq<char>| #[trigger]
            self.classrooms.contains_key(c) ==> self.classrooms[c].wf()
        &&& distinct_keys(self.registry)
        &&& forall|i: int|
            0 <= i < self.registry.len() ==> enrolled(self.classrooms, #[trigger] self.registry[i])
        &&& forall|c: Seq<char>, j: int|
            #![trigger self.classrooms[c].users[j]]
            self.classrooms.contains_key(c) && 0 <= j < self.classrooms[c].users.len() ==> {
                &&& self.classrooms[c].users[j].status == UserStatus::Online
                &&& registered(self.registry, c, self.classrooms[c].users[j].user_id)
            }
        &&& connections(self.registry).no_duplicates()
        &&& self.pending.no_duplicates()
        &&& forall|i: int, k: int|
            0 <= i < self.registry.len() && 0 <= k < self.pending.len() ==> (
            #[trigger] self.registry[i]).connection != #[trigger] self.pending[k]
    }

    /// The lifecycle state of a connection: connecting while it is pending,
    /// joined while the registry holds it, disconnected otherwise.
    pub open spec fn session(self, connection: usize) -> SessionView {
        if self.pending.contains(connection) {
            SessionView::Connecting
        } else {
            match serving(self.registry, connection) {
                Some(i) => SessionView::Joined {
                    classroom_id: self.registry[i].classroom_id,
                    user_id: self.registry[i].user_id,
                },
                None => SessionView::Disconnected,
            }
        }
    }

    /// How many members a classroom has; none if it is not stored.
    pub open spec fn membership(self, classroom_id: Seq<char>) -> nat {
        if self.classrooms.contains_key(classroom_id) {
            self.classrooms[classroom_id].users.len()
        } else {
            0
        }
    }

    /// The state with one classroom replaced.
    pub open spec fn with_classroom(self, classroom: ClassroomView) -> HubView {
        HubView { classrooms: self.classrooms.insert(classroom.classroom_id, classroom), ..self }
    }
}

/// The outcome of a rejected action: the state is as it was.
pub open spec fn rejected(s: HubView, e: DispatchError) -> Outcome {
    Outcome { state: s, result: Err(e) }
}

/// The outcome of an accepted action that delivers one event and closes
/// nothing.
pub open spec fn accepted(s: HubView, event: OutboundView) -> Outcome {
    Outcome { state: s, result: Ok(ReactionView { events: seq![event], closed: Seq::empty() }) }
}

/// Who sent a message: the position of the registration that the
/// connection serves. A connection that has not joined is unauthenticated;
/// one that names another user or classroom than its own is denied.
pub open spec fn sender(s: HubView, m: MessageView) -> Result<int, DispatchError> {
    match serving(s.registry, m.connection) {
        None => Err(DispatchError::Unauthenticated),
        Some(i) => if s.registry[i].classroom_id == m.classroom_id && s.registry[i].user_id
            == m.user_id {
            Ok(i)
        } else {
            Err(DispatchError::PermissionDenied)
        },
    }
}

/// The sender as a teacher: as `sender`, and a student is denied.
pub open spec fn teacher(s: HubView, m: MessageView) -> Result<int, DispatchError> {
    match sender(s, m) {
        Err(e) => Err(e),
        Ok(i) => if s.registry[i].role == ClassroomUserRole::Teacher {
            Ok(i)
        } else {
            Err(DispatchError::PermissionDenied)
        },
    }
}

/// Lets a pending connection into a classroom as `role`. The classroom is
/// created if it is not stored. A user already in the classroom is taken
/// over with the role held there: the connection that served that user is
/// superseded and closed. Everyone else in the classroom is told, and a
/// teacher gets the roster.
pub open spec fn enter(s: HubView, m: MessageView, role: ClassroomUserRole) -> Outcome {
    if !s.pending.contains(m.connection) {
        rejected(
            s,
            if serving(s.registry, m.connection) is Some {
                DispatchError::InvalidState
            } else {
                DispatchError::Unauthenticated
            },
        )
    } else {
        let c = m.classroom_id;
        let u = m.user_id;
        let before = if s.classrooms.contains_key(c) {
            s.classrooms[c]
        } else {
            ClassroomView::fresh(c)
        };
        let held = if before.has_user(u) {
            before.user(u).role
        } else {
            role
        };
        let after = if before.has_user(u) {
            before.with_user(
                before.user_index(u),
                UserView { status: UserStatus::Online, ..before.user(u) },
            )
        } else {
            ClassroomView { users: before.users.push(UserView::fresh(u, role)), ..before }
        };
        let registry = with_entry(
            s.registry,
            RegistrationView { classroom_id: c, user_id: u, role: held, connection: m.connection },
        );
        let notice = routed(
            registry,
            c,
            SelectionView::AllExcept(u),
            encoded(joined_fields(u, held)),
        );
        Outcome {
            state: HubView {
                classrooms: s.classrooms.insert(c, after),
                registry,
                pending: s.pending.remove_value(m.connection),
                remove_empty: s.remove_empty,
            },
            result: Ok(
                ReactionView {
                    events: if held == ClassroomUserRole::Teacher {
                        seq![
                            notice,
                            routed(
                                registry,
                                c,
                                SelectionView::Single(u),
                                encoded(roster_fields(after)),
                            ),
                        ]
                    } else {
                        seq![notice]
                    },
                    closed: match connection_of(s.registry, c, u) {
                        Some(k) => seq![k],
                        None => Seq::empty(),
                    },
                },
            ),
        }
    }
}

/// The state after the member behind registration `i` has gone: the user
/// leaves the classroom and the registry, and a classroom left empty is
/// discarded where the policy says so.
pub open spec fn depart(s: HubView, i: int) -> HubView {
    let r = s.registry[i];
    let before = s.classrooms[r.classroom_id];
    let after = ClassroomView {
        users: before.users.remove(before.user_index(r.user_id)),
        ..before
    };
    HubView {
        classrooms: if s.remove_empty && after.users.len() == 0 {
            s.classrooms.remove(r.classroom_id)
        } else {
            s.classrooms.insert(r.classroom_id, after)
        },
        registry: s.registry.remove(i),
        ..s
    }
}

/// The event that tells those who remain that `user_id` has gone.
pub open spec fn farewell(s: HubView, classroom_id: Seq<char>, user_id: Seq<char>) -> OutboundView {
    routed(s.registry, classroom_id, SelectionView::AllMembers, encoded(left_fields(user_id)))
}

/// A member leaves: those who remain are told, and the connection closes.
pub open spec fn leave(s: HubView, m: MessageView) -> Outcome {
    match sender(s, m) {
        Err(e) => rejected(s, e),
        Ok(i) => {
            let t = depart(s, i);
            Outcome {
                state: t,
                result: Ok(
                    ReactionView {
                        events: seq![farewell(t, m.classroom_id, m.user_id)],
                        closed: seq![m.connection],
                    },
                ),
            }
        },
    }
}

/// The transport reports that a connection is gone. A pending connection
/// is forgotten; a joined one leaves as by `leave`; any other changes
/// nothing.
pub open spec fn disconnected(s: HubView, connection: usize) -> (HubView, Seq<OutboundView>) {
    if s.pending.contains(connection) {
        (HubView { pending: s.pending.remove_value(connection), ..s }, Seq::empty())
    } else {
        match serving(s.registry, connection) {
            Some(i) => {
                let t = depart(s, i);
                (t, seq![farewell(t, s.registry[i].classroom_id, s.registry[i].user_id)])
            },
            None => (s, Seq::empty()),
        }
    }
}

/// The transport reports a new connection. An id that is pending or joined
/// is refused; any other becomes pending.
pub open spec fn connected(s: HubView, connection: usize) -> Outcome {
    if s.pending.contains(connection) || serving(s.registry, connection) is Some {
        rejected(s, DispatchError::InvalidState)
    } else {
        Outcome {
            state: HubView { pending: s.pending.push(connection), ..s },
            result: Ok(ReactionView { events: Seq::empty(), closed: Seq::empty() }),
        }
    }
}

/// A teacher closes the classroom: every member is told and then
/// disconnected, and the classroom is discarded.
pub open spec fn classroom_deleted(s: HubView, m: MessageView) -> Outcome {
    match teacher(s, m) {
        Err(e) => rejected(s, e),
        Ok(i) => {
            let c = m.classroom_id;
            Outcome {
                state: HubView {
                    classrooms: s.classrooms.remove(c),
                    registry: without_classroom(s.registry, c),
                    ..s
                },
                result: Ok(
                    ReactionView {
                        events: seq![
                            routed(
                                s.registry,
                                c,
                                SelectionView::AllMembers,
                                encoded(closed_fields(c, m.user_id)),
                            ),
                        ],
                        closed: audience(s.registry, c, None, None, None),
                    },
                ),
            }
        },
    }
}

/// The whiteboard that the fields of a message name, with `owner` as the
/// user whose private or assignment whiteboard is meant. No `target`, or
/// `public`, is the shared whiteboard.
pub open spec fn named_board(fields: Seq<(Seq<char>, Seq<char>)>, owner: Seq<char>) -> Result<
    BoardView,
    DispatchError,
> {
    match field(fields, "target"@) {
        None => Ok(BoardView::Public),
        Some(t) => if t == "public"@ {
            Ok(BoardView::Public)
        } else if t == "private"@ {
            Ok(BoardView::Private(owner))
        } else if t == "assignment"@ {
            match field(fields, "assignment_name"@) {
                Some(name) => Ok(BoardView::Assignment(owner, name)),
                None => Err(DispatchError::MalformedPayload),
            }
        } else {
            Err(DispatchError::MalformedPayload)
        },
    }
}

/// The cursor that the fields of a message carry: none without a
/// `position`; with one, `position`, `row` and `col` must all be numbers.
pub open spec fn named_cursor(fields: Seq<(Seq<char>, Seq<char>)>) -> Result<
    Option<CursorPosition>,
    DispatchError,
> {
    match field(fields, "position"@) {
        None => Ok(None),
        Some(p) => match (parsed_i32(p), field(fields, "row"@), field(fields, "col"@)) {
            (Some(position), Some(r), Some(c)) => match (parsed_i32(r), parsed_i32(c)) {
                (Some(row), Some(col)) => Ok(Some(CursorPosition { position, row, col })),
                _ => Err(DispatchError::MalformedPayload),
            },
            _ => Err(DispatchError::MalformedPayload),
        },
    }
}

/// A member replaces the code of the shared whiteboard or of one of their
/// own; everyone else in the classroom is told.
pub open spec fn code_change(s: HubView, m: MessageView) -> Outcome {
    match sender(s, m) {
        Err(e) => rejected(s, e),
        Ok(i) => match (field(m.fields, "code"@), named_board(m.fields, m.user_id), named_cursor(
            m.fields,
        )) {
            (Some(code), Ok(board), Ok(cursor)) => {
                let before = s.classrooms[m.classroom_id];
                match before.board(board) {
                    None => rejected(s, DispatchError::NotFound),
                    Some(w) => accepted(
                        s.with_classroom(
                            before.with_board(board, WhiteboardView { code, ..w }),
                        ),
                        routed(
                            s.registry,
                            m.classroom_id,
                            SelectionView::AllExcept(m.user_id),
                            encoded(code_fields(m.user_id, board, code, cursor)),
                        ),
                    ),
                }
            },
            _ => rejected(s, DispatchError::MalformedPayload),
        },
    }
}

/// A member asks for the state of the classroom and gets it, alone.
pub open spec fn get_data(s: HubView, m: MessageView) -> Outcome {
    match sender(s, m) {
        Err(e) => rejected(s, e),
        Ok(i) => accepted(
            s,
            routed(
                s.registry,
                m.classroom_id,
                SelectionView::Single(m.user_id),
                encoded(snapshot_fields(s.classrooms[m.classroom_id])),
            ),
        ),
    }
}

/// A teacher sets the editability flag of a whiteboard: the shared one, or
/// the private or assignment one of `target_user` (of the teacher, where
/// no user is named). Everyone else in the classroom is told.
pub open spec fn set_lock(s: HubView, m: MessageView, locked: bool) -> Outcome {
    match teacher(s, m) {
        Err(e) => rejected(s, e),
        Ok(i) => {
            let owner = match field(m.fields, "target_user"@) {
                Some(u) => u,
                None => m.user_id,
            };
            match named_board(m.fields, owner) {
                Err(e) => rejected(s, e),
                Ok(board) => {
                    let before = s.classrooms[m.classroom_id];
                    match before.board(board) {
                        None => rejected(s, DispatchError::NotFound),
                        Some(w) => accepted(
                            s.with_classroom(
                                before.with_board(board, WhiteboardView { locked, ..w }),
                            ),
                            routed(
                                s.registry,
                                m.classroom_id,
                                SelectionView::AllExcept(m.user_id),
                                encoded(lock_fields(m.user_id, board, locked)),
                            ),
                        ),
                    }
                },
            }
        },
    }
}

/// A teacher hands out an assignment: every student of the classroom gets
/// a fresh record of it, and the whole classroom is told.
pub open spec fn assignment_create(s: HubView, m: MessageView) -> Outcome {
    match teacher(s, m) {
        Err(e) => rejected(s, e),
        Ok(i) => match (
            field(m.fields, "assignment_name"@),
            field(m.fields, "assignment_description"@),
            field(m.fields, "assignment_code"@),
        ) {
            (Some(name), Some(description), Some(code)) => {
                let assignment = AssignmentView {
                    assignment_name: name,
                    assignment_description: description,
                    assignment_code: code,
                };
                accepted(
                    s.with_classroom(s.classrooms[m.classroom_id].assigned(assignment)),
                    routed(
                        s.registry,
                        m.classroom_id,
                        SelectionView::AllMembers,
                        encoded(assignment_fields(m.user_id, assignment)),
                    ),
                )
            },
            _ => rejected(s, DispatchError::MalformedPayload),
        },
    }
}

/// A student hands in the work on one of their assignments; the teachers
/// of the classroom are told.
pub open spec fn submit_assignment(s: HubView, m: MessageView) -> Outcome {
    match sender(s, m) {
        Err(e) => rejected(s, e),
        Ok(i) => if s.registry[i].role != ClassroomUserRole::Student {
            rejected(s, DispatchError::PermissionDenied)
        } else {
            match field(m.fields, "assignment_name"@) {
                None => rejected(s, DispatchError::MalformedPayload),
                Some(name) => {
                    let before = s.classrooms[m.classroom_id];
                    match before.record_place(m.user_id, name) {
                        None => rejected(s, DispatchError::NotFound),
                        Some((j, a)) => {
                            let r = before.users[j].user_assignments[a];
                            if !r.can_submit() {
                                rejected(s, DispatchError::InvalidState)
                            } else {
                                accepted(
                                    s.with_classroom(before.with_record(j, a, r.submitted())),
                                    routed(
                                        s.registry,
                                        m.classroom_id,
                                        SelectionView::Role(ClassroomUserRole::Teacher),
                                        encoded(
                                            submitted_fields(m.user_id, name, r.whiteboard.code),
                                        ),
                                    ),
                                )
                            }
                        },
                    }
                },
            }
        },
    }
}

/// The status that grading is to end in, as the `status` field gives it:
/// the code of `Completed` or of `Correctable`.
pub open spec fn named_outcome(fields: Seq<(Seq<char>, Seq<char>)>) -> Option<AssignmentStatus> {
    match field(fields, "status"@) {
        None => None,
        Some(t) => match parsed_i32(t) {
            None => None,
            Some(code) => match AssignmentStatus::spec_from_code(code as int) {
                Some(AssignmentStatus::Completed) => Some(AssignmentStatus::Completed),
                Some(AssignmentStatus::Correctable) => Some(AssignmentStatus::Correctable),
                _ => None,
            },
        },
    }
}

/// The grade that the `grade` field gives.
pub open spec fn named_grade(fields: Seq<(Seq<char>, Seq<char>)>) -> Option<i32> {
    match field(fields, "grade"@) {
        None => None,
        Some(t) => parsed_i32(t),
    }
}

/// The feedback that the `feedback` field gives; none is the empty text.
pub open spec fn named_feedback(fields: Seq<(Seq<char>, Seq<char>)>) -> Seq<char> {
    match field(fields, "feedback"@) {
        None => Seq::empty(),
        Some(t) => t,
    }
}

/// A teacher grades the work of `target_user` on an assignment; that
/// student alone is told.
pub open spec fn grade_assignment(s: HubView, m: MessageView) -> Outcome {
    match teacher(s, m) {
        Err(e) => rejected(s, e),
        Ok(i) => match (
            field(m.fields, "target_user"@),
            field(m.fields, "assignment_name"@),
            named_grade(m.fields),
            named_outcome(m.fields),
        ) {
            (Some(target), Some(name), Some(grade), Some(outcome)) => {
                let before = s.classrooms[m.classroom_id];
                let feedback = named_feedback(m.fields);
                match before.record_place(target, name) {
                    None => rejected(s, DispatchError::NotFound),
                    Some((j, a)) => {
                        let r = before.users[j].user_assignments[a];
                        if !r.can_grade(outcome) {
                            rejected(s, DispatchError::InvalidState)
                        } else {
                            accepted(
                                s.with_classroom(
                                    before.with_record(j, a, r.graded(grade, feedback, outcome)),
                                ),
                                routed(
                                    s.registry,
                                    m.classroom_id,
                                    SelectionView::Single(target),
                                    encoded(
                                        graded_fields(
                                            m.user_id,
                                            target,
                                            name,
                                            grade,
                                            feedback,
                                            outcome,
                                        ),
                                    ),
                                ),
                            )
                        }
                    },
                }
            },
            _ => rejected(s, DispatchError::MalformedPayload),
        },
    }
}

/// What the dispatcher does with a message. A connection that is not known
/// is unauthenticated. A pending connection may only join, as a student or
/// as a teacher. A joined connection may do anything but join again; a
/// code that names no action, or names `NoAction`, is malformed.
pub open spec fn step(s: HubView, m: MessageView) -> Outcome {
    match s.session(m.connection) {
        SessionView::Disconnected => rejected(s, DispatchError::Unauthenticated),
        SessionView::Connecting => match Actions::spec_from_code(m.action) {
            Some(Actions::Join) => enter(s, m, ClassroomUserRole::Student),
            Some(Actions::TeacherJoin) => enter(s, m, ClassroomUserRole::Teacher),
            _ => rejected(s, DispatchError::Unauthenticated),
        },
        SessionView::Joined { .. } => match Actions::spec_from_code(m.action) {
            None => rejected(s, DispatchError::MalformedPayload),
            Some(Actions::NoAction) => rejected(s, DispatchError::MalformedPayload),
            Some(Actions::Join) => rejected(s, DispatchError::InvalidState),
            Some(Actions::TeacherJoin) => rejected(s, DispatchError::InvalidState),
            Some(Actions::CodeChange) => code_change(s, m),
            Some(Actions::SyncData) => get_data(s, m),
            Some(Actions::GetData) => get_data(s, m),
            Some(Actions::Leave) => leave(s, m),
            Some(Actions::LockCode) => set_lock(s, m, true),
            Some(Actions::UnlockCode) => set_lock(s, m, false),
            Some(Actions::ClassroomDeleted) => classroom_deleted(s, m),
            Some(Actions::AssignmentCreate) => assignment_create(s, m),
            Some(Actions::SubmitAssignment) => submit_assignment(s, m),
            Some(Actions::GradeAssignment) => grade_assignment(s, m),
        },
    }
}

} // verus!
