//! What holds of the dispatcher in every well-formed state.

use crate::error::DispatchError;
use crate::managers::agreement::{
    lemma_connected_keeps_wf, lemma_depart_keeps_wf, lemma_disconnected_keeps_wf, lemma_has_user,
    lemma_initial_wf, lemma_remove_value, lemma_sender, lemma_serving, lemma_serving_unique,
    lemma_slot, lemma_step_keeps_wf, lemma_user_index, lemma_with_board_same_members,
};
use crate::managers::connection_manager::{
    audience, passes, passing, recipients, registered, slot, RegistrationView, SelectionView,
};
use crate::managers::rules::{
    assignment_create, classroom_deleted, code_change, connected, connections, depart, disconnected,
    enrolled, enter, get_data, grade_assignment, leave, named_board, named_feedback, named_grade,
    named_outcome, sender, serving, set_lock, step, submit_assignment, teacher, HubView,
    MessageView, ReactionView, SessionView,
};
use crate::models::assignment::{AssignmentView, UserAssignmentView};
use crate::models::classroom::{BoardView, ClassroomView};
use crate::models::user::UserView;
use crate::models::consts::{
    Actions, AssignmentStatus, ClassroomUserRole, UserStatus, WhiteboardType,
};
use crate::models::whiteboard::WhiteboardView;
use crate::text::field;
use vstd::prelude::*;

verus! {

/// A connection is in an audience exactly if a registration that passes
/// the filters names it.
pub proof fn lemma_audience_contains(
    reg: Seq<RegistrationView>,
    classroom_id: Seq<char>,
    only: Option<Seq<char>>,
    exclude: Option<Seq<char>>,
    role: Option<ClassroomUserRole>,
    connection: usize,
)
    ensures
        audience(reg, classroom_id, only, exclude, role).contains(connection) <==> exists|i: int|
            0 <= i < reg.len() && (#[trigger] reg[i]).connection == connection && passes(
                reg[i],
                classroom_id,
                only,
                exclude,
                role,
            ),
{
    let pred = |r: RegistrationView| passes(r, classroom_id, only, exclude, role);
    let kept = passing(reg, classroom_id, only, exclude, role);
    let out = audience(reg, classroom_id, only, exclude, role);
    if out.contains(connection) {
        let j = choose|j: int| 0 <= j < out.len() && out[j] == connection;
        assert(kept[j].connection == connection);
        assert(kept.contains(kept[j]));
        reg.lemma_filter_contains_rev(pred, kept[j]);
        reg.lemma_filter_pred(pred, j);
        let i = choose|i: int| 0 <= i < reg.len() && reg[i] == kept[j];
        assert(reg[i].connection == connection && passes(
            reg[i],
            classroom_id,
            only,
            exclude,
            role,
        ));
    }
    if exists|i: int|
        0 <= i < reg.len() && (#[trigger] reg[i]).connection == connection && passes(
            reg[i],
            classroom_id,
            only,
            exclude,
            role,
        ) {
        let i = choose|i: int|
            0 <= i < reg.len() && (#[trigger] reg[i]).connection == connection && passes(
                reg[i],
                classroom_id,
                only,
                exclude,
                role,
            );
        reg.lemma_filter_contains(pred, i);
        let j = choose|j: int| 0 <= j < kept.len() && kept[j] == reg[i];
        assert(out[j] == connection);
    }
}

/// An action that is rejected changes nothing.
pub proof fn law_rejection_changes_nothing(s: HubView, m: MessageView)
    ensures
        step(s, m).result is Err ==> step(s, m).state == s,
{
}

/// A code change that is accepted goes to every other registered member
/// of the sender's classroom and to nobody else: the connection of a
/// registration receives it exactly if the registration is in that
/// classroom and is not the sender's.
pub proof fn law_code_change_reaches_classmates_only(s: HubView, m: MessageView, i: int)
    requires
        s.wf(),
        code_change(s, m).result is Ok,
        0 <= i < s.registry.len(),
    ensures
        code_change(s, m).result->Ok_0.events.len() == 1,
        code_change(s, m).result->Ok_0.events[0].recipients == recipients(
            s.registry,
            m.classroom_id,
            SelectionView::AllExcept(m.user_id),
        ),
        code_change(s, m).result->Ok_0.events[0].recipients.contains(s.registry[i].connection)
            <==> (s.registry[i].classroom_id == m.classroom_id && s.registry[i].user_id
            != m.user_id),
{
    let k = s.registry[i].connection;
    lemma_audience_contains(s.registry, m.classroom_id, None, Some(m.user_id), None, k);
    if audience(s.registry, m.classroom_id, None, Some(m.user_id), None).contains(k) {
        let w = choose|w: int|
            0 <= w < s.registry.len() && (#[trigger] s.registry[w]).connection == k && passes(
                s.registry[w],
                m.classroom_id,
                None,
                Some(m.user_id),
                None,
            );
        lemma_serving_unique(s.registry, w);
        lemma_serving_unique(s.registry, i);
    }
}

/// Grading by anyone but a teacher of the classroom is rejected and
/// changes nothing: no status, no grade and no history moves.
pub proof fn law_only_teachers_grade(s: HubView, m: MessageView)
    requires
        s.wf(),
        Actions::spec_from_code(m.action) == Some(Actions::GradeAssignment),
        !(teacher(s, m) is Ok),
    ensures
        step(s, m).result is Err,
        step(s, m).state == s,
        grade_assignment(s, m).result is Err,
        grade_assignment(s, m).state == s,
        sender(s, m) is Ok ==> step(s, m).result == Err::<
            ReactionView,
            DispatchError,
        >(DispatchError::PermissionDenied),
{
    lemma_sender(s, m);
    lemma_serving(s.registry, m.connection);
    if let Ok(i) = sender(s, m) {
        assert(!s.pending.contains(m.connection));
    }
}

/// Locking by anyone but a teacher of the classroom is rejected and leaves
/// every lock as it is.
pub proof fn law_only_teachers_lock(s: HubView, m: MessageView, locked: bool)
    requires
        s.wf(),
        !(teacher(s, m) is Ok),
    ensures
        set_lock(s, m, locked).result is Err,
        set_lock(s, m, locked).state == s,
        sender(s, m) is Ok ==> set_lock(s, m, locked).result == Err::<
            ReactionView,
            DispatchError,
        >(DispatchError::PermissionDenied),
{
}

/// Work that is not started is handed in and then graded: the status goes
/// from `NotStarted` to `Submitted` and on to the outcome of the grading,
/// and each grading appends exactly one grade and one feedback to the
/// histories, leaving what they held in place.
pub proof fn law_submit_then_grade(
    r: UserAssignmentView,
    grade: i32,
    feedback: Seq<char>,
    outcome: AssignmentStatus,
)
    requires
        r.status == AssignmentStatus::NotStarted,
        outcome == AssignmentStatus::Completed || outcome == AssignmentStatus::Correctable,
    ensures
        r.can_submit(),
        r.submitted().status == AssignmentStatus::Submitted,
        r.submitted().grade_history == r.grade_history,
        r.submitted().feedback_history == r.feedback_history,
        r.submitted().can_grade(outcome),
        r.submitted().graded(grade, feedback, outcome).status == outcome,
        r.submitted().graded(grade, feedback, outcome).grade_history.len() == r.grade_history.len()
            + 1,
        r.submitted().graded(grade, feedback, outcome).grade_history.drop_last()
            == r.grade_history,
        r.submitted().graded(grade, feedback, outcome).grade_history.last() == grade,
        r.submitted().graded(grade, feedback, outcome).feedback_history.drop_last()
            == r.feedback_history,
{
    let g = r.submitted().graded(grade, feedback, outcome);
    assert(g.grade_history.drop_last() =~= r.grade_history);
    assert(g.feedback_history.drop_last() =~= r.feedback_history);
}

/// Once a connection is gone, no fan-out in any classroom, by any filter,
/// reaches it, and its session is over.
pub proof fn law_disconnected_is_unreachable(
    s: HubView,
    connection: usize,
    classroom_id: Seq<char>,
    only: Option<Seq<char>>,
    exclude: Option<Seq<char>>,
    role: Option<ClassroomUserRole>,
)
    requires
        s.wf(),
    ensures
        !audience(disconnected(s, connection).0.registry, classroom_id, only, exclude, role).contains(
            connection,
        ),
        disconnected(s, connection).0.session(connection) == SessionView::Disconnected,
        s.session(connection) matches SessionView::Joined { classroom_id: c, user_id: u }
            ==> !registered(disconnected(s, connection).0.registry, c, u),
{
    let t = disconnected(s, connection).0;
    lemma_disconnected_keeps_wf(s, connection);
    lemma_serving(s.registry, connection);
    lemma_serving(t.registry, connection);
    lemma_audience_contains(t.registry, classroom_id, only, exclude, role, connection);
    // no registration of the new state names the connection
    assert forall|x: int| 0 <= x < t.registry.len() implies (#[trigger] t.registry[x]).connection
        != connection by {
        if s.pending.contains(connection) {
            let kp = choose|kp: int| 0 <= kp < s.pending.len() && s.pending[kp] == connection;
            assert(s.registry[x].connection != s.pending[kp]);
        } else if let Some(i) = serving(s.registry, connection) {
            let x2 = if x < i { x } else { x + 1 };
            assert(t.registry[x] == s.registry[x2]);
            assert(connections(s.registry)[x2] == s.registry[x2].connection);
            assert(connections(s.registry)[i] == s.registry[i].connection);
        }
    }
    if s.pending.contains(connection) {
        lemma_remove_value(s.pending, connection);
    } else if let Some(i) = serving(s.registry, connection) {
        // the user of the connection is no longer registered
        let c = s.registry[i].classroom_id;
        let u = s.registry[i].user_id;
        if registered(t.registry, c, u) {
            let w = choose|w: int|
                0 <= w < t.registry.len() && (#[trigger] t.registry[w]).classroom_id == c
                    && t.registry[w].user_id == u;
            let w2 = if w < i { w } else { w + 1 };
            assert(t.registry[w] == s.registry[w2]);
            lemma_slot(s.registry, i);
            lemma_slot(s.registry, w2);
        }
    }
    if let Some(f) = serving(t.registry, connection) {
        assert(t.registry[f].connection != connection);
    }
}

/// What reaches the dispatcher: a new connection, a message, or the loss
/// of a connection.
pub enum InputView {
    Connect(usize),
    Message(MessageView),
    Disconnect(usize),
}

/// The state after one input.
pub open spec fn react(s: HubView, e: InputView) -> HubView {
    match e {
        InputView::Connect(k) => connected(s, k).state,
        InputView::Message(m) => step(s, m).state,
        InputView::Disconnect(k) => disconnected(s, k).0,
    }
}

/// The state after a sequence of inputs, taken in order.
pub open spec fn run(s: HubView, trace: Seq<InputView>) -> HubView
    decreases trace.len(),
{
    if trace.len() == 0 {
        s
    } else {
        react(run(s, trace.drop_last()), trace.last())
    }
}

/// The input is a join that succeeds and brings a user into `classroom_id`
/// who was not a member.
pub open spec fn lets_in(s: HubView, e: InputView, classroom_id: Seq<char>) -> bool {
    match e {
        InputView::Message(m) => {
            &&& m.classroom_id == classroom_id
            &&& s.session(m.connection) == SessionView::Connecting
            &&& step(s, m).result is Ok
            &&& !(s.classrooms.contains_key(classroom_id) && s.classrooms[classroom_id].has_user(
                m.user_id,
            ))
        },
        _ => false,
    }
}

/// The input is a leave that succeeds in `classroom_id`, or the loss of a
/// connection that had joined `classroom_id`.
pub open spec fn lets_out(s: HubView, e: InputView, classroom_id: Seq<char>) -> bool {
    match e {
        InputView::Message(m) => {
            &&& m.classroom_id == classroom_id
            &&& s.session(m.connection) is Joined
            &&& Actions::spec_from_code(m.action) == Some(Actions::Leave)
            &&& step(s, m).result is Ok
        },
        InputView::Disconnect(k) => s.session(k) matches SessionView::Joined { classroom_id: c, .. }
            && c == classroom_id,
        InputView::Connect(_) => false,
    }
}

/// The input closes `classroom_id`.
pub open spec fn closes(s: HubView, e: InputView, classroom_id: Seq<char>) -> bool {
    match e {
        InputView::Message(m) => {
            &&& m.classroom_id == classroom_id
            &&& s.session(m.connection) is Joined
            &&& Actions::spec_from_code(m.action) == Some(Actions::ClassroomDeleted)
            &&& step(s, m).result is Ok
        },
        _ => false,
    }
}

/// How many inputs of a trace bring a new member into `classroom_id`.
pub open spec fn arrivals(s: HubView, trace: Seq<InputView>, classroom_id: Seq<char>) -> nat
    decreases trace.len(),
{
    if trace.len() == 0 {
        0
    } else {
        arrivals(s, trace.drop_last(), classroom_id) + if lets_in(
            run(s, trace.drop_last()),
            trace.last(),
            classroom_id,
        ) {
            1nat
        } else {
            0nat
        }
    }
}

/// How many inputs of a trace take a member out of `classroom_id`.
pub open spec fn departures(s: HubView, trace: Seq<InputView>, classroom_id: Seq<char>) -> nat
    decreases trace.len(),
{
    if trace.len() == 0 {
        0
    } else {
        departures(s, trace.drop_last(), classroom_id) + if lets_out(
            run(s, trace.drop_last()),
            trace.last(),
            classroom_id,
        ) {
            1nat
        } else {
            0nat
        }
    }
}

/// No input of the trace closes `classroom_id`.
pub open spec fn stays_open(s: HubView, trace: Seq<InputView>, classroom_id: Seq<char>) -> bool
    decreases trace.len(),
{
    if trace.len() == 0 {
        true
    } else {
        stays_open(s, trace.drop_last(), classroom_id) && !closes(
            run(s, trace.drop_last()),
            trace.last(),
            classroom_id,
        )
    }
}

/// The departure of a registered member takes one member out of that
/// member's classroom and none out of any other.
proof fn lemma_depart_membership(s: HubView, i: int, classroom_id: Seq<char>)
    requires
        s.wf(),
        0 <= i < s.registry.len(),
    ensures
        depart(s, i).membership(classroom_id) + (if s.registry[i].classroom_id == classroom_id {
            1nat
        } else {
            0nat
        }) == s.membership(classroom_id),
{
    let r = s.registry[i];
    assert(enrolled(s.classrooms, r));
    lemma_has_user(s.classrooms[r.classroom_id], r.user_id);
}

/// The rules that work inside a classroom leave every membership as it is.
proof fn lemma_quiet_rules(s: HubView, m: MessageView, classroom_id: Seq<char>)
    requires
        s.wf(),
    ensures
        code_change(s, m).state.membership(classroom_id) == s.membership(classroom_id),
        set_lock(s, m, true).state.membership(classroom_id) == s.membership(classroom_id),
        set_lock(s, m, false).state.membership(classroom_id) == s.membership(classroom_id),
        assignment_create(s, m).state.membership(classroom_id) == s.membership(classroom_id),
        submit_assignment(s, m).state.membership(classroom_id) == s.membership(classroom_id),
        grade_assignment(s, m).state.membership(classroom_id) == s.membership(classroom_id),
        get_data(s, m).state.membership(classroom_id) == s.membership(classroom_id),
{
    lemma_sender(s, m);
    let before = s.classrooms[m.classroom_id];
    if code_change(s, m).result is Ok {
        let board = named_board(m.fields, m.user_id)->Ok_0;
        lemma_with_board_same_members(
            before,
            board,
            WhiteboardView {
                code: field(m.fields, "code"@)->0,
                ..before.board(board)->0
            },
        );
    }
    if set_lock(s, m, true).result is Ok || set_lock(s, m, false).result is Ok {
        let owner = match field(m.fields, "target_user"@) {
            Some(u) => u,
            None => m.user_id,
        };
        let board = named_board(m.fields, owner)->Ok_0;
        lemma_with_board_same_members(
            before,
            board,
            WhiteboardView { locked: true, ..before.board(board)->0 },
        );
        lemma_with_board_same_members(
            before,
            board,
            WhiteboardView { locked: false, ..before.board(board)->0 },
        );
    }
    if submit_assignment(s, m).result is Ok {
        lemma_has_user(before, m.user_id);
    }
    if grade_assignment(s, m).result is Ok {
        lemma_has_user(before, field(m.fields, "target_user"@)->0);
    }
}

/// One input changes the membership of a classroom that it does not close
/// by one member in for a join of a new user, and by one member out for a
/// leave or a lost connection.
pub proof fn lemma_membership_step(s: HubView, e: InputView, classroom_id: Seq<char>)
    requires
        s.wf(),
        !closes(s, e, classroom_id),
    ensures
        react(s, e).wf(),
        react(s, e).membership(classroom_id) + (if lets_out(s, e, classroom_id) {
            1nat
        } else {
            0nat
        }) == s.membership(classroom_id) + (if lets_in(s, e, classroom_id) {
            1nat
        } else {
            0nat
        }),
{
    match e {
        InputView::Connect(k) => {
            lemma_connected_keeps_wf(s, k);
        },
        InputView::Disconnect(k) => {
            lemma_disconnected_keeps_wf(s, k);
            lemma_serving(s.registry, k);
            if !s.pending.contains(k) {
                if let Some(i) = serving(s.registry, k) {
                    lemma_depart_membership(s, i, classroom_id);
                }
            }
        },
        InputView::Message(m) => {
            lemma_step_keeps_wf(s, m);
            lemma_sender(s, m);
            lemma_serving(s.registry, m.connection);
            lemma_quiet_rules(s, m, classroom_id);
            match s.session(m.connection) {
                SessionView::Disconnected => {},
                SessionView::Connecting => {
                    let c = m.classroom_id;
                    if s.classrooms.contains_key(c) && s.classrooms[c].has_user(m.user_id) {
                        lemma_has_user(s.classrooms[c], m.user_id);
                    }
                },
                SessionView::Joined { .. } => {
                    if let Ok(i) = sender(s, m) {
                        lemma_depart_membership(s, i, classroom_id);
                    }
                },
            }
        },
    }
}

/// Over any sequence of inputs that does not close the classroom, its
/// membership is what it was, plus the joins of new users, minus the
/// leaves and lost connections. From the start, where no classroom has a
/// member, the membership is the joins minus the leaves.
pub proof fn law_membership_counts(s: HubView, trace: Seq<InputView>, classroom_id: Seq<char>)
    requires
        s.wf(),
        stays_open(s, trace, classroom_id),
    ensures
        run(s, trace).wf(),
        run(s, trace).membership(classroom_id) + departures(s, trace, classroom_id)
            == s.membership(classroom_id) + arrivals(s, trace, classroom_id),
    decreases trace.len(),
{
    if trace.len() > 0 {
        law_membership_counts(s, trace.drop_last(), classroom_id);
        lemma_membership_step(run(s, trace.drop_last()), trace.last(), classroom_id);
    }
}

/// A record holds everything it held, in place: the histories of grades,
/// of feedback and of submissions have only been appended to, the status
/// is the same or one that may follow, and the whiteboard is of the same
/// type.
pub open spec fn record_grows(old_one: UserAssignmentView, new_one: UserAssignmentView) -> bool {
    &&& old_one.user_id == new_one.user_id
    &&& old_one.assignment == new_one.assignment
    &&& old_one.whiteboard.whiteboard_type == new_one.whiteboard.whiteboard_type
    &&& (old_one.status == new_one.status || new_one.status.may_follow(old_one.status))
    &&& old_one.grade_history.is_prefix_of(new_one.grade_history)
    &&& old_one.feedback_history.is_prefix_of(new_one.feedback_history)
    &&& old_one.submissions.is_prefix_of(new_one.submissions)
}

/// A member holds every record they held, in place and grown, and a
/// whiteboard of the same type.
pub open spec fn user_grows(old_one: UserView, new_one: UserView) -> bool {
    &&& old_one.user_id == new_one.user_id
    &&& old_one.role == new_one.role
    &&& old_one.whiteboard.whiteboard_type == new_one.whiteboard.whiteboard_type
    &&& old_one.user_assignments.len() <= new_one.user_assignments.len()
    &&& forall|a: int|
        0 <= a < old_one.user_assignments.len() ==> record_grows(
            #[trigger] old_one.user_assignments[a],
            new_one.user_assignments[a],
        )
}

/// Every member of a classroom is a member of the other and has grown.
pub open spec fn members_grow(old_one: ClassroomView, new_one: ClassroomView) -> bool {
    forall|u: Seq<char>|
        old_one.has_user(u) && #[trigger] new_one.has_user(u) ==> user_grows(
            old_one.user(u),
            new_one.user(u),
        )
}

proof fn lemma_record_grows_itself(r: UserAssignmentView)
    ensures
        record_grows(r, r),
{
    assert(r.grade_history =~= r.grade_history.subrange(0, r.grade_history.len() as int));
    assert(r.feedback_history =~= r.feedback_history.subrange(
        0,
        r.feedback_history.len() as int,
    ));
    assert(r.submissions =~= r.submissions.subrange(0, r.submissions.len() as int));
}

proof fn lemma_user_grows_itself(u: UserView)
    ensures
        user_grows(u, u),
{
    assert forall|a: int| 0 <= a < u.user_assignments.len() implies record_grows(
        #[trigger] u.user_assignments[a],
        u.user_assignments[a],
    ) by {
        lemma_record_grows_itself(u.user_assignments[a]);
    }
}

/// Replacing the member at one position by a grown one, under the same
/// id, makes the members grow.
proof fn lemma_with_user_grows(cls: ClassroomView, j: int, u: UserView)
    requires
        cls.wf(),
        0 <= j < cls.users.len(),
        user_grows(cls.users[j], u),
    ensures
        members_grow(cls, cls.with_user(j, u)),
        cls.with_user(j, u).wf(),
{
    let t = cls.with_user(j, u);
    assert(t.user_ids() =~= cls.user_ids());
    assert forall|x: Seq<char>| cls.has_user(x) && #[trigger] t.has_user(x) implies user_grows(
        cls.user(x),
        t.user(x),
    ) by {
        lemma_has_user(cls, x);
        if cls.user_index(x) != j {
            lemma_user_grows_itself(cls.user(x));
        }
    }
}

/// Replacing one record of a member by a grown one makes the members
/// grow.
proof fn lemma_with_record_grows(cls: ClassroomView, j: int, a: int, r: UserAssignmentView)
    requires
        cls.wf(),
        0 <= j < cls.users.len(),
        0 <= a < cls.users[j].user_assignments.len(),
        record_grows(cls.users[j].user_assignments[a], r),
    ensures
        members_grow(cls, cls.with_record(j, a, r)),
{
    let u = UserView { user_assignments: cls.users[j].user_assignments.update(a, r), ..cls.users[j] };
    assert forall|b: int| 0 <= b < cls.users[j].user_assignments.len() implies record_grows(
        #[trigger] cls.users[j].user_assignments[b],
        u.user_assignments[b],
    ) by {
        if b != a {
            lemma_record_grows_itself(cls.users[j].user_assignments[b]);
        }
    }
    lemma_with_user_grows(cls, j, u);
}

/// Replacing a whiteboard by one of the same type makes the members grow.
proof fn lemma_with_board_grows(
    cls: ClassroomView,
    board: BoardView,
    w: WhiteboardView,
)
    requires
        cls.wf(),
        cls.board(board) is Some,
        w.whiteboard_type == cls.board(board)->0.whiteboard_type,
    ensures
        members_grow(cls, cls.with_board(board, w)),
{
    match board {
        BoardView::Public => {
            assert forall|x: Seq<char>|
                cls.has_user(x) && #[trigger] cls.with_board(board, w).has_user(
                    x,
                ) implies user_grows(cls.user(x), cls.with_board(board, w).user(x)) by {
                lemma_user_grows_itself(cls.user(x));
            }
        },
        BoardView::Private(owner) => {
            lemma_has_user(cls, owner);
            let j = cls.user_index(owner);
            let u = UserView { whiteboard: w, ..cls.users[j] };
            assert forall|b: int| 0 <= b < cls.users[j].user_assignments.len() implies record_grows(
                #[trigger] cls.users[j].user_assignments[b],
                u.user_assignments[b],
            ) by {
                lemma_record_grows_itself(cls.users[j].user_assignments[b]);
            }
            lemma_with_user_grows(cls, j, u);
        },
        BoardView::Assignment(owner, name) => {
            lemma_has_user(cls, owner);
            let (j, a) = cls.record_place(owner, name)->0;
            cls.users[j].assignment_names().index_of_first_ensures(name);
            let r = cls.users[j].user_assignments[a];
            lemma_record_grows_itself(r);
            lemma_with_record_grows(
                cls,
                j,
                a,
                UserAssignmentView { whiteboard: w, ..r },
            );
        },
    }
}

/// Handing out an assignment makes the members grow.
proof fn lemma_assigned_grows(cls: ClassroomView, assignment: AssignmentView)
    requires
        cls.wf(),
    ensures
        members_grow(cls, cls.assigned(assignment)),
{
    let t = cls.assigned(assignment);
    assert(t.user_ids() =~= cls.user_ids());
    assert forall|x: Seq<char>| cls.has_user(x) && #[trigger] t.has_user(x) implies user_grows(
        cls.user(x),
        t.user(x),
    ) by {
        lemma_has_user(cls, x);
        let u = cls.user(x);
        assert forall|b: int| 0 <= b < u.user_assignments.len() implies record_grows(
            #[trigger] u.user_assignments[b],
            t.user(x).user_assignments[b],
        ) by {
            lemma_record_grows_itself(u.user_assignments[b]);
        }
    }
}

/// The departure of a registered member leaves the other members of
/// every classroom as they were.
proof fn lemma_depart_grows(s: HubView, i: int, classroom_id: Seq<char>)
    requires
        s.wf(),
        0 <= i < s.registry.len(),
        s.classrooms.contains_key(classroom_id),
        depart(s, i).classrooms.contains_key(classroom_id),
    ensures
        members_grow(s.classrooms[classroom_id], depart(s, i).classrooms[classroom_id]),
{
    let r = s.registry[i];
    let t = depart(s, i);
    lemma_depart_keeps_wf(s, i);
    assert(enrolled(s.classrooms, r));
    let before = s.classrooms[classroom_id];
    let after = t.classrooms[classroom_id];
    assert forall|x: Seq<char>| before.has_user(x) && #[trigger] after.has_user(x) implies user_grows(
        before.user(x),
        after.user(x),
    ) by {
        lemma_has_user(before, x);
        lemma_has_user(after, x);
        if r.classroom_id == classroom_id {
            lemma_has_user(before, r.user_id);
            let idx = before.user_index(r.user_id);
            let j2 = after.user_index(x);
            let j = if j2 < idx { j2 } else { j2 + 1 };
            assert(after.users[j2] == before.users[j]);
            lemma_user_index(before, j);
        }
        lemma_user_grows_itself(before.user(x));
    }
}

/// No step takes anything out of a history, moves a status backwards, or
/// changes the type of a whiteboard. For a user who is a member of a
/// classroom before and after an input, the role is the same, every
/// assignment record held before is still held, in place, its histories of
/// grades, feedback and submissions have only been appended to, and its
/// status is the same or one that may follow.
pub proof fn law_histories_only_grow(
    s: HubView,
    e: InputView,
    classroom_id: Seq<char>,
    user_id: Seq<char>,
)
    requires
        s.wf(),
        s.classrooms.contains_key(classroom_id),
        s.classrooms[classroom_id].has_user(user_id),
        react(s, e).classrooms.contains_key(classroom_id),
        react(s, e).classrooms[classroom_id].has_user(user_id),
    ensures
        user_grows(
            s.classrooms[classroom_id].user(user_id),
            react(s, e).classrooms[classroom_id].user(user_id),
        ),
{
    let t = react(s, e);
    let before = s.classrooms[classroom_id];
    lemma_user_grows_itself(before.user(user_id));
    match e {
        InputView::Connect(k) => {},
        InputView::Disconnect(k) => {
            lemma_serving(s.registry, k);
            if !s.pending.contains(k) {
                if let Some(i) = serving(s.registry, k) {
                    lemma_depart_grows(s, i, classroom_id);
                }
            }
        },
        InputView::Message(m) => {
            lemma_sender(s, m);
            lemma_serving(s.registry, m.connection);
            if t != s && m.classroom_id == classroom_id {
                match s.session(m.connection) {
                    SessionView::Disconnected => {},
                    SessionView::Connecting => {
                        // a join into this classroom
                        lemma_has_user(before, user_id);
                        let j = before.user_index(user_id);
                        if before.has_user(m.user_id) {
                            lemma_has_user(before, m.user_id);
                            let u = UserView {
                                status: UserStatus::Online,
                                ..before.user(m.user_id)
                            };
                            lemma_user_grows_itself(before.user(m.user_id));
                            assert(user_grows(before.user(m.user_id), u)) by {
                                assert forall|a: int|
                                    0 <= a < before.user(
                                        m.user_id,
                                    ).user_assignments.len() implies record_grows(
                                    #[trigger] before.user(m.user_id).user_assignments[a],
                                    u.user_assignments[a],
                                ) by {
                                    lemma_record_grows_itself(
                                        before.user(m.user_id).user_assignments[a],
                                    );
                                }
                            }
                            lemma_with_user_grows(before, before.user_index(m.user_id), u);
                        } else {
                            let after = t.classrooms[classroom_id];
                            assert(after.users[j] == before.users[j]);
                            assert(after.user_ids() =~= before.user_ids().push(m.user_id));
                            lemma_user_index(after, j);
                        }
                    },
                    SessionView::Joined { .. } => {
                        if let Ok(i) = sender(s, m) {
                            match Actions::spec_from_code(m.action) {
                                Some(Actions::CodeChange) => {
                                    let board = named_board(m.fields, m.user_id)->Ok_0;
                                    lemma_with_board_grows(
                                        before,
                                        board,
                                        WhiteboardView {
                                            code: field(m.fields, "code"@)->0,
                                            ..before.board(board)->0
                                        },
                                    );
                                },
                                Some(Actions::LockCode) => {
                                    let owner = match field(m.fields, "target_user"@) {
                                        Some(u) => u,
                                        None => m.user_id,
                                    };
                                    let board = named_board(m.fields, owner)->Ok_0;
                                    lemma_with_board_grows(
                                        before,
                                        board,
                                        WhiteboardView {
                                            locked: true,
                                            ..before.board(board)->0
                                        },
                                    );
                                },
                                Some(Actions::UnlockCode) => {
                                    let owner = match field(m.fields, "target_user"@) {
                                        Some(u) => u,
                                        None => m.user_id,
                                    };
                                    let board = named_board(m.fields, owner)->Ok_0;
                                    lemma_with_board_grows(
                                        before,
                                        board,
                                        WhiteboardView {
                                            locked: false,
                                            ..before.board(board)->0
                                        },
                                    );
                                },
                                Some(Actions::AssignmentCreate) => {
                                    lemma_assigned_grows(
                                        before,
                                        AssignmentView {
                                            assignment_name: field(
                                                m.fields,
                                                "assignment_name"@,
                                            )->0,
                                            assignment_description: field(
                                                m.fields,
                                                "assignment_description"@,
                                            )->0,
                                            assignment_code: field(
                                                m.fields,
                                                "assignment_code"@,
                                            )->0,
                                        },
                                    );
                                },
                                Some(Actions::SubmitAssignment) => {
                                    let name = field(m.fields, "assignment_name"@)->0;
                                    let (j, a) = before.record_place(m.user_id, name)->0;
                                    lemma_has_user(before, m.user_id);
                                    before.users[j].assignment_names().index_of_first_ensures(name);
                                    let r = before.users[j].user_assignments[a];
                                    lemma_record_grows_itself(r);
                                    assert(r.submissions.is_prefix_of(r.submitted().submissions)) by {
                                        assert(r.submissions =~= r.submitted().submissions.subrange(
                                            0,
                                            r.submissions.len() as int,
                                        ));
                                    }
                                    lemma_with_record_grows(before, j, a, r.submitted());
                                },
                                Some(Actions::GradeAssignment) => {
                                    let target = field(m.fields, "target_user"@)->0;
                                    let name = field(m.fields, "assignment_name"@)->0;
                                    let (j, a) = before.record_place(target, name)->0;
                                    lemma_has_user(before, target);
                                    before.users[j].assignment_names().index_of_first_ensures(name);
                                    let r = before.users[j].user_assignments[a];
                                    let g = r.graded(
                                        named_grade(m.fields)->0,
                                        named_feedback(m.fields),
                                        named_outcome(m.fields)->0,
                                    );
                                    lemma_record_grows_itself(r);
                                    assert(r.grade_history =~= g.grade_history.subrange(
                                        0,
                                        r.grade_history.len() as int,
                                    ));
                                    assert(r.feedback_history =~= g.feedback_history.subrange(
                                        0,
                                        r.feedback_history.len() as int,
                                    ));
                                    lemma_with_record_grows(before, j, a, g);
                                },
                                Some(Actions::Leave) => {
                                    lemma_depart_grows(s, i, classroom_id);
                                },
                                _ => {},
                            }
                        }
                    },
                }
            } else if t != s {
                // a step in another classroom
                match s.session(m.connection) {
                    SessionView::Joined { .. } => {
                        if let Ok(i) = sender(s, m) {
                            if Actions::spec_from_code(m.action) == Some(Actions::Leave) {
                                lemma_depart_grows(s, i, classroom_id);
                            }
                        }
                    },
                    _ => {},
                }
            }
        },
    }
}

/// A submission that is accepted moves the record to `Submitted` and
/// appends the current code to its submissions; a grading that is accepted
/// moves the record to its outcome and appends exactly one grade and one
/// feedback.
pub proof fn law_submit_and_grade_steps(s: HubView, m: MessageView)
    requires
        s.wf(),
    ensures
        submit_assignment(s, m).result is Ok ==> {
            let name = field(m.fields, "assignment_name"@)->0;
            let before = s.classrooms[m.classroom_id];
            let after = submit_assignment(s, m).state.classrooms[m.classroom_id];
            let (j, a) = before.record_place(m.user_id, name)->0;
            &&& after.record_place(m.user_id, name) == Some((j, a))
            &&& after.users[j].user_assignments[a] == before.users[j].user_assignments[a].submitted()
            &&& after.users[j].user_assignments[a].status == AssignmentStatus::Submitted
        },
        grade_assignment(s, m).result is Ok ==> {
            let target = field(m.fields, "target_user"@)->0;
            let name = field(m.fields, "assignment_name"@)->0;
            let before = s.classrooms[m.classroom_id];
            let after = grade_assignment(s, m).state.classrooms[m.classroom_id];
            let (j, a) = before.record_place(target, name)->0;
            &&& after.record_place(target, name) == Some((j, a))
            &&& before.users[j].user_assignments[a].status == AssignmentStatus::Submitted
                || before.users[j].user_assignments[a].status == AssignmentStatus::Completed
            &&& after.users[j].user_assignments[a].status
                == named_outcome(m.fields)->0
            &&& after.users[j].user_assignments[a].grade_history
                == before.users[j].user_assignments[a].grade_history.push(
                named_grade(m.fields)->0,
            )
            &&& after.users[j].user_assignments[a].feedback_history
                == before.users[j].user_assignments[a].feedback_history.push(
                named_feedback(m.fields),
            )
        },
{
    lemma_sender(s, m);
    let before = s.classrooms[m.classroom_id];
    if submit_assignment(s, m).result is Ok {
        let name = field(m.fields, "assignment_name"@)->0;
        let after = submit_assignment(s, m).state.classrooms[m.classroom_id];
        let (j, a) = before.record_place(m.user_id, name)->0;
        lemma_has_user(before, m.user_id);
        before.users[j].assignment_names().index_of_first_ensures(name);
        assert(after.user_ids() =~= before.user_ids());
        assert(after.users[j].assignment_names() =~= before.users[j].assignment_names());
    }
    if grade_assignment(s, m).result is Ok {
        let target = field(m.fields, "target_user"@)->0;
        let name = field(m.fields, "assignment_name"@)->0;
        let after = grade_assignment(s, m).state.classrooms[m.classroom_id];
        let (j, a) = before.record_place(target, name)->0;
        lemma_has_user(before, target);
        before.users[j].assignment_names().index_of_first_ensures(name);
        assert(after.user_ids() =~= before.user_ids());
        assert(after.users[j].assignment_names() =~= before.users[j].assignment_names());
    }
}

/// A connection is live while it is pending or joined.
pub open spec fn live(s: HubView, connection: usize) -> bool {
    !(s.session(connection) is Disconnected)
}

/// A connection is live exactly if it is pending or named in the
/// registry.
pub proof fn lemma_live(s: HubView, connection: usize)
    ensures
        live(s, connection) <==> s.pending.contains(connection) || connections(
            s.registry,
        ).contains(connection),
        connections(s.registry).contains(connection) <==> exists|i: int|
            0 <= i < s.registry.len() && (#[trigger] s.registry[i]).connection == connection,
{
    lemma_serving(s.registry, connection);
    connections(s.registry).index_of_first_ensures(connection);
    if connections(s.registry).contains(connection) {
        let i = choose|i: int|
            0 <= i < connections(s.registry).len() && connections(s.registry)[i] == connection;
        assert(s.registry[i].connection == connection);
    }
    if exists|i: int|
        0 <= i < s.registry.len() && (#[trigger] s.registry[i]).connection == connection {
        let i = choose|i: int|
            0 <= i < s.registry.len() && (#[trigger] s.registry[i]).connection == connection;
        assert(connections(s.registry)[i] == connection);
    }
}

/// The connections that a reaction says to close are exactly those whose
/// session the action ended: a connection is live after an accepted action
/// exactly if it was live before and is not to be closed.
pub proof fn law_closed_sessions_end(s: HubView, m: MessageView, connection: usize)
    requires
        s.wf(),
        step(s, m).result is Ok,
    ensures
        live(step(s, m).state, connection) <==> live(s, connection) && !step(
            s,
            m,
        ).result->Ok_0.closed.contains(connection),
{
    let t = step(s, m).state;
    let closed = step(s, m).result->Ok_0.closed;
    let k = connection;
    lemma_live(s, k);
    lemma_live(t, k);
    lemma_sender(s, m);
    lemma_serving(s.registry, m.connection);
    lemma_step_keeps_wf(s, m);
    match s.session(m.connection) {
        SessionView::Disconnected => {},
        SessionView::Connecting => {
            // a join
            lemma_remove_value(s.pending, m.connection);
            let c = m.classroom_id;
            let u = m.user_id;
            let kp = choose|kp: int| 0 <= kp < s.pending.len() && s.pending[kp] == m.connection;
            if registered(s.registry, c, u) {
                let i0 = slot(s.registry, c, u);
                lemma_slot(s.registry, i0);
                let x = s.registry[i0].connection;
                assert(closed =~= seq![x]);
                assert(closed[0] == x);
                assert(s.registry[i0].connection != s.pending[kp]);
                assert(t.registry[i0].connection == m.connection);
                if k == x {
                    // the superseded connection is gone
                    if exists|i: int|
                        0 <= i < t.registry.len() && (#[trigger] t.registry[i]).connection == k {
                        let i = choose|i: int|
                            0 <= i < t.registry.len() && (#[trigger] t.registry[i]).connection
                                == k;
                        assert(i != i0);
                        assert(t.registry[i] == s.registry[i]);
                        lemma_serving_unique(s.registry, i);
                        lemma_serving_unique(s.registry, i0);
                    }
                    if t.pending.contains(k) {
                        let j = choose|j: int| 0 <= j < t.pending.len() && t.pending[j] == k;
                        assert(s.pending.contains(t.pending[j]));
                        let j2 = choose|j2: int| 0 <= j2 < s.pending.len() && s.pending[j2] == k;
                        assert(s.registry[i0].connection != s.pending[j2]);
                    }
                } else if k == m.connection {
                    assert(t.registry[i0].connection == k);
                } else {
                    if exists|i: int|
                        0 <= i < s.registry.len() && (#[trigger] s.registry[i]).connection == k {
                        let i = choose|i: int|
                            0 <= i < s.registry.len() && (#[trigger] s.registry[i]).connection
                                == k;
                        assert(i != i0);
                        assert(t.registry[i] == s.registry[i]);
                    }
                    if exists|i: int|
                        0 <= i < t.registry.len() && (#[trigger] t.registry[i]).connection == k {
                        let i = choose|i: int|
                            0 <= i < t.registry.len() && (#[trigger] t.registry[i]).connection
                                == k;
                        assert(i != i0);
                        assert(t.registry[i] == s.registry[i]);
                    }
                    if t.pending.contains(k) {
                        let j = choose|j: int| 0 <= j < t.pending.len() && t.pending[j] == k;
                        assert(s.pending.contains(t.pending[j]));
                    }
                }
            } else {
                assert(closed =~= Seq::<usize>::empty());
                let n = s.registry.len() as int;
                assert(t.registry[n].connection == m.connection);
                if exists|i: int|
                    0 <= i < s.registry.len() && (#[trigger] s.registry[i]).connection == k {
                    let i = choose|i: int|
                        0 <= i < s.registry.len() && (#[trigger] s.registry[i]).connection == k;
                    assert(t.registry[i] == s.registry[i]);
                }
                if exists|i: int|
                    0 <= i < t.registry.len() && (#[trigger] t.registry[i]).connection == k {
                    let i = choose|i: int|
                        0 <= i < t.registry.len() && (#[trigger] t.registry[i]).connection == k;
                    if i < n {
                        assert(t.registry[i] == s.registry[i]);
                    }
                }
                if t.pending.contains(k) {
                    let j = choose|j: int| 0 <= j < t.pending.len() && t.pending[j] == k;
                    assert(s.pending.contains(t.pending[j]));
                }
            }
        },
        SessionView::Joined { .. } => {
            if let Ok(i0) = sender(s, m) {
                match Actions::spec_from_code(m.action) {
                    Some(Actions::Leave) => {
                        assert(closed =~= seq![m.connection]);
                        assert(closed[0] == m.connection);
                        lemma_gone_after_remove(s, i0, k);
                    },
                    Some(Actions::ClassroomDeleted) => {
                        let c = m.classroom_id;
                        lemma_audience_contains(s.registry, c, None, None, None, k);
                        let keep = |r: RegistrationView| r.classroom_id != c;
                        if exists|i: int|
                            0 <= i < t.registry.len() && (#[trigger] t.registry[i]).connection
                                == k {
                            let i = choose|i: int|
                                0 <= i < t.registry.len() && (#[trigger] t.registry[i]).connection
                                    == k;
                            assert(t.registry.contains(t.registry[i]));
                            s.registry.lemma_filter_contains_rev(keep, t.registry[i]);
                            s.registry.lemma_filter_pred(keep, i);
                            let w = choose|w: int|
                                0 <= w < s.registry.len() && s.registry[w] == t.registry[i];
                            assert(s.registry[w].connection == k);
                            if closed.contains(k) {
                                let w2 = choose|w2: int|
                                    0 <= w2 < s.registry.len() && (
                                    #[trigger] s.registry[w2]).connection == k && passes(
                                        s.registry[w2],
                                        c,
                                        None,
                                        None,
                                        None,
                                    );
                                lemma_serving_unique(s.registry, w);
                                lemma_serving_unique(s.registry, w2);
                            }
                        }
                        if exists|i: int|
                            0 <= i < s.registry.len() && (#[trigger] s.registry[i]).connection
                                == k {
                            let i = choose|i: int|
                                0 <= i < s.registry.len() && (#[trigger] s.registry[i]).connection
                                    == k;
                            if s.registry[i].classroom_id != c {
                                s.registry.lemma_filter_contains(keep, i);
                                let w = choose|w: int|
                                    0 <= w < t.registry.len() && t.registry[w] == s.registry[i];
                                assert(t.registry[w].connection == k);
                            } else {
                                assert(passes(s.registry[i], c, None, None, None));
                            }
                        }
                    },
                    _ => {
                        assert(closed =~= Seq::<usize>::empty());
                    },
                }
            }
        },
    }
}

/// After the departure of the member behind registration `i`, the
/// connections named in the registry are those named before, without the
/// one of that registration.
proof fn lemma_gone_after_remove(s: HubView, i: int, connection: usize)
    requires
        s.wf(),
        0 <= i < s.registry.len(),
    ensures
        live(depart(s, i), connection) <==> live(s, connection) && connection
            != s.registry[i].connection,
{
    let t = depart(s, i);
    let k = connection;
    lemma_live(s, k);
    lemma_live(t, k);
    if exists|x: int| 0 <= x < t.registry.len() && (#[trigger] t.registry[x]).connection == k {
        let x = choose|x: int|
            0 <= x < t.registry.len() && (#[trigger] t.registry[x]).connection == k;
        let x2 = if x < i { x } else { x + 1 };
        assert(t.registry[x] == s.registry[x2]);
        lemma_serving_unique(s.registry, x2);
        lemma_serving_unique(s.registry, i);
    }
    if exists|x: int| 0 <= x < s.registry.len() && (#[trigger] s.registry[x]).connection == k {
        let x = choose|x: int|
            0 <= x < s.registry.len() && (#[trigger] s.registry[x]).connection == k;
        if x != i {
            let x2 = if x < i { x } else { x - 1 };
            assert(t.registry[x2] == s.registry[x]);
        }
    }
    if s.pending.contains(k) {
        let j = choose|j: int| 0 <= j < s.pending.len() && s.pending[j] == k;
        assert(s.registry[i].connection != s.pending[j]);
    }
}

/// A new connection becomes live and no other connection changes; one
/// that is refused changes nothing.
pub proof fn law_connect_opens_one(s: HubView, connection: usize, other: usize)
    requires
        s.wf(),
    ensures
        connected(s, connection).result is Ok <==> !live(s, connection),
        live(connected(s, connection).state, other) <==> live(s, other) || other == connection,
{
    let t = connected(s, connection).state;
    lemma_live(s, connection);
    lemma_live(s, other);
    lemma_live(t, other);
    lemma_serving(s.registry, connection);
    if connected(s, connection).result is Ok {
        assert(t.pending[s.pending.len() as int] == connection);
        if s.pending.contains(other) {
            let j = choose|j: int| 0 <= j < s.pending.len() && s.pending[j] == other;
            assert(t.pending[j] == other);
        }
        if t.pending.contains(other) {
            let j = choose|j: int| 0 <= j < t.pending.len() && t.pending[j] == other;
            if j < s.pending.len() {
                assert(s.pending[j] == other);
            }
        }
    }
}

/// The loss of a connection ends its session and no other.
pub proof fn law_disconnect_closes_one(s: HubView, connection: usize, other: usize)
    requires
        s.wf(),
    ensures
        live(disconnected(s, connection).0, other) <==> live(s, other) && other != connection,
{
    let t = disconnected(s, connection).0;
    lemma_live(s, connection);
    lemma_live(s, other);
    lemma_live(t, other);
    lemma_serving(s.registry, connection);
    if s.pending.contains(connection) {
        lemma_remove_value(s.pending, connection);
        if t.pending.contains(other) {
            let j = choose|j: int| 0 <= j < t.pending.len() && t.pending[j] == other;
            assert(s.pending.contains(t.pending[j]));
        }
        if other == connection {
            if exists|x: int|
                0 <= x < s.registry.len() && (#[trigger] s.registry[x]).connection == other {
                let x = choose|x: int|
                    0 <= x < s.registry.len() && (#[trigger] s.registry[x]).connection == other;
                let j = choose|j: int| 0 <= j < s.pending.len() && s.pending[j] == connection;
                assert(s.registry[x].connection != s.pending[j]);
            }
        }
    } else if let Some(i) = serving(s.registry, connection) {
        lemma_gone_after_remove(s, i, other);
    }
}

/// One input keeps the state well formed.
pub proof fn lemma_react_keeps_wf(s: HubView, e: InputView)
    requires
        s.wf(),
    ensures
        react(s, e).wf(),
{
    match e {
        InputView::Connect(k) => lemma_connected_keeps_wf(s, k),
        InputView::Message(m) => lemma_step_keeps_wf(s, m),
        InputView::Disconnect(k) => lemma_disconnected_keeps_wf(s, k),
    }
}

/// In every state that can be reached from the start, the store and the
/// registry agree: every member of a classroom is online and registered,
/// every registration stands for a member, and no connection serves two
/// users.
pub proof fn law_reachable_states_agree(remove_empty: bool, trace: Seq<InputView>)
    ensures
        run(HubView::initial(remove_empty), trace).wf(),
    decreases trace.len(),
{
    if trace.len() == 0 {
        lemma_initial_wf(remove_empty);
    } else {
        law_reachable_states_agree(remove_empty, trace.drop_last());
        lemma_react_keeps_wf(run(HubView::initial(remove_empty), trace.drop_last()), trace.last());
    }
}

/// Every whiteboard of a classroom is of the type of its place: the
/// shared one public, a member's own private, a record's an assignment
/// whiteboard.
pub open spec fn boards_typed(cls: ClassroomView) -> bool {
    &&& cls.whiteboard.whiteboard_type == WhiteboardType::Public
    &&& forall|j: int|
        0 <= j < cls.users.len() ==> (#[trigger] cls.users[j]).whiteboard.whiteboard_type
            == WhiteboardType::Private
    &&& forall|j: int, a: int|
        0 <= j < cls.users.len() && 0 <= a < cls.users[j].user_assignments.len() ==> (
        #[trigger] cls.users[j].user_assignments[a]).whiteboard.whiteboard_type
            == WhiteboardType::Assignment
}

/// Every whiteboard of every classroom is of the type of its place.
pub open spec fn all_boards_typed(s: HubView) -> bool {
    forall|c: Seq<char>| #[trigger] s.classrooms.contains_key(c) ==> boards_typed(s.classrooms[c])
}

proof fn lemma_with_board_typed(
    cls: ClassroomView,
    board: BoardView,
    w: WhiteboardView,
)
    requires
        cls.wf(),
        boards_typed(cls),
        cls.board(board) is Some,
        w.whiteboard_type == cls.board(board)->0.whiteboard_type,
    ensures
        boards_typed(cls.with_board(board, w)),
{
    match board {
        BoardView::Public => {},
        BoardView::Private(owner) => {
            lemma_has_user(cls, owner);
        },
        BoardView::Assignment(owner, name) => {
            lemma_has_user(cls, owner);
            let (j, a) = cls.record_place(owner, name)->0;
            cls.users[j].assignment_names().index_of_first_ensures(name);
            let t = cls.with_board(board, w);
            assert forall|jj: int, aa: int|
                0 <= jj < t.users.len() && 0 <= aa < t.users[jj].user_assignments.len() implies (
            #[trigger] t.users[jj].user_assignments[aa]).whiteboard.whiteboard_type
                == WhiteboardType::Assignment by {
                if jj == j && aa == a {
                    assert(cls.users[j].user_assignments[a].whiteboard.whiteboard_type
                        == WhiteboardType::Assignment);
                } else {
                    assert(t.users[jj].user_assignments[aa] == cls.users[jj].user_assignments[aa]);
                }
            }
        },
    }
}

proof fn lemma_with_record_typed(cls: ClassroomView, j: int, a: int, r: UserAssignmentView)
    requires
        boards_typed(cls),
        0 <= j < cls.users.len(),
        0 <= a < cls.users[j].user_assignments.len(),
        r.whiteboard.whiteboard_type == WhiteboardType::Assignment,
    ensures
        boards_typed(cls.with_record(j, a, r)),
{
    let t = cls.with_record(j, a, r);
    assert forall|jj: int, aa: int|
        0 <= jj < t.users.len() && 0 <= aa < t.users[jj].user_assignments.len() implies (
    #[trigger] t.users[jj].user_assignments[aa]).whiteboard.whiteboard_type
        == WhiteboardType::Assignment by {
        if !(jj == j && aa == a) {
            assert(t.users[jj].user_assignments[aa] == cls.users[jj].user_assignments[aa]);
        }
    }
    assert forall|jj: int| 0 <= jj < t.users.len() implies (
    #[trigger] t.users[jj]).whiteboard.whiteboard_type == WhiteboardType::Private by {
        assert(cls.users[jj].whiteboard.whiteboard_type == WhiteboardType::Private);
    }
}

proof fn lemma_assigned_typed(cls: ClassroomView, assignment: AssignmentView)
    requires
        boards_typed(cls),
    ensures
        boards_typed(cls.assigned(assignment)),
{
    let t = cls.assigned(assignment);
    assert forall|jj: int, aa: int|
        0 <= jj < t.users.len() && 0 <= aa < t.users[jj].user_assignments.len() implies (
    #[trigger] t.users[jj].user_assignments[aa]).whiteboard.whiteboard_type
        == WhiteboardType::Assignment by {
        if aa < cls.users[jj].user_assignments.len() {
            assert(t.users[jj].user_assignments[aa] == cls.users[jj].user_assignments[aa]);
        }
    }
    assert forall|jj: int| 0 <= jj < t.users.len() implies (
    #[trigger] t.users[jj]).whiteboard.whiteboard_type == WhiteboardType::Private by {
        assert(cls.users[jj].whiteboard.whiteboard_type == WhiteboardType::Private);
    }
}

proof fn lemma_depart_typed(s: HubView, i: int)
    requires
        s.wf(),
        all_boards_typed(s),
        0 <= i < s.registry.len(),
    ensures
        all_boards_typed(depart(s, i)),
{
    let r = s.registry[i];
    let t = depart(s, i);
    assert(enrolled(s.classrooms, r));
    let before = s.classrooms[r.classroom_id];
    lemma_has_user(before, r.user_id);
    let idx = before.user_index(r.user_id);
    assert forall|c: Seq<char>| #[trigger] t.classrooms.contains_key(c) implies boards_typed(
        t.classrooms[c],
    ) by {
        assert(s.classrooms.contains_key(c));
        if c == r.classroom_id {
            let after = t.classrooms[c];
            assert forall|jj: int| 0 <= jj < after.users.len() implies (
            #[trigger] after.users[jj]).whiteboard.whiteboard_type == WhiteboardType::Private by {
                let j2 = if jj < idx { jj } else { jj + 1 };
                assert(after.users[jj] == before.users[j2]);
            }
            assert forall|jj: int, aa: int|
                0 <= jj < after.users.len() && 0 <= aa < after.users[jj].user_assignments.len() implies (
            #[trigger] after.users[jj].user_assignments[aa]).whiteboard.whiteboard_type
                == WhiteboardType::Assignment by {
                let j2 = if jj < idx { jj } else { jj + 1 };
                assert(after.users[jj] == before.users[j2]);
                assert(before.users[j2].user_assignments[aa].whiteboard.whiteboard_type
                    == WhiteboardType::Assignment);
            }
        }
    }
}

proof fn lemma_update_typed(s: HubView, cls: ClassroomView)
    requires
        all_boards_typed(s),
        boards_typed(cls),
    ensures
        all_boards_typed(s.with_classroom(cls)),
{
    let t = s.with_classroom(cls);
    assert forall|x: Seq<char>| #[trigger] t.classrooms.contains_key(x) implies boards_typed(
        t.classrooms[x],
    ) by {
        if x != cls.classroom_id {
            assert(s.classrooms.contains_key(x));
        }
    }
}

proof fn lemma_enter_typed(s: HubView, m: MessageView, role: ClassroomUserRole)
    requires
        s.wf(),
        all_boards_typed(s),
    ensures
        all_boards_typed(enter(s, m, role).state),
{
    let t = enter(s, m, role).state;
    let c = m.classroom_id;
    if s.pending.contains(m.connection) {
        let before = if s.classrooms.contains_key(c) {
            s.classrooms[c]
        } else {
            ClassroomView::fresh(c)
        };
        let after = t.classrooms[c];
        assert(boards_typed(before));
        if before.has_user(m.user_id) {
            lemma_has_user(before, m.user_id);
        }
        assert forall|jj: int| 0 <= jj < after.users.len() implies (
        #[trigger] after.users[jj]).whiteboard.whiteboard_type == WhiteboardType::Private by {
            if jj < before.users.len() {
                assert(before.users[jj].whiteboard.whiteboard_type == WhiteboardType::Private);
            }
        }
        assert forall|jj: int, aa: int|
            0 <= jj < after.users.len() && 0 <= aa < after.users[jj].user_assignments.len() implies (
        #[trigger] after.users[jj].user_assignments[aa]).whiteboard.whiteboard_type
            == WhiteboardType::Assignment by {
            if jj < before.users.len() {
                assert(before.users[jj].user_assignments[aa].whiteboard.whiteboard_type
                    == WhiteboardType::Assignment);
            }
        }
        assert(after.classroom_id == c);
        lemma_update_typed(s, after);
        assert(t.classrooms =~= s.with_classroom(after).classrooms);
    }
}

proof fn lemma_code_change_typed(s: HubView, m: MessageView)
    requires
        s.wf(),
        all_boards_typed(s),
    ensures
        all_boards_typed(code_change(s, m).state),
{
    lemma_sender(s, m);
    if code_change(s, m).result is Ok {
        let before = s.classrooms[m.classroom_id];
        let board = named_board(m.fields, m.user_id)->Ok_0;
        let w = WhiteboardView {
            code: field(m.fields, "code"@)->0,
            ..before.board(board)->0
        };
        lemma_with_board_typed(before, board, w);
        lemma_with_board_same_members(before, board, w);
        lemma_update_typed(s, before.with_board(board, w));
    }
}

proof fn lemma_set_lock_typed(s: HubView, m: MessageView, locked: bool)
    requires
        s.wf(),
        all_boards_typed(s),
    ensures
        all_boards_typed(set_lock(s, m, locked).state),
{
    lemma_sender(s, m);
    if set_lock(s, m, locked).result is Ok {
        let before = s.classrooms[m.classroom_id];
        let owner = match field(m.fields, "target_user"@) {
            Some(u) => u,
            None => m.user_id,
        };
        let board = named_board(m.fields, owner)->Ok_0;
        let w = WhiteboardView { locked, ..before.board(board)->0 };
        lemma_with_board_typed(before, board, w);
        lemma_with_board_same_members(before, board, w);
        lemma_update_typed(s, before.with_board(board, w));
    }
}

proof fn lemma_assignment_create_typed(s: HubView, m: MessageView)
    requires
        s.wf(),
        all_boards_typed(s),
    ensures
        all_boards_typed(assignment_create(s, m).state),
{
    lemma_sender(s, m);
    if assignment_create(s, m).result is Ok {
        let before = s.classrooms[m.classroom_id];
        let assignment = AssignmentView {
            assignment_name: field(m.fields, "assignment_name"@)->0,
            assignment_description: field(m.fields, "assignment_description"@)->0,
            assignment_code: field(m.fields, "assignment_code"@)->0,
        };
        lemma_assigned_typed(before, assignment);
        lemma_update_typed(s, before.assigned(assignment));
    }
}

proof fn lemma_submit_typed(s: HubView, m: MessageView)
    requires
        s.wf(),
        all_boards_typed(s),
    ensures
        all_boards_typed(submit_assignment(s, m).state),
{
    lemma_sender(s, m);
    if submit_assignment(s, m).result is Ok {
        let before = s.classrooms[m.classroom_id];
        let name = field(m.fields, "assignment_name"@)->0;
        let (j, a) = before.record_place(m.user_id, name)->0;
        lemma_has_user(before, m.user_id);
        before.users[j].assignment_names().index_of_first_ensures(name);
        let r = before.users[j].user_assignments[a];
        lemma_with_record_typed(before, j, a, r.submitted());
        lemma_update_typed(s, before.with_record(j, a, r.submitted()));
    }
}

proof fn lemma_grade_typed(s: HubView, m: MessageView)
    requires
        s.wf(),
        all_boards_typed(s),
    ensures
        all_boards_typed(grade_assignment(s, m).state),
{
    lemma_sender(s, m);
    if grade_assignment(s, m).result is Ok {
        let before = s.classrooms[m.classroom_id];
        let target = field(m.fields, "target_user"@)->0;
        let name = field(m.fields, "assignment_name"@)->0;
        let (j, a) = before.record_place(target, name)->0;
        lemma_has_user(before, target);
        before.users[j].assignment_names().index_of_first_ensures(name);
        let r = before.users[j].user_assignments[a];
        let g = r.graded(
            named_grade(m.fields)->0,
            named_feedback(m.fields),
            named_outcome(m.fields)->0,
        );
        lemma_with_record_typed(before, j, a, g);
        lemma_update_typed(s, before.with_record(j, a, g));
    }
}

proof fn lemma_leave_typed(s: HubView, m: MessageView)
    requires
        s.wf(),
        all_boards_typed(s),
    ensures
        all_boards_typed(leave(s, m).state),
{
    lemma_sender(s, m);
    if let Ok(i) = sender(s, m) {
        lemma_depart_typed(s, i);
    }
}

proof fn lemma_delete_typed(s: HubView, m: MessageView)
    requires
        s.wf(),
        all_boards_typed(s),
    ensures
        all_boards_typed(classroom_deleted(s, m).state),
{
    let t = classroom_deleted(s, m).state;
    assert forall|x: Seq<char>| #[trigger] t.classrooms.contains_key(x) implies boards_typed(
        t.classrooms[x],
    ) by {
        assert(s.classrooms.contains_key(x));
    }
}

/// No input changes the type of a whiteboard: where every whiteboard is
/// of the type of its place, it is so after the input.
pub proof fn law_board_types_are_kept(s: HubView, e: InputView)
    requires
        s.wf(),
        all_boards_typed(s),
    ensures
        all_boards_typed(react(s, e)),
{
    match e {
        InputView::Connect(k) => {},
        InputView::Disconnect(k) => {
            lemma_serving(s.registry, k);
            if !s.pending.contains(k) {
                if let Some(i) = serving(s.registry, k) {
                    lemma_depart_typed(s, i);
                }
            }
        },
        InputView::Message(m) => {
            lemma_enter_typed(s, m, ClassroomUserRole::Student);
            lemma_enter_typed(s, m, ClassroomUserRole::Teacher);
            lemma_code_change_typed(s, m);
            lemma_set_lock_typed(s, m, true);
            lemma_set_lock_typed(s, m, false);
            lemma_assignment_create_typed(s, m);
            lemma_submit_typed(s, m);
            lemma_grade_typed(s, m);
            lemma_leave_typed(s, m);
            lemma_delete_typed(s, m);
        },
    }
}

/// In every state that can be reached from the start, every whiteboard is
/// of the type it was made with.
pub proof fn law_reachable_boards_are_typed(remove_empty: bool, trace: Seq<InputView>)
    ensures
        all_boards_typed(run(HubView::initial(remove_empty), trace)),
    decreases trace.len(),
{
    if trace.len() > 0 {
        law_reachable_boards_are_typed(remove_empty, trace.drop_last());
        law_reachable_states_agree(remove_empty, trace.drop_last());
        law_board_types_are_kept(
            run(HubView::initial(remove_empty), trace.drop_last()),
            trace.last(),
        );
    }
}

} // verus!
