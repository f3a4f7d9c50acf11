//! The payloads of outbound events, as lists of key/value pairs.

use crate::error::DispatchError;
use crate::models::assignment::{
    texts, Assignment, AssignmentView, UserAssignment, UserAssignmentView,
};
use crate::models::classroom::{Board, BoardView, Classroom, ClassroomView};
use crate::models::consts::{AssignmentStatus, ClassroomUserRole};
use crate::models::cursor_position::CursorPosition;
use crate::models::user::{records, User, UserView};
use crate::models::whiteboard::{Whiteboard, WhiteboardView};
use crate::text::{pairs, put, render_int, rendered_int};
use vstd::prelude::*;

verus! {

/// A list of key/value pairs.
pub type Fields = Seq<(Seq<char>, Seq<char>)>;

/// "1" for true and "0" for false.
pub open spec fn flag(b: bool) -> Seq<char> {
    if b {
        "1"@
    } else {
        "0"@
    }
}

/// A member has joined.
pub open spec fn joined_fields(user_id: Seq<char>, role: ClassroomUserRole) -> Fields {
    seq![
        ("event"@, "joined"@),
        ("user_id"@, user_id),
        ("role"@, rendered_int(role.spec_code())),
    ]
}

/// The action was rejected, and why.
pub open spec fn refused_fields(e: DispatchError) -> Fields {
    seq![("event"@, "error"@), ("error"@, e.spec_name())]
}

/// A member has left.
pub open spec fn left_fields(user_id: Seq<char>) -> Fields {
    seq![("event"@, "left"@), ("user_id"@, user_id)]
}

/// The classroom has been closed by `user_id`.
pub open spec fn closed_fields(classroom_id: Seq<char>, user_id: Seq<char>) -> Fields {
    seq![("event"@, "closed"@), ("classroom_id"@, classroom_id), ("user_id"@, user_id)]
}

/// One `student` pair for each student among `users`, in order.
pub open spec fn students(users: Seq<UserView>) -> Fields
    decreases users.len(),
{
    if users.len() == 0 {
        Seq::empty()
    } else if users.last().role == ClassroomUserRole::Student {
        students(users.drop_last()).push(("student"@, users.last().user_id))
    } else {
        students(users.drop_last())
    }
}

/// The students of a classroom, for a teacher.
pub open spec fn roster_fields(classroom: ClassroomView) -> Fields {
    seq![("event"@, "roster"@), ("classroom_id"@, classroom.classroom_id)] + students(
        classroom.users,
    )
}

/// The pairs that name a whiteboard.
pub open spec fn board_fields(board: BoardView) -> Fields {
    match board {
        BoardView::Public => seq![("target"@, "public"@)],
        BoardView::Private(owner) => seq![("target"@, "private"@), ("target_user"@, owner)],
        BoardView::Assignment(owner, name) => seq![
            ("target"@, "assignment"@),
            ("target_user"@, owner),
            ("assignment_name"@, name),
        ],
    }
}

/// The pairs that carry a cursor, if there is one.
pub open spec fn cursor_fields(cursor: Option<CursorPosition>) -> Fields {
    match cursor {
        Some(p) => seq![
            ("position"@, rendered_int(p.position as int)),
            ("row"@, rendered_int(p.row as int)),
            ("col"@, rendered_int(p.col as int)),
        ],
        None => Seq::empty(),
    }
}

/// `user_id` has replaced the code of a whiteboard.
pub open spec fn code_fields(
    user_id: Seq<char>,
    board: BoardView,
    code: Seq<char>,
    cursor: Option<CursorPosition>,
) -> Fields {
    seq![("event"@, "code"@), ("user_id"@, user_id)] + board_fields(board) + seq![("code"@, code)]
        + cursor_fields(cursor)
}

/// `user_id` has locked or unlocked a whiteboard.
pub open spec fn lock_fields(user_id: Seq<char>, board: BoardView, locked: bool) -> Fields {
    seq![
        (
            "event"@,
            if locked {
                "locked"@
            } else {
                "unlocked"@
            },
        ),
        ("user_id"@, user_id),
    ] + board_fields(board)
}

/// `user_id` has handed out an assignment.
pub open spec fn assignment_fields(user_id: Seq<char>, assignment: AssignmentView) -> Fields {
    seq![
        ("event"@, "assignment"@),
        ("user_id"@, user_id),
        ("assignment_name"@, assignment.assignment_name),
        ("assignment_description"@, assignment.assignment_description),
        ("assignment_code"@, assignment.assignment_code),
    ]
}

/// `user_id` has handed in the work on an assignment.
pub open spec fn submitted_fields(user_id: Seq<char>, name: Seq<char>, code: Seq<char>) -> Fields {
    seq![
        ("event"@, "submitted"@),
        ("user_id"@, user_id),
        ("assignment_name"@, name),
        ("code"@, code),
    ]
}

/// `user_id` has graded the work of `target` on an assignment.
pub open spec fn graded_fields(
    user_id: Seq<char>,
    target: Seq<char>,
    name: Seq<char>,
    grade: i32,
    feedback: Seq<char>,
    outcome: AssignmentStatus,
) -> Fields {
    seq![
        ("event"@, "graded"@),
        ("user_id"@, user_id),
        ("target_user"@, target),
        ("assignment_name"@, name),
        ("grade"@, rendered_int(grade as int)),
        ("feedback"@, feedback),
        ("status"@, rendered_int(outcome.spec_code())),
    ]
}

/// The code and the lock of a whiteboard.
pub open spec fn whiteboard_fields(w: WhiteboardView) -> Fields {
    seq![("code"@, w.code), ("locked"@, flag(w.locked))]
}

/// One pair under `key` for each text, in order.
pub open spec fn tagged(key: Seq<char>, values: Seq<Seq<char>>) -> Fields {
    values.map_values(|v: Seq<char>| (key, v))
}

/// The decimal texts of a sequence of grades.
pub open spec fn grade_texts(grades: Seq<i32>) -> Seq<Seq<char>> {
    grades.map_values(|g: i32| rendered_int(g as int))
}

/// Everything held about one student's work on one assignment.
pub open spec fn record_fields(r: UserAssignmentView) -> Fields {
    seq![
        ("assignment"@, r.assignment.assignment_name),
        ("description"@, r.assignment.assignment_description),
        ("status"@, rendered_int(r.status.spec_code())),
    ] + whiteboard_fields(r.whiteboard) + (match r.grade {
        Some(g) => seq![("grade"@, rendered_int(g as int))],
        None => Seq::empty(),
    }) + (match r.feedback {
        Some(f) => seq![("feedback"@, f)],
        None => Seq::empty(),
    }) + tagged("graded"@, grade_texts(r.grade_history)) + tagged(
        "feedback_given"@,
        r.feedback_history,
    ) + tagged("submission"@, r.submissions)
}

/// Everything held about a sequence of records, in order.
pub open spec fn records_fields(rs: Seq<UserAssignmentView>) -> Fields
    decreases rs.len(),
{
    if rs.len() == 0 {
        Seq::empty()
    } else {
        records_fields(rs.drop_last()) + record_fields(rs.last())
    }
}

/// Everything held about one member.
pub open spec fn user_fields(u: UserView) -> Fields {
    seq![
        ("user"@, u.user_id),
        ("role"@, rendered_int(u.role.spec_code())),
        ("status"@, rendered_int(u.status.spec_code())),
    ] + whiteboard_fields(u.whiteboard) + records_fields(u.user_assignments)
}

/// Everything held about a sequence of members, in order.
pub open spec fn users_fields(users: Seq<UserView>) -> Fields
    decreases users.len(),
{
    if users.len() == 0 {
        Seq::empty()
    } else {
        users_fields(users.drop_last()) + user_fields(users.last())
    }
}

/// The whole state of a classroom: its shared whiteboard, then each member
/// with their whiteboard and assignment records.
pub open spec fn snapshot_fields(classroom: ClassroomView) -> Fields {
    seq![("event"@, "snapshot"@), ("classroom_id"@, classroom.classroom_id)] + whiteboard_fields(
        classroom.whiteboard,
    ) + users_fields(classroom.users)
}

/// The pairs that say that a member has joined.
pub fn joined(user_id: &str, role: ClassroomUserRole) -> (out: Vec<(String, String)>)
    ensures
        pairs(out@) == joined_fields(user_id@, role),
{
    let mut out: Vec<(String, String)> = Vec::new();
    assert(pairs(out@) =~= Seq::empty());
    put(&mut out, "event", "joined");
    put(&mut out, "user_id", user_id);
    put(&mut out, "role", render_int(role.code()).as_str());
    assert(pairs(out@) =~= joined_fields(user_id@, role));
    out
}

/// The pairs that say that an action was rejected, and why.
pub fn refused(e: DispatchError) -> (out: Vec<(String, String)>)
    ensures
        pairs(out@) == refused_fields(e),
{
    let mut out: Vec<(String, String)> = Vec::new();
    assert(pairs(out@) =~= Seq::empty());
    put(&mut out, "event", "error");
    put(&mut out, "error", e.name());
    assert(pairs(out@) =~= refused_fields(e));
    out
}

/// The pairs that say that a member has left.
pub fn left(user_id: &str) -> (out: Vec<(String, String)>)
    ensures
        pairs(out@) == left_fields(user_id@),
{
    let mut out: Vec<(String, String)> = Vec::new();
    assert(pairs(out@) =~= Seq::empty());
    put(&mut out, "event", "left");
    put(&mut out, "user_id", user_id);
    assert(pairs(out@) =~= left_fields(user_id@));
    out
}

/// The pairs that say that a classroom has been closed.
pub fn closed(classroom_id: &str, user_id: &str) -> (out: Vec<(String, String)>)
    ensures
        pairs(out@) == closed_fields(classroom_id@, user_id@),
{
    let mut out: Vec<(String, String)> = Vec::new();
    assert(pairs(out@) =~= Seq::empty());
    put(&mut out, "event", "closed");
    put(&mut out, "classroom_id", classroom_id);
    put(&mut out, "user_id", user_id);
    assert(pairs(out@) =~= closed_fields(classroom_id@, user_id@));
    out
}

/// The pairs that list the students of a classroom.
pub fn roster(classroom: &Classroom) -> (out: Vec<(String, String)>)
    ensures
        pairs(out@) == roster_fields(classroom@),
{
    let mut out: Vec<(String, String)> = Vec::new();
    assert(pairs(out@) =~= Seq::empty());
    put(&mut out, "event", "roster");
    put(&mut out, "classroom_id", classroom.classroom_id.as_str());
    let ghost head = pairs(out@);
    let mut i: usize = 0;
    assert(classroom@.users.take(0) =~= Seq::empty());
    assert(head + students(classroom@.users.take(0)) =~= head);
    while i < classroom.users.len()
        invariant
            i <= classroom.users.len(),
            pairs(out@) == head + students(classroom@.users.take(i as int)),
        decreases classroom.users.len() - i,
    {
        proof {
            let us = classroom@.users;
            assert(us.take(i + 1).drop_last() =~= us.take(i as int));
            assert(us.take(i + 1).last() == us[i as int]);
        }
        if classroom.users[i].role == ClassroomUserRole::Student {
            put(&mut out, "student", classroom.users[i].user_id.as_str());
        }
        assert(pairs(out@) =~= head + students(classroom@.users.take(i + 1)));
        i += 1;
    }
    assert(classroom@.users.take(classroom@.users.len() as int) =~= classroom@.users);
    assert(head =~= seq![("event"@, "roster"@), ("classroom_id"@, classroom@.classroom_id)]);
    out
}

fn put_board(out: &mut Vec<(String, String)>, board: &Board)
    ensures
        pairs(final(out)@) == pairs(old(out)@) + board_fields(board@),
{
    match board {
        Board::Public => {
            put(out, "target", "public");
        },
        Board::Private(owner) => {
            put(out, "target", "private");
            put(out, "target_user", owner.as_str());
        },
        Board::Assignment(owner, name) => {
            put(out, "target", "assignment");
            put(out, "target_user", owner.as_str());
            put(out, "assignment_name", name.as_str());
        },
    }
    assert(pairs(out@) =~= pairs(old(out)@) + board_fields(board@));
}

/// The pairs that say that the code of a whiteboard has been replaced.
pub fn code_changed(user_id: &str, board: &Board, code: &str, cursor: Option<CursorPosition>) -> (out:
    Vec<(String, String)>)
    ensures
        pairs(out@) == code_fields(user_id@, board@, code@, cursor),
{
    let mut out: Vec<(String, String)> = Vec::new();
    assert(pairs(out@) =~= Seq::empty());
    put(&mut out, "event", "code");
    put(&mut out, "user_id", user_id);
    put_board(&mut out, board);
    put(&mut out, "code", code);
    match cursor {
        Some(p) => {
            put(&mut out, "position", render_int(p.position).as_str());
            put(&mut out, "row", render_int(p.row).as_str());
            put(&mut out, "col", render_int(p.col).as_str());
        },
        None => {},
    }
    assert(pairs(out@) =~= code_fields(user_id@, board@, code@, cursor));
    out
}

/// The pairs that say that a whiteboard has been locked or unlocked.
pub fn lock_changed(user_id: &str, board: &Board, locked: bool) -> (out: Vec<(String, String)>)
    ensures
        pairs(out@) == lock_fields(user_id@, board@, locked),
{
    let mut out: Vec<(String, String)> = Vec::new();
    assert(pairs(out@) =~= Seq::empty());
    if locked {
        put(&mut out, "event", "locked");
    } else {
        put(&mut out, "event", "unlocked");
    }
    put(&mut out, "user_id", user_id);
    put_board(&mut out, board);
    assert(pairs(out@) =~= lock_fields(user_id@, board@, locked));
    out
}

/// The pairs that say that an assignment has been handed out.
pub fn assignment_created(user_id: &str, assignment: &Assignment) -> (out: Vec<(String, String)>)
    ensures
        pairs(out@) == assignment_fields(user_id@, assignment@),
{
    let mut out: Vec<(String, String)> = Vec::new();
    assert(pairs(out@) =~= Seq::empty());
    put(&mut out, "event", "assignment");
    put(&mut out, "user_id", user_id);
    put(&mut out, "assignment_name", assignment.assignment_name.as_str());
    put(&mut out, "assignment_description", assignment.assignment_description.as_str());
    put(&mut out, "assignment_code", assignment.assignment_code.as_str());
    assert(pairs(out@) =~= assignment_fields(user_id@, assignment@));
    out
}

/// The pairs that say that work has been handed in.
pub fn submitted(user_id: &str, name: &str, code: &str) -> (out: Vec<(String, String)>)
    ensures
        pairs(out@) == submitted_fields(user_id@, name@, code@),
{
    let mut out: Vec<(String, String)> = Vec::new();
    assert(pairs(out@) =~= Seq::empty());
    put(&mut out, "event", "submitted");
    put(&mut out, "user_id", user_id);
    put(&mut out, "assignment_name", name);
    put(&mut out, "code", code);
    assert(pairs(out@) =~= submitted_fields(user_id@, name@, code@));
    out
}

/// The pairs that say that work has been graded.
pub fn graded(
    user_id: &str,
    target: &str,
    name: &str,
    grade: i32,
    feedback: &str,
    outcome: AssignmentStatus,
) -> (out: Vec<(String, String)>)
    ensures
        pairs(out@) == graded_fields(user_id@, target@, name@, grade, feedback@, outcome),
{
    let mut out: Vec<(String, String)> = Vec::new();
    assert(pairs(out@) =~= Seq::empty());
    put(&mut out, "event", "graded");
    put(&mut out, "user_id", user_id);
    put(&mut out, "target_user", target);
    put(&mut out, "assignment_name", name);
    put(&mut out, "grade", render_int(grade).as_str());
    put(&mut out, "feedback", feedback);
    put(&mut out, "status", render_int(outcome.code()).as_str());
    assert(pairs(out@) =~= graded_fields(user_id@, target@, name@, grade, feedback@, outcome));
    out
}

fn put_whiteboard(out: &mut Vec<(String, String)>, w: &Whiteboard)
    ensures
        pairs(final(out)@) == pairs(old(out)@) + whiteboard_fields(w@),
{
    put(out, "code", w.code());
    if w.is_locked() {
        put(out, "locked", "1");
    } else {
        put(out, "locked", "0");
    }
    assert(pairs(out@) =~= pairs(old(out)@) + whiteboard_fields(w@));
}

fn put_texts(out: &mut Vec<(String, String)>, key: &str, values: &Vec<String>)
    ensures
        pairs(final(out)@) == pairs(old(out)@) + tagged(key@, texts(values@)),
{
    let mut i: usize = 0;
    assert(pairs(out@) =~= pairs(old(out)@) + tagged(key@, texts(values@).take(0)));
    while i < values.len()
        invariant
            i <= values.len(),
            pairs(out@) == pairs(old(out)@) + tagged(key@, texts(values@).take(i as int)),
        decreases values.len() - i,
    {
        put(out, key, values[i].as_str());
        assert(pairs(out@) =~= pairs(old(out)@) + tagged(key@, texts(values@).take(i + 1)));
        i += 1;
    }
    assert(texts(values@).take(values@.len() as int) =~= texts(values@));
}

fn put_grades(out: &mut Vec<(String, String)>, key: &str, grades: &Vec<i32>)
    ensures
        pairs(final(out)@) == pairs(old(out)@) + tagged(key@, grade_texts(grades@)),
{
    let mut i: usize = 0;
    assert(pairs(out@) =~= pairs(old(out)@) + tagged(key@, grade_texts(grades@).take(0)));
    while i < grades.len()
        invariant
            i <= grades.len(),
            pairs(out@) == pairs(old(out)@) + tagged(key@, grade_texts(grades@).take(i as int)),
        decreases grades.len() - i,
    {
        put(out, key, render_int(grades[i]).as_str());
        assert(pairs(out@) =~= pairs(old(out)@) + tagged(key@, grade_texts(grades@).take(i + 1)));
        i += 1;
    }
    assert(grade_texts(grades@).take(grades@.len() as int) =~= grade_texts(grades@));
}

fn put_record(out: &mut Vec<(String, String)>, r: &UserAssignment)
    ensures
        pairs(final(out)@) == pairs(old(out)@) + record_fields(r@),
{
    put(out, "assignment", r.assignment.assignment_name.as_str());
    put(out, "description", r.assignment.assignment_description.as_str());
    put(out, "status", render_int(r.status.code()).as_str());
    put_whiteboard(out, &r.whiteboard);
    match r.grade {
        Some(g) => {
            put(out, "grade", render_int(g).as_str());
        },
        None => {},
    }
    match &r.feedback {
        Some(f) => {
            put(out, "feedback", f.as_str());
        },
        None => {},
    }
    put_grades(out, "graded", &r.grade_history);
    put_texts(out, "feedback_given", &r.feedback_history);
    put_texts(out, "submission", &r.submissions);
    assert(pairs(out@) =~= pairs(old(out)@) + record_fields(r@));
}

fn put_user(out: &mut Vec<(String, String)>, u: &User)
    ensures
        pairs(final(out)@) == pairs(old(out)@) + user_fields(u@),
{
    put(out, "user", u.user_id.as_str());
    put(out, "role", render_int(u.role.code()).as_str());
    put(out, "status", render_int(u.status.code()).as_str());
    put_whiteboard(out, &u.whiteboard);
    let ghost head = pairs(out@);
    let mut i: usize = 0;
    assert(u@.user_assignments.take(0) =~= Seq::empty());
    assert(head + records_fields(u@.user_assignments.take(0)) =~= head);
    while i < u.user_assignments.len()
        invariant
            i <= u.user_assignments.len(),
            pairs(out@) == head + records_fields(u@.user_assignments.take(i as int)),
        decreases u.user_assignments.len() - i,
    {
        proof {
            let rs = u@.user_assignments;
            assert(rs.take(i + 1).drop_last() =~= rs.take(i as int));
            assert(rs.take(i + 1).last() == rs[i as int]);
        }
        put_record(out, &u.user_assignments[i]);
        assert(pairs(out@) =~= head + records_fields(u@.user_assignments.take(i + 1)));
        i += 1;
    }
    assert(u@.user_assignments.take(u@.user_assignments.len() as int) =~= u@.user_assignments);
    assert(pairs(out@) =~= pairs(old(out)@) + user_fields(u@));
}

/// The pairs that hold the whole state of a classroom.
pub fn snapshot(classroom: &Classroom) -> (out: Vec<(String, String)>)
    ensures
        pairs(out@) == snapshot_fields(classroom@),
{
    let mut out: Vec<(String, String)> = Vec::new();
    assert(pairs(out@) =~= Seq::empty());
    put(&mut out, "event", "snapshot");
    put(&mut out, "classroom_id", classroom.classroom_id.as_str());
    put_whiteboard(&mut out, &classroom.whiteboard);
    let ghost head = pairs(out@);
    let mut i: usize = 0;
    assert(classroom@.users.take(0) =~= Seq::empty());
    assert(head + users_fields(classroom@.users.take(0)) =~= head);
    while i < classroom.users.len()
        invariant
            i <= classroom.users.len(),
            pairs(out@) == head + users_fields(classroom@.users.take(i as int)),
        decreases classroom.users.len() - i,
    {
        proof {
            let us = classroom@.users;
            assert(us.take(i + 1).drop_last() =~= us.take(i as int));
            assert(us.take(i + 1).last() == us[i as int]);
        }
        put_user(&mut out, &classroom.users[i]);
        assert(pairs(out@) =~= head + users_fields(classroom@.users.take(i + 1)));
        i += 1;
    }
    assert(classroom@.users.take(classroom@.users.len() as int) =~= classroom@.users);
    assert(pairs(out@) =~= snapshot_fields(classroom@));
    out
}

} // verus!
