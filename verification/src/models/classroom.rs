//! A classroom: a shared whiteboard and the members present.

use super::assignment::{Assignment, AssignmentView, UserAssignment, UserAssignmentView};
use super::consts::{AssignmentStatus, ClassroomUserRole, UserStatus, WhiteboardType};
use super::user::{records, User, UserView};
use super::whiteboard::{default_code, Whiteboard, WhiteboardView};
use crate::text::same_text;
use vstd::prelude::*;

verus! {

/// The views of a sequence of members.
pub open spec fn members(v: Seq<User>) -> Seq<UserView> {
    v.map_values(|u: User| u@)
}

/// The mathematical value of a [`Classroom`].
pub struct ClassroomView {
    pub classroom_id: Seq<char>,
    pub whiteboard: WhiteboardView,
    pub users: Seq<UserView>,
}

impl ClassroomView {
    /// A classroom nobody has joined yet.
    pub open spec fn fresh(classroom_id: Seq<char>) -> ClassroomView {
        ClassroomView {
            classroom_id,
            whiteboard: WhiteboardView {
                code: default_code(),
                whiteboard_type: WhiteboardType::Public,
                locked: false,
            },
            users: Seq::empty(),
        }
    }

    /// The ids of the members, in order.
    pub open spec fn user_ids(self) -> Seq<Seq<char>> {
        self.users.map_values(|u: UserView| u.user_id)
    }

    /// Whether a member is called `user_id`.
    pub open spec fn has_user(self, user_id: Seq<char>) -> bool {
        self.user_ids().contains(user_id)
    }

    /// The position of the first member called `user_id`; meaningful where
    /// `has_user(user_id)`.
    pub open spec fn user_index(self, user_id: Seq<char>) -> int {
        self.user_ids().index_of_first(user_id)->0
    }

    /// No two members share an id.
    pub open spec fn wf(self) -> bool {
        self.user_ids().no_duplicates()
    }

    /// The member called `user_id`; meaningful where `has_user(user_id)`.
    pub open spec fn user(self, user_id: Seq<char>) -> UserView {
        self.users[self.user_index(user_id)]
    }

    /// The classroom with the member at position `j` replaced.
    pub open spec fn with_user(self, j: int, u: UserView) -> ClassroomView {
        ClassroomView { users: self.users.update(j, u), ..self }
    }

    /// The classroom with one assignment record of the member at position
    /// `j` replaced.
    pub open spec fn with_record(self, j: int, a: int, r: UserAssignmentView) -> ClassroomView {
        self.with_user(
            j,
            UserView {
                user_assignments: self.users[j].user_assignments.update(a, r),
                ..self.users[j]
            },
        )
    }

    /// Where the record of `owner` on the assignment called `name` is: the
    /// position of the member and the position of the record.
    pub open spec fn record_place(self, owner: Seq<char>, name: Seq<char>) -> Option<(int, int)> {
        if self.has_user(owner) {
            match self.user(owner).assignment_index(name) {
                Some(a) => Some((self.user_index(owner), a)),
                None => None,
            }
        } else {
            None
        }
    }

    /// The whiteboard that `board` names, if the classroom has it.
    pub open spec fn board(self, board: BoardView) -> Option<WhiteboardView> {
        match board {
            BoardView::Public => Some(self.whiteboard),
            BoardView::Private(owner) => if self.has_user(owner) {
                Some(self.user(owner).whiteboard)
            } else {
                None
            },
            BoardView::Assignment(owner, name) => match self.record_place(owner, name) {
                Some((j, a)) => Some(self.users[j].user_assignments[a].whiteboard),
                None => None,
            },
        }
    }

    /// The classroom with the whiteboard that `board` names replaced;
    /// meaningful where the classroom has that whiteboard.
    pub open spec fn with_board(self, board: BoardView, w: WhiteboardView) -> ClassroomView {
        match board {
            BoardView::Public => ClassroomView { whiteboard: w, ..self },
            BoardView::Private(owner) => self.with_user(
                self.user_index(owner),
                UserView { whiteboard: w, ..self.user(owner) },
            ),
            BoardView::Assignment(owner, name) => {
                let (j, a) = self.record_place(owner, name)->0;
                self.with_record(
                    j,
                    a,
                    UserAssignmentView { whiteboard: w, ..self.users[j].user_assignments[a] },
                )
            },
        }
    }

    /// The classroom after an assignment is handed out: every student gets
    /// a fresh record of it, added last; teachers get none.
    pub open spec fn assigned(self, assignment: AssignmentView) -> ClassroomView {
        ClassroomView {
            users: self.users.map_values(
                |u: UserView|
                    if u.role == ClassroomUserRole::Student {
                        UserView {
                            user_assignments: u.user_assignments.push(
                                UserAssignmentView::fresh(u.user_id, assignment),
                            ),
                            ..u
                        }
                    } else {
                        u
                    },
            ),
            ..self
        }
    }

    /// The same members in the same order: ids, roles and statuses agree.
    pub open spec fn same_members(self, other: ClassroomView) -> bool {
        &&& self.classroom_id == other.classroom_id
        &&& self.users.len() == other.users.len()
        &&& forall|j: int|
            0 <= j < self.users.len() ==> (#[trigger] self.users[j]).user_id == other.users[j].user_id
                && self.users[j].role == other.users[j].role && self.users[j].status
                == other.users[j].status
    }
}

/// The mathematical value of a [`Board`].
pub enum BoardView {
    Public,
    Private(Seq<char>),
    Assignment(Seq<char>, Seq<char>),
}

/// The name of a whiteboard within a classroom: the shared one, the private
/// one of a member, or the one of a member's assignment.
#[derive(Debug)]
pub enum Board {
    Public,
    Private(String),
    Assignment(String, String),
}

impl View for Board {
    type V = BoardView;

    open spec fn view(&self) -> BoardView {
        match self {
            Board::Public => BoardView::Public,
            Board::Private(owner) => BoardView::Private(owner@),
            Board::Assignment(owner, name) => BoardView::Assignment(owner@, name@),
        }
    }
}

/// A classroom: its id, the shared whiteboard, and its members in the
/// order in which they joined.
#[derive(Debug)]
pub struct Classroom {
    pub classroom_id: String,
    pub whiteboard: Whiteboard,
    pub users: Vec<User>,
}

impl View for Classroom {
    type V = ClassroomView;

    open spec fn view(&self) -> ClassroomView {
        ClassroomView {
            classroom_id: self.classroom_id@,
            whiteboard: self.whiteboard@,
            users: members(self.users@),
        }
    }
}

impl Classroom {
    /// A classroom nobody has joined yet, with an untouched public whiteboard.
    pub fn new(classroom_id: &str) -> (c: Classroom)
        ensures
            c@ == ClassroomView::fresh(classroom_id@),
            c@.wf(),
    {
        let c = Classroom {
            classroom_id: classroom_id.to_owned(),
            whiteboard: Whiteboard::new(WhiteboardType::Public),
            users: Vec::new(),
        };
        assert(c@.users =~= Seq::empty());
        c
    }

    /// The position of the member called `user_id`, if there is one.
    pub fn find_user(&self, user_id: &str) -> (found: Option<usize>)
        ensures
            found is Some <==> self@.has_user(user_id@),
            found matches Some(i) ==> i < self.users.len() && self@.users[i as int].user_id
                == user_id@ && i == self@.user_index(user_id@),
    {
        let mut i: usize = 0;
        while i < self.users.len()
            invariant
                i <= self.users.len(),
                forall|j: int| 0 <= j < i ==> self@.user_ids()[j] != user_id@,
            decreases self.users.len() - i,
        {
            if same_text(self.users[i].user_id.as_str(), user_id) {
                proof {
                    assert(self@.user_ids()[i as int] == user_id@);
                    self@.user_ids().index_of_first_ensures(user_id@);
                }
                return Some(i);
            }
            i += 1;
        }
        None
    }

    /// Where the record of `owner` on the assignment called `name` is.
    pub fn locate_record(&self, owner: &str, name: &str) -> (found: Option<(usize, usize)>)
        ensures
            match found {
                Some((j, a)) => self@.record_place(owner@, name@) == Some((j as int, a as int))
                    && j < self.users.len() && a < self.users[j as int].user_assignments.len(),
                None => self@.record_place(owner@, name@) is None,
            },
    {
        match self.find_user(owner) {
            Some(j) => match self.users[j].find_assignment(name) {
                Some(a) => Some((j, a)),
                None => None,
            },
            None => None,
        }
    }

    /// Adds a member last.
    pub fn add_user(&mut self, user: User)
        ensures
            final(self)@ == (ClassroomView { users: old(self)@.users.push(user@), ..old(self)@ }),
    {
        self.users.push(user);
        assert(members(self.users@) =~= members(old(self).users@).push(user@));
    }

    /// Removes the member at position `j`.
    pub fn remove_user(&mut self, j: usize) -> (user: User)
        requires
            j < old(self).users.len(),
        ensures
            user@ == old(self)@.users[j as int],
            final(self)@ == (ClassroomView { users: old(self)@.users.remove(j as int), ..old(self)@ }),
    {
        let user = self.users.remove(j);
        assert(members(self.users@) =~= members(old(self).users@).remove(j as int));
        user
    }

    /// Marks the member at position `j` as online.
    pub fn set_online(&mut self, j: usize)
        requires
            j < old(self).users.len(),
        ensures
            final(self)@ == old(self)@.with_user(
                j as int,
                UserView { status: UserStatus::Online, ..old(self)@.users[j as int] },
            ),
    {
        self.users[j].status = UserStatus::Online;
        assert(members(self.users@) =~= members(old(self).users@).update(
            j as int,
            self.users[j as int]@,
        ));
    }

    /// Replaces the code of the whiteboard that `board` names. Returns
    /// whether the classroom has that whiteboard; if not, nothing changes.
    pub fn write_code(&mut self, board: &Board, code: String) -> (found: bool)
        ensures
            found == old(self)@.board(board@) is Some,
            found ==> final(self)@ == old(self)@.with_board(
                board@,
                WhiteboardView { code: code@, ..old(self)@.board(board@)->0 },
            ),
            !found ==> final(self)@ == old(self)@,
    {
        match board {
            Board::Public => {
                self.whiteboard.set_code(code);
                true
            },
            Board::Private(owner) => match self.find_user(owner.as_str()) {
                Some(j) => {
                    self.users[j].whiteboard.set_code(code);
                    assert(members(self.users@) =~= members(old(self).users@).update(
                        j as int,
                        self.users[j as int]@,
                    ));
                    true
                },
                None => false,
            },
            Board::Assignment(owner, name) => match self.locate_record(
                owner.as_str(),
                name.as_str(),
            ) {
                Some((j, a)) => {
                    self.users[j].user_assignments[a].whiteboard.set_code(code);
                    assert(records(self.users[j as int].user_assignments@) =~= records(
                        old(self).users[j as int].user_assignments@,
                    ).update(a as int, self.users[j as int].user_assignments[a as int]@));
                    assert(members(self.users@) =~= members(old(self).users@).update(
                        j as int,
                        self.users[j as int]@,
                    ));
                    true
                },
                None => false,
            },
        }
    }

    /// Sets the editability flag of the whiteboard that `board` names.
    /// Returns whether the classroom has that whiteboard; if not, nothing
    /// changes.
    pub fn write_lock(&mut self, board: &Board, locked: bool) -> (found: bool)
        ensures
            found == old(self)@.board(board@) is Some,
            found ==> final(self)@ == old(self)@.with_board(
                board@,
                WhiteboardView { locked, ..old(self)@.board(board@)->0 },
            ),
            !found ==> final(self)@ == old(self)@,
    {
        match board {
            Board::Public => {
                self.whiteboard.set_locked(locked);
                true
            },
            Board::Private(owner) => match self.find_user(owner.as_str()) {
                Some(j) => {
                    self.users[j].whiteboard.set_locked(locked);
                    assert(members(self.users@) =~= members(old(self).users@).update(
                        j as int,
                        self.users[j as int]@,
                    ));
                    true
                },
                None => false,
            },
            Board::Assignment(owner, name) => match self.locate_record(
                owner.as_str(),
                name.as_str(),
            ) {
                Some((j, a)) => {
                    self.users[j].user_assignments[a].whiteboard.set_locked(locked);
                    assert(records(self.users[j as int].user_assignments@) =~= records(
                        old(self).users[j as int].user_assignments@,
                    ).update(a as int, self.users[j as int].user_assignments[a as int]@));
                    assert(members(self.users@) =~= members(old(self).users@).update(
                        j as int,
                        self.users[j as int]@,
                    ));
                    true
                },
                None => false,
            },
        }
    }

    /// Hands an assignment out to every student of the classroom.
    pub fn assign(&mut self, assignment: &Assignment)
        ensures
            final(self)@ == old(self)@.assigned(assignment@),
    {
        let mut i: usize = 0;
        while i < self.users.len()
            invariant
                i <= self.users.len(),
                self.users.len() == old(self).users.len(),
                self.classroom_id == old(self).classroom_id,
                self.whiteboard == old(self).whiteboard,
                forall|j: int|
                    0 <= j < i ==> (#[trigger] self@.users[j]) == old(self)@.assigned(
                        assignment@,
                    ).users[j],
                forall|j: int|
                    i <= j < self.users.len() ==> (#[trigger] self@.users[j]) == old(self)@.users[j],
            decreases self.users.len() - i,
        {
            let ghost before = self.users@;
            let ghost prev = self@;
            assert(prev.users[i as int] == old(self)@.users[i as int]);
            if self.users[i].role == ClassroomUserRole::Student {
                let record = UserAssignment::new(
                    self.users[i].user_id.as_str(),
                    assignment.duplicate(),
                );
                self.users[i].user_assignments.push(record);
                assert(records(self.users[i as int].user_assignments@) =~= records(
                    before[i as int].user_assignments@,
                ).push(record@));
            }
            assert(self@.users[i as int] == old(self)@.assigned(assignment@).users[i as int]);
            assert forall|j: int| 0 <= j < self.users.len() && j != i implies (
            #[trigger] self@.users[j]) == prev.users[j] by {
                assert(self.users@[j] == before[j]);
            }
            assert forall|j: int| 0 <= j < i + 1 implies (#[trigger] self@.users[j]) == old(
                self,
            )@.assigned(assignment@).users[j] by {
                if j < i {
                    assert(prev.users[j] == old(self)@.assigned(assignment@).users[j]);
                }
            }
            assert forall|j: int| i + 1 <= j < self.users.len() implies (
            #[trigger] self@.users[j]) == old(self)@.users[j] by {
                assert(prev.users[j] == old(self)@.users[j]);
            }
            i += 1;
        }
        assert(self@.users =~= old(self)@.assigned(assignment@).users);
    }

    /// Hands in the work of the record at `(j, a)`. Returns whether that
    /// was possible; if not, nothing changes.
    pub fn submit_record(&mut self, j: usize, a: usize) -> (accepted: bool)
        requires
            j < old(self).users.len(),
            a < old(self).users[j as int].user_assignments.len(),
        ensures
            accepted == old(self)@.users[j as int].user_assignments[a as int].can_submit(),
            accepted ==> final(self)@ == old(self)@.with_record(
                j as int,
                a as int,
                old(self)@.users[j as int].user_assignments[a as int].submitted(),
            ),
            !accepted ==> final(self)@ == old(self)@,
    {
        let accepted = self.users[j].user_assignments[a].submit();
        assert(records(self.users[j as int].user_assignments@) =~= records(
            old(self).users[j as int].user_assignments@,
        ).update(a as int, self.users[j as int].user_assignments[a as int]@));
        assert(members(self.users@) =~= members(old(self).users@).update(
            j as int,
            self.users[j as int]@,
        ));
        if !accepted {
            assert(records(self.users[j as int].user_assignments@) =~= records(
                old(self).users[j as int].user_assignments@,
            ));
            assert(members(self.users@) =~= members(old(self).users@));
        }
        accepted
    }

    /// Grades the record at `(j, a)`. Returns whether that was possible;
    /// if not, nothing changes.
    pub fn grade_record(
        &mut self,
        j: usize,
        a: usize,
        grade: i32,
        feedback: &str,
        outcome: AssignmentStatus,
    ) -> (accepted: bool)
        requires
            j < old(self).users.len(),
            a < old(self).users[j as int].user_assignments.len(),
        ensures
            accepted == old(self)@.users[j as int].user_assignments[a as int].can_grade(outcome),
            accepted ==> final(self)@ == old(self)@.with_record(
                j as int,
                a as int,
                old(self)@.users[j as int].user_assignments[a as int].graded(
                    grade,
                    feedback@,
                    outcome,
                ),
            ),
            !accepted ==> final(self)@ == old(self)@,
    {
        let accepted = self.users[j].user_assignments[a].grade(grade, feedback, outcome);
        assert(records(self.users[j as int].user_assignments@) =~= records(
            old(self).users[j as int].user_assignments@,
        ).update(a as int, self.users[j as int].user_assignments[a as int]@));
        assert(members(self.users@) =~= members(old(self).users@).update(
            j as int,
            self.users[j as int]@,
        ));
        if !accepted {
            assert(records(self.users[j as int].user_assignments@) =~= records(
                old(self).users[j as int].user_assignments@,
            ));
            assert(members(self.users@) =~= members(old(self).users@));
        }
        accepted
    }
}

} // verus!
