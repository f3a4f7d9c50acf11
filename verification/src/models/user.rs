//! A classroom member.

use super::assignment::{UserAssignment, UserAssignmentView};
use super::consts::{ClassroomUserRole, UserStatus, WhiteboardType};
use super::whiteboard::{default_code, Whiteboard, WhiteboardView};
use crate::text::same_text;
use vstd::prelude::*;

verus! {

/// The views of a sequence of assignment records.
pub open spec fn records(v: Seq<UserAssignment>) -> Seq<UserAssignmentView> {
    v.map_values(|a: UserAssignment| a@)
}

/// The mathematical value of a [`User`].
pub struct UserView {
    pub user_id: Seq<char>,
    pub role: ClassroomUserRole,
    pub whiteboard: WhiteboardView,
    pub user_assignments: Seq<UserAssignmentView>,
    pub status: UserStatus,
}

impl UserView {
    /// A member who has just joined: online, with an untouched private
    /// whiteboard and no assignments.
    pub open spec fn fresh(user_id: Seq<char>, role: ClassroomUserRole) -> UserView {
        UserView {
            user_id,
            role,
            whiteboard: WhiteboardView {
                code: default_code(),
                whiteboard_type: WhiteboardType::Private,
                locked: false,
            },
            user_assignments: Seq::empty(),
            status: UserStatus::Online,
        }
    }

    /// The names of the member's assignments, in order.
    pub open spec fn assignment_names(self) -> Seq<Seq<char>> {
        self.user_assignments.map_values(|a: UserAssignmentView| a.assignment.assignment_name)
    }

    /// The position of the first assignment called `name`, if there is one.
    pub open spec fn assignment_index(self, name: Seq<char>) -> Option<int> {
        self.assignment_names().index_of_first(name)
    }
}

/// A member of a classroom: id, role, status, a private whiteboard and the
/// assignment records.
#[derive(Debug)]
pub struct User {
    pub user_id: String,
    pub role: ClassroomUserRole,
    pub whiteboard: Whiteboard,
    pub user_assignments: Vec<UserAssignment>,
    pub status: UserStatus,
}

impl View for User {
    type V = UserView;

    open spec fn view(&self) -> UserView {
        UserView {
            user_id: self.user_id@,
            role: self.role,
            whiteboard: self.whiteboard@,
            user_assignments: records(self.user_assignments@),
            status: self.status,
        }
    }
}

impl User {
    /// A member who has just joined: online, with an untouched private
    /// whiteboard and no assignments.
    pub fn new(user_id: &str, role: ClassroomUserRole) -> (u: User)
        ensures
            u@ == UserView::fresh(user_id@, role),
    {
        let u = User {
            user_id: user_id.to_owned(),
            role,
            whiteboard: Whiteboard::new(WhiteboardType::Private),
            user_assignments: Vec::new(),
            status: UserStatus::Online,
        };
        assert(u@.user_assignments =~= Seq::empty());
        u
    }

    /// The position of the first assignment called `name`, if there is one.
    pub fn find_assignment(&self, name: &str) -> (found: Option<usize>)
        ensures
            match found {
                Some(i) => self@.assignment_index(name@) == Some(i as int) && i
                    < self.user_assignments.len(),
                None => self@.assignment_index(name@) is None,
            },
    {
        let mut i: usize = 0;
        while i < self.user_assignments.len()
            invariant
                i <= self.user_assignments.len(),
                forall|j: int| 0 <= j < i ==> self@.assignment_names()[j] != name@,
            decreases self.user_assignments.len() - i,
        {
            if same_text(self.user_assignments[i].assignment.assignment_name.as_str(), name) {
                proof {
                    assert(self@.assignment_names()[i as int] == name@);
                    self@.assignment_names().index_of_first_ensures(name@);
                }
                return Some(i);
            }
            i += 1;
        }
        proof {
            self@.assignment_names().index_of_first_ensures(name@);
        }
        None
    }
}

} // verus!
