//! Assignments and the per-student record of work on them.

use super::consts::{AssignmentStatus, WhiteboardType};
use super::whiteboard::{Whiteboard, WhiteboardView};
use vstd::prelude::*;

verus! {

/// The views of a sequence of strings.
pub open spec fn texts(v: Seq<String>) -> Seq<Seq<char>> {
    v.map_values(|s: String| s@)
}

/// The mathematical value of an [`Assignment`].
pub struct AssignmentView {
    pub assignment_name: Seq<char>,
    pub assignment_description: Seq<char>,
    pub assignment_code: Seq<char>,
}

/// An assignment template: a name, a description and starter code.
#[derive(Debug)]
pub struct Assignment {
    pub assignment_name: String,
    pub assignment_description: String,
    pub assignment_code: String,
}

impl View for Assignment {
    type V = AssignmentView;

    open spec fn view(&self) -> AssignmentView {
        AssignmentView {
            assignment_name: self.assignment_name@,
            assignment_description: self.assignment_description@,
            assignment_code: self.assignment_code@,
        }
    }
}

impl Assignment {
    /// An assignment with the given name, description and starter code.
    pub fn new(assignment_name: &str, assignment_description: &str, assignment_code: &str) -> (a:
        Assignment)
        ensures
            a@ == (AssignmentView {
                assignment_name: assignment_name@,
                assignment_description: assignment_description@,
                assignment_code: assignment_code@,
            }),
    {
        Assignment {
            assignment_name: assignment_name.to_owned(),
            assignment_description: assignment_description.to_owned(),
            assignment_code: assignment_code.to_owned(),
        }
    }

    /// An independent copy with the same value.
    pub fn duplicate(&self) -> (a: Assignment)
        ensures
            a@ == self@,
    {
        Assignment {
            assignment_name: self.assignment_name.clone(),
            assignment_description: self.assignment_description.clone(),
            assignment_code: self.assignment_code.clone(),
        }
    }
}

/// The mathematical value of a [`UserAssignment`].
pub struct UserAssignmentView {
    pub user_id: Seq<char>,
    pub assignment: AssignmentView,
    pub whiteboard: WhiteboardView,
    pub grade: Option<i32>,
    pub feedback: Option<Seq<char>>,
    pub grade_history: Seq<i32>,
    pub feedback_history: Seq<Seq<char>>,
    pub submissions: Seq<Seq<char>>,
    pub status: AssignmentStatus,
}

impl UserAssignmentView {
    /// The record of a student who has not yet touched the assignment.
    pub open spec fn fresh(user_id: Seq<char>, assignment: AssignmentView) -> UserAssignmentView {
        UserAssignmentView {
            user_id,
            assignment,
            whiteboard: WhiteboardView {
                code: assignment.assignment_code,
                whiteboard_type: WhiteboardType::Assignment,
                locked: false,
            },
            grade: None,
            feedback: None,
            grade_history: Seq::empty(),
            feedback_history: Seq::empty(),
            submissions: Seq::empty(),
            status: AssignmentStatus::NotStarted,
        }
    }

    /// Work can be handed in while it is not started or in progress.
    pub open spec fn can_submit(self) -> bool {
        self.status == AssignmentStatus::NotStarted || self.status == AssignmentStatus::InProgress
    }

    /// The record after handing the work in: the status becomes `Submitted`
    /// and the current code is appended to the submissions.
    pub open spec fn submitted(self) -> UserAssignmentView {
        UserAssignmentView {
            status: AssignmentStatus::Submitted,
            submissions: self.submissions.push(self.whiteboard.code),
            ..self
        }
    }

    /// Grading ends in `Completed` or `Correctable`, and only where that
    /// status may follow the current one.
    pub open spec fn can_grade(self, outcome: AssignmentStatus) -> bool {
        (outcome == AssignmentStatus::Completed || outcome == AssignmentStatus::Correctable)
            && outcome.may_follow(self.status)
    }

    /// The record after grading: grade and feedback are set and appended to
    /// their histories, and the status becomes `outcome`.
    pub open spec fn graded(
        self,
        grade: i32,
        feedback: Seq<char>,
        outcome: AssignmentStatus,
    ) -> UserAssignmentView {
        UserAssignmentView {
            grade: Some(grade),
            feedback: Some(feedback),
            grade_history: self.grade_history.push(grade),
            feedback_history: self.feedback_history.push(feedback),
            status: outcome,
            ..self
        }
    }
}

/// One student's working copy and grading record of an assignment.
#[derive(Debug)]
pub struct UserAssignment {
    pub user_id: String,
    pub assignment: Assignment,
    pub whiteboard: Whiteboard,
    pub grade: Option<i32>,
    pub feedback: Option<String>,
    pub grade_history: Vec<i32>,
    pub feedback_history: Vec<String>,
    pub submissions: Vec<String>,
    pub status: AssignmentStatus,
}

impl View for UserAssignment {
    type V = UserAssignmentView;

    open spec fn view(&self) -> UserAssignmentView {
        UserAssignmentView {
            user_id: self.user_id@,
            assignment: self.assignment@,
            whiteboard: self.whiteboard@,
            grade: self.grade,
            feedback: match self.feedback {
                Some(f) => Some(f@),
                None => None,
            },
            grade_history: self.grade_history@,
            feedback_history: texts(self.feedback_history@),
            submissions: texts(self.submissions@),
            status: self.status,
        }
    }
}

impl UserAssignment {
    /// A fresh record: the whiteboard is seeded with the assignment's
    /// starter code, nothing is graded, and the status is `NotStarted`.
    pub fn new(user_id: &str, assignment: Assignment) -> (ua: UserAssignment)
        ensures
            ua@ == UserAssignmentView::fresh(user_id@, assignment@),
    {
        let whiteboard = Whiteboard::with_code(
            WhiteboardType::Assignment,
            assignment.assignment_code.as_str(),
        );
        let ua = UserAssignment {
            user_id: user_id.to_owned(),
            assignment,
            whiteboard,
            grade: None,
            feedback: None,
            grade_history: Vec::new(),
            feedback_history: Vec::new(),
            submissions: Vec::new(),
            status: AssignmentStatus::NotStarted,
        };
        assert(ua@.feedback_history =~= Seq::empty());
        assert(ua@.submissions =~= Seq::empty());
        ua
    }

    /// Hands the work in. Returns whether that was possible; if not,
    /// nothing changes.
    pub fn submit(&mut self) -> (accepted: bool)
        ensures
            accepted == old(self)@.can_submit(),
            accepted ==> final(self)@ == old(self)@.submitted(),
            !accepted ==> final(self)@ == old(self)@,
    {
        match self.status {
            AssignmentStatus::NotStarted | AssignmentStatus::InProgress => {
                let snapshot = self.whiteboard.code().to_owned();
                self.submissions.push(snapshot);
                self.status = AssignmentStatus::Submitted;
                assert(self@.submissions =~= old(self)@.submissions.push(
                    old(self)@.whiteboard.code,
                ));
                true
            },
            _ => false,
        }
    }

    /// Records a grade and its feedback and moves the status to `outcome`.
    /// Returns whether that was possible; if not, nothing changes.
    pub fn grade(&mut self, grade: i32, feedback: &str, outcome: AssignmentStatus) -> (accepted:
        bool)
        ensures
            accepted == old(self)@.can_grade(outcome),
            accepted ==> final(self)@ == old(self)@.graded(grade, feedback@, outcome),
            !accepted ==> final(self)@ == old(self)@,
    {
        let allowed = match outcome {
            AssignmentStatus::Completed => match self.status {
                AssignmentStatus::Submitted => true,
                _ => false,
            },
            AssignmentStatus::Correctable => match self.status {
                AssignmentStatus::Submitted | AssignmentStatus::Completed => true,
                _ => false,
            },
            _ => false,
        };
        if !allowed {
            return false;
        }
        self.grade = Some(grade);
        self.feedback = Some(feedback.to_owned());
        self.grade_history.push(grade);
        self.feedback_history.push(feedback.to_owned());
        self.status = outcome;
        assert(self@.feedback_history =~= old(self)@.feedback_history.push(feedback@));
        true
    }
}

} // verus!
