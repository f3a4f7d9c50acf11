//! Role, status and action enumerations, each with its numeric wire code.

use vstd::prelude::*;

verus! {

/// The kinds of event a connection can send.
#[derive(Clone, Copy, Debug, PartialEq, Eq, Structural)]
pub enum Actions {
    NoAction,
    Join,
    CodeChange,
    SyncData,
    Leave,
    GetData,
    LockCode,
    UnlockCode,
    TeacherJoin,
    ClassroomDeleted,
    AssignmentCreate,
    SubmitAssignment,
    GradeAssignment,
}

/// The role a user holds in a classroom.
#[derive(Clone, Copy, Debug, PartialEq, Eq, Structural)]
pub enum ClassroomUserRole {
    Student,
    Teacher,
}

/// Where a student's work on an assignment stands.
#[derive(Clone, Copy, Debug, PartialEq, Eq, Structural)]
pub enum AssignmentStatus {
    NotStarted,
    InProgress,
    Submitted,
    Completed,
    Correctable,
}

/// Whether a user is currently reachable.
#[derive(Clone, Copy, Debug, PartialEq, Eq, Structural)]
pub enum UserStatus {
    Offline,
    Online,
}

/// The visibility of a whiteboard.
#[derive(Clone, Copy, Debug, PartialEq, Eq, Structural)]
pub enum WhiteboardType {
    Public,
    Private,
    Assignment,
}

impl Actions {
    /// The numeric code of an action: its position in the declaration, from 0.
    pub open spec fn spec_code(self) -> int {
        match self {
            Actions::NoAction => 0,
            Actions::Join => 1,
            Actions::CodeChange => 2,
            Actions::SyncData => 3,
            Actions::Leave => 4,
            Actions::GetData => 5,
            Actions::LockCode => 6,
            Actions::UnlockCode => 7,
            Actions::TeacherJoin => 8,
            Actions::ClassroomDeleted => 9,
            Actions::AssignmentCreate => 10,
            Actions::SubmitAssignment => 11,
            Actions::GradeAssignment => 12,
        }
    }

    /// The action that a numeric code stands for, if any.
    pub open spec fn spec_from_code(code: int) -> Option<Actions> {
        if code == 0 {
            Some(Actions::NoAction)
        } else if code == 1 {
            Some(Actions::Join)
        } else if code == 2 {
            Some(Actions::CodeChange)
        } else if code == 3 {
            Some(Actions::SyncData)
        } else if code == 4 {
            Some(Actions::Leave)
        } else if code == 5 {
            Some(Actions::GetData)
        } else if code == 6 {
            Some(Actions::LockCode)
        } else if code == 7 {
            Some(Actions::UnlockCode)
        } else if code == 8 {
            Some(Actions::TeacherJoin)
        } else if code == 9 {
            Some(Actions::ClassroomDeleted)
        } else if code == 10 {
            Some(Actions::AssignmentCreate)
        } else if code == 11 {
            Some(Actions::SubmitAssignment)
        } else if code == 12 {
            Some(Actions::GradeAssignment)
        } else {
            None
        }
    }

    /// The numeric code.
    pub fn code(self) -> (c: i32)
        ensures
            c == self.spec_code(),
            0 <= c <= 12,
    {
        match self {
            Actions::NoAction => 0,
            Actions::Join => 1,
            Actions::CodeChange => 2,
            Actions::SyncData => 3,
            Actions::Leave => 4,
            Actions::GetData => 5,
            Actions::LockCode => 6,
            Actions::UnlockCode => 7,
            Actions::TeacherJoin => 8,
            Actions::ClassroomDeleted => 9,
            Actions::AssignmentCreate => 10,
            Actions::SubmitAssignment => 11,
            Actions::GradeAssignment => 12,
        }
    }

    /// Decodes a numeric action code; codes outside `0..=12` name no action.
    pub fn from_code(code: i32) -> (a: Option<Actions>)
        ensures
            a == Actions::spec_from_code(code as int),
            a is Some <==> 0 <= code <= 12,
            a is Some ==> a->0.spec_code() == code,
    {
        match code {
            0 => Some(Actions::NoAction),
            1 => Some(Actions::Join),
            2 => Some(Actions::CodeChange),
            3 => Some(Actions::SyncData),
            4 => Some(Actions::Leave),
            5 => Some(Actions::GetData),
            6 => Some(Actions::LockCode),
            7 => Some(Actions::UnlockCode),
            8 => Some(Actions::TeacherJoin),
            9 => Some(Actions::ClassroomDeleted),
            10 => Some(Actions::AssignmentCreate),
            11 => Some(Actions::SubmitAssignment),
            12 => Some(Actions::GradeAssignment),
            _ => None,
        }
    }
}

impl ClassroomUserRole {
    /// The numeric code: the position in the declaration, from 0.
    pub open spec fn spec_code(self) -> int {
        match self {
            ClassroomUserRole::Student => 0,
            ClassroomUserRole::Teacher => 1,
        }
    }

    /// The numeric code.
    pub fn code(self) -> (c: i32)
        ensures
            c == self.spec_code(),
    {
        match self {
            ClassroomUserRole::Student => 0,
            ClassroomUserRole::Teacher => 1,
        }
    }
}

impl AssignmentStatus {
    /// The numeric code: the position in the declaration, from 0.
    pub open spec fn spec_code(self) -> int {
        match self {
            AssignmentStatus::NotStarted => 0,
            AssignmentStatus::InProgress => 1,
            AssignmentStatus::Submitted => 2,
            AssignmentStatus::Completed => 3,
            AssignmentStatus::Correctable => 4,
        }
    }

    /// The status that a numeric code stands for, if any.
    pub open spec fn spec_from_code(code: int) -> Option<AssignmentStatus> {
        if code == 0 {
            Some(AssignmentStatus::NotStarted)
        } else if code == 1 {
            Some(AssignmentStatus::InProgress)
        } else if code == 2 {
            Some(AssignmentStatus::Submitted)
        } else if code == 3 {
            Some(AssignmentStatus::Completed)
        } else if code == 4 {
            Some(AssignmentStatus::Correctable)
        } else {
            None
        }
    }

    /// The numeric code.
    pub fn code(self) -> (c: i32)
        ensures
            c == self.spec_code(),
    {
        match self {
            AssignmentStatus::NotStarted => 0,
            AssignmentStatus::InProgress => 1,
            AssignmentStatus::Submitted => 2,
            AssignmentStatus::Completed => 3,
            AssignmentStatus::Correctable => 4,
        }
    }

    /// Decodes a numeric status code; codes outside `0..=4` name no status.
    pub fn from_code(code: i32) -> (s: Option<AssignmentStatus>)
        ensures
            s == AssignmentStatus::spec_from_code(code as int),
    {
        match code {
            0 => Some(AssignmentStatus::NotStarted),
            1 => Some(AssignmentStatus::InProgress),
            2 => Some(AssignmentStatus::Submitted),
            3 => Some(AssignmentStatus::Completed),
            4 => Some(AssignmentStatus::Correctable),
            _ => None,
        }
    }

    /// Whether a status may directly follow another: work moves forward
    /// from `NotStarted` through `InProgress` and `Submitted` to `Completed`,
    /// and `Correctable` may follow `Submitted` or `Completed`.
    pub open spec fn may_follow(self, earlier: AssignmentStatus) -> bool {
        match self {
            AssignmentStatus::NotStarted => false,
            AssignmentStatus::InProgress => earlier == AssignmentStatus::NotStarted,
            AssignmentStatus::Submitted => earlier == AssignmentStatus::NotStarted || earlier
                == AssignmentStatus::InProgress,
            AssignmentStatus::Completed => earlier == AssignmentStatus::Submitted,
            AssignmentStatus::Correctable => earlier == AssignmentStatus::Submitted || earlier
                == AssignmentStatus::Completed,
        }
    }
}

impl UserStatus {
    /// The numeric code: the position in the declaration, from 0.
    pub open spec fn spec_code(self) -> int {
        match self {
            UserStatus::Offline => 0,
            UserStatus::Online => 1,
        }
    }

    /// The numeric code.
    pub fn code(self) -> (c: i32)
        ensures
            c == self.spec_code(),
    {
        match self {
            UserStatus::Offline => 0,
            UserStatus::Online => 1,
        }
    }
}

impl WhiteboardType {
    /// The numeric code: the position in the declaration, from 0.
    pub open spec fn spec_code(self) -> int {
        match self {
            WhiteboardType::Public => 0,
            WhiteboardType::Private => 1,
            WhiteboardType::Assignment => 2,
        }
    }

    /// The numeric code.
    pub fn code(self) -> (c: i32)
        ensures
            c == self.spec_code(),
    {
        match self {
            WhiteboardType::Public => 0,
            WhiteboardType::Private => 1,
            WhiteboardType::Assignment => 2,
        }
    }
}

} // verus!
