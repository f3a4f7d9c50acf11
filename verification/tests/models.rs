use classroom_hub::managers::classroom_manager::ClassroomManager;
use classroom_hub::models::assignment::{Assignment, UserAssignment};
use classroom_hub::models::classroom::{Board, Classroom};
use classroom_hub::models::consts::{
    Actions, AssignmentStatus, ClassroomUserRole, UserStatus, WhiteboardType,
};
use classroom_hub::models::cursor_position::CursorPosition;
use classroom_hub::models::user::User;
use classroom_hub::models::whiteboard::Whiteboard;
use classroom_hub::text::{
    characters, decode, encode, lookup, parse_int, render_int, render_nat, same_text,
};

fn fields(pairs: &[(&str, &str)]) -> Vec<(String, String)> {
    pairs.iter().map(|(k, v)| (k.to_string(), v.to_string())).collect()
}

#[test]
fn whiteboard_starts_with_default_code() {
    let w = Whiteboard::new(WhiteboardType::Public);
    assert_eq!(w.code(), "print(\"Hello world!\")");
    assert_eq!(*w.whiteboard_type(), WhiteboardType::Public);
    assert!(!w.is_locked());
}

#[test]
fn whiteboard_with_code_and_set_code() {
    let mut w = Whiteboard::with_code(WhiteboardType::Private, "a = 1");
    assert_eq!(w.code(), "a = 1");
    w.set_code(String::from("b = 2"));
    assert_eq!(w.code(), "b = 2");
    assert_eq!(*w.whiteboard_type(), WhiteboardType::Private);
    w.set_locked(true);
    assert!(w.is_locked());
    assert_eq!(w.code(), "b = 2");
    let copy = w.duplicate();
    assert_eq!(copy.code(), "b = 2");
    assert!(copy.is_locked());
}

#[test]
fn action_codes_follow_declaration_order() {
    assert_eq!(Actions::NoAction.code(), 0);
    assert_eq!(Actions::Join.code(), 1);
    assert_eq!(Actions::CodeChange.code(), 2);
    assert_eq!(Actions::SyncData.code(), 3);
    assert_eq!(Actions::Leave.code(), 4);
    assert_eq!(Actions::GetData.code(), 5);
    assert_eq!(Actions::LockCode.code(), 6);
    assert_eq!(Actions::UnlockCode.code(), 7);
    assert_eq!(Actions::TeacherJoin.code(), 8);
    assert_eq!(Actions::ClassroomDeleted.code(), 9);
    assert_eq!(Actions::AssignmentCreate.code(), 10);
    assert_eq!(Actions::SubmitAssignment.code(), 11);
    assert_eq!(Actions::GradeAssignment.code(), 12);
    for code in 0..=12 {
        assert_eq!(Actions::from_code(code).unwrap().code(), code);
    }
    assert_eq!(Actions::from_code(13), None);
    assert_eq!(Actions::from_code(-1), None);
}

#[test]
fn other_codes() {
    assert_eq!(ClassroomUserRole::Student.code(), 0);
    assert_eq!(ClassroomUserRole::Teacher.code(), 1);
    assert_eq!(UserStatus::Offline.code(), 0);
    assert_eq!(UserStatus::Online.code(), 1);
    assert_eq!(WhiteboardType::Public.code(), 0);
    assert_eq!(WhiteboardType::Private.code(), 1);
    assert_eq!(WhiteboardType::Assignment.code(), 2);
    assert_eq!(AssignmentStatus::NotStarted.code(), 0);
    assert_eq!(AssignmentStatus::Correctable.code(), 4);
    assert_eq!(AssignmentStatus::from_code(3), Some(AssignmentStatus::Completed));
    assert_eq!(AssignmentStatus::from_code(5), None);
}

#[test]
fn cursor_position_new_and_default() {
    let c = CursorPosition::new(7, 2, 3);
    assert_eq!((c.position, c.row, c.col), (7, 2, 3));
    let d = CursorPosition::default();
    assert_eq!((d.position, d.row, d.col), (0, 0, 0));
}

#[test]
fn assignment_new_keeps_its_texts() {
    let a = Assignment::new("loops", "write a loop", "for i in range(3): pass");
    assert_eq!(a.assignment_name, "loops");
    assert_eq!(a.assignment_description, "write a loop");
    assert_eq!(a.assignment_code, "for i in range(3): pass");
}

#[test]
fn user_assignment_starts_fresh_and_seeded() {
    let ua = UserAssignment::new("s1", Assignment::new("loops", "d", "starter"));
    assert_eq!(ua.user_id, "s1");
    assert_eq!(ua.whiteboard.code(), "starter");
    assert_eq!(*ua.whiteboard.whiteboard_type(), WhiteboardType::Assignment);
    assert_eq!(ua.grade, None);
    assert_eq!(ua.feedback, None);
    assert!(ua.grade_history.is_empty());
    assert!(ua.feedback_history.is_empty());
    assert!(ua.submissions.is_empty());
    assert_eq!(ua.status, AssignmentStatus::NotStarted);
}

#[test]
fn submit_then_grade_moves_status_and_appends_history() {
    let mut ua = UserAssignment::new("s1", Assignment::new("loops", "d", "starter"));
    assert!(ua.submit());
    assert_eq!(ua.status, AssignmentStatus::Submitted);
    assert_eq!(ua.submissions, vec![String::from("starter")]);
    assert!(ua.grade(7, "good", AssignmentStatus::Completed));
    assert_eq!(ua.status, AssignmentStatus::Completed);
    assert_eq!(ua.grade, Some(7));
    assert_eq!(ua.feedback, Some(String::from("good")));
    assert_eq!(ua.grade_history, vec![7]);
    assert!(ua.grade(5, "redo", AssignmentStatus::Correctable));
    assert_eq!(ua.status, AssignmentStatus::Correctable);
    assert_eq!(ua.grade_history, vec![7, 5]);
    assert_eq!(ua.feedback_history, vec![String::from("good"), String::from("redo")]);
}

#[test]
fn grading_needs_a_submission() {
    let mut ua = UserAssignment::new("s1", Assignment::new("loops", "d", "starter"));
    assert!(!ua.grade(7, "good", AssignmentStatus::Completed));
    assert_eq!(ua.status, AssignmentStatus::NotStarted);
    assert!(ua.grade_history.is_empty());
    assert!(ua.submit());
    assert!(!ua.submit());
    assert!(!ua.grade(1, "x", AssignmentStatus::InProgress));
    assert!(!ua.grade(1, "x", AssignmentStatus::Submitted));
    assert_eq!(ua.status, AssignmentStatus::Submitted);
    assert!(ua.grade(1, "x", AssignmentStatus::Correctable));
    assert!(!ua.grade(2, "y", AssignmentStatus::Completed));
    assert_eq!(ua.grade_history, vec![1]);
}

#[test]
fn user_new_is_online_with_private_board() {
    let u = User::new("t1", ClassroomUserRole::Teacher);
    assert_eq!(u.user_id, "t1");
    assert_eq!(u.role, ClassroomUserRole::Teacher);
    assert_eq!(u.status, UserStatus::Online);
    assert_eq!(*u.whiteboard.whiteboard_type(), WhiteboardType::Private);
    assert!(u.user_assignments.is_empty());
    assert_eq!(u.find_assignment("loops"), None);
}

#[test]
fn classroom_new_is_empty() {
    let c = Classroom::new("c1");
    assert_eq!(c.classroom_id, "c1");
    assert!(c.users.is_empty());
    assert_eq!(*c.whiteboard.whiteboard_type(), WhiteboardType::Public);
    assert_eq!(c.find_user("s1"), None);
}

#[test]
fn classroom_assign_reaches_students_only() {
    let mut c = Classroom::new("c1");
    c.add_user(User::new("t", ClassroomUserRole::Teacher));
    c.add_user(User::new("s1", ClassroomUserRole::Student));
    c.add_user(User::new("s2", ClassroomUserRole::Student));
    c.assign(&Assignment::new("loops", "d", "starter"));
    assert_eq!(c.users[0].user_assignments.len(), 0);
    assert_eq!(c.users[1].user_assignments.len(), 1);
    assert_eq!(c.users[2].user_assignments.len(), 1);
    assert_eq!(c.users[2].user_assignments[0].user_id, "s2");
    assert_eq!(c.locate_record("s2", "loops"), Some((2, 0)));
    assert_eq!(c.locate_record("t", "loops"), None);
    assert_eq!(c.locate_record("s2", "other"), None);
    assert_eq!(c.locate_record("nobody", "loops"), None);
}

#[test]
fn classroom_boards_are_written_by_name() {
    let mut c = Classroom::new("c1");
    c.add_user(User::new("s1", ClassroomUserRole::Student));
    c.assign(&Assignment::new("loops", "d", "starter"));
    assert!(c.write_code(&Board::Public, String::from("shared")));
    assert!(c.write_code(&Board::Private(String::from("s1")), String::from("mine")));
    assert!(c.write_code(
        &Board::Assignment(String::from("s1"), String::from("loops")),
        String::from("work")
    ));
    assert!(!c.write_code(&Board::Private(String::from("s2")), String::from("x")));
    assert!(!c.write_code(
        &Board::Assignment(String::from("s1"), String::from("none")),
        String::from("x")
    ));
    assert_eq!(c.whiteboard.code(), "shared");
    assert_eq!(c.users[0].whiteboard.code(), "mine");
    assert_eq!(c.users[0].user_assignments[0].whiteboard.code(), "work");
    assert!(c.write_lock(&Board::Private(String::from("s1")), true));
    assert!(c.users[0].whiteboard.is_locked());
    assert!(!c.whiteboard.is_locked());
    let gone = c.remove_user(0);
    assert_eq!(gone.user_id, "s1");
    assert!(c.users.is_empty());
}

#[test]
fn store_add_is_idempotent() {
    let mut m = ClassroomManager::new();
    assert!(m.get_classroom("c1").is_none());
    m.add_classroom("c1");
    assert_eq!(m.len(), 1);
    let mut c = m.take_classroom("c1").unwrap();
    c.add_user(User::new("s1", ClassroomUserRole::Student));
    m.put_classroom(c);
    m.add_classroom("c1");
    assert_eq!(m.len(), 1);
    assert_eq!(m.get_classroom("c1").unwrap().users.len(), 1);
    m.add_classroom("c2");
    assert_eq!(m.len(), 2);
    assert_eq!(m.get_classroom("c2").unwrap().classroom_id, "c2");
}

#[test]
fn store_remove_is_a_no_op_when_absent() {
    let mut m = ClassroomManager::new();
    m.add_classroom("c1");
    m.remove_classroom("c2");
    assert_eq!(m.len(), 1);
    m.remove_classroom("c1");
    assert_eq!(m.len(), 0);
    assert!(m.get_classroom("c1").is_none());
    m.remove_classroom("c1");
    assert_eq!(m.len(), 0);
    assert!(m.take_classroom("c1").is_none());
}

#[test]
fn same_text_compares_contents() {
    assert!(same_text("", ""));
    assert!(same_text("héllo", "héllo"));
    assert!(!same_text("hello", "hellp"));
    assert!(!same_text("hello", "hell"));
}

#[test]
fn parse_int_reads_decimal_numbers() {
    assert_eq!(parse_int("0"), Some(0));
    assert_eq!(parse_int("007"), Some(7));
    assert_eq!(parse_int("12"), Some(12));
    assert_eq!(parse_int("-12"), Some(-12));
    assert_eq!(parse_int("2147483647"), Some(2147483647));
    assert_eq!(parse_int("-2147483648"), Some(-2147483648));
    assert_eq!(parse_int("2147483648"), None);
    assert_eq!(parse_int("-2147483649"), None);
    assert_eq!(parse_int("99999999999999999999999"), None);
    assert_eq!(parse_int(""), None);
    assert_eq!(parse_int("-"), None);
    assert_eq!(parse_int("+1"), None);
    assert_eq!(parse_int("1a"), None);
    assert_eq!(parse_int(" 1"), None);
    assert_eq!(parse_int("١"), None);
}

#[test]
fn render_int_writes_decimal_numbers() {
    assert_eq!(render_int(0), "0");
    assert_eq!(render_int(7), "7");
    assert_eq!(render_int(120), "120");
    assert_eq!(render_int(-5), "-5");
    assert_eq!(render_int(i32::MAX), "2147483647");
    assert_eq!(render_int(i32::MIN), "-2147483648");
    assert_eq!(render_nat(18446744073709551615), "18446744073709551615");
    for v in [-1000, -1, 0, 1, 9, 10, 99, 100, 12345] {
        assert_eq!(parse_int(&render_int(v)), Some(v));
    }
}

#[test]
fn lookup_takes_the_first_match() {
    let f = fields(&[("a", "1"), ("b", "2"), ("a", "3")]);
    assert_eq!(lookup(&f, "a"), Some("1"));
    assert_eq!(lookup(&f, "b"), Some("2"));
    assert_eq!(lookup(&f, "c"), None);
}

#[test]
fn encode_writes_one_counted_line_per_pair() {
    assert_eq!(encode(&fields(&[])), "");
    assert_eq!(encode(&fields(&[("code", "x=1")])), "code=3:x=1\n");
    assert_eq!(
        encode(&fields(&[("event", "code"), ("code", "a\nb"), ("empty", "")])),
        "event=4:code\ncode=3:a\nb\nempty=0:\n"
    );
    assert_eq!(encode(&fields(&[("k", "é é")])), "k=3:é é\n");
}

#[test]
fn characters_are_listed_in_order() {
    assert_eq!(characters(""), Vec::<char>::new());
    assert_eq!(characters("aé\n"), vec!['a', 'é', '\n']);
}

#[test]
fn decode_reads_counted_lines() {
    assert_eq!(decode(""), Some(fields(&[])));
    assert_eq!(decode("code=3:x=1\n"), Some(fields(&[("code", "x=1")])));
    assert_eq!(
        decode("event=4:code\ncode=3:a\nb\nempty=0:\n"),
        Some(fields(&[("event", "code"), ("code", "a\nb"), ("empty", "")]))
    );
    assert_eq!(decode("k=003:é é\n"), Some(fields(&[("k", "é é")])));
    assert_eq!(decode("=0:\n"), Some(fields(&[("", "")])));
    assert_eq!(decode("a:b=1:x\n"), Some(fields(&[("a:b", "x")])));
}

#[test]
fn decode_refuses_broken_lines() {
    for text in [
        "code",
        "code=",
        "code=3",
        "code=3:",
        "code=3:x=1",
        "code=3:x=\n",
        "code=2:x=1\n",
        "code=4:x=1\n",
        "code=:x\n",
        "code=x:x\n",
        "code=-1:x\n",
        "code=1 :x\n",
        "code=99999999999999999999999999:x\n",
        "code=1:x\nrest",
        "\n",
    ] {
        assert_eq!(decode(text), None, "{:?}", text);
    }
}

#[test]
fn decode_inverts_encode() {
    let samples = [
        fields(&[]),
        fields(&[("action", "2"), ("user_id", "S1"), ("code", "x=1\ny:2\n")]),
        fields(&[("a", ""), ("", "b"), ("a", "again"), ("k:1", "10:ten\n")]),
        fields(&[("long", "0123456789012345678901234567890123456789")]),
    ];
    for sample in samples {
        assert_eq!(decode(&encode(&sample)), Some(sample));
    }
}
