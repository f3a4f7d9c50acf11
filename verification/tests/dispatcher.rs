use classroom_hub::error::DispatchError;
use classroom_hub::managers::connection_manager::{ConnectionManager, Selection};
use classroom_hub::managers::payload_handler::{PayloadHandler, Reaction, Session};
use classroom_hub::models::consts::{
    AssignmentStatus, ClassroomUserRole, UserStatus, WhiteboardType,
};

fn fields(pairs: &[(&str, &str)]) -> Vec<(String, String)> {
    pairs.iter().map(|(k, v)| (k.to_string(), v.to_string())).collect()
}

fn send(
    h: &mut PayloadHandler,
    connection: usize,
    classroom: &str,
    pairs: &[(&str, &str)],
) -> Result<Reaction, DispatchError> {
    h.process_message(fields(pairs), classroom, connection)
}

fn error_of(r: Result<Reaction, DispatchError>) -> DispatchError {
    match r {
        Ok(_) => panic!("the action was accepted"),
        Err(e) => e,
    }
}

/// A classroom "c1" with teacher "T" on connection 1 and students "S1",
/// "S2" on connections 2 and 3.
fn classroom_of_three() -> PayloadHandler {
    let mut h = PayloadHandler::new();
    for k in 1..=3 {
        assert!(h.on_connect(k).is_ok());
    }
    send(&mut h, 1, "c1", &[("action", "8"), ("user_id", "T")]).unwrap();
    send(&mut h, 2, "c1", &[("action", "1"), ("user_id", "S1")]).unwrap();
    send(&mut h, 3, "c1", &[("action", "1"), ("user_id", "S2")]).unwrap();
    h
}

fn members(h: &PayloadHandler, classroom: &str) -> usize {
    match h.classrooms().get_classroom(classroom) {
        Some(c) => c.users.len(),
        None => 0,
    }
}

#[test]
fn registry_connect_replaces_and_disconnect_removes() {
    let mut r = ConnectionManager::new();
    assert_eq!(r.connect("c1", "a", ClassroomUserRole::Student, 1), None);
    assert_eq!(r.connect("c1", "b", ClassroomUserRole::Teacher, 2), None);
    assert_eq!(r.connect("c2", "a", ClassroomUserRole::Student, 3), None);
    assert_eq!(r.len(), 3);
    assert_eq!(r.connect("c1", "a", ClassroomUserRole::Student, 9), Some(1));
    assert_eq!(r.len(), 3);
    assert_eq!(r.find("c1", "a"), Some(0));
    assert_eq!(r.entry(0).connection, 9);
    assert_eq!(r.find_connection(3), Some(2));
    assert_eq!(r.find_connection(1), None);
    assert_eq!(r.disconnect("c1", "zz"), None);
    assert_eq!(r.disconnect("c1", "a"), Some(9));
    assert_eq!(r.len(), 2);
    assert_eq!(r.find("c1", "a"), None);
}

#[test]
fn registry_fan_out_by_selection() {
    let mut r = ConnectionManager::new();
    r.connect("c1", "t", ClassroomUserRole::Teacher, 1);
    r.connect("c1", "a", ClassroomUserRole::Student, 2);
    r.connect("c2", "x", ClassroomUserRole::Student, 3);
    r.connect("c1", "b", ClassroomUserRole::Student, 4);
    let all = r.broadcast_class_online("hi", "c1");
    assert_eq!(all.recipients, vec![1, 2, 4]);
    assert_eq!(all.payload, "hi");
    assert_eq!(all.classroom_id, "c1");
    assert!(matches!(all.selection, Selection::AllMembers));
    assert_eq!(r.broadcast_class_students("hi", "c1").recipients, vec![2, 4]);
    assert_eq!(
        r.route("c1", Selection::Role(ClassroomUserRole::Teacher), String::from("p")).recipients,
        vec![1]
    );
    assert_eq!(
        r.route("c1", Selection::AllExcept(String::from("a")), String::from("p")).recipients,
        vec![1, 4]
    );
    assert_eq!(
        r.route("c1", Selection::Single(String::from("b")), String::from("p")).recipients,
        vec![4]
    );
    assert!(r.broadcast_class_online("hi", "nowhere").recipients.is_empty());
    let d = r.broadcast("c1", "pay", Some("a"), Some(ClassroomUserRole::Student));
    assert_eq!(d.len(), 1);
    assert_eq!((d[0].connection, d[0].payload.as_str()), (4, "pay"));
    assert_eq!(r.broadcast("c1", "pay", None, None).len(), 3);
    assert_eq!(r.send_to("c1", "a", "one").unwrap().connection, 2);
    assert!(r.send_to("c1", "x", "one").is_err());
    assert!(r.send_to("c2", "a", "one").is_err());
}

#[test]
fn registry_disconnect_classroom_keeps_the_others() {
    let mut r = ConnectionManager::new();
    r.connect("c1", "t", ClassroomUserRole::Teacher, 1);
    r.connect("c2", "x", ClassroomUserRole::Student, 3);
    r.connect("c1", "b", ClassroomUserRole::Student, 4);
    assert_eq!(r.disconnect_classroom("c1"), vec![1, 4]);
    assert_eq!(r.len(), 1);
    assert_eq!(r.entry(0).user_id, "x");
    assert!(r.disconnect_classroom("c1").is_empty());
}

#[test]
fn session_goes_from_connecting_to_joined_to_disconnected() {
    let mut h = PayloadHandler::new();
    assert!(matches!(h.session(1), Session::Disconnected));
    assert!(h.on_connect(1).is_ok());
    assert!(matches!(h.session(1), Session::Connecting));
    assert_eq!(h.on_connect(1), Err(DispatchError::InvalidState));
    send(&mut h, 1, "c1", &[("action", "1"), ("user_id", "S")]).unwrap();
    match h.session(1) {
        Session::Joined { classroom_id, user_id } => {
            assert_eq!(classroom_id, "c1");
            assert_eq!(user_id, "S");
        },
        _ => panic!("not joined"),
    }
    assert_eq!(h.on_connect(1), Err(DispatchError::InvalidState));
    let r = send(&mut h, 1, "c1", &[("action", "4"), ("user_id", "S")]).unwrap();
    assert_eq!(r.closed, vec![1]);
    assert!(matches!(h.session(1), Session::Disconnected));
}

#[test]
fn actions_before_join_are_unauthenticated() {
    let mut h = PayloadHandler::new();
    assert_eq!(
        error_of(send(&mut h, 5, "c1", &[("action", "1"), ("user_id", "S")])),
        DispatchError::Unauthenticated
    );
    h.on_connect(5).unwrap();
    for action in ["0", "2", "3", "4", "5", "6", "7", "9", "10", "11", "12", "13", "-4"] {
        assert_eq!(
            error_of(send(&mut h, 5, "c1", &[("action", action), ("user_id", "S")])),
            DispatchError::Unauthenticated
        );
    }
    assert!(matches!(h.session(5), Session::Connecting));
    assert!(h.classrooms().get_classroom("c1").is_none());
    assert_eq!(h.connections().len(), 0);
}

#[test]
fn payload_without_action_or_user_is_malformed() {
    let mut h = PayloadHandler::new();
    h.on_connect(1).unwrap();
    assert_eq!(error_of(send(&mut h, 1, "c1", &[("user_id", "S")])), DispatchError::MalformedPayload);
    assert_eq!(error_of(send(&mut h, 1, "c1", &[("action", "1")])), DispatchError::MalformedPayload);
    assert_eq!(
        error_of(send(&mut h, 1, "c1", &[("action", "join"), ("user_id", "S")])),
        DispatchError::MalformedPayload
    );
    assert!(matches!(h.session(1), Session::Connecting));
}

#[test]
fn unknown_action_after_join_is_malformed() {
    let mut h = classroom_of_three();
    for action in ["0", "13", "99", "-1"] {
        assert_eq!(
            error_of(send(&mut h, 2, "c1", &[("action", action), ("user_id", "S1")])),
            DispatchError::MalformedPayload
        );
    }
    assert_eq!(members(&h, "c1"), 3);
}

#[test]
fn joining_twice_is_an_invalid_state() {
    let mut h = classroom_of_three();
    assert_eq!(
        error_of(send(&mut h, 2, "c1", &[("action", "1"), ("user_id", "S1")])),
        DispatchError::InvalidState
    );
    assert_eq!(
        error_of(send(&mut h, 2, "c1", &[("action", "8"), ("user_id", "S1")])),
        DispatchError::InvalidState
    );
    assert_eq!(members(&h, "c1"), 3);
}

#[test]
fn speaking_for_another_user_or_classroom_is_denied() {
    let mut h = classroom_of_three();
    assert_eq!(
        error_of(send(&mut h, 2, "c1", &[("action", "2"), ("user_id", "S2"), ("code", "x")])),
        DispatchError::PermissionDenied
    );
    assert_eq!(
        error_of(send(&mut h, 2, "c2", &[("action", "2"), ("user_id", "S1"), ("code", "x")])),
        DispatchError::PermissionDenied
    );
    assert_eq!(
        h.classrooms().get_classroom("c1").unwrap().whiteboard.code(),
        "print(\"Hello world!\")"
    );
}

#[test]
fn membership_is_joins_minus_leaves() {
    let mut h = PayloadHandler::new();
    let names = ["a", "b", "c", "d", "e"];
    for (i, name) in names.iter().enumerate() {
        h.on_connect(i + 1).unwrap();
        send(&mut h, i + 1, "room", &[("action", "1"), ("user_id", name)]).unwrap();
        assert_eq!(members(&h, "room"), i + 1);
    }
    send(&mut h, 2, "room", &[("action", "4"), ("user_id", "b")]).unwrap();
    assert_eq!(members(&h, "room"), 4);
    h.on_disconnect(4);
    assert_eq!(members(&h, "room"), 3);
    h.on_disconnect(4);
    assert_eq!(members(&h, "room"), 3);
    assert_eq!(h.connections().len(), 3);
    assert_eq!(members(&h, "elsewhere"), 0);
}

#[test]
fn join_tells_the_others_and_gives_a_teacher_the_roster() {
    let mut h = PayloadHandler::new();
    for k in 1..=3 {
        h.on_connect(k).unwrap();
    }
    let r = send(&mut h, 2, "c1", &[("action", "1"), ("user_id", "S1")]).unwrap();
    assert_eq!(r.events.len(), 1);
    assert!(r.events[0].recipients.is_empty());
    assert!(r.closed.is_empty());
    let r = send(&mut h, 1, "c1", &[("action", "8"), ("user_id", "T")]).unwrap();
    assert_eq!(r.events.len(), 2);
    assert_eq!(r.events[0].recipients, vec![2]);
    assert_eq!(r.events[0].payload, "event=6:joined\nuser_id=1:T\nrole=1:1\n");
    assert!(matches!(&r.events[0].selection, Selection::AllExcept(u) if u == "T"));
    assert_eq!(r.events[1].recipients, vec![1]);
    assert_eq!(r.events[1].payload, "event=6:roster\nclassroom_id=2:c1\nstudent=2:S1\n");
    assert!(matches!(&r.events[1].selection, Selection::Single(u) if u == "T"));
    let r = send(&mut h, 3, "c1", &[("action", "1"), ("user_id", "S2")]).unwrap();
    assert_eq!(r.events.len(), 1);
    assert_eq!(r.events[0].recipients, vec![2, 1]);
    assert_eq!(r.events[0].payload, "event=6:joined\nuser_id=2:S2\nrole=1:0\n");
    let c = h.classrooms().get_classroom("c1").unwrap();
    assert_eq!(c.users[1].role, ClassroomUserRole::Teacher);
    assert_eq!(c.users[2].status, UserStatus::Online);
}

#[test]
fn reconnect_supersedes_the_old_connection() {
    let mut h = classroom_of_three();
    send(&mut h, 2, "c1", &[("action", "2"), ("user_id", "S1"), ("target", "private"), ("code", "kept")])
        .unwrap();
    h.on_connect(7).unwrap();
    let r = send(&mut h, 7, "c1", &[("action", "8"), ("user_id", "S1")]).unwrap();
    assert_eq!(r.closed, vec![2]);
    assert_eq!(r.events.len(), 1);
    assert_eq!(r.events[0].recipients, vec![1, 3]);
    assert_eq!(members(&h, "c1"), 3);
    assert!(matches!(h.session(2), Session::Disconnected));
    assert!(matches!(h.session(7), Session::Joined { .. }));
    let c = h.classrooms().get_classroom("c1").unwrap();
    assert_eq!(c.users[1].role, ClassroomUserRole::Student);
    assert_eq!(c.users[1].whiteboard.code(), "kept");
    let r = send(&mut h, 1, "c1", &[("action", "2"), ("user_id", "T"), ("code", "z")]).unwrap();
    assert_eq!(r.events[0].recipients, vec![7, 3]);
}

#[test]
fn code_change_reaches_the_rest_of_the_classroom_only() {
    let mut h = classroom_of_three();
    h.on_connect(8).unwrap();
    send(&mut h, 8, "c2", &[("action", "1"), ("user_id", "S1")]).unwrap();
    let r = send(&mut h, 2, "c1", &[("action", "2"), ("user_id", "S1"), ("code", "x=1")]).unwrap();
    assert_eq!(r.events.len(), 1);
    assert_eq!(r.events[0].recipients, vec![1, 3]);
    assert_eq!(r.events[0].classroom_id, "c1");
    assert_eq!(
        r.events[0].payload,
        "event=4:code\nuser_id=2:S1\ntarget=6:public\ncode=3:x=1\n"
    );
    assert!(r.closed.is_empty());
    assert_eq!(h.classrooms().get_classroom("c1").unwrap().whiteboard.code(), "x=1");
    assert_eq!(
        h.classrooms().get_classroom("c2").unwrap().whiteboard.code(),
        "print(\"Hello world!\")"
    );
}

#[test]
fn code_change_carries_the_cursor_and_picks_the_board() {
    let mut h = classroom_of_three();
    let r = send(
        &mut h,
        3,
        "c1",
        &[
            ("action", "2"),
            ("user_id", "S2"),
            ("target", "private"),
            ("code", "p"),
            ("position", "12"),
            ("row", "1"),
            ("col", "-3"),
        ],
    )
    .unwrap();
    assert_eq!(
        r.events[0].payload,
        "event=4:code\nuser_id=2:S2\ntarget=7:private\ntarget_user=2:S2\ncode=1:p\nposition=2:12\nrow=1:1\ncol=2:-3\n"
    );
    let c = h.classrooms().get_classroom("c1").unwrap();
    assert_eq!(c.users[2].whiteboard.code(), "p");
    assert_eq!(c.users[1].whiteboard.code(), "print(\"Hello world!\")");
    assert_eq!(c.whiteboard.code(), "print(\"Hello world!\")");
}

#[test]
fn code_change_with_bad_fields_is_malformed() {
    let mut h = classroom_of_three();
    let bad: [&[(&str, &str)]; 5] = [
        &[("action", "2"), ("user_id", "S1")],
        &[("action", "2"), ("user_id", "S1"), ("code", "x"), ("target", "moon")],
        &[("action", "2"), ("user_id", "S1"), ("code", "x"), ("target", "assignment")],
        &[("action", "2"), ("user_id", "S1"), ("code", "x"), ("position", "1"), ("row", "1")],
        &[("action", "2"), ("user_id", "S1"), ("code", "x"), ("position", "a"), ("row", "1"), ("col", "1")],
    ];
    for pairs in bad {
        assert_eq!(error_of(send(&mut h, 2, "c1", pairs)), DispatchError::MalformedPayload);
    }
    assert_eq!(
        error_of(send(
            &mut h,
            2,
            "c1",
            &[("action", "2"), ("user_id", "S1"), ("code", "x"), ("target", "assignment"), ("assignment_name", "none")]
        )),
        DispatchError::NotFound
    );
    assert_eq!(
        h.classrooms().get_classroom("c1").unwrap().whiteboard.code(),
        "print(\"Hello world!\")"
    );
}

#[test]
fn student_cannot_lock() {
    let mut h = classroom_of_three();
    assert_eq!(
        error_of(send(&mut h, 2, "c1", &[("action", "6"), ("user_id", "S1")])),
        DispatchError::PermissionDenied
    );
    assert!(!h.classrooms().get_classroom("c1").unwrap().whiteboard.is_locked());
    send(&mut h, 1, "c1", &[("action", "6"), ("user_id", "T")]).unwrap();
    assert_eq!(
        error_of(send(&mut h, 2, "c1", &[("action", "7"), ("user_id", "S1")])),
        DispatchError::PermissionDenied
    );
    assert!(h.classrooms().get_classroom("c1").unwrap().whiteboard.is_locked());
}

#[test]
fn teacher_locks_and_unlocks() {
    let mut h = classroom_of_three();
    let r = send(&mut h, 1, "c1", &[("action", "6"), ("user_id", "T")]).unwrap();
    assert_eq!(r.events[0].recipients, vec![2, 3]);
    assert_eq!(r.events[0].payload, "event=6:locked\nuser_id=1:T\ntarget=6:public\n");
    assert!(h.classrooms().get_classroom("c1").unwrap().whiteboard.is_locked());
    let r = send(
        &mut h,
        1,
        "c1",
        &[("action", "6"), ("user_id", "T"), ("target", "private"), ("target_user", "S2")],
    )
    .unwrap();
    assert_eq!(
        r.events[0].payload,
        "event=6:locked\nuser_id=1:T\ntarget=7:private\ntarget_user=2:S2\n"
    );
    assert!(h.classrooms().get_classroom("c1").unwrap().users[2].whiteboard.is_locked());
    assert!(!h.classrooms().get_classroom("c1").unwrap().users[1].whiteboard.is_locked());
    let r = send(&mut h, 1, "c1", &[("action", "7"), ("user_id", "T")]).unwrap();
    assert_eq!(r.events[0].payload, "event=8:unlocked\nuser_id=1:T\ntarget=6:public\n");
    assert!(!h.classrooms().get_classroom("c1").unwrap().whiteboard.is_locked());
    assert_eq!(
        error_of(send(
            &mut h,
            1,
            "c1",
            &[("action", "6"), ("user_id", "T"), ("target", "private"), ("target_user", "nobody")]
        )),
        DispatchError::NotFound
    );
}

#[test]
fn assignment_workflow() {
    let mut h = classroom_of_three();
    assert_eq!(
        error_of(send(
            &mut h,
            2,
            "c1",
            &[("action", "10"), ("user_id", "S1"), ("assignment_name", "a"), ("assignment_description", "d"), ("assignment_code", "c")]
        )),
        DispatchError::PermissionDenied
    );
    assert_eq!(
        error_of(send(&mut h, 1, "c1", &[("action", "10"), ("user_id", "T"), ("assignment_name", "a")])),
        DispatchError::MalformedPayload
    );
    let r = send(
        &mut h,
        1,
        "c1",
        &[("action", "10"), ("user_id", "T"), ("assignment_name", "loops"), ("assignment_description", "d"), ("assignment_code", "start")],
    )
    .unwrap();
    assert_eq!(r.events[0].recipients, vec![1, 2, 3]);
    assert_eq!(
        r.events[0].payload,
        "event=10:assignment\nuser_id=1:T\nassignment_name=5:loops\nassignment_description=1:d\nassignment_code=5:start\n"
    );
    {
        let c = h.classrooms().get_classroom("c1").unwrap();
        assert!(c.users[0].user_assignments.is_empty());
        assert_eq!(c.users[1].user_assignments[0].status, AssignmentStatus::NotStarted);
        assert_eq!(c.users[2].user_assignments[0].whiteboard.code(), "start");
    }
    // grading before submission
    let grade: &[(&str, &str)] = &[
        ("action", "12"),
        ("user_id", "T"),
        ("target_user", "S1"),
        ("assignment_name", "loops"),
        ("grade", "8"),
        ("feedback", "fine"),
        ("status", "3"),
    ];
    assert_eq!(error_of(send(&mut h, 1, "c1", grade)), DispatchError::InvalidState);
    // a teacher cannot submit
    assert_eq!(
        error_of(send(&mut h, 1, "c1", &[("action", "11"), ("user_id", "T"), ("assignment_name", "loops")])),
        DispatchError::PermissionDenied
    );
    assert_eq!(
        error_of(send(&mut h, 2, "c1", &[("action", "11"), ("user_id", "S1")])),
        DispatchError::MalformedPayload
    );
    assert_eq!(
        error_of(send(&mut h, 2, "c1", &[("action", "11"), ("user_id", "S1"), ("assignment_name", "x")])),
        DispatchError::NotFound
    );
    send(
        &mut h,
        2,
        "c1",
        &[("action", "2"), ("user_id", "S1"), ("target", "assignment"), ("assignment_name", "loops"), ("code", "done")],
    )
    .unwrap();
    let r = send(&mut h, 2, "c1", &[("action", "11"), ("user_id", "S1"), ("assignment_name", "loops")])
        .unwrap();
    assert_eq!(r.events[0].recipients, vec![1]);
    assert!(matches!(&r.events[0].selection, Selection::Role(ClassroomUserRole::Teacher)));
    assert_eq!(
        r.events[0].payload,
        "event=9:submitted\nuser_id=2:S1\nassignment_name=5:loops\ncode=4:done\n"
    );
    assert_eq!(
        error_of(send(&mut h, 2, "c1", &[("action", "11"), ("user_id", "S1"), ("assignment_name", "loops")])),
        DispatchError::InvalidState
    );
    // a student cannot grade
    let by_student: &[(&str, &str)] = &[
        ("action", "12"),
        ("user_id", "S2"),
        ("target_user", "S1"),
        ("assignment_name", "loops"),
        ("grade", "1"),
        ("status", "3"),
    ];
    assert_eq!(error_of(send(&mut h, 3, "c1", by_student)), DispatchError::PermissionDenied);
    {
        let c = h.classrooms().get_classroom("c1").unwrap();
        let record = &c.users[1].user_assignments[0];
        assert_eq!(record.status, AssignmentStatus::Submitted);
        assert!(record.grade_history.is_empty());
        assert!(record.feedback_history.is_empty());
        assert_eq!(record.submissions, vec![String::from("done")]);
    }
    let r = send(&mut h, 1, "c1", grade).unwrap();
    assert_eq!(r.events[0].recipients, vec![2]);
    assert_eq!(
        r.events[0].payload,
        "event=6:graded\nuser_id=1:T\ntarget_user=2:S1\nassignment_name=5:loops\ngrade=1:8\nfeedback=4:fine\nstatus=1:3\n"
    );
    let again: &[(&str, &str)] = &[
        ("action", "12"),
        ("user_id", "T"),
        ("target_user", "S1"),
        ("assignment_name", "loops"),
        ("grade", "-2"),
        ("status", "4"),
    ];
    send(&mut h, 1, "c1", again).unwrap();
    assert_eq!(error_of(send(&mut h, 1, "c1", grade)), DispatchError::InvalidState);
    let c = h.classrooms().get_classroom("c1").unwrap();
    let record = &c.users[1].user_assignments[0];
    assert_eq!(record.status, AssignmentStatus::Correctable);
    assert_eq!(record.grade, Some(-2));
    assert_eq!(record.feedback, Some(String::new()));
    assert_eq!(record.grade_history, vec![8, -2]);
    assert_eq!(record.feedback_history, vec![String::from("fine"), String::new()]);
    assert_eq!(c.users[2].user_assignments[0].status, AssignmentStatus::NotStarted);
}

#[test]
fn grading_with_bad_fields_is_malformed() {
    let mut h = classroom_of_three();
    let bad: [&[(&str, &str)]; 5] = [
        &[("action", "12"), ("user_id", "T"), ("assignment_name", "a"), ("grade", "1"), ("status", "3")],
        &[("action", "12"), ("user_id", "T"), ("target_user", "S1"), ("grade", "1"), ("status", "3")],
        &[("action", "12"), ("user_id", "T"), ("target_user", "S1"), ("assignment_name", "a"), ("grade", "x"), ("status", "3")],
        &[("action", "12"), ("user_id", "T"), ("target_user", "S1"), ("assignment_name", "a"), ("grade", "1"), ("status", "2")],
        &[("action", "12"), ("user_id", "T"), ("target_user", "S1"), ("assignment_name", "a"), ("grade", "1")],
    ];
    for pairs in bad {
        assert_eq!(error_of(send(&mut h, 1, "c1", pairs)), DispatchError::MalformedPayload);
    }
    assert_eq!(
        error_of(send(
            &mut h,
            1,
            "c1",
            &[("action", "12"), ("user_id", "T"), ("target_user", "S9"), ("assignment_name", "a"), ("grade", "1"), ("status", "3")]
        )),
        DispatchError::NotFound
    );
}

#[test]
fn leave_tells_those_who_remain() {
    let mut h = classroom_of_three();
    let r = send(&mut h, 2, "c1", &[("action", "4"), ("user_id", "S1")]).unwrap();
    assert_eq!(r.events.len(), 1);
    assert_eq!(r.events[0].recipients, vec![1, 3]);
    assert_eq!(r.events[0].payload, "event=4:left\nuser_id=2:S1\n");
    assert_eq!(r.closed, vec![2]);
    assert_eq!(members(&h, "c1"), 2);
    assert!(h.connections().find("c1", "S1").is_none());
    assert_eq!(
        error_of(send(&mut h, 2, "c1", &[("action", "4"), ("user_id", "S1")])),
        DispatchError::Unauthenticated
    );
}

#[test]
fn disconnect_is_not_reached_by_a_later_broadcast() {
    let mut h = classroom_of_three();
    let events = h.on_disconnect(3);
    assert_eq!(events.len(), 1);
    assert_eq!(events[0].recipients, vec![1, 2]);
    assert_eq!(events[0].payload, "event=4:left\nuser_id=2:S2\n");
    assert!(h.connections().find("c1", "S2").is_none());
    assert_eq!(h.connections().broadcast_class_online("p", "c1").recipients, vec![1, 2]);
    assert!(h.connections().broadcast("c1", "p", None, None).iter().all(|d| d.connection != 3));
    let r = send(&mut h, 1, "c1", &[("action", "2"), ("user_id", "T"), ("code", "y")]).unwrap();
    assert_eq!(r.events[0].recipients, vec![2]);
    assert!(h.on_disconnect(3).is_empty());
    h.on_connect(9).unwrap();
    assert!(h.on_disconnect(9).is_empty());
    assert!(matches!(h.session(9), Session::Disconnected));
}

#[test]
fn empty_classroom_is_kept_or_removed_by_policy() {
    let mut keep = PayloadHandler::new();
    keep.on_connect(1).unwrap();
    send(&mut keep, 1, "c1", &[("action", "1"), ("user_id", "a")]).unwrap();
    send(&mut keep, 1, "c1", &[("action", "4"), ("user_id", "a")]).unwrap();
    assert!(keep.classrooms().get_classroom("c1").is_some());
    assert_eq!(members(&keep, "c1"), 0);
    let mut drop_empty = PayloadHandler::with_policy(true);
    drop_empty.on_connect(1).unwrap();
    drop_empty.on_connect(2).unwrap();
    send(&mut drop_empty, 1, "c1", &[("action", "1"), ("user_id", "a")]).unwrap();
    send(&mut drop_empty, 2, "c1", &[("action", "1"), ("user_id", "b")]).unwrap();
    send(&mut drop_empty, 1, "c1", &[("action", "4"), ("user_id", "a")]).unwrap();
    assert!(drop_empty.classrooms().get_classroom("c1").is_some());
    drop_empty.on_disconnect(2);
    assert!(drop_empty.classrooms().get_classroom("c1").is_none());
}

#[test]
fn classroom_deleted_tells_everyone_and_disconnects_all() {
    let mut h = classroom_of_three();
    h.on_connect(8).unwrap();
    send(&mut h, 8, "c2", &[("action", "1"), ("user_id", "X")]).unwrap();
    assert_eq!(
        error_of(send(&mut h, 2, "c1", &[("action", "9"), ("user_id", "S1")])),
        DispatchError::PermissionDenied
    );
    assert_eq!(members(&h, "c1"), 3);
    let r = send(&mut h, 1, "c1", &[("action", "9"), ("user_id", "T")]).unwrap();
    assert_eq!(r.events.len(), 1);
    assert_eq!(r.events[0].recipients, vec![1, 2, 3]);
    assert_eq!(r.events[0].payload, "event=6:closed\nclassroom_id=2:c1\nuser_id=1:T\n");
    assert_eq!(r.closed, vec![1, 2, 3]);
    assert!(h.classrooms().get_classroom("c1").is_none());
    assert!(h.classrooms().get_classroom("c2").is_some());
    assert_eq!(h.connections().len(), 1);
    for k in 1..=3 {
        assert!(matches!(h.session(k), Session::Disconnected));
    }
    assert!(matches!(h.session(8), Session::Joined { .. }));
}

#[test]
fn get_data_sends_the_snapshot_to_the_sender_alone() {
    let mut h = PayloadHandler::new();
    h.on_connect(1).unwrap();
    h.on_connect(2).unwrap();
    send(&mut h, 1, "c1", &[("action", "8"), ("user_id", "T")]).unwrap();
    send(&mut h, 2, "c1", &[("action", "1"), ("user_id", "S")]).unwrap();
    send(
        &mut h,
        1,
        "c1",
        &[("action", "10"), ("user_id", "T"), ("assignment_name", "n"), ("assignment_description", "d"), ("assignment_code", "c")],
    )
    .unwrap();
    send(&mut h, 2, "c1", &[("action", "11"), ("user_id", "S"), ("assignment_name", "n")]).unwrap();
    send(
        &mut h,
        1,
        "c1",
        &[("action", "12"), ("user_id", "T"), ("target_user", "S"), ("assignment_name", "n"), ("grade", "4"), ("feedback", "ok"), ("status", "3")],
    )
    .unwrap();
    for action in ["3", "5"] {
        let r = send(&mut h, 1, "c1", &[("action", action), ("user_id", "T")]).unwrap();
        assert_eq!(r.events.len(), 1);
        assert_eq!(r.events[0].recipients, vec![1]);
        assert!(r.closed.is_empty());
        assert_eq!(
            r.events[0].payload,
            "event=8:snapshot\nclassroom_id=2:c1\ncode=21:print(\"Hello world!\")\nlocked=1:0\n\
user=1:T\nrole=1:1\nstatus=1:1\ncode=21:print(\"Hello world!\")\nlocked=1:0\n\
user=1:S\nrole=1:0\nstatus=1:1\ncode=21:print(\"Hello world!\")\nlocked=1:0\n\
assignment=1:n\ndescription=1:d\nstatus=1:3\ncode=1:c\nlocked=1:0\ngrade=1:4\nfeedback=2:ok\n\
graded=1:4\nfeedback_given=2:ok\nsubmission=1:c\n"
        );
    }
}

#[test]
fn teacher_sees_code_from_student_and_then_its_absence() {
    let mut h = PayloadHandler::new();
    h.on_connect(1).unwrap();
    h.on_connect(2).unwrap();
    send(&mut h, 1, "c1", &[("action", "8"), ("user_id", "T")]).unwrap();
    send(&mut h, 2, "c1", &[("action", "1"), ("user_id", "S1")]).unwrap();
    let r = send(&mut h, 2, "c1", &[("action", "2"), ("user_id", "S1"), ("code", "x=1")]).unwrap();
    assert_eq!(r.events[0].recipients, vec![1]);
    assert!(r.events[0].payload.contains("x=1"));
    assert!(r.events[0].payload.contains("user_id=2:S1\n"));
    let before = send(&mut h, 1, "c1", &[("action", "5"), ("user_id", "T")]).unwrap();
    assert!(before.events[0].payload.contains("user=2:S1\n"));
    h.on_disconnect(2);
    let after = send(&mut h, 1, "c1", &[("action", "5"), ("user_id", "T")]).unwrap();
    assert_eq!(after.events[0].recipients, vec![1]);
    assert!(!after.events[0].payload.contains("user=2:S1\n"));
    assert!(after.events[0].payload.contains("user=1:T\n"));
    assert!(after.events[0].payload.contains("code=3:x=1\n"));
    assert_eq!(members(&h, "c1"), 1);
}

#[test]
fn student_lock_attempt_is_denied_and_changes_nothing() {
    let mut h = PayloadHandler::new();
    h.on_connect(1).unwrap();
    send(&mut h, 1, "c1", &[("action", "1"), ("user_id", "S")]).unwrap();
    let r = send(&mut h, 1, "c1", &[("action", "6"), ("user_id", "S")]);
    assert_eq!(error_of(r), DispatchError::PermissionDenied);
    let c = h.classrooms().get_classroom("c1").unwrap();
    assert!(!c.whiteboard.is_locked());
    assert!(!c.users[0].whiteboard.is_locked());
    assert!(matches!(h.session(1), Session::Joined { .. }));
}

#[test]
fn handlers_can_be_called_on_a_loaded_message() {
    let mut h = PayloadHandler::new();
    h.on_connect(1).unwrap();
    h.on_connect(2).unwrap();
    assert!(h.set_message_data(fields(&[("action", "8"), ("user_id", "T")]), "c1", 1));
    assert_eq!(h.payload_action, 8);
    assert_eq!(h.payload_user_id, "T");
    assert_eq!(h.source_classroom_id, "c1");
    assert_eq!(h.source_connection, 1);
    assert!(h.join().is_ok());
    assert!(h.set_message_data(fields(&[("action", "1"), ("user_id", "S")]), "c1", 2));
    assert!(h.student_join().is_ok());
    assert_eq!(
        h.classrooms().get_classroom("c1").unwrap().users[0].role,
        ClassroomUserRole::Teacher
    );
    assert!(!h.set_message_data(fields(&[("user_id", "S")]), "c1", 2));
    assert_eq!(h.payload_action, 0);
    assert_eq!(h.payload_user_id, "");
    assert!(h.set_message_data(fields(&[("action", "2"), ("user_id", "S"), ("code", "q")]), "c1", 2));
    assert!(h.code_change().is_ok());
    assert!(h.get_data().is_ok());
    assert_eq!(error_of(h.lock_code()), DispatchError::PermissionDenied);
    assert_eq!(error_of(h.unlock_code()), DispatchError::PermissionDenied);
    assert_eq!(error_of(h.assignment_create()), DispatchError::PermissionDenied);
    assert_eq!(error_of(h.grade_assignment()), DispatchError::PermissionDenied);
    assert_eq!(error_of(h.classroom_deleted()), DispatchError::PermissionDenied);
    assert_eq!(error_of(h.submit_assignment()), DispatchError::MalformedPayload);
    assert_eq!(error_of(h.join()), DispatchError::InvalidState);
    assert!(h.leave().is_ok());
    assert_eq!(error_of(h.leave()), DispatchError::Unauthenticated);
    assert_eq!(error_of(h.student_join()), DispatchError::Unauthenticated);
    assert_eq!(h.classrooms().get_classroom("c1").unwrap().whiteboard.code(), "q");
}

#[test]
fn error_names() {
    assert_eq!(DispatchError::Unauthenticated.name(), "unauthenticated");
    assert_eq!(DispatchError::PermissionDenied.name(), "permission_denied");
    assert_eq!(DispatchError::NotFound.name(), "not_found");
    assert_eq!(DispatchError::InvalidState.name(), "invalid_state");
    assert_eq!(DispatchError::MalformedPayload.name(), "malformed_payload");
}

#[test]
fn whiteboards_keep_their_type() {
    let mut h = classroom_of_three();
    send(
        &mut h,
        1,
        "c1",
        &[("action", "10"), ("user_id", "T"), ("assignment_name", "n"), ("assignment_description", "d"), ("assignment_code", "c")],
    )
    .unwrap();
    send(&mut h, 2, "c1", &[("action", "2"), ("user_id", "S1"), ("code", "a")]).unwrap();
    send(&mut h, 2, "c1", &[("action", "2"), ("user_id", "S1"), ("target", "private"), ("code", "b")])
        .unwrap();
    send(
        &mut h,
        2,
        "c1",
        &[("action", "2"), ("user_id", "S1"), ("target", "assignment"), ("assignment_name", "n"), ("code", "c")],
    )
    .unwrap();
    send(
        &mut h,
        1,
        "c1",
        &[("action", "6"), ("user_id", "T"), ("target", "assignment"), ("target_user", "S1"), ("assignment_name", "n")],
    )
    .unwrap();
    let c = h.classrooms().get_classroom("c1").unwrap();
    assert_eq!(*c.whiteboard.whiteboard_type(), WhiteboardType::Public);
    for u in &c.users {
        assert_eq!(*u.whiteboard.whiteboard_type(), WhiteboardType::Private);
        for r in &u.user_assignments {
            assert_eq!(*r.whiteboard.whiteboard_type(), WhiteboardType::Assignment);
        }
    }
    assert!(c.users[1].user_assignments[0].whiteboard.is_locked());
    assert!(!c.users[2].user_assignments[0].whiteboard.is_locked());
    assert_eq!(c.users[1].user_assignments[0].whiteboard.code(), "c");
}

#[test]
fn every_member_is_registered_and_every_registration_is_a_member() {
    let mut h = classroom_of_three();
    h.on_connect(4).unwrap();
    h.on_connect(5).unwrap();
    send(&mut h, 4, "c2", &[("action", "1"), ("user_id", "S1")]).unwrap();
    send(&mut h, 5, "c1", &[("action", "1"), ("user_id", "S2")]).unwrap();
    send(&mut h, 2, "c1", &[("action", "4"), ("user_id", "S1")]).unwrap();
    h.on_disconnect(1);
    let registry = h.connections();
    let mut members_seen = 0;
    for id in ["c1", "c2"] {
        let c = h.classrooms().get_classroom(id).unwrap();
        for u in &c.users {
            let at = registry.find(id, &u.user_id).unwrap();
            assert_eq!(registry.entry(at).role, u.role);
            assert_eq!(u.status, UserStatus::Online);
            members_seen += 1;
        }
    }
    assert_eq!(members_seen, registry.len());
    assert_eq!(registry.len(), 2);
    assert_eq!(registry.find_connection(5), registry.find("c1", "S2"));
    assert!(registry.find_connection(3).is_none());
}

#[test]
fn registry_listeners_are_the_connections_of_the_audience() {
    let mut r = ConnectionManager::new();
    r.connect("c1", "t", ClassroomUserRole::Teacher, 1);
    r.connect("c1", "a", ClassroomUserRole::Student, 2);
    r.connect("c2", "x", ClassroomUserRole::Student, 3);
    r.connect("c1", "b", ClassroomUserRole::Student, 4);
    assert_eq!(r.listeners("c1", None, None), vec![1, 2, 4]);
    assert_eq!(r.listeners("c1", Some("a"), None), vec![1, 4]);
    assert_eq!(r.listeners("c1", Some("a"), Some(ClassroomUserRole::Student)), vec![4]);
    assert!(r.listeners("c3", None, None).is_empty());
}

#[test]
fn new_dispatcher_has_no_message_loaded() {
    let h = PayloadHandler::new();
    assert_eq!(h.payload_action, 0);
    assert_eq!(h.payload_user_id, "");
    assert!(h.payload_data.is_empty());
    assert_eq!(h.source_classroom_id, "");
    assert_eq!(h.source_connection, 0);
    assert_eq!(h.connections().len(), 0);
    assert_eq!(h.classrooms().len(), 0);
}
