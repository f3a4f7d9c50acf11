use classroom_hub::error::DispatchError;
use classroom_hub::hub::Hub;
use classroom_hub::managers::connection_manager::{NotConnected, Outbound, Selection};
use classroom_hub::models::consts::ClassroomUserRole;
use classroom_hub::outbox::Outbox;
use tokio::sync::mpsc::UnboundedReceiver;
use warp::ws::Message;

fn fields(pairs: &[(&str, &str)]) -> Vec<(String, String)> {
    pairs.iter().map(|(k, v)| (k.to_string(), v.to_string())).collect()
}

fn next_text(rx: &mut UnboundedReceiver<Message>) -> Option<String> {
    match rx.try_recv() {
        Ok(m) => Some(m.to_str().unwrap().to_string()),
        Err(_) => None,
    }
}

fn event(payload: &str, recipients: Vec<usize>) -> Outbound {
    Outbound {
        classroom_id: String::from("c1"),
        selection: Selection::AllMembers,
        payload: String::from(payload),
        recipients,
    }
}

#[test]
fn outbox_queues_text_on_open_connections() {
    let mut outbox = Outbox::new();
    assert!(!outbox.is_open(1));
    assert!(!outbox.send(1, "lost"));
    let mut rx1 = outbox.open(1).unwrap();
    assert!(outbox.is_open(1));
    assert!(outbox.open(1).is_none());
    assert!(outbox.send(1, "hello"));
    assert!(outbox.send(1, "world"));
    assert_eq!(next_text(&mut rx1), Some(String::from("hello")));
    assert_eq!(next_text(&mut rx1), Some(String::from("world")));
    assert_eq!(next_text(&mut rx1), None);
}

#[test]
fn outbox_delivery_survives_a_failed_recipient() {
    let mut outbox = Outbox::new();
    let mut rx1 = outbox.open(1).unwrap();
    let rx2 = outbox.open(2).unwrap();
    let mut rx3 = outbox.open(3).unwrap();
    drop(rx2);
    let failed = outbox.deliver(&event("payload", vec![1, 2, 9, 3]));
    assert_eq!(failed, vec![2, 9]);
    assert_eq!(next_text(&mut rx1), Some(String::from("payload")));
    assert_eq!(next_text(&mut rx3), Some(String::from("payload")));
    assert_eq!(next_text(&mut rx1), None);
    assert!(outbox.deliver(&event("none", vec![])).is_empty());
}

#[test]
fn outbox_close_ends_the_queue() {
    let mut outbox = Outbox::new();
    let mut rx1 = outbox.open(1).unwrap();
    let mut rx2 = outbox.open(2).unwrap();
    let mut rx3 = outbox.open(3).unwrap();
    assert!(outbox.send(1, "last"));
    assert!(outbox.close(1));
    assert!(!outbox.close(1));
    assert!(!outbox.is_open(1));
    assert!(!outbox.send(1, "late"));
    assert_eq!(next_text(&mut rx1), Some(String::from("last")));
    assert!(matches!(
        rx1.try_recv(),
        Err(tokio::sync::mpsc::error::TryRecvError::Disconnected)
    ));
    outbox.close_all(&vec![2, 7, 2]);
    assert!(!outbox.is_open(2));
    assert!(outbox.is_open(3));
    assert!(matches!(
        rx2.try_recv(),
        Err(tokio::sync::mpsc::error::TryRecvError::Disconnected)
    ));
    assert!(matches!(rx3.try_recv(), Err(tokio::sync::mpsc::error::TryRecvError::Empty)));
}

#[test]
fn hub_routes_a_code_change_to_the_teacher() {
    let mut hub = Hub::new(false);
    let mut teacher = hub.on_connect(1).unwrap();
    let mut student = hub.on_connect(2).unwrap();
    assert!(hub.on_connect(2).is_none());
    let (r, failed) = hub.on_message(1, "c1", fields(&[("action", "8"), ("user_id", "T")]));
    assert!(r.is_ok());
    assert!(failed.is_empty());
    assert_eq!(
        next_text(&mut teacher),
        Some(String::from("event=6:roster\nclassroom_id=2:c1\n"))
    );
    let (r, _) = hub.on_message(2, "c1", fields(&[("action", "1"), ("user_id", "S1")]));
    assert!(r.is_ok());
    assert_eq!(
        next_text(&mut teacher),
        Some(String::from("event=6:joined\nuser_id=2:S1\nrole=1:0\n"))
    );
    assert_eq!(next_text(&mut student), None);
    let (r, failed) =
        hub.on_message(2, "c1", fields(&[("action", "2"), ("user_id", "S1"), ("code", "x=1")]));
    assert!(r.is_ok());
    assert!(failed.is_empty());
    assert_eq!(
        next_text(&mut teacher),
        Some(String::from("event=4:code\nuser_id=2:S1\ntarget=6:public\ncode=3:x=1\n"))
    );
    assert_eq!(next_text(&mut student), None);
    let (events, failed) = hub.on_disconnect(2);
    assert_eq!(events.len(), 1);
    assert!(failed.is_empty());
    assert_eq!(next_text(&mut teacher), Some(String::from("event=4:left\nuser_id=2:S1\n")));
    assert!(matches!(
        student.try_recv(),
        Err(tokio::sync::mpsc::error::TryRecvError::Disconnected)
    ));
    let (r, _) = hub.on_message(1, "c1", fields(&[("action", "5"), ("user_id", "T")]));
    assert!(r.is_ok());
    let snapshot = next_text(&mut teacher).unwrap();
    assert!(snapshot.contains("code=3:x=1\n"));
    assert!(!snapshot.contains("S1"));
    assert!(hub.outbox().is_open(1));
    assert!(!hub.outbox().is_open(2));
    assert_eq!(hub.handler().connections().len(), 1);
}

#[test]
fn hub_reports_a_rejection_to_the_sender_alone() {
    let mut hub = Hub::new(false);
    let mut teacher = hub.on_connect(1).unwrap();
    let mut student = hub.on_connect(2).unwrap();
    hub.on_message(1, "c1", fields(&[("action", "8"), ("user_id", "T")]));
    hub.on_message(2, "c1", fields(&[("action", "1"), ("user_id", "S")]));
    while next_text(&mut teacher).is_some() {}
    let (r, failed) = hub.on_message(2, "c1", fields(&[("action", "6"), ("user_id", "S")]));
    assert!(matches!(r, Err(DispatchError::PermissionDenied)));
    assert!(failed.is_empty());
    assert_eq!(
        next_text(&mut student),
        Some(String::from("event=5:error\nerror=17:permission_denied\n"))
    );
    assert_eq!(next_text(&mut teacher), None);
    let (r, failed) = hub.on_message(5, "c1", fields(&[("action", "1"), ("user_id", "Z")]));
    assert!(matches!(r, Err(DispatchError::Unauthenticated)));
    assert_eq!(failed, vec![5]);
    assert!(hub.outbox().is_open(2));
}

#[test]
fn hub_closes_every_queue_of_a_deleted_classroom() {
    let mut hub = Hub::new(true);
    let mut teacher = hub.on_connect(1).unwrap();
    let mut student = hub.on_connect(2).unwrap();
    let mut other = hub.on_connect(3).unwrap();
    hub.on_message(1, "c1", fields(&[("action", "8"), ("user_id", "T")]));
    hub.on_message(2, "c1", fields(&[("action", "1"), ("user_id", "S")]));
    hub.on_message(3, "c2", fields(&[("action", "1"), ("user_id", "S")]));
    while next_text(&mut teacher).is_some() {}
    let (r, failed) = hub.on_message(1, "c1", fields(&[("action", "9"), ("user_id", "T")]));
    assert!(r.is_ok());
    assert!(failed.is_empty());
    let closed = String::from("event=6:closed\nclassroom_id=2:c1\nuser_id=1:T\n");
    assert_eq!(next_text(&mut teacher), Some(closed.clone()));
    assert_eq!(next_text(&mut student), Some(closed));
    assert!(matches!(
        teacher.try_recv(),
        Err(tokio::sync::mpsc::error::TryRecvError::Disconnected)
    ));
    assert!(matches!(
        student.try_recv(),
        Err(tokio::sync::mpsc::error::TryRecvError::Disconnected)
    ));
    assert!(matches!(other.try_recv(), Err(tokio::sync::mpsc::error::TryRecvError::Empty)));
    assert!(hub.outbox().is_open(3));
    assert!(hub.handler().classrooms().get_classroom("c1").is_none());
}

#[test]
fn hub_supersedes_a_connection_on_rejoin() {
    let mut hub = Hub::new(false);
    let mut first = hub.on_connect(1).unwrap();
    hub.on_message(1, "c1", fields(&[("action", "1"), ("user_id", "S")]));
    let mut second = hub.on_connect(2).unwrap();
    let (r, _) = hub.on_message(2, "c1", fields(&[("action", "1"), ("user_id", "S")]));
    assert_eq!(r.unwrap().closed, vec![1]);
    assert!(!hub.outbox().is_open(1));
    assert!(hub.outbox().is_open(2));
    assert!(matches!(
        first.try_recv(),
        Err(tokio::sync::mpsc::error::TryRecvError::Disconnected)
    ));
    assert!(matches!(second.try_recv(), Err(tokio::sync::mpsc::error::TryRecvError::Empty)));
    assert_eq!(hub.handler().classrooms().get_classroom("c1").unwrap().users.len(), 1);
}

#[test]
fn hub_takes_inbound_text() {
    let mut hub = Hub::new(false);
    let mut teacher = hub.on_connect(1).unwrap();
    let mut student = hub.on_connect(2).unwrap();
    let (r, _) = hub.on_text(1, "c1", "action=1:8\nuser_id=1:T\n");
    assert!(r.is_ok());
    let (r, _) = hub.on_text(2, "c1", "action=1:1\nuser_id=2:S1\n");
    assert!(r.is_ok());
    while next_text(&mut teacher).is_some() {}
    let (r, failed) = hub.on_text(2, "c1", "action=1:2\nuser_id=2:S1\ncode=3:x=1\n");
    assert!(r.is_ok());
    assert!(failed.is_empty());
    assert_eq!(
        next_text(&mut teacher),
        Some(String::from("event=4:code\nuser_id=2:S1\ntarget=6:public\ncode=3:x=1\n"))
    );
    let (r, failed) = hub.on_text(2, "c1", "hello");
    assert!(matches!(r, Err(DispatchError::MalformedPayload)));
    assert!(failed.is_empty());
    assert_eq!(
        next_text(&mut student),
        Some(String::from("event=5:error\nerror=17:malformed_payload\n"))
    );
    assert_eq!(next_text(&mut teacher), None);
    let (r, failed) = hub.on_text(9, "c1", "hello");
    assert!(matches!(r, Err(DispatchError::MalformedPayload)));
    assert_eq!(failed, vec![9]);
}

#[test]
fn hub_send_to_and_broadcast_queue_on_registered_users() {
    let mut hub = Hub::new(false);
    let mut teacher = hub.on_connect(1).unwrap();
    let mut a = hub.on_connect(2).unwrap();
    let b = hub.on_connect(3).unwrap();
    let mut pending = hub.on_connect(4).unwrap();
    hub.on_text(1, "c1", "action=1:8\nuser_id=1:T\n");
    hub.on_text(2, "c1", "action=1:1\nuser_id=1:A\n");
    hub.on_text(3, "c1", "action=1:1\nuser_id=1:B\n");
    while next_text(&mut teacher).is_some() {}
    while next_text(&mut a).is_some() {}
    assert_eq!(hub.send_to("c1", "A", "one"), Ok(true));
    assert_eq!(hub.send_to("c1", "Z", "one"), Err(NotConnected));
    assert_eq!(hub.send_to("c2", "A", "one"), Err(NotConnected));
    assert_eq!(next_text(&mut a), Some(String::from("one")));
    assert_eq!(next_text(&mut teacher), None);
    drop(b);
    assert_eq!(hub.send_to("c1", "B", "one"), Ok(false));
    assert_eq!(hub.broadcast("c1", "all", None, None), vec![3]);
    assert_eq!(next_text(&mut teacher), Some(String::from("all")));
    assert_eq!(next_text(&mut a), Some(String::from("all")));
    assert!(hub.broadcast("c1", "s", Some("B"), Some(ClassroomUserRole::Student)).is_empty());
    assert_eq!(next_text(&mut a), Some(String::from("s")));
    assert_eq!(next_text(&mut teacher), None);
    assert!(hub.broadcast("nowhere", "x", None, None).is_empty());
    assert_eq!(next_text(&mut pending), None);
}

#[test]
fn outbox_send_each_tries_every_connection_in_order() {
    let mut outbox = Outbox::new();
    let mut rx1 = outbox.open(1).unwrap();
    let mut rx2 = outbox.open(2).unwrap();
    assert_eq!(outbox.send_each(&vec![2, 5, 1, 2], "t"), vec![5]);
    assert_eq!(next_text(&mut rx1), Some(String::from("t")));
    assert_eq!(next_text(&mut rx2), Some(String::from("t")));
    assert_eq!(next_text(&mut rx2), Some(String::from("t")));
    assert_eq!(next_text(&mut rx2), None);
    assert!(outbox.send_each(&vec![], "t").is_empty());
    let events = vec![event("a", vec![1, 7]), event("b", vec![]), event("c", vec![8, 2])];
    assert_eq!(outbox.deliver_all(&events), vec![7, 8]);
    assert_eq!(next_text(&mut rx1), Some(String::from("a")));
    assert_eq!(next_text(&mut rx2), Some(String::from("c")));
    assert_eq!(next_text(&mut rx1), None);
}
