//! The rules keep the store and the registry in agreement.

use crate::managers::connection_manager::{
    distinct_keys, lemma_filter_keeps_distinct, registered, slot, RegistrationView,
};
use crate::managers::rules::{
    assignment_create, classroom_deleted, code_change, connected, connections, depart, disconnected,
    enrolled, enter, grade_assignment, leave, named_board, named_feedback, named_grade,
    named_outcome, sender, serving, set_lock, step, submit_assignment, teacher, HubView,
    MessageView,
};
use crate::models::assignment::{AssignmentView, UserAssignmentView};
use crate::models::classroom::{BoardView, ClassroomView};
use crate::models::consts::{ClassroomUserRole, UserStatus};
use crate::models::user::UserView;
use crate::models::whiteboard::WhiteboardView;
use crate::text::field;
use crate::error::DispatchError;
use vstd::prelude::*;

verus! {

/// What `serving` finds: the one registration with that connection, or
/// that there is none.
pub proof fn lemma_serving(reg: Seq<RegistrationView>, connection: usize)
    ensures
        match serving(reg, connection) {
            Some(i) => 0 <= i < reg.len() && reg[i].connection == connection,
            None => forall|j: int| 0 <= j < reg.len() ==> (#[trigger] reg[j]).connection != connection,
        },
{
    connections(reg).index_of_first_ensures(connection);
    if serving(reg, connection) is None {
        assert forall|j: int| 0 <= j < reg.len() implies (#[trigger] reg[j]).connection
            != connection by {
            assert(connections(reg)[j] == reg[j].connection);
        }
    }
}

/// Where connections are distinct, the registration that serves a
/// connection is the only one that names it.
pub proof fn lemma_serving_unique(reg: Seq<RegistrationView>, i: int)
    requires
        connections(reg).no_duplicates(),
        0 <= i < reg.len(),
    ensures
        serving(reg, reg[i].connection) == Some(i),
{
    lemma_serving(reg, reg[i].connection);
    let j = serving(reg, reg[i].connection)->0;
    assert(connections(reg)[i] == reg[i].connection);
    assert(connections(reg)[j] == reg[j].connection);
}

/// Where keys are distinct, the slot of a registered user is the position
/// of any registration with that key.
pub proof fn lemma_slot(reg: Seq<RegistrationView>, i: int)
    requires
        distinct_keys(reg),
        0 <= i < reg.len(),
    ensures
        registered(reg, reg[i].classroom_id, reg[i].user_id),
        slot(reg, reg[i].classroom_id, reg[i].user_id) == i,
{
    let j = slot(reg, reg[i].classroom_id, reg[i].user_id);
    assert(reg[j].classroom_id == reg[i].classroom_id && reg[j].user_id == reg[i].user_id);
    if i < j {
        assert(!(reg[i].classroom_id == reg[j].classroom_id && reg[i].user_id == reg[j].user_id));
    }
    if j < i {
        assert(!(reg[j].classroom_id == reg[i].classroom_id && reg[j].user_id == reg[i].user_id));
    }
}

/// Where ids are distinct, the index of a member's id is the member's
/// position.
pub proof fn lemma_user_index(cls: ClassroomView, j: int)
    requires
        cls.wf(),
        0 <= j < cls.users.len(),
    ensures
        cls.has_user(cls.users[j].user_id),
        cls.user_index(cls.users[j].user_id) == j,
        cls.user(cls.users[j].user_id) == cls.users[j],
{
    let ids = cls.user_ids();
    assert(ids[j] == cls.users[j].user_id);
    ids.index_of_first_ensures(cls.users[j].user_id);
    let k = ids.index_of_first(cls.users[j].user_id)->0;
    assert(ids[k] == ids[j]);
}

/// A member called `user_id` is at its index.
pub proof fn lemma_has_user(cls: ClassroomView, user_id: Seq<char>)
    requires
        cls.has_user(user_id),
    ensures
        0 <= cls.user_index(user_id) < cls.users.len(),
        cls.users[cls.user_index(user_id)].user_id == user_id,
{
    let ids = cls.user_ids();
    ids.index_of_first_ensures(user_id);
}

/// Who sends a message is registered under the connection, the classroom
/// and the user that the message names, and is a member of that classroom
/// with the registered role.
pub proof fn lemma_sender(s: HubView, m: MessageView)
    requires
        s.wf(),
    ensures
        match sender(s, m) {
            Ok(i) => {
                &&& 0 <= i < s.registry.len()
                &&& serving(s.registry, m.connection) == Some(i)
                &&& s.registry[i].connection == m.connection
                &&& s.registry[i].classroom_id == m.classroom_id
                &&& s.registry[i].user_id == m.user_id
                &&& slot(s.registry, m.classroom_id, m.user_id) == i
                &&& registered(s.registry, m.classroom_id, m.user_id)
                &&& s.classrooms.contains_key(m.classroom_id)
                &&& s.classrooms[m.classroom_id].classroom_id == m.classroom_id
                &&& s.classrooms[m.classroom_id].wf()
                &&& s.classrooms[m.classroom_id].has_user(m.user_id)
                &&& s.classrooms[m.classroom_id].user(m.user_id).role == s.registry[i].role
                &&& s.classrooms[m.classroom_id].user(m.user_id).user_id == m.user_id
                &&& !s.pending.contains(m.connection)
            },
            Err(e) => e == DispatchError::Unauthenticated || e
                == DispatchError::PermissionDenied,
        },
{
    lemma_serving(s.registry, m.connection);
    if let Ok(i) = sender(s, m) {
        lemma_slot(s.registry, i);
        assert(enrolled(s.classrooms, s.registry[i]));
        lemma_has_user(s.classrooms[m.classroom_id], m.user_id);
        if s.pending.contains(m.connection) {
            let k = choose|k: int| 0 <= k < s.pending.len() && s.pending[k] == m.connection;
            assert(s.registry[i].connection != s.pending[k]);
        }
    }
}

/// The state before anything has happened is well formed.
pub proof fn lemma_initial_wf(remove_empty: bool)
    ensures
        HubView::initial(remove_empty).wf(),
{
    let s = HubView::initial(remove_empty);
    assert(connections(s.registry) =~= Seq::<usize>::empty());
}

/// Replacing a classroom by one with the same members keeps the state
/// well formed.
pub proof fn lemma_update_keeps_wf(s: HubView, cls: ClassroomView)
    requires
        s.wf(),
        s.classrooms.contains_key(cls.classroom_id),
        s.classrooms[cls.classroom_id].same_members(cls),
    ensures
        s.with_classroom(cls).wf(),
{
    let c = cls.classroom_id;
    let old_cls = s.classrooms[c];
    let t = s.with_classroom(cls);
    assert(cls.user_ids() =~= old_cls.user_ids());
    assert forall|x: Seq<char>| #[trigger] t.classrooms.contains_key(x) implies t.classrooms[x].wf()
        && t.classrooms[x].classroom_id == x by {
        if x != c {
            assert(s.classrooms.contains_key(x));
        }
    }
    assert forall|i: int| 0 <= i < t.registry.len() implies enrolled(
        t.classrooms,
        #[trigger] t.registry[i],
    ) by {
        let r = s.registry[i];
        assert(enrolled(s.classrooms, r));
        if r.classroom_id == c {
            lemma_has_user(old_cls, r.user_id);
        }
    }
    assert forall|x: Seq<char>, j: int|
        #![trigger t.classrooms[x].users[j]]
        t.classrooms.contains_key(x) && 0 <= j < t.classrooms[x].users.len() implies {
        &&& t.classrooms[x].users[j].status == UserStatus::Online
        &&& registered(t.registry, x, t.classrooms[x].users[j].user_id)
    } by {
        if x == c {
            assert(old_cls.users[j].user_id == cls.users[j].user_id);
            assert(s.classrooms[c].users[j].status == UserStatus::Online);
        } else {
            assert(s.classrooms[x].users[j].status == UserStatus::Online);
        }
    }
}

/// Taking a value out of a sequence without duplicates leaves a
/// sequence without duplicates that lacks the value and holds nothing new.
pub proof fn lemma_remove_value(p: Seq<usize>, k: usize)
    requires
        p.no_duplicates(),
    ensures
        p.remove_value(k).no_duplicates(),
        !p.remove_value(k).contains(k),
        forall|j: int|
            0 <= j < p.remove_value(k).len() ==> p.contains(#[trigger] p.remove_value(k)[j]),
        forall|x: usize| p.contains(x) && x != k ==> p.remove_value(k).contains(x),
{
    p.index_of_first_ensures(k);
    let q = p.remove_value(k);
    match p.index_of_first(k) {
        Some(i) => {
            assert forall|a: int, b: int| 0 <= a < q.len() && 0 <= b < q.len() && a != b implies q[a]
                != q[b] by {
                let a2 = if a < i { a } else { a + 1 };
                let b2 = if b < i { b } else { b + 1 };
                assert(q[a] == p[a2] && q[b] == p[b2]);
            }
            if q.contains(k) {
                let a = choose|a: int| 0 <= a < q.len() && q[a] == k;
                let a2 = if a < i { a } else { a + 1 };
                assert(q[a] == p[a2]);
            }
            assert forall|j: int| 0 <= j < q.len() implies p.contains(#[trigger] q[j]) by {
                let j2 = if j < i { j } else { j + 1 };
                assert(q[j] == p[j2]);
            }
            assert forall|x: usize| p.contains(x) && x != k implies q.contains(x) by {
                let a = choose|a: int| 0 <= a < p.len() && p[a] == x;
                let a2 = if a < i { a } else { a - 1 };
                assert(q[a2] == x);
            }
        },
        None => {},
    }
}

/// Letting a pending connection into a classroom keeps the state well
/// formed.
pub proof fn lemma_enter_keeps_wf(s: HubView, m: MessageView, role: ClassroomUserRole)
    requires
        s.wf(),
    ensures
        enter(s, m, role).state.wf(),
{
    if s.pending.contains(m.connection) {
        let c = m.classroom_id;
        let u = m.user_id;
        let k = m.connection;
        let t = enter(s, m, role).state;
        let before = if s.classrooms.contains_key(c) {
            s.classrooms[c]
        } else {
            ClassroomView::fresh(c)
        };
        let after = t.classrooms[c];
        assert(before.classroom_id == c);
        assert(before.wf()) by {
            if !s.classrooms.contains_key(c) {
                assert(before.user_ids() =~= Seq::<Seq<char>>::empty());
            }
        }
        lemma_remove_value(s.pending, k);
        let kp = choose|kp: int| 0 <= kp < s.pending.len() && s.pending[kp] == k;
        // the new connection is not in the registry
        assert forall|i: int| 0 <= i < s.registry.len() implies (#[trigger] s.registry[i]).connection
            != k by {
            assert(s.registry[i].connection != s.pending[kp]);
        }
        if before.has_user(u) {
            lemma_has_user(before, u);
            let j = before.user_index(u);
            assert(s.classrooms.contains_key(c)) by {
                if !s.classrooms.contains_key(c) {
                    assert(before.user_ids() =~= Seq::<Seq<char>>::empty());
                }
            }
            assert(s.classrooms[c].users[j].status == UserStatus::Online);
            assert(registered(s.registry, c, s.classrooms[c].users[j].user_id));
            let i0 = slot(s.registry, c, u);
            lemma_slot(s.registry, i0);
            assert(after.users =~= before.users);
            assert(t.classrooms =~= s.classrooms);
            assert(t.registry == s.registry.update(i0, t.registry[i0]));
            assert(t.registry[i0].classroom_id == c && t.registry[i0].user_id == u);
            assert forall|a: int, b: int| 0 <= a < b < t.registry.len() implies !((
            #[trigger] t.registry[a]).classroom_id == (#[trigger] t.registry[b]).classroom_id
                && t.registry[a].user_id == t.registry[b].user_id) by {
                assert(s.registry[a].classroom_id == t.registry[a].classroom_id);
                assert(s.registry[b].classroom_id == t.registry[b].classroom_id);
                assert(s.registry[a].user_id == t.registry[a].user_id);
                assert(s.registry[b].user_id == t.registry[b].user_id);
            }
            assert forall|i: int| 0 <= i < t.registry.len() implies enrolled(
                t.classrooms,
                #[trigger] t.registry[i],
            ) by {
                assert(enrolled(s.classrooms, s.registry[i]));
            }
            assert forall|x: Seq<char>, jj: int|
                #![trigger t.classrooms[x].users[jj]]
                t.classrooms.contains_key(x) && 0 <= jj < t.classrooms[x].users.len() implies {
                &&& t.classrooms[x].users[jj].status == UserStatus::Online
                &&& registered(t.registry, x, t.classrooms[x].users[jj].user_id)
            } by {
                assert(s.classrooms[x].users[jj].status == UserStatus::Online);
                let w = slot(s.registry, x, s.classrooms[x].users[jj].user_id);
                assert(t.registry[w].classroom_id == x && t.registry[w].user_id
                    == s.classrooms[x].users[jj].user_id);
            }
            assert forall|a: int, b: int|
                0 <= a < connections(t.registry).len() && 0 <= b < connections(t.registry).len()
                    && a != b implies connections(t.registry)[a] != connections(t.registry)[b] by {
                assert(connections(s.registry)[a] == s.registry[a].connection);
                assert(connections(s.registry)[b] == s.registry[b].connection);
            }
            assert forall|i: int, kk: int|
                0 <= i < t.registry.len() && 0 <= kk < t.pending.len() implies (
            #[trigger] t.registry[i]).connection != #[trigger] t.pending[kk] by {
                assert(s.pending.contains(t.pending[kk]));
                let k2 = choose|k2: int| 0 <= k2 < s.pending.len() && s.pending[k2] == t.pending[kk];
                assert(s.registry[i].connection != s.pending[k2]);
                assert(t.pending.contains(t.pending[kk]));
            }
        } else {
            // a new member
            assert(!registered(s.registry, c, u)) by {
                if registered(s.registry, c, u) {
                    let i0 = slot(s.registry, c, u);
                    assert(enrolled(s.classrooms, s.registry[i0]));
                }
            }
            let fresh = UserView::fresh(u, role);
            assert(after.users == before.users.push(fresh));
            assert(after.user_ids() =~= before.user_ids().push(u));
            assert(after.wf());
            let n = s.registry.len() as int;
            assert(t.registry == s.registry.push(t.registry[n]));
            assert forall|x: Seq<char>| #[trigger] t.classrooms.contains_key(x) implies t.classrooms[x].wf()
                && t.classrooms[x].classroom_id == x by {
                if x != c {
                    assert(s.classrooms.contains_key(x));
                }
            }
            assert forall|a: int, b: int| 0 <= a < b < t.registry.len() implies !((
            #[trigger] t.registry[a]).classroom_id == (#[trigger] t.registry[b]).classroom_id
                && t.registry[a].user_id == t.registry[b].user_id) by {
                if b < n {
                    assert(!(s.registry[a].classroom_id == s.registry[b].classroom_id
                        && s.registry[a].user_id == s.registry[b].user_id));
                } else {
                    assert(s.registry[a] == t.registry[a]);
                }
            }
            assert forall|i: int| 0 <= i < t.registry.len() implies enrolled(
                t.classrooms,
                #[trigger] t.registry[i],
            ) by {
                if i < n {
                    let r = s.registry[i];
                    assert(enrolled(s.classrooms, r));
                    if r.classroom_id == c {
                        lemma_has_user(before, r.user_id);
                        let j = before.user_index(r.user_id);
                        assert(after.users[j] == before.users[j]);
                        lemma_user_index(after, j);
                    }
                } else {
                    assert(after.users[before.users.len() as int] == fresh);
                    lemma_user_index(after, before.users.len() as int);
                }
            }
            assert forall|x: Seq<char>, jj: int|
                #![trigger t.classrooms[x].users[jj]]
                t.classrooms.contains_key(x) && 0 <= jj < t.classrooms[x].users.len() implies {
                &&& t.classrooms[x].users[jj].status == UserStatus::Online
                &&& registered(t.registry, x, t.classrooms[x].users[jj].user_id)
            } by {
                if x == c && jj == before.users.len() {
                    assert(t.registry[n].classroom_id == c && t.registry[n].user_id == u);
                } else {
                    if x == c {
                        assert(s.classrooms.contains_key(c));
                        assert(after.users[jj] == s.classrooms[c].users[jj]);
                    }
                    assert(s.classrooms[x].users[jj].status == UserStatus::Online);
                    let w = slot(s.registry, x, s.classrooms[x].users[jj].user_id);
                    assert(t.registry[w] == s.registry[w]);
                }
            }
            assert forall|a: int, b: int|
                0 <= a < connections(t.registry).len() && 0 <= b < connections(t.registry).len()
                    && a != b implies connections(t.registry)[a] != connections(t.registry)[b] by {
                if a < n {
                    assert(connections(s.registry)[a] == s.registry[a].connection);
                }
                if b < n {
                    assert(connections(s.registry)[b] == s.registry[b].connection);
                }
            }
            assert forall|i: int, kk: int|
                0 <= i < t.registry.len() && 0 <= kk < t.pending.len() implies (
            #[trigger] t.registry[i]).connection != #[trigger] t.pending[kk] by {
                assert(s.pending.contains(t.pending[kk]));
                let k2 = choose|k2: int| 0 <= k2 < s.pending.len() && s.pending[k2] == t.pending[kk];
                assert(t.pending.contains(t.pending[kk]));
                if i < n {
                    assert(s.registry[i].connection != s.pending[k2]);
                }
            }
        }
    }
}

/// The departure of a registered member keeps the state well formed.
pub proof fn lemma_depart_keeps_wf(s: HubView, i: int)
    requires
        s.wf(),
        0 <= i < s.registry.len(),
    ensures
        depart(s, i).wf(),
{
    let r = s.registry[i];
    let c = r.classroom_id;
    let u = r.user_id;
    let t = depart(s, i);
    let before = s.classrooms[c];
    assert(enrolled(s.classrooms, r));
    lemma_has_user(before, u);
    lemma_slot(s.registry, i);
    let idx = before.user_index(u);
    let after = ClassroomView { users: before.users.remove(idx), ..before };
    assert(after.user_ids() =~= before.user_ids().remove(idx));
    assert(after.wf()) by {
        assert forall|a: int, b: int|
            0 <= a < after.user_ids().len() && 0 <= b < after.user_ids().len() && a != b implies after.user_ids()[a]
            != after.user_ids()[b] by {
            let a2 = if a < idx { a } else { a + 1 };
            let b2 = if b < idx { b } else { b + 1 };
            assert(after.user_ids()[a] == before.user_ids()[a2]);
            assert(after.user_ids()[b] == before.user_ids()[b2]);
        }
    }
    assert forall|x: Seq<char>| #[trigger] t.classrooms.contains_key(x) implies t.classrooms[x].wf()
        && t.classrooms[x].classroom_id == x by {
        if x != c {
            assert(s.classrooms.contains_key(x));
        }
    }
    assert forall|a: int, b: int| 0 <= a < b < t.registry.len() implies !((
    #[trigger] t.registry[a]).classroom_id == (#[trigger] t.registry[b]).classroom_id
        && t.registry[a].user_id == t.registry[b].user_id) by {
        let a2 = if a < i { a } else { a + 1 };
        let b2 = if b < i { b } else { b + 1 };
        assert(t.registry[a] == s.registry[a2] && t.registry[b] == s.registry[b2]);
        assert(!(s.registry[a2].classroom_id == s.registry[b2].classroom_id
            && s.registry[a2].user_id == s.registry[b2].user_id));
    }
    assert forall|x: int| 0 <= x < t.registry.len() implies enrolled(
        t.classrooms,
        #[trigger] t.registry[x],
    ) by {
        let x2 = if x < i { x } else { x + 1 };
        let q = s.registry[x2];
        assert(t.registry[x] == q);
        assert(enrolled(s.classrooms, q));
        if q.classroom_id == c {
            if x2 < i {
                assert(!(s.registry[x2].classroom_id == s.registry[i].classroom_id
                    && s.registry[x2].user_id == s.registry[i].user_id));
            } else {
                assert(!(s.registry[i].classroom_id == s.registry[x2].classroom_id
                    && s.registry[i].user_id == s.registry[x2].user_id));
            }
            assert(q.user_id != u);
            lemma_has_user(before, q.user_id);
            let j = before.user_index(q.user_id);
            assert(j != idx);
            let j2 = if j < idx { j } else { j - 1 };
            assert(after.users[j2] == before.users[j]);
            lemma_user_index(after, j2);
        }
    }
    assert forall|x: Seq<char>, jj: int|
        #![trigger t.classrooms[x].users[jj]]
        t.classrooms.contains_key(x) && 0 <= jj < t.classrooms[x].users.len() implies {
        &&& t.classrooms[x].users[jj].status == UserStatus::Online
        &&& registered(t.registry, x, t.classrooms[x].users[jj].user_id)
    } by {
        let jj2 = if x == c && jj >= idx { jj + 1 } else { jj };
        assert(t.classrooms[x].users[jj] == s.classrooms[x].users[jj2]);
        let member = s.classrooms[x].users[jj2];
        assert(member.status == UserStatus::Online);
        assert(registered(s.registry, x, member.user_id));
        let w = slot(s.registry, x, member.user_id);
        if x == c {
            assert(before.user_ids()[jj2] == member.user_id);
            assert(before.user_ids()[idx] == u);
            assert(member.user_id != u);
        }
        assert(w != i);
        let w2 = if w < i { w } else { w - 1 };
        assert(t.registry[w2] == s.registry[w]);
    }
    assert forall|a: int, b: int|
        0 <= a < connections(t.registry).len() && 0 <= b < connections(t.registry).len() && a
            != b implies connections(t.registry)[a] != connections(t.registry)[b] by {
        let a2 = if a < i { a } else { a + 1 };
        let b2 = if b < i { b } else { b + 1 };
        assert(connections(t.registry)[a] == connections(s.registry)[a2]);
        assert(connections(t.registry)[b] == connections(s.registry)[b2]);
    }
    assert forall|x: int, kk: int|
        0 <= x < t.registry.len() && 0 <= kk < t.pending.len() implies (
    #[trigger] t.registry[x]).connection != #[trigger] t.pending[kk] by {
        let x2 = if x < i { x } else { x + 1 };
        assert(t.registry[x] == s.registry[x2]);
        assert(s.registry[x2].connection != s.pending[kk]);
    }
}

/// Closing a classroom keeps the state well formed.
pub proof fn lemma_delete_keeps_wf(s: HubView, m: MessageView)
    requires
        s.wf(),
    ensures
        classroom_deleted(s, m).state.wf(),
{
    if teacher(s, m) is Ok {
        let c = m.classroom_id;
        let t = classroom_deleted(s, m).state;
        let keep = |r: RegistrationView| r.classroom_id != c;
        assert(t.registry == s.registry.filter(keep));
        lemma_filter_keeps_distinct(s.registry, keep);
        // every kept registration was there before
        assert forall|x: int| 0 <= x < t.registry.len() implies s.registry.contains(
            #[trigger] t.registry[x],
        ) && t.registry[x].classroom_id != c by {
            assert(t.registry.contains(t.registry[x]));
            s.registry.lemma_filter_contains_rev(keep, t.registry[x]);
            s.registry.lemma_filter_pred(keep, x);
        }
        assert forall|x: int| 0 <= x < t.registry.len() implies enrolled(
            t.classrooms,
            #[trigger] t.registry[x],
        ) by {
            let w = choose|w: int| 0 <= w < s.registry.len() && s.registry[w] == t.registry[x];
            assert(enrolled(s.classrooms, s.registry[w]));
        }
        assert forall|x: Seq<char>, jj: int|
            #![trigger t.classrooms[x].users[jj]]
            t.classrooms.contains_key(x) && 0 <= jj < t.classrooms[x].users.len() implies {
            &&& t.classrooms[x].users[jj].status == UserStatus::Online
            &&& registered(t.registry, x, t.classrooms[x].users[jj].user_id)
        } by {
            let member = s.classrooms[x].users[jj];
            assert(member.status == UserStatus::Online);
            let w = slot(s.registry, x, member.user_id);
            s.registry.lemma_filter_contains(keep, w);
            let w2 = choose|w2: int| 0 <= w2 < t.registry.len() && t.registry[w2] == s.registry[w];
            assert(t.registry[w2].classroom_id == x && t.registry[w2].user_id == member.user_id);
        }
        assert forall|a: int, b: int|
            0 <= a < connections(t.registry).len() && 0 <= b < connections(t.registry).len() && a
                != b implies connections(t.registry)[a] != connections(t.registry)[b] by {
            let wa = choose|w: int| 0 <= w < s.registry.len() && s.registry[w] == t.registry[a];
            let wb = choose|w: int| 0 <= w < s.registry.len() && s.registry[w] == t.registry[b];
            if a < b {
                assert(!(t.registry[a].classroom_id == t.registry[b].classroom_id
                    && t.registry[a].user_id == t.registry[b].user_id));
            } else {
                assert(!(t.registry[b].classroom_id == t.registry[a].classroom_id
                    && t.registry[b].user_id == t.registry[a].user_id));
            }
            assert(wa != wb);
            assert(connections(s.registry)[wa] == s.registry[wa].connection);
            assert(connections(s.registry)[wb] == s.registry[wb].connection);
        }
        assert forall|x: int, kk: int|
            0 <= x < t.registry.len() && 0 <= kk < t.pending.len() implies (
        #[trigger] t.registry[x]).connection != #[trigger] t.pending[kk] by {
            let w = choose|w: int| 0 <= w < s.registry.len() && s.registry[w] == t.registry[x];
            assert(s.registry[w].connection != s.pending[kk]);
        }
    }
}

/// A new connection keeps the state well formed.
pub proof fn lemma_connected_keeps_wf(s: HubView, connection: usize)
    requires
        s.wf(),
    ensures
        connected(s, connection).state.wf(),
{
    lemma_serving(s.registry, connection);
    let t = connected(s, connection).state;
    if !(s.pending.contains(connection) || serving(s.registry, connection) is Some) {
        assert forall|x: int, kk: int|
            0 <= x < t.registry.len() && 0 <= kk < t.pending.len() implies (
        #[trigger] t.registry[x]).connection != #[trigger] t.pending[kk] by {
            if kk < s.pending.len() {
                assert(s.registry[x].connection != s.pending[kk]);
            }
        }
    }
}

/// The loss of a connection keeps the state well formed.
pub proof fn lemma_disconnected_keeps_wf(s: HubView, connection: usize)
    requires
        s.wf(),
    ensures
        disconnected(s, connection).0.wf(),
{
    let t = disconnected(s, connection).0;
    if s.pending.contains(connection) {
        lemma_remove_value(s.pending, connection);
        assert forall|x: int, kk: int|
            0 <= x < t.registry.len() && 0 <= kk < t.pending.len() implies (
        #[trigger] t.registry[x]).connection != #[trigger] t.pending[kk] by {
            assert(s.pending.contains(t.pending[kk]));
            let k2 = choose|k2: int| 0 <= k2 < s.pending.len() && s.pending[k2] == t.pending[kk];
            assert(s.registry[x].connection != s.pending[k2]);
        }
    } else {
        lemma_serving(s.registry, connection);
        if let Some(i) = serving(s.registry, connection) {
            lemma_depart_keeps_wf(s, i);
        }
    }
}

/// Replacing a whiteboard leaves the members as they are.
pub proof fn lemma_with_board_same_members(cls: ClassroomView, board: BoardView, w: WhiteboardView)
    requires
        cls.board(board) is Some,
    ensures
        cls.same_members(cls.with_board(board, w)),
{
    match board {
        BoardView::Public => {},
        BoardView::Private(owner) => {
            lemma_has_user(cls, owner);
        },
        BoardView::Assignment(owner, name) => {
            lemma_has_user(cls, owner);
        },
    }
}

/// Replacing an assignment record leaves the members as they are.
pub proof fn lemma_with_record_same_members(
    cls: ClassroomView,
    j: int,
    a: int,
    r: UserAssignmentView,
)
    requires
        0 <= j < cls.users.len(),
    ensures
        cls.same_members(cls.with_record(j, a, r)),
{
}

/// Handing out an assignment leaves the members as they are.
pub proof fn lemma_assigned_same_members(cls: ClassroomView, assignment: AssignmentView)
    ensures
        cls.same_members(cls.assigned(assignment)),
{
}

/// Every rule keeps the state well formed: in every state that the
/// dispatcher can reach, the store and the registry agree.
pub proof fn lemma_step_keeps_wf(s: HubView, m: MessageView)
    requires
        s.wf(),
    ensures
        step(s, m).state.wf(),
{
    lemma_enter_keeps_wf(s, m, ClassroomUserRole::Student);
    lemma_enter_keeps_wf(s, m, ClassroomUserRole::Teacher);
    lemma_delete_keeps_wf(s, m);
    lemma_code_change_keeps_wf(s, m);
    lemma_set_lock_keeps_wf(s, m, true);
    lemma_set_lock_keeps_wf(s, m, false);
    lemma_assignment_create_keeps_wf(s, m);
    lemma_submit_keeps_wf(s, m);
    lemma_grade_keeps_wf(s, m);
    lemma_leave_keeps_wf(s, m);
}

/// A leave keeps the state well formed.
pub proof fn lemma_leave_keeps_wf(s: HubView, m: MessageView)
    requires
        s.wf(),
    ensures
        leave(s, m).state.wf(),
{
    lemma_sender(s, m);
    if let Ok(i) = sender(s, m) {
        lemma_depart_keeps_wf(s, i);
    }
}

/// A code change keeps the state well formed.
pub proof fn lemma_code_change_keeps_wf(s: HubView, m: MessageView)
    requires
        s.wf(),
    ensures
        code_change(s, m).state.wf(),
{
    lemma_sender(s, m);
    let t = code_change(s, m);
    if t.result is Ok {
        let board = named_board(m.fields, m.user_id)->Ok_0;
        let before = s.classrooms[m.classroom_id];
        let code = field(m.fields, "code"@)->0;
        let w = WhiteboardView { code, ..before.board(board)->0 };
        lemma_with_board_same_members(before, board, w);
        lemma_update_keeps_wf(s, before.with_board(board, w));
    }
}

/// Locking and unlocking keep the state well formed.
pub proof fn lemma_set_lock_keeps_wf(s: HubView, m: MessageView, locked: bool)
    requires
        s.wf(),
    ensures
        set_lock(s, m, locked).state.wf(),
{
    lemma_sender(s, m);
    let t = set_lock(s, m, locked);
    if t.result is Ok {
        let owner = match field(m.fields, "target_user"@) {
            Some(u) => u,
            None => m.user_id,
        };
        let board = named_board(m.fields, owner)->Ok_0;
        let before = s.classrooms[m.classroom_id];
        let w = WhiteboardView { locked, ..before.board(board)->0 };
        lemma_with_board_same_members(before, board, w);
        lemma_update_keeps_wf(s, before.with_board(board, w));
    }
}

/// Handing out an assignment keeps the state well formed.
pub proof fn lemma_assignment_create_keeps_wf(s: HubView, m: MessageView)
    requires
        s.wf(),
    ensures
        assignment_create(s, m).state.wf(),
{
    lemma_sender(s, m);
    let t = assignment_create(s, m);
    if t.result is Ok {
        let before = s.classrooms[m.classroom_id];
        let assignment = AssignmentView {
            assignment_name: field(m.fields, "assignment_name"@)->0,
            assignment_description: field(m.fields, "assignment_description"@)->0,
            assignment_code: field(m.fields, "assignment_code"@)->0,
        };
        lemma_assigned_same_members(before, assignment);
        lemma_update_keeps_wf(s, before.assigned(assignment));
    }
}

/// A submission keeps the state well formed.
pub proof fn lemma_submit_keeps_wf(s: HubView, m: MessageView)
    requires
        s.wf(),
    ensures
        submit_assignment(s, m).state.wf(),
{
    lemma_sender(s, m);
    let t = submit_assignment(s, m);
    if t.result is Ok {
        let before = s.classrooms[m.classroom_id];
        let name = field(m.fields, "assignment_name"@)->0;
        let (j, a) = before.record_place(m.user_id, name)->0;
        lemma_has_user(before, m.user_id);
        let r = before.users[j].user_assignments[a];
        lemma_with_record_same_members(before, j, a, r.submitted());
        lemma_update_keeps_wf(s, before.with_record(j, a, r.submitted()));
    }
}

/// A grading keeps the state well formed.
pub proof fn lemma_grade_keeps_wf(s: HubView, m: MessageView)
    requires
        s.wf(),
    ensures
        grade_assignment(s, m).state.wf(),
{
    lemma_sender(s, m);
    let t = grade_assignment(s, m);
    if t.result is Ok {
        let before = s.classrooms[m.classroom_id];
        let target = field(m.fields, "target_user"@)->0;
        let name = field(m.fields, "assignment_name"@)->0;
        let grade = named_grade(m.fields)->0;
        let outcome = named_outcome(m.fields)->0;
        let feedback = named_feedback(m.fields);
        let (j, a) = before.record_place(target, name)->0;
        lemma_has_user(before, target);
        let r = before.users[j].user_assignments[a];
        lemma_with_record_same_members(before, j, a, r.graded(grade, feedback, outcome));
        lemma_update_keeps_wf(s, before.with_record(j, a, r.graded(grade, feedback, outcome)));
    }
}

} // verus!
