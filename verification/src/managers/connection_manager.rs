//! The connection registry: who is currently reachable in which classroom,
//! and the fan-out of a payload to a chosen part of a classroom.

use crate::models::consts::ClassroomUserRole;
use crate::text::same_text;
use vstd::prelude::*;

verus! {

/// The mathematical value of a [`Registration`].
pub struct RegistrationView {
    pub classroom_id: Seq<char>,
    pub user_id: Seq<char>,
    pub role: ClassroomUserRole,
    pub connection: usize,
}

/// One reachable member: the connection that serves a user of a classroom.
#[derive(Debug)]
pub struct Registration {
    pub classroom_id: String,
    pub user_id: String,
    pub role: ClassroomUserRole,
    pub connection: usize,
}

impl View for Registration {
    type V = RegistrationView;

    open spec fn view(&self) -> RegistrationView {
        RegistrationView {
            classroom_id: self.classroom_id@,
            user_id: self.user_id@,
            role: self.role,
            connection: self.connection,
        }
    }
}

/// The mathematical value of a [`Selection`].
pub enum SelectionView {
    AllMembers,
    Role(ClassroomUserRole),
    Single(Seq<char>),
    AllExcept(Seq<char>),
}

/// The rule that picks the recipients of an event within a classroom.
#[derive(Debug)]
pub enum Selection {
    AllMembers,
    Role(ClassroomUserRole),
    Single(String),
    AllExcept(String),
}

impl View for Selection {
    type V = SelectionView;

    open spec fn view(&self) -> SelectionView {
        match self {
            Selection::AllMembers => SelectionView::AllMembers,
            Selection::Role(r) => SelectionView::Role(*r),
            Selection::Single(u) => SelectionView::Single(u@),
            Selection::AllExcept(u) => SelectionView::AllExcept(u@),
        }
    }
}

/// The mathematical value of an [`Outbound`].
pub struct OutboundView {
    pub classroom_id: Seq<char>,
    pub selection: SelectionView,
    pub payload: Seq<char>,
    pub recipients: Seq<usize>,
}

/// An event on its way out: the classroom, the selection, the text, and the
/// connections the selection resolved to when the event was produced.
#[derive(Debug)]
pub struct Outbound {
    pub classroom_id: String,
    pub selection: Selection,
    pub payload: String,
    pub recipients: Vec<usize>,
}

impl View for Outbound {
    type V = OutboundView;

    open spec fn view(&self) -> OutboundView {
        OutboundView {
            classroom_id: self.classroom_id@,
            selection: self.selection@,
            payload: self.payload@,
            recipients: self.recipients@,
        }
    }
}

/// The mathematical value of a [`Delivery`].
pub struct DeliveryView {
    pub connection: usize,
    pub payload: Seq<char>,
}

/// A payload to enqueue on one connection.
#[derive(Debug)]
pub struct Delivery {
    pub connection: usize,
    pub payload: String,
}

impl View for Delivery {
    type V = DeliveryView;

    open spec fn view(&self) -> DeliveryView {
        DeliveryView { connection: self.connection, payload: self.payload@ }
    }
}

/// The condition that a user has no registered connection.
#[derive(Clone, Copy, Debug, PartialEq, Eq, Structural)]
pub struct NotConnected;

/// The views of a sequence of events.
pub open spec fn outbounds(v: Seq<Outbound>) -> Seq<OutboundView> {
    v.map_values(|e: Outbound| e@)
}

/// The views of a sequence of registrations.
pub open spec fn registrations(v: Seq<Registration>) -> Seq<RegistrationView> {
    v.map_values(|r: Registration| r@)
}

/// The views of a sequence of deliveries.
pub open spec fn deliveries(v: Seq<Delivery>) -> Seq<DeliveryView> {
    v.map_values(|d: Delivery| d@)
}

/// The text of an optional string.
pub open spec fn text_of(o: Option<&str>) -> Option<Seq<char>> {
    match o {
        Some(s) => Some(s@),
        None => None,
    }
}

/// Whether `user_id` is registered in `classroom_id`.
pub open spec fn registered(
    reg: Seq<RegistrationView>,
    classroom_id: Seq<char>,
    user_id: Seq<char>,
) -> bool {
    exists|i: int|
        0 <= i < reg.len() && (#[trigger] reg[i]).classroom_id == classroom_id && reg[i].user_id
            == user_id
}

/// The position of the registration of `user_id` in `classroom_id`;
/// meaningful where `registered(reg, classroom_id, user_id)`.
pub open spec fn slot(reg: Seq<RegistrationView>, classroom_id: Seq<char>, user_id: Seq<char>) -> int {
    choose|i: int|
        0 <= i < reg.len() && (#[trigger] reg[i]).classroom_id == classroom_id && reg[i].user_id
            == user_id
}

/// No two registrations are for the same user of the same classroom.
pub open spec fn distinct_keys(reg: Seq<RegistrationView>) -> bool {
    forall|i: int, j: int|
        0 <= i < j < reg.len() ==> !((#[trigger] reg[i]).classroom_id == (#[trigger] reg[j]).classroom_id
            && reg[i].user_id == reg[j].user_id)
}

/// The connection registered for `user_id` in `classroom_id`, if any.
pub open spec fn connection_of(
    reg: Seq<RegistrationView>,
    classroom_id: Seq<char>,
    user_id: Seq<char>,
) -> Option<usize> {
    if registered(reg, classroom_id, user_id) {
        Some(reg[slot(reg, classroom_id, user_id)].connection)
    } else {
        None
    }
}

/// The registry after registering `r`: a registration for the same user of
/// the same classroom is replaced in place, otherwise `r` is added last.
pub open spec fn with_entry(reg: Seq<RegistrationView>, r: RegistrationView) -> Seq<
    RegistrationView,
> {
    if registered(reg, r.classroom_id, r.user_id) {
        reg.update(slot(reg, r.classroom_id, r.user_id), r)
    } else {
        reg.push(r)
    }
}

/// The registry without the registration of `user_id` in `classroom_id`.
pub open spec fn without_entry(
    reg: Seq<RegistrationView>,
    classroom_id: Seq<char>,
    user_id: Seq<char>,
) -> Seq<RegistrationView> {
    if registered(reg, classroom_id, user_id) {
        reg.remove(slot(reg, classroom_id, user_id))
    } else {
        reg
    }
}

/// The registry without any registration in `classroom_id`.
pub open spec fn without_classroom(reg: Seq<RegistrationView>, classroom_id: Seq<char>) -> Seq<
    RegistrationView,
> {
    reg.filter(|r: RegistrationView| r.classroom_id != classroom_id)
}

/// Whether a registration is in `classroom_id` and passes the three
/// optional filters: being `only` that user, not being `exclude`, and
/// holding `role`.
pub open spec fn passes(
    r: RegistrationView,
    classroom_id: Seq<char>,
    only: Option<Seq<char>>,
    exclude: Option<Seq<char>>,
    role: Option<ClassroomUserRole>,
) -> bool {
    &&& r.classroom_id == classroom_id
    &&& (only matches Some(u) ==> r.user_id == u)
    &&& (exclude matches Some(u) ==> r.user_id != u)
    &&& (role matches Some(x) ==> r.role == x)
}

/// The registrations that pass, in registration order.
pub open spec fn passing(
    reg: Seq<RegistrationView>,
    classroom_id: Seq<char>,
    only: Option<Seq<char>>,
    exclude: Option<Seq<char>>,
    role: Option<ClassroomUserRole>,
) -> Seq<RegistrationView> {
    reg.filter(|r: RegistrationView| passes(r, classroom_id, only, exclude, role))
}

/// The connections of the registrations that pass, in registration order.
pub open spec fn audience(
    reg: Seq<RegistrationView>,
    classroom_id: Seq<char>,
    only: Option<Seq<char>>,
    exclude: Option<Seq<char>>,
    role: Option<ClassroomUserRole>,
) -> Seq<usize> {
    passing(reg, classroom_id, only, exclude, role).map_values(
        |r: RegistrationView| r.connection,
    )
}

/// The connections that a selection resolves to in a classroom.
pub open spec fn recipients(
    reg: Seq<RegistrationView>,
    classroom_id: Seq<char>,
    selection: SelectionView,
) -> Seq<usize> {
    match selection {
        SelectionView::AllMembers => audience(reg, classroom_id, None, None, None),
        SelectionView::Role(x) => audience(reg, classroom_id, None, None, Some(x)),
        SelectionView::Single(u) => audience(reg, classroom_id, Some(u), None, None),
        SelectionView::AllExcept(u) => audience(reg, classroom_id, None, Some(u), None),
    }
}

/// The event that a payload becomes when it is routed by a selection.
pub open spec fn routed(
    reg: Seq<RegistrationView>,
    classroom_id: Seq<char>,
    selection: SelectionView,
    payload: Seq<char>,
) -> OutboundView {
    OutboundView {
        classroom_id,
        selection,
        payload,
        recipients: recipients(reg, classroom_id, selection),
    }
}

/// One delivery of `payload` for each connection, in order.
pub open spec fn addressed(connections: Seq<usize>, payload: Seq<char>) -> Seq<DeliveryView> {
    connections.map_values(|k: usize| DeliveryView { connection: k, payload })
}

/// An empty registry has an empty audience.
pub proof fn lemma_audience_empty(
    classroom_id: Seq<char>,
    only: Option<Seq<char>>,
    exclude: Option<Seq<char>>,
    role: Option<ClassroomUserRole>,
)
    ensures
        audience(Seq::empty(), classroom_id, only, exclude, role) == Seq::<usize>::empty(),
{
    reveal(Seq::filter);
    assert(passing(Seq::empty(), classroom_id, only, exclude, role) =~= Seq::empty());
    assert(audience(Seq::empty(), classroom_id, only, exclude, role) =~= Seq::<usize>::empty());
}

/// Going one registration further extends the audience by that
/// registration's connection if it passes, and leaves it alone otherwise.
pub proof fn lemma_audience_step(
    reg: Seq<RegistrationView>,
    i: int,
    classroom_id: Seq<char>,
    only: Option<Seq<char>>,
    exclude: Option<Seq<char>>,
    role: Option<ClassroomUserRole>,
)
    requires
        0 <= i < reg.len(),
    ensures
        audience(reg.take(i + 1), classroom_id, only, exclude, role) == if passes(
            reg[i],
            classroom_id,
            only,
            exclude,
            role,
        ) {
            audience(reg.take(i), classroom_id, only, exclude, role).push(reg[i].connection)
        } else {
            audience(reg.take(i), classroom_id, only, exclude, role)
        },
{
    let pred = |r: RegistrationView| passes(r, classroom_id, only, exclude, role);
    let conn = |r: RegistrationView| r.connection;
    reg.lemma_take_succ_push(i);
    reg.take(i).lemma_filter_push(reg[i], pred);
    if passes(reg[i], classroom_id, only, exclude, role) {
        reg.take(i).filter(pred).lemma_push_map_commute(conn, reg[i]);
    }
}

/// The connection registry.
pub struct ConnectionManager {
    entries: Vec<Registration>,
}

impl View for ConnectionManager {
    type V = Seq<RegistrationView>;

    closed spec fn view(&self) -> Seq<RegistrationView> {
        registrations(self.entries@)
    }
}

impl ConnectionManager {
    /// No user is registered twice in a classroom.
    pub open spec fn wf(&self) -> bool {
        distinct_keys(self@)
    }

    /// A registry that holds no registration.
    pub fn new() -> (m: ConnectionManager)
        ensures
            m.wf(),
            m@ == Seq::<RegistrationView>::empty(),
    {
        let m = ConnectionManager { entries: Vec::new() };
        assert(m@ =~= Seq::<RegistrationView>::empty());
        m
    }

    /// How many registrations there are.
    pub fn len(&self) -> (n: usize)
        ensures
            n == self@.len(),
    {
        self.entries.len()
    }

    /// The registration at a position.
    pub fn entry(&self, i: usize) -> (r: &Registration)
        requires
            i < self@.len(),
        ensures
            r@ == self@[i as int],
    {
        &self.entries[i]
    }

    /// The position of the registration of `user_id` in `classroom_id`.
    pub fn find(&self, classroom_id: &str, user_id: &str) -> (found: Option<usize>)
        ensures
            found is Some <==> registered(self@, classroom_id@, user_id@),
            found matches Some(i) ==> i < self@.len() && self@[i as int].classroom_id
                == classroom_id@ && self@[i as int].user_id == user_id@ && (self.wf() ==> i == slot(
                self@,
                classroom_id@,
                user_id@,
            )),
    {
        let mut i: usize = 0;
        while i < self.entries.len()
            invariant
                i <= self.entries.len(),
                forall|j: int|
                    0 <= j < i ==> !((#[trigger] self@[j]).classroom_id == classroom_id@
                        && self@[j].user_id == user_id@),
            decreases self.entries.len() - i,
        {
            if same_text(self.entries[i].classroom_id.as_str(), classroom_id) && same_text(
                self.entries[i].user_id.as_str(),
                user_id,
            ) {
                assert(self@[i as int].classroom_id == classroom_id@ && self@[i as int].user_id
                    == user_id@);
                return Some(i);
            }
            i += 1;
        }
        None
    }

    /// The position of the first registration served by `connection`.
    pub fn find_connection(&self, connection: usize) -> (found: Option<usize>)
        ensures
            match found {
                Some(i) => i < self@.len() && self@[i as int].connection == connection
                    && forall|j: int| 0 <= j < i ==> (#[trigger] self@[j]).connection != connection,
                None => forall|j: int|
                    0 <= j < self@.len() ==> (#[trigger] self@[j]).connection != connection,
            },
    {
        let mut i: usize = 0;
        while i < self.entries.len()
            invariant
                i <= self.entries.len(),
                forall|j: int| 0 <= j < i ==> (#[trigger] self@[j]).connection != connection,
            decreases self.entries.len() - i,
        {
            if self.entries[i].connection == connection {
                return Some(i);
            }
            i += 1;
        }
        None
    }

    /// Registers `connection` for a user of a classroom. A registration
    /// already held by that user in that classroom is replaced in place, and
    /// the connection it named is returned.
    pub fn connect(
        &mut self,
        classroom_id: &str,
        user_id: &str,
        role: ClassroomUserRole,
        connection: usize,
    ) -> (superseded: Option<usize>)
        requires
            old(self).wf(),
        ensures
            final(self).wf(),
            final(self)@ == with_entry(
                old(self)@,
                RegistrationView { classroom_id: classroom_id@, user_id: user_id@, role, connection },
            ),
            superseded == connection_of(old(self)@, classroom_id@, user_id@),
    {
        let r = Registration {
            classroom_id: classroom_id.to_owned(),
            user_id: user_id.to_owned(),
            role,
            connection,
        };
        match self.find(classroom_id, user_id) {
            Some(i) => {
                let before = self.entries[i].connection;
                self.entries.set(i, r);
                assert(self@ =~= old(self)@.update(i as int, r@));
                Some(before)
            },
            None => {
                self.entries.push(r);
                assert(self@ =~= old(self)@.push(r@));
                None
            },
        }
    }

    /// Removes the registration of a user of a classroom, if there is one,
    /// and returns the connection it named.
    pub fn disconnect(&mut self, classroom_id: &str, user_id: &str) -> (removed: Option<usize>)
        requires
            old(self).wf(),
        ensures
            final(self).wf(),
            final(self)@ == without_entry(old(self)@, classroom_id@, user_id@),
            removed == connection_of(old(self)@, classroom_id@, user_id@),
    {
        match self.find(classroom_id, user_id) {
            Some(i) => {
                let r = self.entries.remove(i);
                assert(self@ =~= old(self)@.remove(i as int));
                Some(r.connection)
            },
            None => None,
        }
    }

    /// Removes every registration of a classroom and returns the
    /// connections they named, in registration order.
    pub fn disconnect_classroom(&mut self, classroom_id: &str) -> (removed: Vec<usize>)
        requires
            old(self).wf(),
        ensures
            final(self).wf(),
            final(self)@ == without_classroom(old(self)@, classroom_id@),
            removed@ == audience(old(self)@, classroom_id@, None, None, None),
    {
        let removed = self.collect(classroom_id, None, None, None);
        let mut kept: Vec<Registration> = Vec::new();
        let ghost keep = |r: RegistrationView| r.classroom_id != classroom_id@;
        let mut i: usize = 0;
        proof {
            reveal(Seq::filter);
            assert(self@.take(0).filter(keep) =~= Seq::empty());
            assert(registrations(kept@) =~= Seq::empty());
        }
        while i < self.entries.len()
            invariant
                i <= self.entries.len(),
                keep == |r: RegistrationView| r.classroom_id != classroom_id@,
                registrations(kept@) == self@.take(i as int).filter(keep),
            decreases self.entries.len() - i,
        {
            proof {
                self@.lemma_take_succ_push(i as int);
                self@.take(i as int).lemma_filter_push(self@[i as int], keep);
            }
            if !same_text(self.entries[i].classroom_id.as_str(), classroom_id) {
                let e = &self.entries[i];
                let copy = Registration {
                    classroom_id: e.classroom_id.clone(),
                    user_id: e.user_id.clone(),
                    role: e.role,
                    connection: e.connection,
                };
                assert(copy@ == self@[i as int]);
                proof {
                    kept@.lemma_push_map_commute(|r: Registration| r@, copy);
                }
                kept.push(copy);
            }
            i += 1;
        }
        proof {
            assert(self@.take(self@.len() as int) =~= self@);
            lemma_filter_keeps_distinct(self@, keep);
        }
        self.entries = kept;
        removed
    }

    fn collect(
        &self,
        classroom_id: &str,
        only: Option<&str>,
        exclude: Option<&str>,
        role: Option<ClassroomUserRole>,
    ) -> (out: Vec<usize>)
        ensures
            out@ == audience(self@, classroom_id@, text_of(only), text_of(exclude), role),
    {
        let mut out: Vec<usize> = Vec::new();
        let mut i: usize = 0;
        proof {
            lemma_audience_empty(classroom_id@, text_of(only), text_of(exclude), role);
            assert(self@.take(0) =~= Seq::empty());
        }
        while i < self.entries.len()
            invariant
                i <= self.entries.len(),
                out@ == audience(
                    self@.take(i as int),
                    classroom_id@,
                    text_of(only),
                    text_of(exclude),
                    role,
                ),
            decreases self.entries.len() - i,
        {
            let e = &self.entries[i];
            let in_class = same_text(e.classroom_id.as_str(), classroom_id);
            let is_only = match only {
                Some(u) => same_text(e.user_id.as_str(), u),
                None => true,
            };
            let not_excluded = match exclude {
                Some(u) => !same_text(e.user_id.as_str(), u),
                None => true,
            };
            let has_role = match role {
                Some(x) => e.role == x,
                None => true,
            };
            proof {
                lemma_audience_step(
                    self@,
                    i as int,
                    classroom_id@,
                    text_of(only),
                    text_of(exclude),
                    role,
                );
            }
            if in_class && is_only && not_excluded && has_role {
                out.push(e.connection);
            }
            i += 1;
        }
        assert(self@.take(self@.len() as int) =~= self@);
        out
    }

    /// The connections of every registered user of a classroom that is not
    /// `exclude` and, where `role_filter` is given, holds that role; in
    /// registration order.
    pub fn listeners(
        &self,
        classroom_id: &str,
        exclude: Option<&str>,
        role_filter: Option<ClassroomUserRole>,
    ) -> (out: Vec<usize>)
        ensures
            out@ == audience(self@, classroom_id@, None, text_of(exclude), role_filter),
    {
        self.collect(classroom_id, None, exclude, role_filter)
    }

    /// Resolves a selection within a classroom and returns the event to
    /// deliver: the payload with the connections it goes to.
    pub fn route(&self, classroom_id: &str, selection: Selection, payload: String) -> (event:
        Outbound)
        ensures
            event@ == routed(self@, classroom_id@, selection@, payload@),
    {
        let recipients = match &selection {
            Selection::AllMembers => self.collect(classroom_id, None, None, None),
            Selection::Role(x) => self.collect(classroom_id, None, None, Some(*x)),
            Selection::Single(u) => self.collect(classroom_id, Some(u.as_str()), None, None),
            Selection::AllExcept(u) => self.collect(classroom_id, None, Some(u.as_str()), None),
        };
        Outbound { classroom_id: classroom_id.to_owned(), selection, payload, recipients }
    }

    /// The delivery of `payload` to one user of a classroom, or the
    /// condition that the user is not registered there.
    pub fn send_to(&self, classroom_id: &str, user_id: &str, payload: &str) -> (sent: Result<
        Delivery,
        NotConnected,
    >)
        requires
            self.wf(),
        ensures
            match sent {
                Ok(d) => connection_of(self@, classroom_id@, user_id@) == Some(d.connection)
                    && d.payload@ == payload@,
                Err(_) => !registered(self@, classroom_id@, user_id@),
            },
    {
        match self.find(classroom_id, user_id) {
            Some(i) => Ok(
                Delivery { connection: self.entries[i].connection, payload: payload.to_owned() },
            ),
            None => Err(NotConnected),
        }
    }

    /// The deliveries of `payload` to every registered user of a classroom
    /// that is not `exclude` and, where `role_filter` is given, holds that
    /// role; in registration order.
    pub fn broadcast(
        &self,
        classroom_id: &str,
        payload: &str,
        exclude: Option<&str>,
        role_filter: Option<ClassroomUserRole>,
    ) -> (out: Vec<Delivery>)
        ensures
            deliveries(out@) == addressed(
                audience(self@, classroom_id@, None, text_of(exclude), role_filter),
                payload@,
            ),
    {
        let to = self.collect(classroom_id, None, exclude, role_filter);
        let mut out: Vec<Delivery> = Vec::new();
        let mut i: usize = 0;
        assert(deliveries(out@) =~= addressed(to@.take(0), payload@));
        while i < to.len()
            invariant
                i <= to.len(),
                deliveries(out@) == addressed(to@.take(i as int), payload@),
            decreases to.len() - i,
        {
            let d = Delivery { connection: to[i], payload: payload.to_owned() };
            proof {
                to@.lemma_take_succ_push(i as int);
                out@.lemma_push_map_commute(|d: Delivery| d@, d);
                to@.take(i as int).lemma_push_map_commute(
                    |k: usize| DeliveryView { connection: k, payload: payload@ },
                    to@[i as int],
                );
            }
            out.push(d);
            i += 1;
        }
        assert(to@.take(to@.len() as int) =~= to@);
        out
    }

    /// The event that carries `payload` to every registered user of a
    /// classroom.
    pub fn broadcast_class_online(&self, payload: &str, classroom_id: &str) -> (event: Outbound)
        ensures
            event@ == routed(self@, classroom_id@, SelectionView::AllMembers, payload@),
    {
        self.route(classroom_id, Selection::AllMembers, payload.to_owned())
    }

    /// The event that carries `payload` to every registered student of a
    /// classroom.
    pub fn broadcast_class_students(&self, payload: &str, classroom_id: &str) -> (event: Outbound)
        ensures
            event@ == routed(
                self@,
                classroom_id@,
                SelectionView::Role(ClassroomUserRole::Student),
                payload@,
            ),
    {
        self.route(classroom_id, Selection::Role(ClassroomUserRole::Student), payload.to_owned())
    }
}

/// Filtering a registry keeps its keys distinct.
pub proof fn lemma_filter_keeps_distinct(
    reg: Seq<RegistrationView>,
    pred: spec_fn(RegistrationView) -> bool,
)
    requires
        distinct_keys(reg),
    ensures
        distinct_keys(reg.filter(pred)),
    decreases reg.len(),
{
    reveal(Seq::filter);
    if reg.len() > 0 {
        let front = reg.drop_last();
        assert(distinct_keys(front)) by {
            assert forall|i: int, j: int| 0 <= i < j < front.len() implies !((
            #[trigger] front[i]).classroom_id == (#[trigger] front[j]).classroom_id
                && front[i].user_id == front[j].user_id) by {
                assert(front[i] == reg[i] && front[j] == reg[j]);
            }
        }
        lemma_filter_keeps_distinct(front, pred);
        let f = front.filter(pred);
        if pred(reg.last()) {
            assert forall|i: int, j: int| 0 <= i < j < f.push(reg.last()).len() implies !((
            #[trigger] f.push(reg.last())[i]).classroom_id == (#[trigger] f.push(
                reg.last(),
            )[j]).classroom_id && f.push(reg.last())[i].user_id == f.push(
                reg.last(),
            )[j].user_id) by {
                if j == f.len() {
                    assert(f.contains(f[i]));
                    front.lemma_filter_contains_rev(pred, f[i]);
                    let k = choose|k: int| 0 <= k < front.len() && front[k] == f[i];
                    assert(reg[k] == f[i]);
                    assert(reg[reg.len() - 1] == reg.last());
                }
            }
        }
    }
}

} // verus!
