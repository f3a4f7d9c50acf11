//! The classroom store: classrooms by id.

use crate::models::classroom::{Classroom, ClassroomView};
use crate::text::same_text;
use vstd::prelude::*;

verus! {

/// The ids of a sequence of classrooms, in order.
pub open spec fn ids_of(s: Seq<Classroom>) -> Seq<Seq<char>> {
    s.map_values(|c: Classroom| c.classroom_id@)
}

/// The map from id to classroom that a sequence of classrooms stands for.
pub open spec fn table(s: Seq<Classroom>) -> Map<Seq<char>, ClassroomView> {
    Map::new(
        |id: Seq<char>| ids_of(s).contains(id),
        |id: Seq<char>| s[ids_of(s).index_of(id)]@,
    )
}

/// Every classroom of the map is filed under its own id.
pub open spec fn keyed(m: Map<Seq<char>, ClassroomView>) -> bool {
    forall|id: Seq<char>| #[trigger] m.contains_key(id) ==> m[id].classroom_id == id
}

proof fn lemma_lookup(s: Seq<Classroom>, i: int)
    requires
        ids_of(s).no_duplicates(),
        0 <= i < s.len(),
    ensures
        table(s).contains_key(s[i].classroom_id@),
        table(s)[s[i].classroom_id@] == s[i]@,
{
    let ids = ids_of(s);
    assert(ids[i] == s[i].classroom_id@);
    let k = ids.index_of(s[i].classroom_id@);
    assert(0 <= k < ids.len() && ids[k] == ids[i]);
}

proof fn lemma_absent(s: Seq<Classroom>, id: Seq<char>)
    requires
        forall|j: int| 0 <= j < s.len() ==> s[j].classroom_id@ != id,
    ensures
        !table(s).contains_key(id),
{
    let ids = ids_of(s);
    if ids.contains(id) {
        let k = choose|k: int| 0 <= k < ids.len() && ids[k] == id;
        assert(s[k].classroom_id@ == id);
    }
}

proof fn lemma_keyed(s: Seq<Classroom>)
    requires
        ids_of(s).no_duplicates(),
    ensures
        keyed(table(s)),
        table(s).dom().finite(),
{
    let ids = ids_of(s);
    assert forall|id: Seq<char>| #[trigger] table(s).contains_key(id) implies table(s)[id].classroom_id
        == id by {
        let k = ids.index_of(id);
        assert(ids[k] == id);
    }
    assert(table(s).dom() =~= ids.to_set());
    vstd::seq_lib::seq_to_set_is_finite(ids);
}

proof fn lemma_push(s: Seq<Classroom>, c: Classroom)
    requires
        ids_of(s).no_duplicates(),
        !ids_of(s).contains(c.classroom_id@),
    ensures
        ids_of(s.push(c)).no_duplicates(),
        table(s.push(c)) == table(s).insert(c.classroom_id@, c@),
{
    let t = s.push(c);
    assert(ids_of(t) =~= ids_of(s).push(c.classroom_id@));
    assert(ids_of(t).no_duplicates());
    assert forall|id: Seq<char>| table(t).contains_key(id) <==> table(s).insert(
        c.classroom_id@,
        c@,
    ).contains_key(id) by {
        if ids_of(t).contains(id) {
            let k = choose|k: int| 0 <= k < ids_of(t).len() && ids_of(t)[k] == id;
            if k < s.len() {
                assert(ids_of(s)[k] == id);
            }
        }
        if ids_of(s).contains(id) {
            let k = choose|k: int| 0 <= k < ids_of(s).len() && ids_of(s)[k] == id;
            assert(ids_of(t)[k] == id);
        }
        if id == c.classroom_id@ {
            assert(ids_of(t)[s.len() as int] == id);
        }
    }
    assert forall|id: Seq<char>| table(t).contains_key(id) implies table(t)[id] == table(s).insert(
        c.classroom_id@,
        c@,
    )[id] by {
        let k = ids_of(t).index_of(id);
        assert(ids_of(t)[k] == id);
        if k < s.len() {
            assert(ids_of(s)[k] == id);
            let j = ids_of(s).index_of(id);
            assert(ids_of(s)[j] == id);
            assert(j == k);
        }
    }
    assert(table(t) =~= table(s).insert(c.classroom_id@, c@));
}

proof fn lemma_remove(s: Seq<Classroom>, i: int)
    requires
        ids_of(s).no_duplicates(),
        0 <= i < s.len(),
    ensures
        ids_of(s.remove(i)).no_duplicates(),
        table(s.remove(i)) == table(s).remove(s[i].classroom_id@),
{
    let t = s.remove(i);
    let gone = s[i].classroom_id@;
    assert(ids_of(t) =~= ids_of(s).remove(i));
    assert forall|a: int, b: int| 0 <= a < t.len() && 0 <= b < t.len() && a != b implies ids_of(
        t,
    )[a] != ids_of(t)[b] by {
        let a2 = if a < i { a } else { a + 1 };
        let b2 = if b < i { b } else { b + 1 };
        assert(ids_of(t)[a] == ids_of(s)[a2]);
        assert(ids_of(t)[b] == ids_of(s)[b2]);
    }
    assert forall|id: Seq<char>| table(t).contains_key(id) <==> table(s).remove(gone).contains_key(
        id,
    ) by {
        if ids_of(t).contains(id) {
            let k = choose|k: int| 0 <= k < ids_of(t).len() && ids_of(t)[k] == id;
            let k2 = if k < i { k } else { k + 1 };
            assert(ids_of(s)[k2] == id);
            assert(ids_of(s)[i] == gone);
        }
        if ids_of(s).contains(id) && id != gone {
            let k = choose|k: int| 0 <= k < ids_of(s).len() && ids_of(s)[k] == id;
            assert(ids_of(s)[i] == gone);
            let k2 = if k < i { k } else { k - 1 };
            assert(ids_of(t)[k2] == id);
        }
    }
    assert forall|id: Seq<char>| table(t).contains_key(id) implies table(t)[id] == table(s).remove(
        gone,
    )[id] by {
        let k = ids_of(t).index_of(id);
        assert(ids_of(t)[k] == id);
        let k2 = if k < i { k } else { k + 1 };
        assert(ids_of(s)[k2] == id);
        let j = ids_of(s).index_of(id);
        assert(ids_of(s)[j] == id);
        assert(j == k2);
    }
    assert(table(t) =~= table(s).remove(gone));
}

proof fn lemma_update(s: Seq<Classroom>, i: int, c: Classroom)
    requires
        ids_of(s).no_duplicates(),
        0 <= i < s.len(),
        c.classroom_id@ == s[i].classroom_id@,
    ensures
        ids_of(s.update(i, c)).no_duplicates(),
        table(s.update(i, c)) == table(s).insert(c.classroom_id@, c@),
{
    let t = s.update(i, c);
    assert(ids_of(t) =~= ids_of(s));
    assert(ids_of(s)[i] == c.classroom_id@);
    assert forall|id: Seq<char>| table(t).contains_key(id) implies table(t)[id] == table(s).insert(
        c.classroom_id@,
        c@,
    )[id] by {
        let k = ids_of(s).index_of(id);
        assert(ids_of(s)[k] == id);
    }
    assert(table(t) =~= table(s).insert(c.classroom_id@, c@));
}

/// The classroom store.
pub struct ClassroomManager {
    existing_classes: Vec<Classroom>,
}

impl View for ClassroomManager {
    type V = Map<Seq<char>, ClassroomView>;

    closed spec fn view(&self) -> Map<Seq<char>, ClassroomView> {
        table(self.existing_classes@)
    }
}

impl ClassroomManager {
    /// No two stored classrooms share an id.
    pub closed spec fn wf(&self) -> bool {
        ids_of(self.existing_classes@).no_duplicates()
    }

    /// A well-formed store files every classroom under its own id and
    /// holds finitely many.
    pub proof fn lemma_wf_view(&self)
        requires
            self.wf(),
        ensures
            keyed(self@),
            self@.dom().finite(),
    {
        lemma_keyed(self.existing_classes@);
    }

    /// A store that holds no classroom.
    pub fn new() -> (m: ClassroomManager)
        ensures
            m.wf(),
            m@ == Map::<Seq<char>, ClassroomView>::empty(),
    {
        let m = ClassroomManager { existing_classes: Vec::new() };
        proof {
            lemma_absent_all(m.existing_classes@);
        }
        m
    }

    fn position(&self, classroom_id: &str) -> (found: Option<usize>)
        requires
            self.wf(),
        ensures
            match found {
                Some(i) => i < self.existing_classes.len() && self.existing_classes@[i as int].classroom_id@
                    == classroom_id@ && self@.contains_key(classroom_id@) && self@[classroom_id@]
                    == self.existing_classes@[i as int]@,
                None => !self@.contains_key(classroom_id@),
            },
    {
        let mut i: usize = 0;
        while i < self.existing_classes.len()
            invariant
                self.wf(),
                i <= self.existing_classes.len(),
                forall|j: int| 0 <= j < i ==> self.existing_classes@[j].classroom_id@ != classroom_id@,
            decreases self.existing_classes.len() - i,
        {
            if same_text(self.existing_classes[i].classroom_id.as_str(), classroom_id) {
                proof {
                    lemma_lookup(self.existing_classes@, i as int);
                }
                return Some(i);
            }
            i += 1;
        }
        proof {
            lemma_absent(self.existing_classes@, classroom_id@);
        }
        None
    }

    /// The classroom filed under `classroom_id`, if there is one.
    pub fn get_classroom(&self, classroom_id: &str) -> (found: Option<&Classroom>)
        requires
            self.wf(),
        ensures
            match found {
                Some(c) => self@.contains_key(classroom_id@) && c@ == self@[classroom_id@]
                    && c@.classroom_id == classroom_id@,
                None => !self@.contains_key(classroom_id@),
            },
    {
        match self.position(classroom_id) {
            Some(i) => Some(&self.existing_classes[i]),
            None => None,
        }
    }

    /// Makes sure a classroom is filed under `classroom_id`: an existing
    /// one is kept as it is, otherwise an empty one is created.
    pub fn add_classroom(&mut self, classroom_id: &str)
        requires
            old(self).wf(),
        ensures
            final(self).wf(),
            final(self)@ == if old(self)@.contains_key(classroom_id@) {
                old(self)@
            } else {
                old(self)@.insert(classroom_id@, ClassroomView::fresh(classroom_id@))
            },
    {
        if self.position(classroom_id).is_none() {
            let c = Classroom::new(classroom_id);
            proof {
                lemma_fresh_id(self.existing_classes@, classroom_id@);
                lemma_push(self.existing_classes@, c);
            }
            self.existing_classes.push(c);
        }
    }

    /// Discards the classroom filed under `classroom_id`, if there is one.
    pub fn remove_classroom(&mut self, classroom_id: &str)
        requires
            old(self).wf(),
        ensures
            final(self).wf(),
            final(self)@ == old(self)@.remove(classroom_id@),
    {
        let _ = self.take_classroom(classroom_id);
    }

    /// Takes the classroom filed under `classroom_id` out of the store.
    pub fn take_classroom(&mut self, classroom_id: &str) -> (taken: Option<Classroom>)
        requires
            old(self).wf(),
        ensures
            final(self).wf(),
            final(self)@ == old(self)@.remove(classroom_id@),
            match taken {
                Some(c) => old(self)@.contains_key(classroom_id@) && c@ == old(self)@[classroom_id@]
                    && c@.classroom_id == classroom_id@,
                None => !old(self)@.contains_key(classroom_id@),
            },
    {
        match self.position(classroom_id) {
            Some(i) => {
                proof {
                    lemma_remove(self.existing_classes@, i as int);
                }
                let c = self.existing_classes.remove(i);
                Some(c)
            },
            None => {
                assert(self@.remove(classroom_id@) =~= self@);
                None
            },
        }
    }

    /// Files `classroom` under its id, replacing the one filed there.
    pub fn put_classroom(&mut self, classroom: Classroom)
        requires
            old(self).wf(),
        ensures
            final(self).wf(),
            final(self)@ == old(self)@.insert(classroom@.classroom_id, classroom@),
    {
        match self.position(classroom.classroom_id.as_str()) {
            Some(i) => {
                proof {
                    lemma_update(self.existing_classes@, i as int, classroom);
                }
                self.existing_classes.set(i, classroom);
            },
            None => {
                proof {
                    lemma_fresh_id(self.existing_classes@, classroom.classroom_id@);
                    lemma_push(self.existing_classes@, classroom);
                }
                self.existing_classes.push(classroom);
            },
        }
    }

    /// How many classrooms the store holds.
    pub fn len(&self) -> (n: usize)
        requires
            self.wf(),
        ensures
            n == self@.len(),
    {
        proof {
            let ids = ids_of(self.existing_classes@);
            assert(self@.dom() =~= ids.to_set());
            ids.unique_seq_to_set();
        }
        self.existing_classes.len()
    }
}

proof fn lemma_absent_all(s: Seq<Classroom>)
    requires
        s.len() == 0,
    ensures
        table(s) == Map::<Seq<char>, ClassroomView>::empty(),
        ids_of(s).no_duplicates(),
{
    assert(table(s) =~= Map::<Seq<char>, ClassroomView>::empty());
}

proof fn lemma_fresh_id(s: Seq<Classroom>, id: Seq<char>)
    requires
        !table(s).contains_key(id),
    ensures
        !ids_of(s).contains(id),
{
}

} // verus!
