//! The table of rooms: room identifier to room.
//!
//! The table is generic in what a room is, so that a server can keep each
//! session behind a lock of its own and the table itself behind a
//! reader-writer lock: creating a room needs the table exclusively, acting on a
//! room needs it shared.
//!
//! The identifiers are kept in a list in the order of creation, and a room is
//! found by walking it.

use crate::state::GameError;
use vstd::prelude::*;

verus! {

pub struct RoomRegistry<R> {
    ids: Vec<String>,
    rooms: Vec<R>,
}

impl<R> View for RoomRegistry<R> {
    type V = Map<Seq<char>, R>;

    closed spec fn view(&self) -> Map<Seq<char>, R> {
        Map::new(|id: Seq<char>| self.holds(id), |id: Seq<char>| self.rooms[self.place(id)])
    }
}

impl<R> RoomRegistry<R> {
    #[verifier::type_invariant]
    spec fn well_formed(&self) -> bool {
        &&& self.ids.len() == self.rooms.len()
        &&& forall|i: int, j: int|
            0 <= i < j < self.ids.len() ==> (#[trigger] self.ids[i])@ != (#[trigger] self.ids[j])@
    }

    /// Whether a room is stored under `id`.
    spec fn holds(&self, id: Seq<char>) -> bool {
        exists|i: int| 0 <= i < self.ids.len() && (#[trigger] self.ids[i])@ == id
    }

    /// Where the room of `id` is stored.
    spec fn place(&self, id: Seq<char>) -> int {
        choose|i: int| 0 <= i < self.ids.len() && (#[trigger] self.ids[i])@ == id
    }

    /// A table without rooms.
    pub fn new() -> (registry: RoomRegistry<R>)
        ensures
            registry@ == Map::<Seq<char>, R>::empty(),
    {
        let registry = RoomRegistry { ids: Vec::new(), rooms: Vec::new() };
        assert(registry@ =~= Map::<Seq<char>, R>::empty());
        registry
    }

    /// Where the room of `room_id` is stored, if there is one.
    fn find(&self, room_id: &String) -> (at: Option<usize>)
        ensures
            match at {
                Some(i) => self.holds(room_id@) && i == self.place(room_id@) && i < self.ids.len(),
                None => !self.holds(room_id@),
            },
    {
        proof {
            use_type_invariant(self);
        }
        let mut i: usize = 0;
        while i < self.ids.len()
            invariant
                i <= self.ids.len(),
                self.well_formed(),
                forall|j: int| 0 <= j < i ==> (#[trigger] self.ids[j])@ != room_id@,
            decreases self.ids.len() - i,
        {
            if self.ids[i] == *room_id {
                assert(self.ids[i as int]@ == room_id@);
                let ghost p = self.place(room_id@);
                assert(p == i) by {
                    if p < i {
                        assert(self.ids[p]@ != self.ids[i as int]@);
                    } else if i < p {
                        assert(self.ids[i as int]@ != self.ids[p]@);
                    }
                }
                return Some(i);
            }
            i = i + 1;
        }
        None
    }

    /// Publishes `room` under `room_id`. An identifier that is already in use
    /// publishes nothing and gives the room back, so a room that exists is
    /// never replaced.
    pub fn create_room(&mut self, room_id: String, room: R) -> (r: Result<(), R>)
        ensures
            old(self)@.contains_key(room_id@) ==> r == Err::<(), R>(room) && final(self)@ == old(
                self,
            )@,
            !old(self)@.contains_key(room_id@) ==> r is Ok && final(self)@ == old(self)@.insert(
                room_id@,
                room,
            ),
    {
        proof {
            use_type_invariant(&*self);
        }
        if self.find(&room_id).is_some() {
            return Err(room);
        }
        let ghost pre = *self;
        let mut taken = RoomRegistry::new();
        std::mem::swap(self, &mut taken);
        let RoomRegistry { mut ids, mut rooms } = taken;
        ids.push(room_id);
        rooms.push(room);
        *self = RoomRegistry { ids, rooms };
        proof {
            let post = *self;
            assert forall|id: Seq<char>| post.holds(id) <==> (pre.holds(id) || id == room_id@) by {
                if pre.holds(id) {
                    assert(post.ids[pre.place(id)]@ == id);
                }
                if id == room_id@ {
                    assert(post.ids[pre.ids.len() as int]@ == id);
                }
                if post.holds(id) {
                    let i = post.place(id);
                    if i < pre.ids.len() {
                        assert(pre.ids[i]@ == id);
                    }
                }
            }
            assert forall|id: Seq<char>| pre.holds(id) implies post.rooms[post.place(id)]
                == pre.rooms[pre.place(id)] by {
                let i = pre.place(id);
                let j = post.place(id);
                assert(post.ids[i]@ == id);
                if i < j {
                    assert(post.ids[i]@ != post.ids[j]@);
                } else if j < i {
                    assert(post.ids[j]@ != post.ids[i]@);
                }
            }
            assert(post.rooms[post.place(room_id@)] == room) by {
                let j = post.place(room_id@);
                assert(post.ids[pre.ids.len() as int]@ == room_id@);
                if j < pre.ids.len() {
                    assert(pre.ids[j]@ == room_id@);
                }
            }
            assert(post@ =~= pre@.insert(room_id@, room));
        }
        Ok(())
    }

    /// Runs `op` on the room of `room_id` and returns what it returns; an
    /// identifier without a room gives `RoomNotFound`, and `op` does not run.
    pub fn with_room<T, F: FnOnce(&R) -> Result<T, GameError>>(
        &self,
        room_id: &String,
        op: F,
    ) -> (r: Result<T, GameError>)
        requires
            self@.contains_key(room_id@) ==> op.requires((&self@[room_id@],)),
        ensures
            self@.contains_key(room_id@) ==> op.ensures((&self@[room_id@],), r),
            !self@.contains_key(room_id@) ==> r == Err::<T, GameError>(GameError::RoomNotFound),
    {
        proof {
            use_type_invariant(self);
        }
        match self.find(room_id) {
            Some(at) => op(&self.rooms[at]),
            None => Err(GameError::RoomNotFound),
        }
    }
}

} // verus!
