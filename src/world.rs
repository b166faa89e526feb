use vstd::prelude::*;

use crate::component::{Component, EcsError, Entity, Kind, ENTITY_ID};

verus! {

/// What one slot of a world holds, as the contracts see it.
pub struct SlotView {
    pub id: Seq<char>,
    pub tid: Seq<char>,
    pub kind: Kind,
    /// The entity whose registry holds this slot, if any.
    pub owner: Option<usize>,
    /// For an entity: the components attached to it, in order of attachment.
    pub registry: Seq<usize>,
}

/// The model of a world: its slots and the entities created at its top level.
pub struct WorldView {
    pub slots: Seq<SlotView>,
    pub entities: Seq<usize>,
}

impl WorldView {
    pub open spec fn valid(self, i: int) -> bool {
        0 <= i < self.slots.len()
    }

    pub open spec fn is_entity(self, i: int) -> bool {
        self.valid(i) && self.slots[i].kind == Kind::Entity
    }

    pub open spec fn id_pred(self, id: Seq<char>) -> spec_fn(usize) -> bool {
        |x: usize| self.slots[x as int].id == id
    }

    pub open spec fn other_id_pred(self, id: Seq<char>) -> spec_fn(usize) -> bool {
        |x: usize| self.slots[x as int].id != id
    }

    pub open spec fn entity_pred(self) -> spec_fn(usize) -> bool {
        |x: usize| self.slots[x as int].kind == Kind::Entity
    }

    /// The entities nested directly in entity `e`, in order of attachment.
    pub open spec fn nested(self, e: int) -> Seq<usize> {
        self.slots[e].registry.filter(self.entity_pred())
    }

    /// Whether slot `c` has the given tag and instance id.
    pub open spec fn matches(self, c: usize, tid: Seq<char>, id: Seq<char>) -> bool {
        self.slots[c as int].tid == tid && self.slots[c as int].id == id
    }

    /// Ownership and registries agree: a slot is in the registry of an entity
    /// exactly when that entity is its owner, and is there once. A slot is an
    /// entity exactly when its tag is "entity".
    pub open spec fn wf(self) -> bool {
        &&& self.slots.len() <= usize::MAX
        &&& forall|i: int|
            #![trigger self.slots[i].owner]
            0 <= i < self.slots.len() && self.slots[i].owner is Some ==> {
                let p = self.slots[i].owner->0 as int;
                self.is_entity(p) && self.slots[p].registry.contains(i as usize)
            }
        &&& forall|p: int, j: int|
            #![trigger self.slots[p].registry[j]]
            0 <= p < self.slots.len() && 0 <= j < self.slots[p].registry.len() ==> {
                let c = self.slots[p].registry[j] as int;
                self.valid(c) && self.slots[c].owner == Some(p as usize)
            }
        &&& forall|p: int|
            #![trigger self.slots[p].registry]
            0 <= p < self.slots.len() ==> self.slots[p].registry.no_duplicates()
        &&& forall|p: int|
            #![trigger self.slots[p].kind]
            0 <= p < self.slots.len() && self.slots[p].kind != Kind::Entity
                ==> self.slots[p].registry.len() == 0
        &&& forall|p: int|
            #![trigger self.slots[p].tid]
            0 <= p < self.slots.len() ==> ((self.slots[p].kind == Kind::Entity) <==> (
            self.slots[p].tid == ENTITY_ID@))
        &&& forall|k: int|
            #![trigger self.entities[k]]
            0 <= k < self.entities.len() ==> self.is_entity(self.entities[k] as int)
    }

    pub open spec fn match_pred(self, tid: Seq<char>, id: Seq<char>) -> spec_fn(usize) -> bool {
        |c: usize| self.matches(c, tid, id)
    }

    pub open spec fn keep_pred(self, tid: Seq<char>, id: Seq<char>) -> spec_fn(usize) -> bool {
        |c: usize| !self.matches(c, tid, id)
    }

    /// The components of entity `e` with the given tag and id, in registry order.
    pub open spec fn matching(self, e: int, tid: Seq<char>, id: Seq<char>) -> Seq<usize> {
        self.slots[e].registry.filter(self.match_pred(tid, id))
    }

    /// The components of entity `e` that do not have the given tag and id.
    pub open spec fn retained(self, e: int, tid: Seq<char>, id: Seq<char>) -> Seq<usize> {
        self.slots[e].registry.filter(self.keep_pred(tid, id))
    }

    pub open spec fn tag_pred(self, tid: Seq<char>) -> spec_fn(usize) -> bool {
        |c: usize| self.slots[c as int].tid == tid
    }

    /// The bucket of entity `e` for a tag: its components with that tag, in
    /// order of attachment.
    pub open spec fn bucket(self, e: int, tid: Seq<char>) -> Seq<usize> {
        self.slots[e].registry.filter(self.tag_pred(tid))
    }

    /// Every slot in `s` is of variant `kind`.
    pub open spec fn all_of_kind(self, s: Seq<usize>, kind: Kind) -> bool {
        forall|k: int| 0 <= k < s.len() ==> self.slots[s[k] as int].kind == kind
    }

    /// Some slot in `s` has instance id `id` and is not of variant `kind`.
    pub open spec fn stray_in(self, s: Seq<usize>, kind: Kind, id: Seq<char>) -> bool {
        exists|k: int|
            0 <= k < s.len() && self.slots[s[k] as int].kind != kind && self.slots[s[k] as int].id == id
    }

    /// What a typed query over the slots `s` of tag `tid` returns.
    pub open spec fn typed_result(self, s: Seq<usize>, tid: Seq<char>, kind: Kind, r: Result<
        Vec<usize>,
        EcsError,
    >) -> bool {
        match r {
            Ok(v) => self.all_of_kind(s, kind) && v@ == s,
            Err(EcsError::TypeMismatch { tid: t, id }) => !self.all_of_kind(s, kind) && t@ == tid
                && self.stray_in(s, kind, id@),
            Err(_) => false,
        }
    }

    /// The components that attaching `c` takes from its previous owner.
    pub open spec fn displaced(self, c: int) -> Seq<usize> {
        match self.slots[c].owner {
            Some(p) => self.matching(p as int, self.slots[c].tid, self.slots[c].id),
            None => Seq::empty(),
        }
    }

    /// The world after `c` has been attached to entity `e`: first its previous
    /// owner lets go of it, then it joins the end of `e`'s registry.
    pub open spec fn added(self, e: int, c: int) -> WorldView {
        let w1 = match self.slots[c].owner {
            Some(p) => self.detach(p as int, self.slots[c].tid, self.slots[c].id),
            None => self,
        };
        w1.attach(e, c)
    }

    /// The world after entity `e` has let go of every component with the given
    /// tag and id: they leave its registry and have no owner any more.
    pub open spec fn detach(self, e: int, tid: Seq<char>, id: Seq<char>) -> WorldView {
        let gone = self.matching(e, tid, id);
        WorldView {
            slots: Seq::new(
                self.slots.len(),
                |x: int|
                    SlotView {
                        id: self.slots[x].id,
                        tid: self.slots[x].tid,
                        kind: self.slots[x].kind,
                        owner: if gone.contains(x as usize) {
                            None
                        } else {
                            self.slots[x].owner
                        },
                        registry: if x == e {
                            self.retained(e, tid, id)
                        } else {
                            self.slots[x].registry
                        },
                    },
            ),
            entities: self.entities,
        }
    }

    /// The world after the detached component `c` has been appended to the
    /// registry of entity `e`.
    pub open spec fn attach(self, e: int, c: int) -> WorldView {
        WorldView {
            slots: Seq::new(
                self.slots.len(),
                |x: int|
                    SlotView {
                        id: self.slots[x].id,
                        tid: self.slots[x].tid,
                        kind: self.slots[x].kind,
                        owner: if x == c {
                            Some(e as usize)
                        } else {
                            self.slots[x].owner
                        },
                        registry: if x == e {
                            self.slots[e].registry.push(c as usize)
                        } else {
                            self.slots[x].registry
                        },
                    },
            ),
            entities: self.entities,
        }
    }
}

/// An arena of entities and components. Handles are indices into it; the
/// owner of a slot is named by index, never by a counted reference, so the
/// tree's back-references hold nothing alive.
pub struct World<T> {
    ids: Vec<String>,
    tids: Vec<String>,
    kinds: Vec<Kind>,
    owners: Vec<Option<usize>>,
    registries: Vec<Vec<usize>>,
    payloads: Vec<Option<T>>,
    entities: Vec<usize>,
}

impl<T> View for World<T> {
    type V = WorldView;

    closed spec fn view(&self) -> WorldView {
        WorldView {
            slots: Seq::new(
                self.ids@.len(),
                |i: int|
                    SlotView {
                        id: self.ids@[i]@,
                        tid: self.tids@[i]@,
                        kind: self.kinds@[i],
                        owner: self.owners@[i],
                        registry: self.registries@[i]@,
                    },
            ),
            entities: self.entities@,
        }
    }
}

impl<T> World<T> {
    pub closed spec fn shape(&self) -> bool {
        &&& self.tids@.len() == self.ids@.len()
        &&& self.kinds@.len() == self.ids@.len()
        &&& self.owners@.len() == self.ids@.len()
        &&& self.registries@.len() == self.ids@.len()
        &&& self.payloads@.len() == self.ids@.len()
    }

    /// The invariant of a world.
    pub open spec fn inv(&self) -> bool {
        &&& self.shape()
        &&& self@.wf()
        &&& self.payloads().len() == self@.slots.len()
    }

    /// The data of each slot; `None` for entities.
    pub closed spec fn payloads(&self) -> Seq<Option<T>> {
        self.payloads@
    }

    /// An empty world.
    pub fn new() -> (r: World<T>)
        ensures
            r.inv(),
            r@.slots.len() == 0,
            r@.entities.len() == 0,
            r.payloads().len() == 0,
    {
        let r = World {
            ids: Vec::new(),
            tids: Vec::new(),
            kinds: Vec::new(),
            owners: Vec::new(),
            registries: Vec::new(),
            payloads: Vec::new(),
            entities: Vec::new(),
        };
        assert(r@.slots =~= Seq::<SlotView>::empty());
        r
    }

    /// Appends a detached slot and returns its index.
    pub(crate) fn push_slot(&mut self, id: String, tid: String, kind: Kind, payload: Option<T>) -> (r:
        usize)
        requires
            old(self).inv(),
            old(self)@.slots.len() < usize::MAX,
            (kind == Kind::Entity) <==> (tid@ == ENTITY_ID@),
        ensures
            final(self).inv(),
            r == old(self)@.slots.len(),
            final(self)@.slots == old(self)@.slots.push(
                SlotView { id: id@, tid: tid@, kind, owner: None, registry: Seq::empty() },
            ),
            final(self)@.entities == old(self)@.entities,
            final(self).payloads() == old(self).payloads().push(payload),
    {
        let ghost w = self@;
        let r = self.ids.len();
        self.ids.push(id);
        self.tids.push(tid);
        self.kinds.push(kind);
        self.owners.push(None);
        self.registries.push(Vec::new());
        self.payloads.push(payload);
        let ghost slot = SlotView { id: id@, tid: tid@, kind, owner: None, registry: Seq::empty() };
        assert(self@.slots =~= w.slots.push(slot));
        let ghost v = self@;
        assert forall|p: int, j: int|
            #![trigger v.slots[p].registry[j]]
            0 <= p < v.slots.len() && 0 <= j < v.slots[p].registry.len() implies {
                let c = v.slots[p].registry[j] as int;
                v.valid(c) && v.slots[c].owner == Some(p as usize)
            } by {
            assert(w.slots[p].registry[j] == v.slots[p].registry[j]);
        }
        assert forall|i: int|
            #![trigger v.slots[i].owner]
            0 <= i < v.slots.len() && v.slots[i].owner is Some implies {
                let p = v.slots[i].owner->0 as int;
                v.is_entity(p) && v.slots[p].registry.contains(i as usize)
            } by {
            assert(w.slots[i].owner is Some);
        }
        assert forall|k: int|
            #![trigger v.entities[k]]
            0 <= k < v.entities.len() implies v.is_entity(v.entities[k] as int) by {
            assert(w.is_entity(w.entities[k] as int));
        }
        r
    }

    /// Entity `e` lets go of every component in its registry with the given
    /// tag and id, and returns them in registry order.
    pub(crate) fn detach_matching(&mut self, e: usize, tid: &String, id: &String) -> (r: Vec<usize>)
        requires
            old(self).inv(),
            old(self)@.is_entity(e as int),
        ensures
            final(self).inv(),
            final(self)@ == old(self)@.detach(e as int, tid@, id@),
            r@ == old(self)@.matching(e as int, tid@, id@),
            final(self).payloads() == old(self).payloads(),
    {
        let ghost w = self@;
        let ghost reg = w.slots[e as int].registry;
        let ghost mp = w.match_pred(tid@, id@);
        let ghost kp = w.keep_pred(tid@, id@);
        let n = self.registries[e].len();
        let mut keep: Vec<usize> = Vec::new();
        let mut gone: Vec<usize> = Vec::new();
        let mut i: usize = 0;
        while i < n
            invariant
                w == old(self)@,
                w.wf(),
                mp == w.match_pred(tid@, id@),
                kp == w.keep_pred(tid@, id@),
                self.shape(),
                reg == w.slots[e as int].registry,
                n == reg.len(),
                0 <= i <= n,
                e < self.ids@.len(),
                self.ids == old(self).ids,
                self.tids == old(self).tids,
                self.kinds == old(self).kinds,
                self.registries == old(self).registries,
                self.payloads == old(self).payloads,
                self.entities == old(self).entities,
                self.owners@.len() == old(self).owners@.len(),
                keep@ == reg.take(i as int).filter(kp),
                gone@ == reg.take(i as int).filter(mp),
                forall|x: int|
                    0 <= x < self.owners@.len() ==> #[trigger] self.owners@[x] == (if gone@.contains(
                        x as usize,
                    ) {
                        None
                    } else {
                        old(self).owners@[x]
                    }),
            decreases n - i,
        {
            let c = self.registries[e][i];
            assert(reg.take(i + 1) =~= reg.take(i as int).push(c));
            proof {
                reg.take(i as int).lemma_filter_push(c, kp);
                reg.take(i as int).lemma_filter_push(c, mp);
            }
            assert(w.slots[e as int].registry[i as int] == c);
            assert(w.slots[c as int].tid == self.tids@[c as int]@);
            assert(w.slots[c as int].id == self.ids@[c as int]@);
            if self.tids[c] == *tid && self.ids[c] == *id {
                assert(mp(c) && !kp(c));
                let ghost g0 = gone@;
                gone.push(c);
                self.owners.set(c, None);
                assert forall|x: int| 0 <= x < self.owners@.len() implies #[trigger] self.owners@[x]
                    == (if gone@.contains(x as usize) {
                    None
                } else {
                    old(self).owners@[x]
                }) by {
                    if x != c as int {
                        assert(gone@.contains(x as usize) <==> g0.contains(x as usize)) by {
                            if gone@.contains(x as usize) {
                                let k = choose|k: int| 0 <= k < gone@.len() && gone@[k] == x as usize;
                                assert(k < g0.len());
                                assert(g0[k] == x as usize);
                            }
                            if g0.contains(x as usize) {
                                let k = choose|k: int| 0 <= k < g0.len() && g0[k] == x as usize;
                                assert(gone@[k] == x as usize);
                            }
                        }
                    } else {
                        assert(gone@[gone@.len() - 1] == c);
                    }
                }
            } else {
                assert(!mp(c) && kp(c));
                keep.push(c);
            }
            i += 1;
        }
        assert(reg.take(n as int) =~= reg);
        self.registries.set(e, keep);
        let ghost target = w.detach(e as int, tid@, id@);
        assert(self@.slots =~= target.slots) by {
            assert forall|x: int| 0 <= x < self@.slots.len() implies self@.slots[x] == target.slots[x] by {
            }
        }
        proof {
            lemma_detach_wf(w, e as int, tid@, id@);
        }
        gone
    }

    /// Appends the detached component `c` to the registry of entity `e`.
    pub(crate) fn attach_to(&mut self, e: usize, c: usize)
        requires
            old(self).inv(),
            old(self)@.is_entity(e as int),
            old(self)@.valid(c as int),
            old(self)@.slots[c as int].owner is None,
        ensures
            final(self).inv(),
            final(self)@ == old(self)@.attach(e as int, c as int),
            final(self).payloads() == old(self).payloads(),
    {
        let ghost w = self@;
        self.owners.set(c, Some(e));
        self.registries[e].push(c);
        assert(self@.slots =~= w.attach(e as int, c as int).slots);
        proof {
            lemma_attach_wf(w, e as int, c as int);
        }
    }

    /// The elements of the registry of `e`, in order, that have tag `tid` and,
    /// where `id` is given, that instance id.
    pub(crate) fn select(&self, e: usize, tid: &String, id: Option<&String>) -> (r: Vec<usize>)
        requires
            self.inv(),
            self@.is_entity(e as int),
        ensures
            id is Some ==> r@ == self@.matching(e as int, tid@, id->0@),
            id is None ==> r@ == self@.bucket(e as int, tid@),
    {
        let ghost w = self@;
        let ghost reg = w.slots[e as int].registry;
        let ghost pred = match id {
            Some(x) => w.match_pred(tid@, x@),
            None => w.tag_pred(tid@),
        };
        let n = self.registries[e].len();
        let mut out: Vec<usize> = Vec::new();
        let mut i: usize = 0;
        while i < n
            invariant
                w == self@,
                w.wf(),
                self.shape(),
                reg == w.slots[e as int].registry,
                pred == (match id {
                    Some(x) => w.match_pred(tid@, x@),
                    None => w.tag_pred(tid@),
                }),
                n == reg.len(),
                0 <= i <= n,
                e < self.ids@.len(),
                out@ == reg.take(i as int).filter(pred),
            decreases n - i,
        {
            let c = self.registries[e][i];
            assert(reg.take(i + 1) =~= reg.take(i as int).push(c));
            proof {
                reg.take(i as int).lemma_filter_push(c, pred);
            }
            assert(w.slots[e as int].registry[i as int] == c);
            assert(w.slots[c as int].tid == self.tids@[c as int]@);
            assert(w.slots[c as int].id == self.ids@[c as int]@);
            let hit = match id {
                Some(x) => self.tids[c] == *tid && self.ids[c] == *x,
                None => self.tids[c] == *tid,
            };
            if hit {
                out.push(c);
            }
            i += 1;
        }
        assert(reg.take(n as int) =~= reg);
        out
    }

    /// The entities nested directly in entity `e`, in order.
    pub(crate) fn nested_of(&self, e: usize) -> (r: Vec<usize>)
        requires
            self.inv(),
            self@.is_entity(e as int),
        ensures
            r@ == self@.nested(e as int),
    {
        let ghost w = self@;
        let ghost reg = w.slots[e as int].registry;
        let ghost pred = w.entity_pred();
        let n = self.registries[e].len();
        let mut out: Vec<usize> = Vec::new();
        let mut i: usize = 0;
        while i < n
            invariant
                w == self@,
                w.wf(),
                self.shape(),
                reg == w.slots[e as int].registry,
                pred == w.entity_pred(),
                n == reg.len(),
                0 <= i <= n,
                e < self.ids@.len(),
                out@ == reg.take(i as int).filter(pred),
            decreases n - i,
        {
            let c = self.registries[e][i];
            assert(reg.take(i + 1) =~= reg.take(i as int).push(c));
            proof {
                reg.take(i as int).lemma_filter_push(c, pred);
            }
            assert(w.slots[e as int].registry[i as int] == c);
            assert(w.slots[c as int].kind == self.kinds@[c as int]);
            if self.kinds[c] == Kind::Entity {
                out.push(c);
            }
            i += 1;
        }
        assert(reg.take(n as int) =~= reg);
        out
    }

    /// Checks that every slot of `s`, all of tag `tid`, is of variant `kind`.
    pub(crate) fn typed(&self, s: Vec<usize>, tid: &String, kind: Kind) -> (r: Result<
        Vec<usize>,
        EcsError,
    >)
        requires
            self.inv(),
            forall|k: int| 0 <= k < s@.len() ==> self@.valid(#[trigger] s@[k] as int),
        ensures
            self@.typed_result(s@, tid@, kind, r),
    {
        let mut i: usize = 0;
        while i < s.len()
            invariant
                self.inv(),
                forall|k: int| 0 <= k < s@.len() ==> self@.valid(#[trigger] s@[k] as int),
                0 <= i <= s@.len(),
                forall|k: int| 0 <= k < i ==> self@.slots[#[trigger] s@[k] as int].kind == kind,
            decreases s@.len() - i,
        {
            let c = s[i];
            assert(self@.valid(s@[i as int] as int));
            assert(self@.slots[c as int].kind == self.kinds@[c as int]);
            if self.kinds[c] != kind {
                assert(self@.slots[c as int].id == self.ids@[c as int]@);
                return Err(EcsError::TypeMismatch { tid: tid.clone(), id: self.ids[c].clone() });
            }
            i += 1;
        }
        Ok(s)
    }

    /// The tag of slot `c`.
    pub fn tid_of(&self, c: usize) -> (r: &String)
        requires
            self.inv(),
            self@.valid(c as int),
        ensures
            r@ == self@.slots[c as int].tid,
    {
        &self.tids[c]
    }

    /// The instance id of slot `c`.
    pub fn id_of(&self, c: usize) -> (r: &String)
        requires
            self.inv(),
            self@.valid(c as int),
        ensures
            r@ == self@.slots[c as int].id,
    {
        &self.ids[c]
    }

    /// The variant of slot `c`.
    pub fn kind_of(&self, c: usize) -> (r: Kind)
        requires
            self.inv(),
            self@.valid(c as int),
        ensures
            r == self@.slots[c as int].kind,
    {
        self.kinds[c]
    }

    /// The entity that holds slot `c`, if any.
    pub fn owner_of(&self, c: usize) -> (r: Option<usize>)
        requires
            self.inv(),
            self@.valid(c as int),
        ensures
            r == self@.slots[c as int].owner,
    {
        self.owners[c]
    }

    /// The registry of slot `c`: what is attached to it, in order.
    pub fn registry_of(&self, c: usize) -> (r: &Vec<usize>)
        requires
            self.inv(),
            self@.valid(c as int),
        ensures
            r@ == self@.slots[c as int].registry,
    {
        &self.registries[c]
    }

    /// The data of slot `c`; entities have none.
    pub fn payload(&self, c: usize) -> (r: Option<&T>)
        requires
            self.inv(),
            self@.valid(c as int),
        ensures
            r is Some <==> self.payloads()[c as int] is Some,
            r is Some ==> *r->0 == self.payloads()[c as int]->0,
    {
        match &self.payloads[c] {
            Some(x) => Some(x),
            None => None,
        }
    }

    /// Replaces the data of component `c`, which the host changes between
    /// frames. Entities hold no data: for one, nothing changes and the result
    /// is `false`.
    pub fn set_payload(&mut self, c: usize, data: T) -> (r: bool)
        requires
            old(self).inv(),
            old(self)@.valid(c as int),
        ensures
            final(self).inv(),
            final(self)@ == old(self)@,
            r == old(self).payloads()[c as int] is Some,
            r ==> final(self).payloads() == old(self).payloads().update(c as int, Some(data)),
            !r ==> final(self).payloads() == old(self).payloads(),
    {
        let ghost w = self@;
        if self.payloads[c].is_none() {
            return false;
        }
        self.payloads.set(c, Some(data));
        assert(self@.slots =~= w.slots);
        true
    }

    /// Creates an entity with the given id at the top level of the world.
    pub fn create(&mut self, id: String) -> (r: Entity)
        requires
            old(self).inv(),
            old(self)@.slots.len() < usize::MAX,
        ensures
            final(self).inv(),
            r.index == old(self)@.slots.len(),
            final(self)@.slots == old(self)@.slots.push(
                SlotView {
                    id: id@,
                    tid: ENTITY_ID@,
                    kind: Kind::Entity,
                    owner: None,
                    registry: Seq::empty(),
                },
            ),
            final(self)@.entities == old(self)@.entities.push(r.index),
            final(self).payloads() == old(self).payloads().push(None),
    {
        let e = Entity::new(self, id);
        self.entities.push(e.index);
        let ghost v = self@;
        assert forall|k: int|
            #![trigger v.entities[k]]
            0 <= k < v.entities.len() implies v.is_entity(v.entities[k] as int) by {
            if k < v.entities.len() - 1 {
                assert(old(self)@.entities[k] == v.entities[k]);
            }
        }
        e
    }

    /// Creates a detached component with instance id `id`, tag `tid`, variant
    /// `kind` and the given data. The tag "entity" and the variant
    /// `Kind::Entity` are for entities alone: asking for either is refused.
    pub fn spawn(&mut self, id: String, tid: String, kind: Kind, data: T) -> (r: Result<
        Component,
        EcsError,
    >)
        requires
            old(self).inv(),
            old(self)@.slots.len() < usize::MAX,
        ensures
            final(self).inv(),
            (kind == Kind::Entity || tid@ == ENTITY_ID@) <==> r is Err,
            r is Err ==> r == Err::<Component, EcsError>(EcsError::ReservedTag) && *final(self)
                == *old(self),
            r is Ok ==> {
                &&& r->Ok_0.index == old(self)@.slots.len()
                &&& final(self)@.slots == old(self)@.slots.push(
                    SlotView { id: id@, tid: tid@, kind, owner: None, registry: Seq::empty() },
                )
                &&& final(self)@.entities == old(self)@.entities
                &&& final(self).payloads() == old(self).payloads().push(Some(data))
            },
    {
        let reserved = crate::id(ENTITY_ID);
        if kind == Kind::Entity || tid == reserved {
            return Err(EcsError::ReservedTag);
        }
        let index = self.push_slot(id, tid, kind, Some(data));
        Ok(Component { index })
    }

    /// The entities created at the top level, in order of creation.
    pub fn entities(&self) -> (r: Vec<usize>)
        requires
            self.inv(),
        ensures
            r@ == self@.entities,
    {
        self.entities.clone()
    }

    /// The top-level entities with instance id `id`, in order of creation.
    pub fn get(&self, id: &String) -> (r: Vec<usize>)
        requires
            self.inv(),
        ensures
            r@ == self@.entities.filter(self@.id_pred(id@)),
    {
        let ghost w = self@;
        let ghost pred = w.id_pred(id@);
        let mut out: Vec<usize> = Vec::new();
        let mut i: usize = 0;
        while i < self.entities.len()
            invariant
                w == self@,
                w.wf(),
                self.shape(),
                pred == w.id_pred(id@),
                0 <= i <= w.entities.len(),
                out@ == w.entities.take(i as int).filter(pred),
            decreases w.entities.len() - i,
        {
            let x = self.entities[i];
            assert(w.entities.take(i + 1) =~= w.entities.take(i as int).push(x));
            proof {
                w.entities.take(i as int).lemma_filter_push(x, pred);
            }
            assert(w.is_entity(w.entities[i as int] as int));
            assert(w.slots[x as int].id == self.ids@[x as int]@);
            if self.ids[x] == *id {
                out.push(x);
            }
            i += 1;
        }
        assert(w.entities.take(w.entities.len() as int) =~= w.entities);
        out
    }

    /// The first top-level entity with instance id `id`, if any.
    pub fn get_first(&self, id: &String) -> (r: Option<usize>)
        requires
            self.inv(),
        ensures
            ({
                let s = self@.entities.filter(self@.id_pred(id@));
                r == if s.len() == 0 {
                    None::<usize>
                } else {
                    Some(s[0])
                }
            }),
    {
        let v = self.get(id);
        if v.len() == 0 {
            None
        } else {
            Some(v[0])
        }
    }

    /// Takes `entity`, and every other top-level entity with its id, out of
    /// the top level. The slots themselves stay as they are.
    pub fn remove(&mut self, entity: Entity)
        requires
            old(self).inv(),
            old(self)@.valid(entity.index as int),
        ensures
            final(self).inv(),
            final(self)@.slots == old(self)@.slots,
            final(self)@.entities == old(self)@.entities.filter(
                old(self)@.other_id_pred(old(self)@.slots[entity.index as int].id),
            ),
            final(self).payloads() == old(self).payloads(),
    {
        let id = self.ids[entity.index].clone();
        self.remove_by_id(&id);
    }

    /// Takes every top-level entity with instance id `id` out of the top
    /// level. The slots themselves stay as they are.
    pub fn remove_by_id(&mut self, id: &String)
        requires
            old(self).inv(),
        ensures
            final(self).inv(),
            final(self)@.slots == old(self)@.slots,
            final(self)@.entities == old(self)@.entities.filter(old(self)@.other_id_pred(id@)),
            final(self).payloads() == old(self).payloads(),
    {
        let ghost w = self@;
        let ghost pred = w.other_id_pred(id@);
        let mut out: Vec<usize> = Vec::new();
        let mut i: usize = 0;
        while i < self.entities.len()
            invariant
                w == self@,
                w.wf(),
                self.shape(),
                pred == w.other_id_pred(id@),
                0 <= i <= w.entities.len(),
                out@ == w.entities.take(i as int).filter(pred),
            decreases w.entities.len() - i,
        {
            let x = self.entities[i];
            assert(w.entities.take(i + 1) =~= w.entities.take(i as int).push(x));
            proof {
                w.entities.take(i as int).lemma_filter_push(x, pred);
            }
            assert(w.is_entity(w.entities[i as int] as int));
            assert(w.slots[x as int].id == self.ids@[x as int]@);
            if self.ids[x] != *id {
                out.push(x);
            }
            i += 1;
        }
        assert(w.entities.take(w.entities.len() as int) =~= w.entities);
        self.entities = out;
        let ghost v = self@;
        assert(v.slots =~= w.slots);
        assert forall|k: int|
            #![trigger v.entities[k]]
            0 <= k < v.entities.len() implies v.is_entity(v.entities[k] as int) by {
            let x = v.entities[k];
            assert(v.entities.contains(x));
            lemma_filter_membership(w.entities, pred, x);
            let j = choose|j: int| 0 <= j < w.entities.len() && w.entities[j] == x;
            assert(w.is_entity(w.entities[j] as int));
        }
    }

    /// The number of slots.
    pub fn len(&self) -> (r: usize)
        requires
            self.inv(),
        ensures
            r == self@.slots.len(),
    {
        self.ids.len()
    }
}

/// Letting go of matching components keeps a world well formed.
pub proof fn lemma_detach_wf(w: WorldView, e: int, tid: Seq<char>, id: Seq<char>)
    requires
        w.wf(),
        w.is_entity(e),
    ensures
        w.detach(e, tid, id).wf(),
        w.detach(e, tid, id).slots.len() == w.slots.len(),
{
    let d = w.detach(e, tid, id);
    let reg = w.slots[e].registry;
    let gone = w.matching(e, tid, id);
    let kept = w.retained(e, tid, id);
    assert forall|i: int|
        #![trigger d.slots[i].owner]
        0 <= i < d.slots.len() && d.slots[i].owner is Some implies {
            let p = d.slots[i].owner->0 as int;
            d.is_entity(p) && d.slots[p].registry.contains(i as usize)
        } by {
        lemma_filter_membership(reg, w.match_pred(tid, id), i as usize);
        lemma_filter_membership(reg, w.keep_pred(tid, id), i as usize);
    }
    assert forall|p: int, j: int|
        #![trigger d.slots[p].registry[j]]
        0 <= p < d.slots.len() && 0 <= j < d.slots[p].registry.len() implies {
            let c = d.slots[p].registry[j] as int;
            d.valid(c) && d.slots[c].owner == Some(p as usize)
        } by {
        let c = d.slots[p].registry[j];
        if p == e {
            assert(kept.contains(c));
            lemma_filter_membership(reg, w.keep_pred(tid, id), c);
            lemma_filter_membership(reg, w.match_pred(tid, id), c);
            let k = choose|k: int| 0 <= k < reg.len() && reg[k] == c;
            assert(w.slots[e].registry[k] == c);
        } else {
            assert(w.slots[p].registry[j] == c);
            lemma_filter_membership(reg, w.match_pred(tid, id), c);
            if gone.contains(c) {
                let k = choose|k: int| 0 <= k < reg.len() && reg[k] == c;
                assert(w.slots[e].registry[k] == c);
            }
        }
    }
    assert forall|p: int|
        #![trigger d.slots[p].registry]
        0 <= p < d.slots.len() implies d.slots[p].registry.no_duplicates() by {
        assert(w.slots[p].registry.no_duplicates());
        if p == e {
            lemma_filter_no_duplicates(reg, w.keep_pred(tid, id));
        }
    }
    assert forall|p: int|
        #![trigger d.slots[p].kind]
        0 <= p < d.slots.len() && d.slots[p].kind != Kind::Entity implies d.slots[p].registry.len()
        == 0 by {
        assert(w.slots[p].kind != Kind::Entity);
    }
    assert forall|k: int|
        #![trigger d.entities[k]]
        0 <= k < d.entities.len() implies d.is_entity(d.entities[k] as int) by {
        assert(w.is_entity(w.entities[k] as int));
    }
}

/// Appending a component that has no owner to an entity's registry keeps a
/// world well formed.
pub proof fn lemma_attach_wf(w: WorldView, e: int, c: int)
    requires
        w.wf(),
        w.is_entity(e),
        w.valid(c),
        w.slots[c].owner is None,
    ensures
        w.attach(e, c).wf(),
        w.attach(e, c).slots.len() == w.slots.len(),
{
    let a = w.attach(e, c);
    let reg = w.slots[e].registry;
    assert(!reg.contains(c as usize)) by {
        if reg.contains(c as usize) {
            let k = choose|k: int| 0 <= k < reg.len() && reg[k] == c as usize;
            assert(w.slots[e].registry[k] == c as usize);
        }
    }
    assert forall|i: int|
        #![trigger a.slots[i].owner]
        0 <= i < a.slots.len() && a.slots[i].owner is Some implies {
            let p = a.slots[i].owner->0 as int;
            a.is_entity(p) && a.slots[p].registry.contains(i as usize)
        } by {
        if i != c {
            let p = w.slots[i].owner->0 as int;
            assert(w.slots[i].owner is Some);
            if p == e {
                let k = choose|k: int| 0 <= k < reg.len() && reg[k] == i as usize;
                assert(reg.push(c as usize)[k] == i as usize);
            }
        } else {
            assert(reg.push(c as usize)[reg.len() as int] == c as usize);
        }
    }
    assert forall|p: int, j: int|
        #![trigger a.slots[p].registry[j]]
        0 <= p < a.slots.len() && 0 <= j < a.slots[p].registry.len() implies {
            let x = a.slots[p].registry[j] as int;
            a.valid(x) && a.slots[x].owner == Some(p as usize)
        } by {
        if p == e && j == reg.len() {
        } else {
            assert(w.slots[p].registry[j] == a.slots[p].registry[j]);
        }
    }
    assert forall|p: int|
        #![trigger a.slots[p].registry]
        0 <= p < a.slots.len() implies a.slots[p].registry.no_duplicates() by {
        assert(w.slots[p].registry.no_duplicates());
        if p == e {
            let r2 = reg.push(c as usize);
            assert forall|i: int, j: int| 0 <= i < r2.len() && 0 <= j < r2.len() && i != j implies r2[i]
                != r2[j] by {
                if i < reg.len() && j < reg.len() {
                } else if i < reg.len() {
                    assert(reg.contains(reg[i]));
                } else {
                    assert(reg.contains(reg[j]));
                }
            }
        }
    }
    assert forall|p: int|
        #![trigger a.slots[p].kind]
        0 <= p < a.slots.len() && a.slots[p].kind != Kind::Entity implies a.slots[p].registry.len()
        == 0 by {
        assert(w.slots[p].kind != Kind::Entity);
    }
    assert forall|k: int|
        #![trigger a.entities[k]]
        0 <= k < a.entities.len() implies a.is_entity(a.entities[k] as int) by {
        assert(w.is_entity(w.entities[k] as int));
    }
}

/// Filtering keeps a sequence free of duplicates.
pub proof fn lemma_filter_no_duplicates(s: Seq<usize>, p: spec_fn(usize) -> bool)
    requires
        s.no_duplicates(),
    ensures
        s.filter(p).no_duplicates(),
    decreases s.len(),
{
    if s.len() > 0 {
        let t = s.drop_last();
        let x = s.last();
        assert(s =~= t.push(x));
        assert(t.no_duplicates()) by {
            assert forall|i: int, j: int| 0 <= i < t.len() && 0 <= j < t.len() && i != j implies t[i]
                != t[j] by {
                assert(s[i] == t[i] && s[j] == t[j]);
            }
        }
        lemma_filter_no_duplicates(t, p);
        t.lemma_filter_push(x, p);
        if p(x) {
            let f = t.filter(p);
            assert(!f.contains(x)) by {
                if f.contains(x) {
                    t.lemma_filter_contains_rev(p, x);
                    let k = choose|k: int| 0 <= k < t.len() && t[k] == x;
                    assert(s[k] == s[s.len() - 1]);
                }
            }
            assert(f.push(x).no_duplicates()) by {
                assert forall|i: int, j: int|
                    0 <= i < f.push(x).len() && 0 <= j < f.push(x).len() && i != j implies f.push(
                    x,
                )[i] != f.push(x)[j] by {
                    if i < f.len() && j < f.len() {
                    } else if i < f.len() {
                        assert(f.contains(f[i]));
                    } else {
                        assert(f.contains(f[j]));
                    }
                }
            }
        }
    }
}

/// An element of a filtered sequence is an element of the sequence that the
/// predicate accepts, and the other way round.
pub proof fn lemma_filter_membership(s: Seq<usize>, p: spec_fn(usize) -> bool, x: usize)
    ensures
        s.filter(p).contains(x) <==> (s.contains(x) && p(x)),
{
    if s.filter(p).contains(x) {
        s.lemma_filter_contains_rev(p, x);
        let k = choose|k: int| 0 <= k < s.filter(p).len() && s.filter(p)[k] == x;
        s.lemma_filter_pred(p, k);
    }
    if s.contains(x) && p(x) {
        let k = choose|k: int| 0 <= k < s.len() && s[k] == x;
        s.lemma_filter_contains(p, k);
    }
}

} // verus!
