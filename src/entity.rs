use vstd::prelude::*;

use crate::component::{Component, EcsError, Entity, Kind, ENTITY_ID};
use crate::world::{SlotView, World, WorldView};

verus! {

/// The world after each component of `cs`, in order, has been attached to `e`,
/// and what those attachments took from previous owners, in order.
pub open spec fn add_all_spec(w: WorldView, e: int, cs: Seq<Component>) -> (WorldView, Seq<usize>)
    decreases cs.len(),
{
    if cs.len() == 0 {
        (w, Seq::empty())
    } else {
        let (w1, d1) = add_all_spec(w, e, cs.drop_last());
        let c = cs.last().index as int;
        (w1.added(e, c), d1 + w1.displaced(c))
    }
}

/// The world after `e` has removed each component of `cs`, in order, and the
/// components it let go of, in order.
pub open spec fn remove_all_spec(w: WorldView, e: int, cs: Seq<Component>) -> (WorldView, Seq<usize>)
    decreases cs.len(),
{
    if cs.len() == 0 {
        (w, Seq::empty())
    } else {
        let (w1, d1) = remove_all_spec(w, e, cs.drop_last());
        let c = cs.last().index as int;
        let (tid, id) = (w.slots[c].tid, w.slots[c].id);
        (w1.detach(e, tid, id), d1 + w1.matching(e, tid, id))
    }
}

/// Attaching keeps a world well formed and keeps its slots where they are.
pub proof fn lemma_added_wf(w: WorldView, e: int, c: int)
    requires
        w.wf(),
        w.is_entity(e),
        w.valid(c),
    ensures
        w.added(e, c).wf(),
        w.added(e, c).slots.len() == w.slots.len(),
        forall|x: int|
            0 <= x < w.slots.len() ==> #[trigger] w.added(e, c).slots[x].kind == w.slots[x].kind
                && w.added(e, c).slots[x].tid == w.slots[x].tid && w.added(e, c).slots[x].id
                == w.slots[x].id,
{
    match w.slots[c].owner {
        Some(p) => {
            let (tid, id) = (w.slots[c].tid, w.slots[c].id);
            crate::world::lemma_detach_wf(w, p as int, tid, id);
            let w1 = w.detach(p as int, tid, id);
            crate::world::lemma_filter_membership(
                w.slots[p as int].registry,
                w.match_pred(tid, id),
                c as usize,
            );
            assert(w1.slots[c].owner is None);
            crate::world::lemma_attach_wf(w1, e, c);
        },
        None => {
            crate::world::lemma_attach_wf(w, e, c);
        },
    }
}

impl Entity {
    /// A new detached entity with the given id and no components.
    pub fn new<T>(world: &mut World<T>, id: String) -> (r: Entity)
        requires
            old(world).inv(),
            old(world)@.slots.len() < usize::MAX,
        ensures
            final(world).inv(),
            r.index == old(world)@.slots.len(),
            final(world)@.slots == old(world)@.slots.push(
                SlotView {
                    id: id@,
                    tid: ENTITY_ID@,
                    kind: Kind::Entity,
                    owner: None,
                    registry: Seq::empty(),
                },
            ),
            final(world)@.entities == old(world)@.entities,
            final(world).payloads() == old(world).payloads().push(None),
    {
        let index = world.push_slot(id, crate::id(ENTITY_ID), Kind::Entity, None);
        Entity { index }
    }

    /// Attaches `component` to this entity. Where it has an owner already,
    /// that owner first removes it (with every component there of the same
    /// tag and id); then it joins the end of this entity's registry. Returns
    /// what the previous owner let go of, whose `on_remove` hooks are due.
    pub fn add<T>(&self, world: &mut World<T>, component: Component) -> (r: Vec<usize>)
        requires
            old(world).inv(),
            old(world)@.is_entity(self.index as int),
            old(world)@.valid(component.index as int),
        ensures
            final(world).inv(),
            final(world)@ == old(world)@.added(self.index as int, component.index as int),
            r@ == old(world)@.displaced(component.index as int),
            final(world).payloads() == old(world).payloads(),
    {
        let ghost w = world@;
        let c = component.index;
        let r = match world.owner_of(c) {
            Some(p) => {
                let tid = world.tid_of(c).clone();
                let id = world.id_of(c).clone();
                let r = world.detach_matching(p, &tid, &id);
                proof {
                    crate::world::lemma_filter_membership(
                        w.slots[p as int].registry,
                        w.match_pred(tid@, id@),
                        c,
                    );
                }
                r
            },
            None => Vec::new(),
        };
        world.attach_to(self.index, c);
        r
    }

    /// Attaches each of `components`, in order.
    pub fn add_all<T>(&self, world: &mut World<T>, components: &[Component]) -> (r: Vec<usize>)
        requires
            old(world).inv(),
            old(world)@.is_entity(self.index as int),
            forall|k: int|
                0 <= k < components@.len() ==> old(world)@.valid(#[trigger] components@[k].index as int),
        ensures
            final(world).inv(),
            (final(world)@, r@) == add_all_spec(old(world)@, self.index as int, components@),
            final(world).payloads() == old(world).payloads(),
    {
        let mut out: Vec<usize> = Vec::new();
        let mut i: usize = 0;
        while i < components.len()
            invariant
                world.inv(),
                world@.is_entity(self.index as int),
                world@.slots.len() == old(world)@.slots.len(),
                forall|k: int|
                    0 <= k < components@.len() ==> old(world)@.valid(
                        #[trigger] components@[k].index as int,
                    ),
                0 <= i <= components@.len(),
                (world@, out@) == add_all_spec(
                    old(world)@,
                    self.index as int,
                    components@.take(i as int),
                ),
                world.payloads() == old(world).payloads(),
            decreases components@.len() - i,
        {
            let c = components[i];
            assert(components@.take(i + 1).drop_last() =~= components@.take(i as int));
            proof {
                lemma_added_wf(world@, self.index as int, c.index as int);
            }
            let mut d = self.add(world, c);
            out.append(&mut d);
            i += 1;
        }
        assert(components@.take(components@.len() as int) =~= components@);
        out
    }

    /// The components attached to this entity, in order of attachment.
    pub fn components<T>(&self, world: &World<T>) -> (r: Vec<usize>)
        requires
            world.inv(),
            world@.is_entity(self.index as int),
        ensures
            r@ == world@.slots[self.index as int].registry,
    {
        world.registry_of(self.index).clone()
    }

    /// Checks that the components with tag `tid` (and, where given, instance
    /// id `id`) are all of variant `kind`, as the typed queries below require.
    /// Otherwise names the tag and the id of a component of another variant:
    /// the type-tag mapping was broken when it was attached, which callers
    /// treat as fatal.
    pub fn check_type<T>(&self, world: &World<T>, tid: &String, id: Option<&String>, kind: Kind) -> (r:
        Result<(), EcsError>)
        requires
            world.inv(),
            world@.is_entity(self.index as int),
        ensures
            ({
                let s = match id {
                    Some(i) => world@.matching(self.index as int, tid@, i@),
                    None => world@.bucket(self.index as int, tid@),
                };
                match r {
                    Ok(()) => world@.all_of_kind(s, kind),
                    Err(EcsError::TypeMismatch { tid: t, id: i }) => !world@.all_of_kind(s, kind)
                        && t@ == tid@ && world@.stray_in(s, kind, i@),
                    Err(_) => false,
                }
            }),
    {
        let s = world.select(self.index, tid, id);
        proof {
            match id {
                Some(i) => lemma_selected_valid(
                    world@,
                    self.index as int,
                    world@.match_pred(tid@, i@),
                ),
                None => lemma_selected_valid(world@, self.index as int, world@.tag_pred(tid@)),
            }
        }
        match world.typed(s, tid, kind) {
            Ok(_) => Ok(()),
            Err(e) => Err(e),
        }
    }

    /// The components with tag `tid` and instance id `id`, in order, cast to
    /// variant `kind`; each of them must be of that variant (see `check_type`).
    pub fn get<T>(&self, world: &World<T>, tid: &String, id: &String, kind: Kind) -> (r: Vec<usize>)
        requires
            world.inv(),
            world@.is_entity(self.index as int),
            world@.all_of_kind(world@.matching(self.index as int, tid@, id@), kind),
        ensures
            r@ == world@.matching(self.index as int, tid@, id@),
    {
        world.select(self.index, tid, Some(id))
    }

    /// The bucket for `tid`: the components with that tag, in order, cast to
    /// variant `kind`; each of them must be of that variant (see `check_type`).
    pub fn get_type<T>(&self, world: &World<T>, tid: &String, kind: Kind) -> (r: Vec<usize>)
        requires
            world.inv(),
            world@.is_entity(self.index as int),
            world@.all_of_kind(world@.bucket(self.index as int, tid@), kind),
        ensures
            r@ == world@.bucket(self.index as int, tid@),
    {
        world.select(self.index, tid, None)
    }

    /// The first component of the bucket for `tid`, if any; the bucket must
    /// be of variant `kind` (see `check_type`).
    pub fn get_first<T>(&self, world: &World<T>, tid: &String, kind: Kind) -> (r: Option<usize>)
        requires
            world.inv(),
            world@.is_entity(self.index as int),
            world@.all_of_kind(world@.bucket(self.index as int, tid@), kind),
        ensures
            ({
                let b = world@.bucket(self.index as int, tid@);
                r == if b.len() == 0 {
                    None::<usize>
                } else {
                    Some(b[0])
                }
            }),
    {
        let v = self.get_type(world, tid, kind);
        if v.len() == 0 {
            None
        } else {
            Some(v[0])
        }
    }

    /// Removes every component of this entity with the tag and id of
    /// `component`, and returns them, in order: each has lost its owner and
    /// its `on_remove` hook is due.
    pub fn remove<T>(&self, world: &mut World<T>, component: Component) -> (r: Vec<usize>)
        requires
            old(world).inv(),
            old(world)@.is_entity(self.index as int),
            old(world)@.valid(component.index as int),
        ensures
            final(world).inv(),
            final(world)@ == old(world)@.detach(
                self.index as int,
                old(world)@.slots[component.index as int].tid,
                old(world)@.slots[component.index as int].id,
            ),
            r@ == old(world)@.matching(
                self.index as int,
                old(world)@.slots[component.index as int].tid,
                old(world)@.slots[component.index as int].id,
            ),
            final(world).payloads() == old(world).payloads(),
    {
        let tid = world.tid_of(component.index).clone();
        let id = world.id_of(component.index).clone();
        self.remove_by_id(world, &tid, &id)
    }

    /// Removes every component of this entity with tag `tid` and instance id
    /// `id`, and returns them, in order: each has lost its owner and its
    /// `on_remove` hook is due. Nothing changes where there is none.
    pub fn remove_by_id<T>(&self, world: &mut World<T>, tid: &String, id: &String) -> (r: Vec<usize>)
        requires
            old(world).inv(),
            old(world)@.is_entity(self.index as int),
        ensures
            final(world).inv(),
            final(world)@ == old(world)@.detach(self.index as int, tid@, id@),
            r@ == old(world)@.matching(self.index as int, tid@, id@),
            final(world).payloads() == old(world).payloads(),
    {
        world.detach_matching(self.index, tid, id)
    }

    /// Removes each of `components`, in order.
    pub fn remove_all<T>(&self, world: &mut World<T>, components: &[Component]) -> (r: Vec<usize>)
        requires
            old(world).inv(),
            old(world)@.is_entity(self.index as int),
            forall|k: int|
                0 <= k < components@.len() ==> old(world)@.valid(#[trigger] components@[k].index as int),
        ensures
            final(world).inv(),
            (final(world)@, r@) == remove_all_spec(old(world)@, self.index as int, components@),
            final(world).payloads() == old(world).payloads(),
    {
        let mut out: Vec<usize> = Vec::new();
        let mut i: usize = 0;
        while i < components.len()
            invariant
                world.inv(),
                world@.is_entity(self.index as int),
                world@.slots.len() == old(world)@.slots.len(),
                forall|x: int|
                    0 <= x < world@.slots.len() ==> #[trigger] world@.slots[x].tid
                        == old(world)@.slots[x].tid && world@.slots[x].id == old(world)@.slots[x].id,
                forall|k: int|
                    0 <= k < components@.len() ==> old(world)@.valid(
                        #[trigger] components@[k].index as int,
                    ),
                0 <= i <= components@.len(),
                (world@, out@) == remove_all_spec(
                    old(world)@,
                    self.index as int,
                    components@.take(i as int),
                ),
                world.payloads() == old(world).payloads(),
            decreases components@.len() - i,
        {
            let c = components[i];
            assert(components@.take(i + 1).drop_last() =~= components@.take(i as int));
            assert(components@.take(i + 1).last() == c);
            let ghost w0 = world@;
            proof {
                crate::world::lemma_detach_wf(
                    w0,
                    self.index as int,
                    w0.slots[c.index as int].tid,
                    w0.slots[c.index as int].id,
                );
            }
            let mut d = self.remove(world, c);
            assert(world@.slots.len() == w0.slots.len());
            assert forall|x: int| 0 <= x < world@.slots.len() implies #[trigger] world@.slots[x].tid
                == old(world)@.slots[x].tid && world@.slots[x].id == old(world)@.slots[x].id by {
                assert(w0.slots[x].tid == old(world)@.slots[x].tid);
            }
            out.append(&mut d);
            i += 1;
        }
        assert(components@.take(components@.len() as int) =~= components@);
        out
    }
}

/// A component has one owner at a time: attaching `c` to `e1` and then to
/// another entity `e2` leaves `e2` its owner and takes it out of `e1`'s
/// registry.
pub proof fn lemma_single_ownership(w: WorldView, e1: int, e2: int, c: int)
    requires
        w.wf(),
        w.is_entity(e1),
        w.is_entity(e2),
        w.valid(c),
        e1 != e2,
    ensures
        w.added(e1, c).added(e2, c).slots[c].owner == Some(e2 as usize),
        !w.added(e1, c).added(e2, c).slots[e1].registry.contains(c as usize),
        w.added(e1, c).added(e2, c).slots[e2].registry.contains(c as usize),
{
    lemma_added_wf(w, e1, c);
    let w1 = w.added(e1, c);
    assert(w1.slots[c].owner == Some(e1 as usize));
    let (tid, id) = (w1.slots[c].tid, w1.slots[c].id);
    let w1d = w1.detach(e1, tid, id);
    crate::world::lemma_filter_membership(w1.slots[e1].registry, w1.keep_pred(tid, id), c as usize);
    assert(!w1d.slots[e1].registry.contains(c as usize));
    let w2 = w1d.attach(e2, c);
    assert(w2.slots[e2].registry.last() == c as usize);
}

/// Attaching `c` to `e` and removing it again leaves `e` with nothing under
/// `c`'s tag, where it had nothing there before, and `c` with no owner; a
/// second removal changes nothing.
pub proof fn lemma_add_remove_round_trip(w: WorldView, e: int, c: int)
    requires
        w.wf(),
        w.is_entity(e),
        w.valid(c),
        w.bucket(e, w.slots[c].tid).len() == 0,
    ensures
        ({
            let (tid, id) = (w.slots[c].tid, w.slots[c].id);
            let w3 = w.added(e, c).detach(e, tid, id);
            &&& w3.bucket(e, tid).len() == 0
            &&& w3.slots[c].owner is None
            &&& w3.detach(e, tid, id) == w3
        }),
{
    let (tid, id) = (w.slots[c].tid, w.slots[c].id);
    let reg = w.slots[e].registry;
    lemma_added_wf(w, e, c);
    let w2 = w.added(e, c);
    // before, nothing in `e` carries the tag
    assert forall|x: usize| reg.contains(x) implies w.slots[x as int].tid != tid by {
        if w.slots[x as int].tid == tid {
            crate::world::lemma_filter_membership(reg, w.tag_pred(tid), x);
            assert(w.bucket(e, tid).contains(x));
        }
    }
    // so `c` was owned elsewhere, if at all, and `e`'s registry gains just `c`
    assert(w2.slots[e].registry == reg.push(c as usize)) by {
        if w.slots[c].owner is Some {
            let p = w.slots[c].owner->0 as int;
            if p == e {
                assert(reg.contains(c as usize));
            }
        }
    }
    assert(w2.slots[c].tid == tid && w2.slots[c].id == id);
    crate::world::lemma_detach_wf(w2, e, tid, id);
    let w3 = w2.detach(e, tid, id);
    let reg3 = w3.slots[e].registry;
    let r2 = reg.push(c as usize);
    assert forall|x: usize| reg3.contains(x) implies w3.slots[x as int].tid != tid by {
        crate::world::lemma_filter_membership(r2, w2.keep_pred(tid, id), x);
        if x != c as usize {
            let k = choose|k: int| 0 <= k < r2.len() && r2[k] == x;
            assert(k < reg.len());
            assert(reg.contains(x));
        }
    }
    lemma_filter_none(reg3, w3.tag_pred(tid));
    crate::world::lemma_filter_membership(r2, w2.match_pred(tid, id), c as usize);
    assert(r2[reg.len() as int] == c as usize);
    // nothing left matches, so a second removal lets go of nothing
    lemma_filter_none(reg3, w3.match_pred(tid, id));
    lemma_filter_every(reg3, w3.keep_pred(tid, id));
    let w4 = w3.detach(e, tid, id);
    assert(w4.slots =~= w3.slots) by {
        assert forall|x: int| 0 <= x < w3.slots.len() implies w4.slots[x] == w3.slots[x] by {
            assert(!w3.matching(e, tid, id).contains(x as usize));
        }
    }
}

/// A filter that accepts no element of `s` yields nothing.
pub proof fn lemma_filter_none(s: Seq<usize>, p: spec_fn(usize) -> bool)
    requires
        forall|x: usize| s.contains(x) ==> !p(x),
    ensures
        s.filter(p).len() == 0,
{
    if s.filter(p).len() > 0 {
        let x = s.filter(p)[0];
        crate::world::lemma_filter_membership(s, p, x);
        assert(s.filter(p).contains(x));
    }
}

/// A filter that accepts every element of `s` yields `s`.
pub proof fn lemma_filter_every(s: Seq<usize>, p: spec_fn(usize) -> bool)
    requires
        forall|x: usize| s.contains(x) ==> p(x),
    ensures
        s.filter(p) == s,
    decreases s.len(),
{
    reveal(Seq::filter);
    if s.len() > 0 {
        assert forall|x: usize| s.drop_last().contains(x) implies p(x) by {
            let k = choose|k: int| 0 <= k < s.drop_last().len() && s.drop_last()[k] == x;
            assert(s[k] == x);
            assert(s.contains(x));
        }
        lemma_filter_every(s.drop_last(), p);
        assert(s.contains(s.last()));
        assert(s.drop_last().push(s.last()) =~= s);
    }
}

/// Whatever a selection from a registry holds is a slot of the world.
pub proof fn lemma_selected_valid(w: WorldView, e: int, p: spec_fn(usize) -> bool)
    requires
        w.wf(),
        w.is_entity(e),
    ensures
        forall|k: int|
            0 <= k < w.slots[e].registry.filter(p).len() ==> w.valid(
                #[trigger] w.slots[e].registry.filter(p)[k] as int,
            ),
{
    let reg = w.slots[e].registry;
    assert forall|k: int| 0 <= k < reg.filter(p).len() implies w.valid(
        #[trigger] reg.filter(p)[k] as int,
    ) by {
        let x = reg.filter(p)[k];
        crate::world::lemma_filter_membership(reg, p, x);
        let j = choose|j: int| 0 <= j < reg.len() && reg[j] == x;
        assert(w.slots[e].registry[j] == x);
    }
}

} // verus!
