use vstd::prelude::*;

use crate::component::{Component, EcsError, Entity, Kind, ENTITY_ID, TRANSFORM_ID};
use crate::entity::lemma_selected_valid;
use crate::world::{World, WorldView};

verus! {

/// How a walk over the tree ends, as the contracts see it.
pub enum Walk {
    /// The slots met, in order.
    Done(Seq<usize>),
    /// A bucket that was cast held a component of another variant.
    Stray,
    /// The walk went deeper than its bound.
    TooDeep,
}

/// A walk's outcome and an executable result agree.
pub open spec fn walk_result(wk: Walk, r: Result<Vec<usize>, EcsError>) -> bool {
    match wk {
        Walk::Done(s) => r is Ok && r->Ok_0@ == s,
        Walk::Stray => r matches Err(EcsError::TypeMismatch { .. }),
        Walk::TooDeep => r == Err::<Vec<usize>, EcsError>(EcsError::TooDeep),
    }
}

/// Depth-first, pre-order collection from entity `e`: its own bucket for
/// `tag` first, then, in order, what each entity nested in it collects. Every
/// bucket read must be of variant `kind`; at most `fuel` levels are entered.
pub open spec fn collect_from(w: WorldView, e: int, tag: Seq<char>, kind: Kind, fuel: nat) -> Walk
    decreases fuel, 0nat,
{
    if fuel == 0 {
        Walk::TooDeep
    } else if !w.all_of_kind(w.bucket(e, tag), kind) {
        Walk::Stray
    } else {
        match collect_each(w, w.nested(e), tag, kind, (fuel - 1) as nat) {
            Walk::Done(s) => Walk::Done(w.bucket(e, tag) + s),
            other => other,
        }
    }
}

/// Collection from each entity of `es` in turn, concatenated.
pub open spec fn collect_each(w: WorldView, es: Seq<usize>, tag: Seq<char>, kind: Kind, fuel: nat) -> Walk
    decreases fuel, es.len(),
{
    if es.len() == 0 {
        Walk::Done(Seq::empty())
    } else {
        match collect_each(w, es.drop_last(), tag, kind, fuel) {
            Walk::Done(a) => match collect_from(w, es.last() as int, tag, kind, fuel) {
                Walk::Done(b) => Walk::Done(a + b),
                other => other,
            },
            other => other,
        }
    }
}

/// The order in which a hook that entity `e` propagates reaches its subtree:
/// each attached component in turn, and, right after an attached entity,
/// everything that entity propagates to.
pub open spec fn cascade_from(w: WorldView, e: int, fuel: nat) -> Walk
    decreases fuel, 0nat,
{
    if fuel == 0 {
        Walk::TooDeep
    } else {
        cascade_each(w, w.slots[e].registry, (fuel - 1) as nat)
    }
}

/// The propagation order for the components `cs` in turn.
pub open spec fn cascade_each(w: WorldView, cs: Seq<usize>, fuel: nat) -> Walk
    decreases fuel, cs.len(),
{
    if cs.len() == 0 {
        Walk::Done(Seq::empty())
    } else {
        match cascade_each(w, cs.drop_last(), fuel) {
            Walk::Done(a) => {
                let c = cs.last();
                if w.slots[c as int].kind == Kind::Entity {
                    match cascade_from(w, c as int, fuel) {
                        Walk::Done(b) => Walk::Done(a.push(c) + b),
                        other => other,
                    }
                } else {
                    Walk::Done(a.push(c))
                }
            },
            other => other,
        }
    }
}

/// The transforms whose local values make up the world-space value of
/// transform `t`, from `t` upward: after a transform comes the first
/// transform of the entity that holds the entity holding it, while there is
/// one.
pub open spec fn resolve_from(w: WorldView, t: int, fuel: nat) -> Walk
    decreases fuel,
{
    if fuel == 0 {
        Walk::TooDeep
    } else {
        match w.slots[t].owner {
            Some(e) => match w.slots[e as int].owner {
                Some(g) => {
                    let b = w.bucket(g as int, TRANSFORM_ID@);
                    if !w.all_of_kind(b, Kind::Transform) {
                        Walk::Stray
                    } else if b.len() == 0 {
                        Walk::Done(seq![t as usize])
                    } else {
                        match resolve_from(w, b[0] as int, (fuel - 1) as nat) {
                            Walk::Done(s) => Walk::Done(seq![t as usize] + s),
                            other => other,
                        }
                    }
                },
                None => Walk::Done(seq![t as usize]),
            },
            None => Walk::Done(seq![t as usize]),
        }
    }
}

/// The nested entities of an entity are entities of the world.
proof fn lemma_nested_entities(w: WorldView, e: int)
    requires
        w.wf(),
        w.is_entity(e),
    ensures
        forall|k: int| 0 <= k < w.nested(e).len() ==> w.is_entity(#[trigger] w.nested(e)[k] as int),
{
    lemma_selected_valid(w, e, w.entity_pred());
    assert forall|k: int| 0 <= k < w.nested(e).len() implies w.is_entity(
        #[trigger] w.nested(e)[k] as int,
    ) by {
        w.slots[e].registry.lemma_filter_pred(w.entity_pred(), k);
    }
}

fn collect_rec<T>(world: &World<T>, e: usize, tag: &String, kind: Kind, fuel: usize) -> (r: Result<
    Vec<usize>,
    EcsError,
>)
    requires
        world.inv(),
        world@.is_entity(e as int),
    ensures
        walk_result(collect_from(world@, e as int, tag@, kind, fuel as nat), r),
    decreases fuel,
{
    let ghost w = world@;
    if fuel == 0 {
        return Err(EcsError::TooDeep);
    }
    let ent = Entity { index: e };
    match ent.check_type(world, tag, None, kind) {
        Ok(()) => {},
        Err(x) => {
            return Err(x);
        },
    }
    let own = ent.get_type(world, tag, kind);
    let nested = world.nested_of(e);
    proof {
        lemma_nested_entities(w, e as int);
    }
    let ghost es = nested@;
    let mut acc = own;
    let mut i: usize = 0;
    while i < nested.len()
        invariant
            w == world@,
            world.inv(),
            es == nested@,
            es == w.nested(e as int),
            forall|k: int| 0 <= k < es.len() ==> w.is_entity(#[trigger] es[k] as int),
            fuel > 0,
            0 <= i <= es.len(),
            w.all_of_kind(w.bucket(e as int, tag@), kind),
            match collect_each(w, es.take(i as int), tag@, kind, (fuel - 1) as nat) {
                Walk::Done(a) => acc@ == w.bucket(e as int, tag@) + a,
                _ => false,
            },
        decreases es.len() - i,
    {
        let c = nested[i];
        assert(es.take(i + 1).drop_last() =~= es.take(i as int));
        assert(es.take(i + 1).last() == c);
        let mut sub = match collect_rec(world, c, tag, kind, fuel - 1) {
            Ok(v) => v,
            Err(x) => {
                proof {
                    lemma_collect_stuck(w, es, tag@, kind, (fuel - 1) as nat, i + 1);
                }
                return Err(x);
            },
        };
        let ghost a0 = acc@;
        let ghost b = sub@;
        acc.append(&mut sub);
        proof {
            match collect_each(w, es.take(i as int), tag@, kind, (fuel - 1) as nat) {
                Walk::Done(a) => {
                    assert(acc@ =~= w.bucket(e as int, tag@) + (a + b)) by {
                        assert(a0 == w.bucket(e as int, tag@) + a);
                    }
                },
                _ => {},
            }
        }
        i += 1;
    }
    assert(es.take(es.len() as int) =~= es);
    Ok(acc)
}

/// Every component of variant `kind` under tag `tag` in the subtree of
/// `root`, in depth-first pre-order: `root`'s own bucket first, then what each
/// nested entity holds, in order of attachment. Fails where a bucket read
/// holds another variant, or where the tree turns out to have a cycle.
pub fn collect<T>(world: &World<T>, root: Entity, tag: &String, kind: Kind) -> (r: Result<
    Vec<usize>,
    EcsError,
>)
    requires
        world.inv(),
        world@.is_entity(root.index as int),
    ensures
        walk_result(collect_from(world@, root.index as int, tag@, kind, world@.slots.len()), r),
{
    collect_rec(world, root.index, tag, kind, world.len())
}

fn cascade_rec<T>(world: &World<T>, e: usize, fuel: usize) -> (r: Result<Vec<usize>, EcsError>)
    requires
        world.inv(),
        world@.is_entity(e as int),
    ensures
        walk_result(cascade_from(world@, e as int, fuel as nat), r),
    decreases fuel, 0nat,
{
    let ghost w = world@;
    if fuel == 0 {
        return Err(EcsError::TooDeep);
    }
    let reg = world.registry_of(e);
    proof {
        lemma_selected_valid(w, e as int, |c: usize| true);
        assert(w.slots[e as int].registry.filter(|c: usize| true) =~= reg@) by {
            lemma_filter_all(reg@);
        }
    }
    cascade_list(world, reg, fuel - 1)
}

fn cascade_list<T>(world: &World<T>, cs: &Vec<usize>, fuel: usize) -> (r: Result<Vec<usize>, EcsError>)
    requires
        world.inv(),
        forall|k: int| 0 <= k < cs@.len() ==> world@.valid(#[trigger] cs@[k] as int),
    ensures
        walk_result(cascade_each(world@, cs@, fuel as nat), r),
    decreases fuel, 1nat,
{
    let ghost w = world@;
    let ghost s = cs@;
    let mut acc: Vec<usize> = Vec::new();
    let mut i: usize = 0;
    while i < cs.len()
        invariant
            w == world@,
            world.inv(),
            s == cs@,
            forall|k: int| 0 <= k < s.len() ==> w.valid(#[trigger] s[k] as int),
            0 <= i <= s.len(),
            match cascade_each(w, s.take(i as int), fuel as nat) {
                Walk::Done(a) => acc@ == a,
                _ => false,
            },
        decreases s.len() - i,
    {
        let c = cs[i];
        assert(s.take(i + 1).drop_last() =~= s.take(i as int));
        assert(s.take(i + 1).last() == c);
        assert(w.valid(s[i as int] as int));
        acc.push(c);
        if world.kind_of(c) == Kind::Entity {
            let mut sub = match cascade_rec(world, c, fuel) {
                Ok(v) => v,
                Err(x) => {
                    proof {
                        lemma_cascade_stuck(w, s, fuel as nat, i + 1);
                    }
                    return Err(x);
                },
            };
            let ghost a0 = acc@;
            let ghost b = sub@;
            acc.append(&mut sub);
            assert(acc@ =~= a0 + b);
        }
        i += 1;
    }
    assert(s.take(s.len() as int) =~= s);
    Ok(acc)
}

/// Once a collection over a prefix of `es` has failed, so has the whole.
proof fn lemma_collect_stuck(w: WorldView, es: Seq<usize>, tag: Seq<char>, kind: Kind, fuel: nat, j: int)
    requires
        0 <= j <= es.len(),
        !(collect_each(w, es.take(j), tag, kind, fuel) is Done),
    ensures
        collect_each(w, es, tag, kind, fuel) == collect_each(w, es.take(j), tag, kind, fuel),
    decreases es.len() - j,
{
    if j < es.len() {
        assert(es.take(j + 1).drop_last() =~= es.take(j));
        lemma_collect_stuck(w, es, tag, kind, fuel, j + 1);
    } else {
        assert(es.take(j) =~= es);
    }
}

/// Once a propagation over a prefix of `cs` has failed, so has the whole.
proof fn lemma_cascade_stuck(w: WorldView, cs: Seq<usize>, fuel: nat, j: int)
    requires
        0 <= j <= cs.len(),
        !(cascade_each(w, cs.take(j), fuel) is Done),
    ensures
        cascade_each(w, cs, fuel) == cascade_each(w, cs.take(j), fuel),
    decreases cs.len() - j,
{
    if j < cs.len() {
        assert(cs.take(j + 1).drop_last() =~= cs.take(j));
        lemma_cascade_stuck(w, cs, fuel, j + 1);
    } else {
        assert(cs.take(j) =~= cs);
    }
}

/// Components that are not entities propagate nothing further: each is
/// reached once, in order.
proof fn lemma_cascade_flat(w: WorldView, cs: Seq<usize>, fuel: nat)
    requires
        forall|k: int| 0 <= k < cs.len() ==> w.slots[#[trigger] cs[k] as int].kind != Kind::Entity,
    ensures
        cascade_each(w, cs, fuel) == Walk::Done(cs),
    decreases cs.len(),
{
    if cs.len() > 0 {
        let a = cs.drop_last();
        let c = cs.last();
        assert forall|k: int| 0 <= k < a.len() implies w.slots[#[trigger] a[k] as int].kind
            != Kind::Entity by {
            assert(a[k] == cs[k]);
        }
        lemma_cascade_flat(w, a, fuel);
        assert(a.push(c) =~= cs);
        assert(w.slots[cs[cs.len() - 1] as int].kind != Kind::Entity);
        assert(cascade_each(w, cs, fuel) == Walk::Done(a.push(c)));
    } else {
        assert(cs =~= Seq::<usize>::empty());
    }
}

/// A propagation over `cs` that completes reaches every element of `cs`.
proof fn lemma_cascade_covers(w: WorldView, cs: Seq<usize>, fuel: nat)
    requires
        cascade_each(w, cs, fuel) is Done,
    ensures
        forall|k: int|
            0 <= k < cs.len() ==> (#[trigger] cascade_each(w, cs, fuel)->Done_0).contains(cs[k]),
    decreases cs.len(),
{
    if cs.len() > 0 {
        let c = cs.last();
        lemma_cascade_covers(w, cs.drop_last(), fuel);
        let a = cascade_each(w, cs.drop_last(), fuel)->Done_0;
        let s = cascade_each(w, cs, fuel)->Done_0;
        assert forall|k: int| 0 <= k < cs.len() implies s.contains(cs[k]) by {
            if k < cs.len() - 1 {
                assert(cs.drop_last()[k] == cs[k]);
                assert(a.contains(cs[k]));
                let j = choose|j: int| 0 <= j < a.len() && a[j] == cs[k];
                assert(s[j] == cs[k]);
            } else {
                assert(s[a.len() as int] == c);
            }
        }
    }
}

/// A propagation over `cs` that completes also reaches every component
/// attached directly to an entity of `cs`.
proof fn lemma_cascade_covers_nested(w: WorldView, cs: Seq<usize>, fuel: nat)
    requires
        cascade_each(w, cs, fuel) is Done,
    ensures
        forall|k: int, j: int|
            0 <= k < cs.len() && w.slots[cs[k] as int].kind == Kind::Entity && 0 <= j
                < w.slots[cs[k] as int].registry.len() ==> (#[trigger] cascade_each(
                w,
                cs,
                fuel,
            )->Done_0).contains(#[trigger] w.slots[cs[k] as int].registry[j]),
    decreases cs.len(),
{
    if cs.len() > 0 {
        let front = cs.drop_last();
        let c = cs.last();
        lemma_cascade_covers_nested(w, front, fuel);
        let a = cascade_each(w, front, fuel)->Done_0;
        let s = cascade_each(w, cs, fuel)->Done_0;
        if w.slots[c as int].kind == Kind::Entity {
            lemma_cascade_covers(w, w.slots[c as int].registry, (fuel - 1) as nat);
        }
        assert forall|k: int, j: int|
            0 <= k < cs.len() && w.slots[cs[k] as int].kind == Kind::Entity && 0 <= j
                < w.slots[cs[k] as int].registry.len() implies s.contains(
            w.slots[cs[k] as int].registry[j],
        ) by {
            let x = w.slots[cs[k] as int].registry[j];
            if k < cs.len() - 1 {
                assert(front[k] == cs[k]);
                assert(a.contains(x));
                let i = choose|i: int| 0 <= i < a.len() && a[i] == x;
                assert(s[i] == x);
            } else {
                let b = cascade_from(w, c as int, fuel)->Done_0;
                assert(b.contains(x));
                let i = choose|i: int| 0 <= i < b.len() && b[i] == x;
                assert(s[a.len() + 1 + i] == x);
            }
        }
    }
}

/// The entities nested in `e` are exactly its bucket for the tag "entity",
/// and that bucket holds entities only.
pub proof fn lemma_entity_bucket(w: WorldView, e: int)
    requires
        w.wf(),
        w.is_entity(e),
    ensures
        w.nested(e) == w.bucket(e, ENTITY_ID@),
        w.all_of_kind(w.bucket(e, ENTITY_ID@), Kind::Entity),
{
    let reg = w.slots[e].registry;
    assert forall|x: usize| reg.contains(x) implies w.entity_pred()(x) == w.tag_pred(ENTITY_ID@)(x) by {
        let k = choose|k: int| 0 <= k < reg.len() && reg[k] == x;
        assert(w.slots[e].registry[k] == x);
    }
    lemma_filter_same(reg, w.entity_pred(), w.tag_pred(ENTITY_ID@));
    lemma_nested_entities(w, e);
}

/// Two predicates that agree on the elements of `s` filter it alike.
proof fn lemma_filter_same(s: Seq<usize>, p: spec_fn(usize) -> bool, q: spec_fn(usize) -> bool)
    requires
        forall|x: usize| s.contains(x) ==> p(x) == q(x),
    ensures
        s.filter(p) == s.filter(q),
    decreases s.len(),
{
    reveal(Seq::filter);
    if s.len() > 0 {
        assert forall|x: usize| s.drop_last().contains(x) implies p(x) == q(x) by {
            let k = choose|k: int| 0 <= k < s.drop_last().len() && s.drop_last()[k] == x;
            assert(s[k] == x);
            assert(s.contains(x));
        }
        lemma_filter_same(s.drop_last(), p, q);
        assert(s.contains(s.last()));
    }
}

/// Taking entity `e` from its parent `p` hands `e` its `on_remove` hook and
/// leaves its registry as it was; the cascade from `e`, where it completes,
/// then reaches every component attached directly to `e`, and where none of
/// those is an entity, reaches exactly those, each once.
pub proof fn lemma_cascading_teardown(w: WorldView, p: usize, e: int)
    requires
        w.wf(),
        w.is_entity(e),
        w.slots[e].owner == Some(p),
        p != e,
    ensures
        ({
            let (tid, id) = (w.slots[e].tid, w.slots[e].id);
            let w2 = w.detach(p as int, tid, id);
            let reg = w.slots[e].registry;
            &&& w.matching(p as int, tid, id).contains(e as usize)
            &&& w2.slots[e].registry == reg
            &&& cascade_from(w2, e, w2.slots.len()) is Done ==> forall|k: int|
                0 <= k < reg.len() ==> (#[trigger] cascade_from(w2, e, w2.slots.len())->Done_0).contains(
                    reg[k],
                )
            &&& (forall|k: int| 0 <= k < reg.len() ==> w.slots[#[trigger] reg[k] as int].kind != Kind::Entity)
                ==> cascade_from(w2, e, w2.slots.len()) == Walk::Done(reg) && reg.no_duplicates()
        }),
{
    let (tid, id) = (w.slots[e].tid, w.slots[e].id);
    let reg = w.slots[e].registry;
    assert(w.is_entity(p as int));
    crate::world::lemma_filter_membership(
        w.slots[p as int].registry,
        w.match_pred(tid, id),
        e as usize,
    );
    crate::world::lemma_detach_wf(w, p as int, tid, id);
    let w2 = w.detach(p as int, tid, id);
    assert(w2.slots[e].registry == reg);
    let n = w2.slots.len();
    if cascade_from(w2, e, n) is Done {
        lemma_cascade_covers(w2, reg, (n - 1) as nat);
    }
    if forall|k: int| 0 <= k < reg.len() ==> w.slots[#[trigger] reg[k] as int].kind != Kind::Entity {
        assert forall|k: int| 0 <= k < reg.len() implies w2.slots[#[trigger] reg[k] as int].kind
            != Kind::Entity by {
            assert(w.slots[e].registry[k] == reg[k]);
            assert(w.slots[reg[k] as int].kind != Kind::Entity);
        }
        lemma_cascade_flat(w2, reg, (n - 1) as nat);
    }
}

/// A traversal is a function of the world: two collections from the same
/// root, over a world that did not change between them, give the same
/// outcome and, where they succeed, the same sequence.
pub proof fn lemma_collect_deterministic(
    w: WorldView,
    root: int,
    tag: Seq<char>,
    kind: Kind,
    r1: Result<Vec<usize>, EcsError>,
    r2: Result<Vec<usize>, EcsError>,
)
    requires
        walk_result(collect_from(w, root, tag, kind, w.slots.len()), r1),
        walk_result(collect_from(w, root, tag, kind, w.slots.len()), r2),
    ensures
        r1 is Ok <==> r2 is Ok,
        r1 is Ok ==> r1->Ok_0@ == r2->Ok_0@,
{
}

/// Collecting from an entity with no matching component and no nested entity
/// gives an empty sequence, not a failure.
pub proof fn lemma_collect_empty(w: WorldView, e: int, tag: Seq<char>, kind: Kind)
    requires
        w.wf(),
        w.is_entity(e),
        w.bucket(e, tag).len() == 0,
        w.nested(e).len() == 0,
    ensures
        collect_from(w, e, tag, kind, w.slots.len()) == Walk::Done(Seq::<usize>::empty()),
{
    assert(w.bucket(e, tag) + Seq::<usize>::empty() =~= Seq::<usize>::empty());
}

/// Keeping everything keeps the sequence.
proof fn lemma_filter_all(s: Seq<usize>)
    ensures
        s.filter(|c: usize| true) == s,
    decreases s.len(),
{
    reveal(Seq::filter);
    if s.len() > 0 {
        lemma_filter_all(s.drop_last());
        assert(s.drop_last().push(s.last()) =~= s);
    }
}

impl Entity {
    /// The order in which `on_remove` reaches what `remove_by_id(tid, id)`
    /// would take from this entity: each component it would remove, in
    /// order, and, right after a removed entity, everything that entity
    /// propagates to. It reads the world as it is, so the hooks run while each
    /// removed component still has this entity as its owner; the removal
    /// comes after. Every removed component, and every component attached
    /// directly to a removed entity, is in the order. Fails where the tree
    /// has a cycle.
    pub fn teardown<T>(&self, world: &World<T>, tid: &String, id: &String) -> (r: Result<
        Vec<usize>,
        EcsError,
    >)
        requires
            world.inv(),
            world@.is_entity(self.index as int),
        ensures
            walk_result(
                cascade_each(
                    world@,
                    world@.matching(self.index as int, tid@, id@),
                    world@.slots.len(),
                ),
                r,
            ),
            ({
                let gone = world@.matching(self.index as int, tid@, id@);
                r is Ok ==> {
                    &&& forall|k: int| 0 <= k < gone.len() ==> r->Ok_0@.contains(#[trigger] gone[k])
                    &&& forall|k: int, j: int|
                        0 <= k < gone.len() && world@.slots[gone[k] as int].kind == Kind::Entity
                            && 0 <= j < world@.slots[gone[k] as int].registry.len()
                            ==> r->Ok_0@.contains(
                            #[trigger] world@.slots[gone[k] as int].registry[j],
                        )
                }
            }),
    {
        let gone = world.select(self.index, tid, Some(id));
        proof {
            lemma_selected_valid(world@, self.index as int, world@.match_pred(tid@, id@));
        }
        let r = cascade_list(world, &gone, world.len());
        proof {
            if r is Ok {
                lemma_cascade_covers(world@, gone@, world@.slots.len());
                lemma_cascade_covers_nested(world@, gone@, world@.slots.len());
            }
        }
        r
    }

    /// The components that a hook propagated by this entity reaches, in the
    /// order it reaches them: each attached component in turn and, right after
    /// a nested entity, everything that one propagates to. This is the order
    /// of `on_init`, `on_update`, and of the `on_remove` cascade when the
    /// entity is taken from its parent. Fails where the tree has a cycle.
    pub fn cascade<T>(&self, world: &World<T>) -> (r: Result<Vec<usize>, EcsError>)
        requires
            world.inv(),
            world@.is_entity(self.index as int),
        ensures
            walk_result(cascade_from(world@, self.index as int, world@.slots.len()), r),
    {
        cascade_rec(world, self.index, world.len())
    }
}

fn resolve_rec<T>(world: &World<T>, t: usize, fuel: usize) -> (r: Result<Vec<usize>, EcsError>)
    requires
        world.inv(),
        world@.valid(t as int),
    ensures
        walk_result(resolve_from(world@, t as int, fuel as nat), r),
    decreases fuel,
{
    let ghost w = world@;
    if fuel == 0 {
        return Err(EcsError::TooDeep);
    }
    let mut out: Vec<usize> = Vec::new();
    out.push(t);
    let e = match world.owner_of(t) {
        Some(e) => e,
        None => {
            return Ok(out);
        },
    };
    let g = match world.owner_of(e) {
        Some(g) => g,
        None => {
            return Ok(out);
        },
    };
    let tag = crate::id(TRANSFORM_ID);
    let holder = Entity { index: g };
    match holder.check_type(world, &tag, None, Kind::Transform) {
        Ok(()) => {},
        Err(x) => {
            return Err(x);
        },
    }
    let first = holder.get_first(world, &tag, Kind::Transform);
    match first {
        None => Ok(out),
        Some(p) => {
            proof {
                lemma_selected_valid(w, g as int, w.tag_pred(tag@));
                assert(w.bucket(g as int, tag@)[0] == p);
            }
            let mut rest = match resolve_rec(world, p, fuel - 1) {
                Ok(v) => v,
                Err(x) => {
                    return Err(x);
                },
            };
            out.append(&mut rest);
            Ok(out)
        },
    }
}

/// The first transform of the entity that holds component `c`, if `c` has an
/// owner and that owner has a transform: how a drawable, a light or a camera
/// finds where it stands. Fails where the owner's transform bucket holds
/// another variant.
pub fn owner_transform<T>(world: &World<T>, c: Component) -> (r: Result<Option<usize>, EcsError>)
    requires
        world.inv(),
        world@.valid(c.index as int),
    ensures
        ({
            let w = world@;
            match w.slots[c.index as int].owner {
                None => r == Ok::<Option<usize>, EcsError>(None),
                Some(e) => {
                    let b = w.bucket(e as int, TRANSFORM_ID@);
                    match r {
                        Ok(o) => w.all_of_kind(b, Kind::Transform) && o == (if b.len() == 0 {
                            None
                        } else {
                            Some(b[0])
                        }),
                        Err(EcsError::TypeMismatch { tid: t, id }) => !w.all_of_kind(
                            b,
                            Kind::Transform,
                        ) && t@ == TRANSFORM_ID@ && w.stray_in(b, Kind::Transform, id@),
                        Err(_) => false,
                    }
                },
            }
        }),
{
    match world.owner_of(c.index) {
        None => Ok(None),
        Some(e) => {
            let holder = Entity { index: e };
            let tag = crate::id(TRANSFORM_ID);
            match holder.check_type(world, &tag, None, Kind::Transform) {
                Ok(()) => Ok(holder.get_first(world, &tag, Kind::Transform)),
                Err(x) => Err(x),
            }
        },
    }
}

/// The transforms whose local position, rotation and scale add up to the
/// world-space value of `transform`, from `transform` upward. After each
/// transform comes the first transform of the entity that holds the entity
/// holding it; the chain ends where there is no such entity or it has no
/// transform. Summing is additive, component by component. Fails where a
/// transform bucket holds another variant, or where the tree has a cycle.
pub fn resolve<T>(world: &World<T>, transform: Component) -> (r: Result<Vec<usize>, EcsError>)
    requires
        world.inv(),
        world@.valid(transform.index as int),
    ensures
        walk_result(resolve_from(world@, transform.index as int, world@.slots.len()), r),
{
    resolve_rec(world, transform.index, world.len())
}

} // verus!
