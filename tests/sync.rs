use remote_sync::binding::{
    BindingEvent, ComponentBinding, ComponentsBinding, FirstMatchBinding, PlayerComponentBinding, PlayerIdBinding, Selector,
};
use remote_sync::diff::{DiffOp, WorldDiff};
use remote_sync::feed::{ArchetypeFilter, QueryState};
use remote_sync::mesh::torus_indices;
use remote_sync::session::RemoteSession;
use remote_sync::store::{ComponentDesc, ECSError, World, NULL_ENTITY};

const HEALTH: u32 = 1;
const TAG: u32 = 2;
const HIDDEN: u32 = 3;
const NAME: u32 = 4;
const PLAYER: u32 = 5;
const USER_ID: u32 = 6;

#[test]
fn health_scenario() {
    let mut w = World::new();
    let e1 = w.spawn(&vec![(HEALTH, 10)]);
    assert_eq!(w.content_version(e1, HEALTH), Some(1));
    let mut q = QueryState::new();
    let f = ArchetypeFilter::new();
    let r = q.poll(&w, HEALTH, &f);
    assert_eq!(r.changed, vec![(e1, 10)]);
    assert!(r.removed.is_empty() && r.despawned.is_empty());
    assert_eq!(w.set(e1, HEALTH, 7), Ok(()));
    let r = q.poll(&w, HEALTH, &f);
    assert_eq!(r.changed, vec![(e1, 7)]);
    assert_eq!(w.content_version(e1, HEALTH), Some(2));
    assert!(w.despawn(e1));
    let r = q.poll(&w, HEALTH, &f);
    assert_eq!(r.despawned, vec![e1]);
    assert!(r.changed.is_empty());
    let r = q.poll(&w, HEALTH, &f);
    assert!(r.changed.is_empty() && r.despawned.is_empty() && r.removed.is_empty());
}

#[test]
fn get_reports_missing_entity_and_component() {
    let mut w = World::new();
    assert_eq!(w.get(1, HEALTH), Err(ECSError::NoSuchEntity));
    assert_eq!(w.get(NULL_ENTITY, HEALTH), Err(ECSError::NoSuchEntity));
    let e = w.spawn_empty();
    assert_eq!(e, 1);
    assert_eq!(w.get(e, HEALTH), Err(ECSError::EntityDoesntHaveComponent));
    assert_eq!(w.get_ref(e, HEALTH), Err(ECSError::EntityDoesntHaveComponent));
    assert!(!w.has_component(e, HEALTH));
    assert_eq!(w.add_component(e, HEALTH, 3), Ok(()));
    assert!(w.has_component(e, HEALTH));
    assert_eq!(w.get(e, HEALTH), Ok(3));
    assert_eq!(w.set(9, HEALTH, 3), Err(ECSError::NoSuchEntity));
}

#[test]
fn despawned_ids_are_not_reused() {
    let mut w = World::new();
    let a = w.spawn_empty();
    assert!(w.despawn(a));
    assert!(!w.despawn(a));
    let b = w.spawn_empty();
    assert_eq!(b, 2);
    assert!(!w.is_alive(a));
    assert!(w.is_alive(b));
    assert_eq!(w.set(a, HEALTH, 1), Err(ECSError::NoSuchEntity));
    assert_eq!(w.get(a, HEALTH), Err(ECSError::NoSuchEntity));
}

#[test]
fn spawn_with_repeated_component_keeps_last() {
    let mut w = World::new();
    let e = w.spawn(&vec![(HEALTH, 1), (NAME, 5), (HEALTH, 2)]);
    assert_eq!(w.get(e, HEALTH), Ok(2));
    assert_eq!(w.content_version(e, HEALTH), Some(2));
    assert_eq!(w.content_version(e, NAME), Some(1));
}

#[test]
fn removal_keeps_the_version_count() {
    let mut w = World::new();
    let e = w.spawn(&vec![(HEALTH, 1)]);
    assert_eq!(w.remove_component(e, HEALTH), Ok(()));
    assert_eq!(w.content_version(e, HEALTH), None);
    assert_eq!(w.set_count(e, HEALTH), 1);
    assert_eq!(w.set(e, HEALTH, 4), Ok(()));
    assert_eq!(w.content_version(e, HEALTH), Some(2));
    assert_eq!(w.remove_component(7, HEALTH), Err(ECSError::NoSuchEntity));
}

#[test]
fn diffs_leave_last_value_and_set_count() {
    let mut w = World::new();
    let d = WorldDiff::new()
        .spawn()
        .spawn()
        .set(1, HEALTH, 5)
        .set(2, HEALTH, 6)
        .set(1, HEALTH, 8)
        .set(1, NAME, 1)
        .set(1, HEALTH, 9);
    w.apply_diff(&d);
    assert_eq!(w.get(1, HEALTH), Ok(9));
    assert_eq!(w.content_version(1, HEALTH), Some(3));
    assert_eq!(w.get(2, HEALTH), Ok(6));
    assert_eq!(w.content_version(2, HEALTH), Some(1));
    assert_eq!(w.content_version(1, NAME), Some(1));
    assert_eq!(w.get(2, NAME), Err(ECSError::EntityDoesntHaveComponent));
}

#[test]
fn diff_skips_operations_on_missing_entities() {
    let mut w = World::new();
    let d = WorldDiff::new().set(1, HEALTH, 5).spawn().set(1, HEALTH, 6).remove_component(4, HEALTH).despawn(3);
    assert_eq!(d.ops.len(), 5);
    assert_eq!(d.ops[0], DiffOp::SetComponent { entity: 1, component: HEALTH, value: 5 });
    w.apply_diff(&d);
    assert_eq!(w.get(1, HEALTH), Ok(6));
    assert_eq!(w.content_version(1, HEALTH), Some(1));
    assert_eq!(w.issued(), 1);
}

#[test]
fn unchanged_entity_is_not_reported_twice() {
    let mut w = World::new();
    let a = w.spawn(&vec![(HEALTH, 1)]);
    let b = w.spawn(&vec![(HEALTH, 2)]);
    let mut q = QueryState::new();
    let f = ArchetypeFilter::new();
    let r = q.poll(&w, HEALTH, &f);
    assert_eq!(r.changed, vec![(a, 1), (b, 2)]);
    let r = q.poll(&w, HEALTH, &f);
    assert!(r.changed.is_empty());
    assert_eq!(q.last_seen(a), 1);
    assert_eq!(w.set(b, HEALTH, 3), Ok(()));
    let r = q.poll(&w, HEALTH, &f);
    assert_eq!(r.changed, vec![(b, 3)]);
    assert_eq!(q.last_seen(b), 2);
}

#[test]
fn despawn_takes_precedence_over_change() {
    let mut w = World::new();
    let a = w.spawn(&vec![(HEALTH, 1)]);
    let mut q = QueryState::new();
    let f = ArchetypeFilter::new();
    q.poll(&w, HEALTH, &f);
    assert_eq!(w.set(a, HEALTH, 5), Ok(()));
    assert!(w.despawn(a));
    let r = q.poll(&w, HEALTH, &f);
    assert_eq!(r.despawned, vec![a]);
    assert!(r.changed.is_empty());
    assert!(r.removed.is_empty());
    assert_eq!(q.last_seen(a), 0);
}

#[test]
fn despawn_of_unseen_entity_is_not_reported() {
    let mut w = World::new();
    let a = w.spawn(&vec![(HEALTH, 1)]);
    assert!(w.despawn(a));
    let mut q = QueryState::new();
    let r = q.poll(&w, HEALTH, &ArchetypeFilter::new());
    assert!(r.changed.is_empty() && r.despawned.is_empty() && r.removed.is_empty());
}

#[test]
fn removed_component_is_reported_once() {
    let mut w = World::new();
    let a = w.spawn(&vec![(HEALTH, 1)]);
    let mut q = QueryState::new();
    let f = ArchetypeFilter::new();
    q.poll(&w, HEALTH, &f);
    assert_eq!(w.remove_component(a, HEALTH), Ok(()));
    let r = q.poll(&w, HEALTH, &f);
    assert_eq!(r.removed, vec![a]);
    assert!(r.changed.is_empty() && r.despawned.is_empty());
    let r = q.poll(&w, HEALTH, &f);
    assert!(r.removed.is_empty());
    assert_eq!(w.set(a, HEALTH, 4), Ok(()));
    let r = q.poll(&w, HEALTH, &f);
    assert_eq!(r.changed, vec![(a, 4)]);
}

#[test]
fn entity_leaving_the_filter_is_neither_removed_nor_changed() {
    let mut w = World::new();
    let a = w.spawn(&vec![(HEALTH, 1), (TAG, 0)]);
    let mut q = QueryState::new();
    let f = ArchetypeFilter::new().incl(TAG).excl(HIDDEN);
    let r = q.poll(&w, HEALTH, &f);
    assert_eq!(r.changed, vec![(a, 1)]);
    assert_eq!(w.set(a, HIDDEN, 0), Ok(()));
    assert_eq!(w.set(a, HEALTH, 2), Ok(()));
    let r = q.poll(&w, HEALTH, &f);
    assert!(r.changed.is_empty() && r.removed.is_empty() && r.despawned.is_empty());
    assert_eq!(q.last_seen(a), 1);
    assert_eq!(w.remove_component(a, HIDDEN), Ok(()));
    let r = q.poll(&w, HEALTH, &f);
    assert_eq!(r.changed, vec![(a, 2)]);
}

#[test]
fn filter_selects_tagged_entities() {
    let mut w = World::new();
    let a = w.spawn(&vec![(HEALTH, 1)]);
    let b = w.spawn(&vec![(HEALTH, 2), (TAG, 0)]);
    let f = ArchetypeFilter::new().incl(TAG);
    assert!(!f.passes(&w, a));
    assert!(f.passes(&w, b));
    let mut q = QueryState::new();
    let r = q.poll(&w, HEALTH, &f);
    assert_eq!(r.changed, vec![(b, 2)]);
}

#[test]
fn setter_value_arrives_after_round_trip() {
    let mut s = RemoteSession::new();
    s.receive(&WorldDiff::new().spawn().set(1, TAG, 0).set(1, HEALTH, 10));
    let mut b = FirstMatchBinding::synced_resource(HEALTH, TAG);
    assert_eq!(b.tick(s.world()), BindingEvent::Updated);
    assert_eq!(b.value, Some(10));
    assert_eq!(b.entity, 1);
    s.submit(b.setter(Some(5)));
    assert_eq!(b.tick(s.world()), BindingEvent::Idle);
    assert_eq!(b.value, Some(10));
    let sent = s.take_outbox();
    assert_eq!(sent.len(), 1);
    assert!(s.take_outbox().is_empty());
    for d in sent.iter() {
        s.receive(d);
    }
    assert_eq!(b.tick(s.world()), BindingEvent::Updated);
    assert_eq!(b.value, Some(5));
    s.submit(b.setter(None));
    for d in s.take_outbox().iter() {
        s.receive(d);
    }
    assert_eq!(b.tick(s.world()), BindingEvent::Cleared);
    assert_eq!(b.value, None);
    assert_eq!(b.entity, NULL_ENTITY);
}

#[test]
fn binding_reacquires_next_match_on_later_tick() {
    let mut w = World::new();
    let a = w.spawn(&vec![(HEALTH, 1), (TAG, 0)]);
    let b_ent = w.spawn(&vec![(HEALTH, 2), (TAG, 0)]);
    let mut b = FirstMatchBinding::persisted_resource(HEALTH, TAG);
    assert_eq!(b.tick(&w), BindingEvent::Updated);
    assert_eq!(b.entity, a);
    assert_eq!(b.value, Some(1));
    assert!(w.despawn(a));
    assert_eq!(b.tick(&w), BindingEvent::Cleared);
    assert_eq!(b.value, None);
    assert_eq!(b.tick(&w), BindingEvent::Updated);
    assert_eq!(b.entity, b_ent);
    assert_eq!(b.value, Some(2));
    assert_eq!(b.tick(&w), BindingEvent::Idle);
}

#[test]
fn resource_binding_follows_its_own_entity() {
    let mut w = World::new();
    let other = w.spawn(&vec![(HEALTH, 1)]);
    let mine = w.spawn(&vec![(HEALTH, 2)]);
    let mut b = FirstMatchBinding::resource(HEALTH, mine);
    assert_eq!(b.selector, Selector::Only(mine));
    assert_eq!(b.tick(&w), BindingEvent::Updated);
    assert_eq!(b.entity, mine);
    assert_eq!(b.value, Some(2));
    assert_eq!(w.set(other, HEALTH, 8), Ok(()));
    assert_eq!(b.tick(&w), BindingEvent::Idle);
    assert_eq!(w.set(mine, HEALTH, 9), Ok(()));
    assert_eq!(b.tick(&w), BindingEvent::Updated);
    assert_eq!(b.value, Some(9));
}

#[test]
fn empty_binding_stays_idle_without_match() {
    let w = World::new();
    let mut b = FirstMatchBinding::new(HEALTH, ArchetypeFilter::new(), Selector::Any);
    assert_eq!(b.tick(&w), BindingEvent::Idle);
    assert_eq!(b.value, None);
    let d = b.setter(Some(3));
    assert_eq!(d.ops, vec![DiffOp::SetComponent { entity: NULL_ENTITY, component: HEALTH, value: 3 }]);
}

#[test]
fn components_binding_upserts_and_drops() {
    let mut w = World::new();
    let a = w.spawn(&vec![(HEALTH, 1)]);
    let b = w.spawn(&vec![(HEALTH, 2)]);
    let c = w.spawn(&vec![(HEALTH, 3)]);
    let mut cb = ComponentsBinding::new(HEALTH, ArchetypeFilter::new());
    assert!(cb.tick(&w));
    assert_eq!(cb.values(), vec![(a, 1), (b, 2), (c, 3)]);
    assert!(!cb.tick(&w));
    assert_eq!(w.set(b, HEALTH, 20), Ok(()));
    assert!(w.despawn(a));
    assert_eq!(w.remove_component(c, HEALTH), Ok(()));
    assert!(cb.tick(&w));
    assert_eq!(cb.values(), vec![(b, 20)]);
    assert_eq!(cb.get(a), None);
    assert_eq!(cb.get(b), Some(20));
}

#[test]
fn component_binding_rereads_on_version_change() {
    let mut w = World::new();
    let e = w.spawn(&vec![(HEALTH, 1)]);
    let mut cb = ComponentBinding::new(&w, e, HEALTH);
    assert_eq!(cb.value, Ok(1));
    assert!(!cb.tick(&w));
    assert_eq!(w.set(e, HEALTH, 4), Ok(()));
    assert!(cb.tick(&w));
    assert_eq!(cb.value, Ok(4));
    assert_eq!(cb.version, Some(2));
    assert_eq!(w.remove_component(e, HEALTH), Ok(()));
    assert!(cb.tick(&w));
    assert_eq!(cb.value, Err(ECSError::EntityDoesntHaveComponent));
}

#[test]
fn session_submit_does_not_touch_mirror() {
    let mut s = RemoteSession::new();
    s.submit(WorldDiff::new().spawn());
    assert_eq!(s.world().issued(), 0);
    let out = s.take_outbox();
    assert_eq!(out[0].ops, vec![DiffOp::Spawn]);
}

#[test]
fn add_components_sets_each_pair() {
    let mut w = World::new();
    let e = w.spawn(&vec![(HEALTH, 1)]);
    assert_eq!(w.add_components(e, &vec![(HEALTH, 2), (NAME, 3)]), Ok(()));
    assert_eq!(w.get(e, HEALTH), Ok(2));
    assert_eq!(w.content_version(e, HEALTH), Some(2));
    assert_eq!(w.get(e, NAME), Ok(3));
    assert_eq!(w.add_components(5, &vec![(HEALTH, 2)]), Err(ECSError::NoSuchEntity));
}

#[test]
fn component_desc_gives_its_index() {
    let d = ComponentDesc { component: 12 };
    assert_eq!(d.index(), 12);
}

#[test]
fn player_id_found_by_user_id() {
    let mut w = World::new();
    let other = w.spawn(&vec![(PLAYER, 0), (USER_ID, 40)]);
    let _not_player = w.spawn(&vec![(USER_ID, 41)]);
    let mut b = PlayerIdBinding::new(USER_ID, PLAYER, 41);
    b.tick(&w);
    assert_eq!(b.player, None);
    let me = w.spawn(&vec![(PLAYER, 0), (USER_ID, 41)]);
    b.tick(&w);
    assert_eq!(b.player, Some(me));
    assert_eq!(w.set(other, USER_ID, 42), Ok(()));
    b.tick(&w);
    assert_eq!(b.player, Some(me));
}

#[test]
fn player_component_follows_player_entity() {
    let mut w = World::new();
    let other = w.spawn(&vec![(HEALTH, 5)]);
    let me = w.spawn(&vec![(HEALTH, 7)]);
    let mut b = PlayerComponentBinding::new(HEALTH);
    assert_eq!(b.value, 0);
    b.tick(&w, None);
    assert_eq!(b.value, 0);
    assert_eq!(w.set(me, HEALTH, 8), Ok(()));
    b.tick(&w, Some(me));
    assert_eq!(b.value, 8);
    assert_eq!(w.set(other, HEALTH, 1), Ok(()));
    b.tick(&w, Some(me));
    assert_eq!(b.value, 8);
    assert!(b.setter(None, 3).is_none());
    let d = b.setter(Some(me), 3).unwrap();
    w.apply_diff(&d);
    b.tick(&w, Some(me));
    assert_eq!(b.value, 3);
}

#[test]
fn torus_indices_of_small_grid() {
    assert_eq!(torus_indices(2, 1), vec![0, 3, 1, 3, 4, 1, 1, 4, 2, 4, 5, 2]);
    assert!(torus_indices(0, 4).is_empty());
}

#[test]
fn torus_indices_of_default_torus() {
    let r = torus_indices(16, 16);
    assert_eq!(r.len(), 16 * 16 * 6);
    assert_eq!(&r[0..6], &[0, 17, 1, 17, 18, 1]);
    assert_eq!(&r[r.len() - 6..], &[270, 287, 271, 287, 288, 271]);
}
