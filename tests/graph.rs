use dependency_graph::{
    AsAssetId, AssetDependency, AssetDependent, DependencyGraph, Handle, LinkError, ResourceId,
};

fn rid(id: u64) -> ResourceId {
    ResourceId { kind: 3, id }
}

#[test]
fn scenario_link_notify_destroy() {
    let mut g = DependencyGraph::new();
    let r = rid(7);
    let a = g.spawn_asset_dependency(r);
    let b = g.with_dependent_asset(a, rid(8)).unwrap();
    let c = g.with_dependent_asset(a, rid(9)).unwrap();
    assert_eq!(g.dependents_of(a), Some(vec![b, c]));
    g.notify_changed(r);
    assert!(g.has_marker(b));
    assert!(g.has_marker(c));
    assert!(!g.has_marker(a));
    let destroyed = g.despawn(a);
    assert_eq!(destroyed, vec![a, c, b]);
    assert!(!g.is_live(a));
    assert!(!g.is_live(b));
    assert!(!g.is_live(c));
    for bits in 0..3u64 {
        assert_eq!(g.link_of(Handle { bits }), None);
    }
}

#[test]
fn closure_between_links_and_index() {
    let mut g = DependencyGraph::new();
    let d1 = g.spawn();
    let d2 = g.spawn();
    let e1 = g.spawn();
    let e2 = g.spawn();
    let e3 = g.spawn();
    assert_eq!(g.attach(e1, d1, None), Ok(()));
    assert_eq!(g.attach(e2, d1, None), Ok(()));
    assert_eq!(g.attach(e3, d2, None), Ok(()));
    g.detach(e2);
    let objects = [d1, d2, e1, e2, e3];
    for d in objects {
        if let Some(deps) = g.dependents_of(d) {
            for e in objects {
                assert_eq!(deps.contains(&e), g.link_of(e) == Some(d));
            }
        }
    }
    assert_eq!(g.dependents_of(d1), Some(vec![e1]));
    assert_eq!(g.dependents_of(d2), Some(vec![e3]));
    assert_eq!(g.dependents_of(e1), None);
}

#[test]
fn notify_twice_marks_once() {
    let mut g = DependencyGraph::new();
    let r = rid(1);
    let a = g.spawn_asset_dependency(r);
    let b = g.with_dependent_asset(a, r).unwrap();
    g.notify_changed(r);
    g.notify_changed(r);
    assert!(g.has_marker(b));
    assert!(g.get_marker(b).is_some());
    g.clear_marker(b);
    assert!(!g.has_marker(b));
    assert!(g.get_marker(b).is_none());
}

#[test]
fn notify_reaches_one_level_only() {
    let mut g = DependencyGraph::new();
    let r = rid(1);
    let a = g.spawn_asset_dependency(r);
    let b = g.with_dependent_asset(a, r).unwrap();
    let c = g.with_dependent_asset(b, r).unwrap();
    g.notify_changed(r);
    assert!(g.has_marker(b));
    assert!(!g.has_marker(c));
    assert!(!g.has_marker(a));
}

#[test]
fn notify_unknown_resource_is_no_op() {
    let mut g = DependencyGraph::new();
    let a = g.spawn_asset_dependency(rid(1));
    let b = g.with_dependent_asset(a, rid(1)).unwrap();
    let lonely = g.spawn_asset_dependency(rid(2));
    g.notify_changed(rid(2));
    g.notify_changed(rid(3));
    assert!(!g.has_marker(a));
    assert!(!g.has_marker(b));
    assert!(!g.has_marker(lonely));
}

#[test]
fn notify_dependency_changed_marks_dependents() {
    let mut g = DependencyGraph::new();
    let d = g.spawn();
    let e = g.spawn();
    let other = g.spawn();
    g.attach(e, d, None).unwrap();
    g.notify_dependency_changed(d);
    assert!(g.has_marker(e));
    assert!(!g.has_marker(other));
    assert!(!g.has_marker(d));
}

#[test]
fn cascade_destroys_transitive_dependents() {
    let mut g = DependencyGraph::new();
    let d = g.spawn();
    let b = g.spawn();
    let e = g.spawn();
    let keep = g.spawn();
    let top = g.spawn();
    g.attach(b, d, None).unwrap();
    g.attach(e, b, None).unwrap();
    g.attach(d, top, None).unwrap();
    assert_eq!(g.despawn(d), vec![d, b, e]);
    assert!(g.is_live(keep));
    assert!(g.is_live(top));
    assert_eq!(g.dependents_of(top), Some(vec![]));
    assert_eq!(g.link_of(b), None);
}

#[test]
fn cascade_over_shared_branches_destroys_each_once() {
    let mut g = DependencyGraph::new();
    let d = g.spawn();
    let b = g.spawn();
    let c = g.spawn();
    let f = g.spawn();
    let h = g.spawn();
    g.attach(b, d, None).unwrap();
    g.attach(c, d, None).unwrap();
    g.attach(f, b, None).unwrap();
    g.attach(h, c, None).unwrap();
    let mut destroyed = g.despawn(d);
    assert_eq!(destroyed.len(), 5);
    destroyed.sort_by_key(|x| x.bits);
    assert_eq!(destroyed, vec![d, b, c, f, h]);
    assert!(g.despawn(b).is_empty());
}

#[test]
fn cascade_over_cycle_terminates() {
    let mut g = DependencyGraph::new();
    let a = g.spawn();
    let b = g.spawn();
    let s = g.spawn();
    g.attach(a, b, None).unwrap();
    g.attach(b, a, None).unwrap();
    g.attach(s, s, None).unwrap();
    assert_eq!(g.despawn(a), vec![a, b]);
    assert_eq!(g.despawn(s), vec![s]);
}

#[test]
fn destroying_dependent_unregisters_it() {
    let mut g = DependencyGraph::new();
    let d = g.spawn();
    let b = g.spawn();
    let c = g.spawn();
    g.attach(b, d, None).unwrap();
    g.attach(c, d, None).unwrap();
    assert_eq!(g.despawn(b), vec![b]);
    assert_eq!(g.dependents_of(d), Some(vec![c]));
}

#[test]
fn reattach_moves_between_indexes() {
    let mut g = DependencyGraph::new();
    let d1 = g.spawn();
    let d2 = g.spawn();
    let b = g.spawn();
    let x = g.spawn();
    g.attach(x, d2, None).unwrap();
    g.attach(b, d1, Some(rid(4))).unwrap();
    g.attach(b, d2, Some(rid(5))).unwrap();
    assert_eq!(g.dependents_of(d1), Some(vec![]));
    assert_eq!(g.dependents_of(d2), Some(vec![x, b]));
    assert_eq!(g.link_of(b), Some(d2));
    assert_eq!(g.link_id_of(b), Some(rid(5)));
}

#[test]
fn relinking_same_pair_is_idempotent() {
    let mut g = DependencyGraph::new();
    let d = g.spawn();
    let b = g.spawn();
    g.attach(b, d, None).unwrap();
    g.attach(b, d, Some(rid(2))).unwrap();
    assert_eq!(g.dependents_of(d), Some(vec![b]));
    assert_eq!(g.link_id_of(b), Some(rid(2)));
}

#[test]
fn invalid_link_targets_are_rejected() {
    let mut g = DependencyGraph::new();
    let d = g.spawn();
    let b = g.spawn();
    let nowhere = Handle { bits: 99 };
    assert_eq!(g.attach(b, nowhere, None), Err(LinkError::InvalidTarget));
    assert_eq!(g.attach(nowhere, d, None), Err(LinkError::InvalidDependent));
    g.despawn(d);
    assert_eq!(g.attach(b, d, None), Err(LinkError::InvalidTarget));
    assert_eq!(g.with_dependent_asset(d, rid(1)), Err(LinkError::InvalidTarget));
    assert_eq!(g.insert_asset_dependency(d, rid(1)), Err(LinkError::InvalidTarget));
    assert_eq!(g.link_of(b), None);
}

#[test]
fn detach_leaves_empty_index() {
    let mut g = DependencyGraph::new();
    let d = g.spawn();
    let b = g.spawn();
    g.attach(b, d, None).unwrap();
    g.detach(b);
    g.detach(b);
    assert_eq!(g.dependents_of(d), Some(vec![]));
    assert!(g.get_dependent(b).is_none());
}

#[test]
fn despawn_of_dead_handle_does_nothing() {
    let mut g = DependencyGraph::new();
    let d = g.spawn();
    assert_eq!(g.despawn(Handle { bits: 5 }), vec![]);
    assert_eq!(g.despawn(d), vec![d]);
    assert_eq!(g.despawn(d), vec![]);
}

#[test]
fn insert_asset_dependency_binds_existing_object() {
    let mut g = DependencyGraph::new();
    let d = g.spawn();
    let b = g.spawn();
    g.attach(b, d, None).unwrap();
    assert_eq!(g.index_id_of(d), None);
    g.insert_asset_dependency(d, rid(6)).unwrap();
    assert_eq!(g.index_id_of(d), Some(rid(6)));
    assert_eq!(g.dependents_of(d), Some(vec![b]));
    g.notify_changed(rid(6));
    assert!(g.has_marker(b));
}

#[test]
fn records_report_their_contents() {
    let mut g = DependencyGraph::new();
    let a = g.spawn_asset_dependency(rid(10));
    let b = g.with_dependent_asset(a, rid(11)).unwrap();
    let link = g.get_asset_dependent(b).unwrap();
    assert_eq!(link.dependency, a);
    assert_eq!(link.asset_id(), rid(11));
    assert_eq!(link.as_asset_id(), rid(11));
    assert_eq!(g.get_dependent(b).unwrap().dependency, a);
    let index = g.get_asset_dependency(a).unwrap();
    assert_eq!(index.dependents(), &[b][..]);
    assert_eq!(index.asset_id(), rid(10));
    assert_eq!(index.as_asset_id(), rid(10));
    assert_eq!(g.get_dependency(a).unwrap().dependents(), &[b][..]);
    assert!(g.get_asset_dependency(b).is_none());

    let fresh = AssetDependency::from(rid(12));
    assert!(fresh.dependents().is_empty());
    assert_eq!(fresh.asset_id(), rid(12));
    let made = AssetDependent::new(a, rid(13));
    assert_eq!(made.dependency, a);
    assert_eq!(made.asset_id(), rid(13));
}
