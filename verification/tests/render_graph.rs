use framegraph::GraphError;
use framegraph::access::AccessKind;
use framegraph::access::Barrier;
use framegraph::access::needs_barrier;
use framegraph::access::synthesize;
use framegraph::graph::RenderGraph;
use framegraph::handle::LifetimeClass;
use framegraph::handle::ResourceDesc;
use framegraph::temporal::TemporalCache;

fn desc(format: u32, w: u32, h: u32) -> ResourceDesc {
    ResourceDesc { format, width: w, height: h, depth: 1, usage: 0 }
}

#[test]
fn barrier_rules_between_consecutive_accesses() {
    // at least one write, or differing layouts, requires a barrier
    assert!(needs_barrier(AccessKind::AttachmentWrite, AccessKind::SampledRead));
    assert!(needs_barrier(AccessKind::SampledRead, AccessKind::StorageWrite));
    assert!(needs_barrier(AccessKind::StorageWrite, AccessKind::StorageWrite));
    assert!(needs_barrier(AccessKind::TransferWrite, AccessKind::TransferRead));
    // two reads in one layout are compatible
    assert!(!needs_barrier(AccessKind::SampledRead, AccessKind::SampledRead));
    assert!(!needs_barrier(AccessKind::TransferRead, AccessKind::TransferRead));
    assert!(!needs_barrier(AccessKind::StorageRead, AccessKind::StorageRead));
    // two reads in different layouts still need a layout transition
    assert!(needs_barrier(AccessKind::SampledRead, AccessKind::StorageRead));
    assert!(needs_barrier(AccessKind::TransferRead, AccessKind::SampledRead));
}

#[test]
fn synthesizer_inserts_barrier_at_every_hazard_and_nowhere_else() {
    let timeline = vec![
        (0usize, AccessKind::StorageWrite),
        (1usize, AccessKind::SampledRead),
        (2usize, AccessKind::SampledRead),
        (3usize, AccessKind::StorageRead),
        (4usize, AccessKind::TransferWrite),
    ];
    let bars = synthesize(7, None, &timeline);
    assert_eq!(bars.len(), 3);
    assert_eq!(
        bars[0],
        Barrier {
            resource: 7,
            prev: AccessKind::StorageWrite,
            next: AccessKind::SampledRead,
            before_pass: 1,
        }
    );
    assert_eq!(
        bars[1],
        Barrier {
            resource: 7,
            prev: AccessKind::SampledRead,
            next: AccessKind::StorageRead,
            before_pass: 3,
        }
    );
    assert_eq!(
        bars[2],
        Barrier {
            resource: 7,
            prev: AccessKind::StorageRead,
            next: AccessKind::TransferWrite,
            before_pass: 4,
        }
    );
    // memory barrier exactly when the producer wrote; transition exactly
    // when the layouts differ
    assert!(bars[0].is_memory() && bars[0].is_transition());
    assert!(!bars[1].is_memory() && bars[1].is_transition());
    assert!(!bars[2].is_memory() && bars[2].is_transition());
}

#[test]
fn synthesizer_uses_initial_state_of_imported_resources() {
    // an imported resource enters the frame in a known state: its first
    // access must be synchronized against it
    let timeline = vec![(0usize, AccessKind::SampledRead)];
    let bars = synthesize(0, Some(AccessKind::TransferWrite), &timeline);
    assert_eq!(bars.len(), 1);
    assert_eq!(bars[0].prev, AccessKind::TransferWrite);
    assert_eq!(bars[0].next, AccessKind::SampledRead);
    // a fresh transient has no prior state: its first access needs none
    let bars2 = synthesize(0, None, &timeline);
    assert!(bars2.is_empty());
}

#[test]
fn end_to_end_graph_compiles_to_exactly_one_barrier() {
    // passes [create A, write A (attachment), read A (sampled), export A]
    let mut g = RenderGraph::new(1);
    let write_pass = g.add_pass(String::from("write_a"));
    let read_pass = g.add_pass(String::from("read_a"));
    let a = g.create(desc(1, 64, 64));
    let a1 = g.declare_write(write_pass, a, AccessKind::AttachmentWrite).unwrap();
    g.declare_read(read_pass, a1, AccessKind::SampledRead).unwrap();
    let exported = g.export(a1, AccessKind::SampledRead).unwrap();
    assert_eq!(exported.access, AccessKind::SampledRead);
    let plan = g.compile().unwrap();
    assert_eq!(plan.order, vec![write_pass, read_pass]);
    let total: usize = plan.barriers.iter().map(|b| b.len()).sum();
    assert_eq!(total, 1);
    let b = plan.barriers[a.id][0];
    assert_eq!(b.prev, AccessKind::AttachmentWrite);
    assert_eq!(b.next, AccessKind::SampledRead);
    assert_eq!(b.before_pass, read_pass);
    // ... positioned immediately before the reading pass's commands
    let before_read = plan.barriers_before(read_pass);
    assert_eq!(before_read.len(), 1);
    assert_eq!(before_read[0], b);
    assert!(plan.barriers_before(write_pass).is_empty());
    // exporting in the state the last access left needs no end transition
    assert!(plan.barriers_before(2).is_empty());
}

#[test]
fn topological_order_respects_dependencies_and_declaration_order() {
    let mut g = RenderGraph::new(2);
    let p0 = g.add_pass(String::from("writer_b"));
    let p1 = g.add_pass(String::from("writer_a"));
    let p2 = g.add_pass(String::from("consumer"));
    let a = g.create(desc(2, 8, 8));
    let b = g.create(desc(2, 8, 8));
    // declare the consumer's reads first: order must still put writers first
    let b1 = g.declare_write(p0, b, AccessKind::StorageWrite).unwrap();
    let a1 = g.declare_write(p1, a, AccessKind::StorageWrite).unwrap();
    g.declare_read(p2, a1, AccessKind::StorageRead).unwrap();
    g.declare_read(p2, b1, AccessKind::StorageRead).unwrap();
    let plan = g.compile().unwrap();
    // independent writers keep declaration order (deterministic tie-break)
    assert_eq!(plan.order, vec![p0, p1, p2]);
    assert!(plan.pos[p0] < plan.pos[p2]);
    assert!(plan.pos[p1] < plan.pos[p2]);
}

#[test]
fn cycle_is_reported_with_participating_pass_names() {
    let mut g = RenderGraph::new(3);
    let p0 = g.add_pass(String::from("ping"));
    let p1 = g.add_pass(String::from("pong"));
    let a = g.create(desc(3, 4, 4));
    let b = g.create(desc(3, 4, 4));
    let a1 = g.declare_write(p0, a, AccessKind::StorageWrite).unwrap();
    let b1 = g.declare_write(p1, b, AccessKind::StorageWrite).unwrap();
    g.declare_read(p1, a1, AccessKind::StorageRead).unwrap();
    g.declare_read(p0, b1, AccessKind::StorageRead).unwrap();
    match g.compile() {
        Err(GraphError::GraphCycle { passes, names }) => {
            assert_eq!(passes, vec![p0, p1]);
            assert_eq!(names, vec![String::from("ping"), String::from("pong")]);
        }
        _ => panic!("expected a cycle report"),
    }
}

#[test]
fn stale_handles_are_rejected() {
    let mut g = RenderGraph::new(4);
    let p0 = g.add_pass(String::from("p"));
    let a = g.create(desc(1, 4, 4));
    let a1 = g.declare_write(p0, a, AccessKind::StorageWrite).unwrap();
    // the pre-write handle is stale now
    match g.declare_read(p0, a, AccessKind::StorageRead) {
        Err(GraphError::StaleHandle) => {}
        _ => panic!("expected StaleHandle for outdated version"),
    }
    // a handle from another graph instance is stale too
    let mut g2 = RenderGraph::new(5);
    let q0 = g2.add_pass(String::from("q"));
    match g2.declare_read(q0, a1, AccessKind::StorageRead) {
        Err(GraphError::StaleHandle) => {}
        _ => panic!("expected StaleHandle for foreign handle"),
    }
    match g2.export(a1, AccessKind::SampledRead) {
        Err(GraphError::StaleHandle) => {}
        _ => panic!("expected StaleHandle on export"),
    }
}

#[test]
fn aliasing_shares_disjoint_ranges_never_overlapping_ones() {
    let mut g = RenderGraph::new(6);
    let p0 = g.add_pass(String::from("p0"));
    let p1 = g.add_pass(String::from("p1"));
    let p2 = g.add_pass(String::from("p2"));
    let p3 = g.add_pass(String::from("p3"));
    let d = desc(9, 32, 32);
    let x = g.create(d);
    let y = g.create(d);
    let z = g.create(d);
    // x lives over positions [0, 1], y over [2, 3], z over [1, 3]
    let x1 = g.declare_write(p0, x, AccessKind::StorageWrite).unwrap();
    g.declare_read(p1, x1, AccessKind::StorageRead).unwrap();
    let y1 = g.declare_write(p2, y, AccessKind::StorageWrite).unwrap();
    g.declare_read(p3, y1, AccessKind::StorageRead).unwrap();
    let z1 = g.declare_write(p1, z, AccessKind::StorageWrite).unwrap();
    g.declare_read(p3, z1, AccessKind::StorageRead).unwrap();
    let plan = g.compile().unwrap();
    assert_eq!(plan.order, vec![p0, p1, p2, p3]);
    assert_eq!(plan.live[x.id], Some((0, 1)));
    assert_eq!(plan.live[y.id], Some((2, 3)));
    assert_eq!(plan.live[z.id], Some((1, 3)));
    // identical descriptors, disjoint ranges: x and y share one backing
    assert_eq!(plan.backing[y.id], plan.backing[x.id]);
    // overlapping ranges never share, same descriptor or not
    assert_ne!(plan.backing[z.id], plan.backing[x.id]);
    assert_ne!(plan.backing[z.id], plan.backing[y.id]);
}

#[test]
fn exported_and_temporal_resources_never_alias() {
    let mut cache = TemporalCache::new();
    let mut g = RenderGraph::new(7);
    let p0 = g.add_pass(String::from("p0"));
    let p1 = g.add_pass(String::from("p1"));
    let d = desc(5, 16, 16);
    let x = g.create(d);
    let x1 = g.declare_write(p0, x, AccessKind::StorageWrite).unwrap();
    g.export(x1, AccessKind::SampledRead).unwrap();
    let (t, first) = g.get_or_create_temporal(&mut cache, String::from("hist"), d).unwrap();
    assert!(first);
    let t1 = g.declare_write(p1, t, AccessKind::StorageWrite).unwrap();
    assert_eq!(t1.version, 1);
    let plan = g.compile().unwrap();
    // exported x keeps its own slot; temporal t keeps its own slot
    assert_eq!(plan.backing[x.id], x.id);
    assert_eq!(plan.backing[t.id], t.id);
    assert_eq!(g.resources[t.id].class, LifetimeClass::Temporal);
}

#[test]
fn temporal_resource_keeps_backing_and_first_use_is_true_exactly_once() {
    let mut cache = TemporalCache::new();
    let d = desc(8, 128, 128);
    let mut first_uses = 0usize;
    let mut backing: Option<usize> = None;
    for frame in 0..5u64 {
        let mut g = RenderGraph::new(frame);
        let p = g.add_pass(String::from("accumulate"));
        let (h, first) = g.get_or_create_temporal(&mut cache, String::from("x"), d).unwrap();
        if first {
            first_uses += 1;
        }
        let slot = g.resources[h.id].temporal_slot.unwrap();
        match backing {
            None => backing = Some(slot),
            Some(b) => assert_eq!(b, slot),
        }
        g.declare_write(p, h, AccessKind::StorageWrite).unwrap();
        let plan = g.compile().unwrap();
        g.commit_temporal(&plan, &mut cache).unwrap();
    }
    assert_eq!(first_uses, 1);
}

#[test]
fn temporal_state_carries_across_the_frame_boundary() {
    let mut cache = TemporalCache::new();
    let d = desc(8, 64, 64);
    // frame 1 leaves the resource attachment-written
    let mut g1 = RenderGraph::new(10);
    let p = g1.add_pass(String::from("produce"));
    let (h, first) = g1.get_or_create_temporal(&mut cache, String::from("hist"), d).unwrap();
    assert!(first);
    g1.declare_write(p, h, AccessKind::AttachmentWrite).unwrap();
    let plan1 = g1.compile().unwrap();
    // first use: no prior state, so no barrier at all
    let total1: usize = plan1.barriers.iter().map(|b| b.len()).sum();
    assert_eq!(total1, 0);
    g1.commit_temporal(&plan1, &mut cache).unwrap();
    // frame 2 reads it: the cross-frame transition must be synthesized
    let mut g2 = RenderGraph::new(11);
    let q = g2.add_pass(String::from("consume"));
    let (h2, first2) = g2.get_or_create_temporal(&mut cache, String::from("hist"), d).unwrap();
    assert!(!first2);
    g2.declare_read(q, h2, AccessKind::SampledRead).unwrap();
    let plan2 = g2.compile().unwrap();
    let bars = plan2.barriers_before(q);
    assert_eq!(bars.len(), 1);
    assert_eq!(bars[0].prev, AccessKind::AttachmentWrite);
    assert_eq!(bars[0].next, AccessKind::SampledRead);
}

#[test]
fn temporal_shape_mismatch_is_an_error() {
    let mut cache = TemporalCache::new();
    let d1 = desc(1, 64, 64);
    let d2 = desc(1, 128, 128);
    let mut g1 = RenderGraph::new(20);
    g1.get_or_create_temporal(&mut cache, String::from("hist"), d1).unwrap();
    let mut g2 = RenderGraph::new(21);
    match g2.get_or_create_temporal(&mut cache, String::from("hist"), d2) {
        Err(GraphError::ResourceShapeMismatch) => {}
        _ => panic!("expected ResourceShapeMismatch"),
    }
    // the original entry is untouched and still served
    let (_, first) = g2.get_or_create_temporal(&mut cache, String::from("hist"), d1).unwrap();
    assert!(!first);
}

#[test]
fn invalidate_forces_a_fresh_backing_resource() {
    let mut cache = TemporalCache::new();
    let d1 = desc(1, 64, 64);
    let d2 = desc(1, 128, 128);
    let (b0, first0, _) = cache.get_or_create(String::from("target"), d1).unwrap();
    assert!(first0);
    assert!(cache.invalidate(&String::from("target")));
    assert!(!cache.invalidate(&String::from("target")));
    // an intentional shape change after invalidation succeeds afresh
    let (b1, first1, last1) = cache.get_or_create(String::from("target"), d2).unwrap();
    assert!(first1);
    assert_ne!(b0, b1);
    assert_eq!(last1, None);
}
