use pupsy_render::bvh::BVH;
use pupsy_render::traverse::{traverse_with, Traversal, TraversalQuery};
use rand::Rng;

/// Drives a traversal to completion. `prim_hits[p]` is the ground-truth
/// intersection of primitive `p` (`t` as the bit pattern of a positive
/// `f32`); `box_hit` decides each child box test from the set of
/// primitives under the child node's slot range.
fn run(
    bvh: &BVH,
    prim_hits: &[Option<u32>],
    box_hit: impl Fn(&BVH, usize) -> bool,
) -> Option<(usize, u32)> {
    let mut tr = Traversal::new(bvh);
    loop {
        match tr.query(bvh) {
            TraversalQuery::Boxes { left, right } => {
                let lh = box_hit(bvh, left);
                let rh = box_hit(bvh, right);
                tr.answer_boxes(bvh, lh, rh);
            }
            TraversalQuery::Primitive { primitive } => {
                tr.answer_primitive(bvh, prim_hits[primitive]);
            }
            TraversalQuery::Done => {
                return tr.result().map(|h| (h.primitive, h.t_bits));
            }
        }
    }
}

#[test]
fn new_builds_identity_permutation() {
    let bvh = BVH::new(4);
    assert_eq!(bvh.nodes.len(), 9);
    assert_eq!(bvh.nodes_used, 1);
    assert_eq!(bvh.root_node_index, 0);
    assert_eq!(bvh.primitive_indices, vec![0, 1, 2, 3]);
    assert_eq!(bvh.nodes[0].left_node_or_primitive_index, 0);
    assert_eq!(bvh.nodes[0].primitives_count, 4);
}

#[test]
fn subdivide_partitions_in_place() {
    let mut bvh = BVH::new(4);
    let go_left = vec![true, false, true, false];
    let children = bvh.subdivide(0, &go_left);
    assert_eq!(children, Some((1, 2)));
    // The node became internal, pointing at its left child.
    assert_eq!(bvh.nodes[0].primitives_count, 0);
    assert_eq!(bvh.nodes[0].left_node_or_primitive_index, 1);
    assert_eq!(bvh.nodes_used, 3);
    // The left child holds exactly the primitives sent left.
    let l = bvh.nodes[1];
    let r = bvh.nodes[2];
    assert_eq!(l.left_node_or_primitive_index, 0);
    assert_eq!(l.primitives_count, 2);
    assert_eq!(r.left_node_or_primitive_index, 2);
    assert_eq!(r.primitives_count, 2);
    let left_slice = &bvh.primitive_indices[0..2];
    let right_slice = &bvh.primitive_indices[2..4];
    assert!(left_slice.contains(&0) && left_slice.contains(&2));
    assert!(right_slice.contains(&1) && right_slice.contains(&3));
}

#[test]
fn subdivide_degenerate_split_stays_leaf() {
    let mut bvh = BVH::new(3);
    assert_eq!(bvh.subdivide(0, &vec![true, true, true]), None);
    assert_eq!(bvh.subdivide(0, &vec![false, false, false]), None);
    assert_eq!(bvh.nodes_used, 1);
    assert_eq!(bvh.nodes[0].primitives_count, 3);
}

#[test]
fn traversal_single_leaf_returns_closest() {
    let bvh = BVH::new(3);
    let hits = [Some(0x40400000u32), Some(0x3f800000), None]; // 3.0, 1.0, miss
    let got = run(&bvh, &hits, |_, _| true);
    assert_eq!(got, Some((1, 0x3f800000)));
}

#[test]
fn traversal_no_hit_returns_none() {
    let bvh = BVH::new(2);
    assert_eq!(run(&bvh, &[None, None], |_, _| true), None);
}

#[test]
fn traversal_descends_split_tree() {
    let mut bvh = BVH::new(4);
    bvh.subdivide(0, &vec![true, true, false, false]).unwrap();
    let hits = [Some(500u32), Some(400), Some(300), Some(200)];
    // All boxes hit: the closest of all four primitives wins.
    assert_eq!(run(&bvh, &hits, |_, _| true), Some((3, 200)));
}

#[test]
fn traversal_honest_pruning_keeps_the_result() {
    let mut bvh = BVH::new(4);
    bvh.subdivide(0, &vec![true, true, false, false]).unwrap();
    // Only primitive 1 hits; a box test reports a miss exactly when no
    // primitive under the node hits.
    let hits = [None, Some(700u32), None, None];
    // The split tree here is one level deep, so every box-tested node is a
    // leaf, whose slot range is (first, count).
    let honest = |bvh: &BVH, node: usize| {
        let first = bvh.nodes[node].left_node_or_primitive_index;
        let count = bvh.nodes[node].primitives_count;
        (first..first + count).any(|slot| hits[bvh.primitive_indices[slot]].is_some())
    };
    assert_eq!(run(&bvh, &hits, honest), Some((1, 700)));
}

#[test]
fn traverse_with_tables_equals_linear_scan() {
    let mut bvh = BVH::new(6);
    bvh.subdivide(0, &vec![true, true, true, false, false, false]).unwrap();
    bvh.subdivide(1, &vec![true, false, true, false, true, false]).unwrap();
    // Nodes: 0 internal, children 1 (split again into 3, 4) and 2.
    let box_hits = vec![true; bvh.nodes_used];
    let prim_hits = vec![Some(90u32), None, Some(40), Some(70), None, Some(55)];
    let got = traverse_with(&bvh, &box_hits, &prim_hits);
    let want = prim_hits.iter().flatten().min().copied();
    assert_eq!(got.map(|h| h.t_bits), want);
    assert_eq!(got.map(|h| h.primitive), Some(2));

    // Dismissing a subtree with no hits must not change the result.
    let mut pruned = vec![true; bvh.nodes_used];
    for node in 0..bvh.nodes_used {
        let first = bvh.nodes[node].left_node_or_primitive_index;
        let count = bvh.nodes[node].primitives_count;
        if count > 0 {
            pruned[node] = (first..first + count)
                .any(|slot| prim_hits[bvh.primitive_indices[slot]].is_some());
        }
    }
    let got_pruned = traverse_with(&bvh, &pruned, &prim_hits);
    assert_eq!(got_pruned.map(|h| h.t_bits), want);
}

/// Ground-truth cross-check: two non-overlapping spheres, many
/// random rays, the hierarchy against a brute-force scan. The floating
/// point sphere and box tests live here with the caller, exactly as the
/// unverified kernel supplies them to the traversal.
#[test]
fn traversal_matches_brute_force_for_two_spheres() {
    #[derive(Clone, Copy)]
    struct Sphere {
        center: [f32; 3],
        radius: f32,
    }

    fn hit_sphere(s: &Sphere, origin: [f32; 3], dir: [f32; 3], t_min: f32, t_max: f32) -> Option<f32> {
        let oc = [
            origin[0] - s.center[0],
            origin[1] - s.center[1],
            origin[2] - s.center[2],
        ];
        let a = dir[0] * dir[0] + dir[1] * dir[1] + dir[2] * dir[2];
        let half_b = oc[0] * dir[0] + oc[1] * dir[1] + oc[2] * dir[2];
        let c = oc[0] * oc[0] + oc[1] * oc[1] + oc[2] * oc[2] - s.radius * s.radius;
        let disc = half_b * half_b - a * c;
        if disc < 0.0 {
            return None;
        }
        let sq = disc.sqrt();
        let mut t = (-half_b - sq) / a;
        if t < t_min || t > t_max {
            t = (-half_b + sq) / a;
            if t < t_min || t > t_max {
                return None;
            }
        }
        Some(t)
    }

    fn hit_box(min: [f32; 3], max: [f32; 3], origin: [f32; 3], dir: [f32; 3], t_min: f32, t_max: f32) -> bool {
        let mut near = t_min;
        let mut far = t_max;
        for axis in 0..3 {
            let inv = 1.0 / dir[axis];
            let mut t0 = (min[axis] - origin[axis]) * inv;
            let mut t1 = (max[axis] - origin[axis]) * inv;
            if inv < 0.0 {
                std::mem::swap(&mut t0, &mut t1);
            }
            near = near.max(t0);
            far = far.min(t1);
        }
        near <= far && far >= 0.0
    }

    let spheres = [
        Sphere { center: [-2.0, 0.0, -5.0], radius: 1.0 },
        Sphere { center: [2.5, 0.5, -7.0], radius: 1.5 },
    ];
    let boxes: Vec<([f32; 3], [f32; 3])> = spheres
        .iter()
        .map(|s| {
            (
                [s.center[0] - s.radius, s.center[1] - s.radius, s.center[2] - s.radius],
                [s.center[0] + s.radius, s.center[1] + s.radius, s.center[2] + s.radius],
            )
        })
        .collect();

    let mut bvh = BVH::new(2);
    // Split by centroid: sphere 0 left of x = 0, sphere 1 right.
    bvh.subdivide(0, &vec![true, false]).unwrap();

    let t_min = 0.001f32;
    let t_max = f32::MAX;
    let mut rng = rand::thread_rng();
    for _ in 0..1000 {
        let origin = [
            rng.gen_range(-1.0f32..1.0),
            rng.gen_range(-1.0f32..1.0),
            rng.gen_range(-1.0f32..1.0),
        ];
        let target = [
            rng.gen_range(-4.0f32..4.0),
            rng.gen_range(-2.0f32..2.0),
            rng.gen_range(-9.0f32..-3.0),
        ];
        let dir = [
            target[0] - origin[0],
            target[1] - origin[1],
            target[2] - origin[2],
        ];

        let prim_hits: Vec<Option<u32>> = spheres
            .iter()
            .map(|s| hit_sphere(s, origin, dir, t_min, t_max).map(|t| t.to_bits()))
            .collect();

        let box_hit = |bvh: &BVH, node: usize| {
            // Leaf nodes of this two-primitive tree hold one sphere each;
            // its box is the sphere's bounding box.
            let first = bvh.nodes[node].left_node_or_primitive_index;
            let prim = bvh.primitive_indices[first];
            hit_box(boxes[prim].0, boxes[prim].1, origin, dir, t_min, t_max)
        };

        let got = run(&bvh, &prim_hits, box_hit);

        // Brute force over all primitives.
        let mut want: Option<(usize, u32)> = None;
        for (p, h) in prim_hits.iter().enumerate() {
            if let Some(tb) = h {
                if want.map_or(true, |(_, wb)| *tb < wb) {
                    want = Some((p, *tb));
                }
            }
        }
        assert_eq!(got.map(|(_, t)| t), want.map(|(_, t)| t));
        assert_eq!(got.map(|(p, _)| p), want.map(|(p, _)| p));
    }
}

/// A single diffuse sphere of radius 0.5
/// straight ahead of the ray. The reported hit has `t > 0` and the
/// geometric normal at the hit points back toward the ray origin.
#[test]
fn traversal_single_sphere_reports_forward_hit() {
    let center = [0.0f32, 0.0, -2.0];
    let radius = 0.5f32;
    let origin = [0.0f32, 0.0, 0.0];
    let dir = [0.0f32, 0.0, -1.0];

    // Ray/sphere intersection as the kernel computes it.
    let oc = [origin[0] - center[0], origin[1] - center[1], origin[2] - center[2]];
    let a = dir[0] * dir[0] + dir[1] * dir[1] + dir[2] * dir[2];
    let half_b = oc[0] * dir[0] + oc[1] * dir[1] + oc[2] * dir[2];
    let c = oc[0] * oc[0] + oc[1] * oc[1] + oc[2] * oc[2] - radius * radius;
    let disc = half_b * half_b - a * c;
    assert!(disc > 0.0);
    let t = (-half_b - disc.sqrt()) / a;

    let bvh = BVH::new(1);
    let got = run(&bvh, &[Some(t.to_bits())], |_, _| true).expect("sphere dead ahead must be hit");
    let t_got = f32::from_bits(got.1);
    assert!(t_got > 0.0);
    assert_eq!(t_got, 1.5);
    // The shading normal at the hit faces the camera.
    let hit = [origin[0] + dir[0] * t_got, origin[1] + dir[1] * t_got, origin[2] + dir[2] * t_got];
    let normal = [
        (hit[0] - center[0]) / radius,
        (hit[1] - center[1]) / radius,
        (hit[2] - center[2]) / radius,
    ];
    let facing = normal[0] * dir[0] + normal[1] * dir[1] + normal[2] * dir[2];
    assert!(facing < 0.0);
}
