use kiss3d::raytracer::bvh::{
    build_with, compare_ranks, identity_indices, partition_by_bin, rank_of, reorder_triangles, BvhBuilder,
    SplitDecision, LEAF_SIZE,
};
use std::cmp::Ordering;
use kiss3d::raytracer::denoise::{
    cache_valid, denoise_output, denoise_passes, scratch_bytes, PassSource,
};
use kiss3d::raytracer::scene_data::{
    blas_indices, blas_vertex_count, gather_layout, hash_instances, hash_light, hash_object, push_mesh,
    push_texture_layer, scene_hash, Fnv, GatherObject, InstanceHashInput, InstanceRecord, LightHashInput, ObjectHashInput,
    RtMeshRange, RtTriangle, TextureLayer, FNV_OFFSET_BASIS,
};
use kiss3d::raytracer::{
    accumulation_bytes, capped_resolution, max_traced_pixels, pick_backend, scene_changed,
    workgroup_counts, RayBackend, RayTracer,
};

#[test]
fn capped_resolution_keeps_small_frames() {
    assert_eq!(capped_resolution(640, 480, 1_000_000), Some((640, 480)));
    assert_eq!(capped_resolution(1000, 1000, 1_000_000), Some((1000, 1000)));
}

#[test]
fn capped_resolution_empty_frame_is_one_pixel() {
    assert_eq!(capped_resolution(0, 480, 10), Some((1, 1)));
    assert_eq!(capped_resolution(640, 0, 10), Some((1, 1)));
}

#[test]
fn capped_resolution_large_frame_needs_scaling() {
    assert_eq!(capped_resolution(1001, 1000, 1_000_000), None);
    assert_eq!(capped_resolution(3840, 2160, 1_000_000), None);
}

#[test]
fn max_traced_pixels_uses_smaller_limit() {
    assert_eq!(max_traced_pixels(128 << 20, 256 << 20), (128 << 20) / 48);
    assert_eq!(max_traced_pixels(256 << 20, 64 << 20), (64 << 20) / 48);
    assert_eq!(max_traced_pixels(8, 1 << 30), 1);
    // A 160-byte limit holds three pixels of three 16-byte regions.
    let n = max_traced_pixels(160, 1 << 30);
    assert_eq!(n, 3);
    assert!(accumulation_bytes(n as u32, 1) <= 160);
}

#[test]
fn accumulation_bytes_three_regions_of_vec4() {
    assert_eq!(accumulation_bytes(640, 480), 640 * 480 * 3 * 16);
    assert_eq!(accumulation_bytes(0, 0), 48);
}

#[test]
fn scene_changed_compares_hashes() {
    assert!(scene_changed(None, 5));
    assert!(scene_changed(Some(4), 5));
    assert!(!scene_changed(Some(5), 5));
}

#[test]
fn ray_tracer_accumulates_until_reset() {
    let mut rt = RayTracer::new(RayBackend::Compute, 1 << 20);
    assert_eq!(rt.backend(), RayBackend::Compute);
    assert_eq!(rt.max_pixels(), 1 << 20);
    assert_eq!(rt.samples_accumulated(), 0);

    // First frame: new resolution, so the buffer is resized and the image restarts.
    let plan = rt.begin_frame(false, false, 320, 200);
    assert!(plan.resize_accumulation);
    assert!(plan.reset);
    assert_eq!(plan.sample_index, 0);
    assert_eq!(plan.samples_per_frame, 1);
    assert_eq!(plan.max_bounces, 8);
    rt.end_frame();
    assert_eq!(rt.samples_accumulated(), 1);

    // Nothing changed: keep accumulating.
    let plan = rt.begin_frame(false, false, 320, 200);
    assert!(!plan.resize_accumulation);
    assert!(!plan.reset);
    assert_eq!(plan.sample_index, 1);
    rt.end_frame();
    assert_eq!(rt.samples_accumulated(), 2);

    // Camera moved: restart.
    let plan = rt.begin_frame(true, false, 320, 200);
    assert!(plan.reset);
    assert!(!plan.resize_accumulation);
    assert_eq!(plan.sample_index, 0);
    assert_eq!(rt.samples_accumulated(), 0);
}

#[test]
fn ray_tracer_settings_restart_accumulation() {
    let mut rt = RayTracer::new(RayBackend::HardwareRayQuery, 100);
    rt.begin_frame(false, false, 10, 10);
    rt.end_frame();
    rt.end_frame();
    assert_eq!(rt.samples_accumulated(), 2);

    // Same bounce count: no restart.
    rt.set_max_bounces(8);
    let plan = rt.begin_frame(false, false, 10, 10);
    assert!(!plan.reset);
    assert_eq!(plan.sample_index, 2);

    // New bounce count (0 is clamped to 1): restart.
    rt.set_max_bounces(0);
    let plan = rt.begin_frame(false, false, 10, 10);
    assert!(plan.reset);
    assert_eq!(plan.max_bounces, 1);

    rt.set_samples_per_frame(4);
    let plan = rt.begin_frame(false, false, 10, 10);
    assert!(plan.reset);
    assert_eq!(plan.samples_per_frame, 4);
    rt.end_frame();
    assert_eq!(rt.samples_accumulated(), 4);

    rt.mark_dirty();
    let plan = rt.begin_frame(false, false, 10, 10);
    assert!(plan.reset);

    let plan = rt.begin_frame(false, true, 10, 10);
    assert!(plan.reset);
}

#[test]
fn fnv_starts_at_offset_basis() {
    let h = Fnv::new();
    assert_eq!(h.0, 0xcbf2_9ce4_8422_2325);
    assert_eq!(h.0, FNV_OFFSET_BASIS);
}

#[test]
fn fnv_write_u32_hashes_little_endian_bytes() {
    let mut h = Fnv::new();
    h.write_u32(0);
    assert_eq!(h.0, 0x4d25_767f_9dce_13f5);

    let mut h = Fnv::new();
    h.write_u32(0x61);
    assert_eq!(h.0, 0xac80_4b82_0e4f_e984);
    assert_ne!(h.0, FNV_OFFSET_BASIS);
}

#[test]
fn fnv_streaming_equals_concatenation() {
    let words = [1u32, 2, 3, 4, 5, 6, 7, 8, 9, 10, 11];
    let mut whole = Fnv::new();
    for w in words {
        whole.write_u32(w);
    }
    assert_eq!(whole.0, 0xb00b_de9e_b9ed_a095);

    let mut light = Fnv::new();
    hash_light(&mut light, &sample_light(11));
    assert_eq!(light.0, whole.0);
}

fn sample_light(radius: u32) -> LightHashInput {
    LightHashInput { position: [1, 2, 3], direction: [4, 5, 6], color: [7, 8, 9], intensity: 10, radius }
}

#[test]
fn hash_light_depends_on_every_field() {
    let mut a = Fnv::new();
    hash_light(&mut a, &sample_light(11));
    let mut b = Fnv::new();
    hash_light(&mut b, &sample_light(12));
    assert_ne!(a.0, b.0);
}

#[test]
fn push_mesh_offsets_indices_and_records_range() {
    let mut triangles: Vec<RtTriangle> = Vec::new();
    let mut ranges: Vec<RtMeshRange> = Vec::new();
    let faces: Vec<[u16; 3]> = vec![[0, 1, 2], [2, 1, 3]];
    let id0 = push_mesh(&mut triangles, &mut ranges, 0, 4, &faces);
    assert_eq!(id0, 0);
    let id1 = push_mesh(&mut triangles, &mut ranges, 4, 4, &faces);
    assert_eq!(id1, 1);

    assert_eq!(triangles.len(), 4);
    let t = triangles[3];
    assert_eq!((t.v0, t.v1, t.v2, t.material_id), (6, 5, 7, 0));
    let t = triangles[0];
    assert_eq!((t.v0, t.v1, t.v2), (0, 1, 2));

    let r = ranges[1];
    assert_eq!((r.vert_start, r.vert_count, r.tri_start, r.tri_count), (4, 4, 2, 2));
}

#[test]
fn push_texture_layer_indices() {
    let mut layers: Vec<&str> = Vec::new();
    assert_eq!(push_texture_layer(&mut layers, Some("albedo")), 0);
    assert_eq!(push_texture_layer(&mut layers, None), -1);
    assert_eq!(push_texture_layer(&mut layers, Some("normal")), 1);
    assert_eq!(layers, vec!["albedo", "normal"]);
}

#[test]
fn denoise_passes_ping_pong() {
    let passes = denoise_passes(3);
    assert_eq!(passes.len(), 3);
    assert_eq!(passes[0].step, 1);
    assert_eq!(passes[1].step, 2);
    assert_eq!(passes[2].step, 4);
    assert_eq!(passes[0].source, PassSource::Accumulation);
    assert_eq!(passes[1].source, PassSource::Scratch(passes[0].dest));
    assert_eq!(passes[2].source, PassSource::Scratch(passes[1].dest));
    assert_eq!(passes[0].dest, 0);
    assert_eq!(passes[1].dest, 1);
    assert!(passes[0].demodulate && !passes[1].demodulate);
    assert!(passes[2].remodulate && !passes[0].remodulate);
    assert_eq!(denoise_output(3), passes[2].dest);
}

#[test]
fn denoise_zero_iterations_runs_one_pass() {
    let passes = denoise_passes(0);
    assert_eq!(passes.len(), 1);
    assert!(passes[0].demodulate && passes[0].remodulate);
    assert_eq!(denoise_output(0), 0);
    assert_eq!(denoise_output(4), 1);
}

#[test]
fn denoise_cache_validity() {
    assert!(!cache_valid(None, 10, 10, 3));
    assert!(cache_valid(Some((10, 10, 3)), 10, 10, 3));
    assert!(!cache_valid(Some((10, 10, 3)), 10, 11, 3));
    assert!(!cache_valid(Some((10, 10, 3)), 10, 10, 4));
}

#[test]
fn partition_by_bin_splits_range() {
    let mut indices = vec![0u32, 1, 2, 3, 4, 5];
    let bins = vec![3usize, 0, 2, 1, 3, 0];
    let mid = partition_by_bin(&mut indices, 1, 5, &bins, 1);
    assert_eq!(indices[0], 0);
    assert_eq!(indices[5], 5);
    assert_eq!(mid, 3);
    for k in 1..mid {
        assert!(bins[indices[k] as usize] <= 1);
    }
    for k in mid..5 {
        assert!(bins[indices[k] as usize] > 1);
    }
    let mut range: Vec<u32> = indices[1..5].to_vec();
    range.sort();
    assert_eq!(range, vec![1, 2, 3, 4]);
}

#[test]
fn reorder_follows_indices() {
    let tri = |v: u32| RtTriangle { v0: v, v1: v, v2: v, material_id: v };
    let triangles = vec![tri(10), tri(20), tri(30)];
    let ordered = reorder_triangles(&vec![2, 0, 1], &triangles);
    let ids: Vec<u32> = ordered.iter().map(|t| t.v0).collect();
    assert_eq!(ids, vec![30, 10, 20]);
    assert_eq!(identity_indices(4), vec![0, 1, 2, 3]);
}

#[test]
fn bvh_builder_empty_scene_has_one_node() {
    let b = BvhBuilder::new(0);
    assert_eq!(b.pending(), None);
    let (links, indices) = b.finish();
    assert_eq!(links.len(), 1);
    assert_eq!((links[0].left_first, links[0].count), (0, 0));
    assert!(indices.is_empty());
}

#[test]
fn bvh_builder_small_range_becomes_leaf() {
    let n = LEAF_SIZE as u32;
    let mut b = BvhBuilder::new(n);
    assert_eq!(b.pending(), Some((0, LEAF_SIZE)));
    b.apply(SplitDecision::Split { bins: &vec![0; LEAF_SIZE], split_bin: 0, ranks: &vec![0; LEAF_SIZE] });
    assert_eq!(b.pending(), None);
    let (links, indices) = b.finish();
    assert_eq!(links.len(), 1);
    assert_eq!((links[0].left_first, links[0].count), (0, n));
    assert_eq!(indices, vec![0, 1, 2, 3]);
}

#[test]
fn bvh_builder_splits_depth_first() {
    // Eight triangles: bins put triangles 0..4 right and 4..8 left.
    let bins: Vec<usize> = vec![5, 5, 5, 5, 1, 1, 1, 1];
    let ranks: Vec<u32> = (0..8).collect();
    let mut b = BvhBuilder::new(8);
    b.apply(SplitDecision::Split { bins: &bins, split_bin: 2, ranks: &ranks });
    // Left child first.
    let (s, e) = b.pending().unwrap();
    assert_eq!((s, e), (0, 4));
    for &t in &b.indices()[0..4] {
        assert!(bins[t as usize] <= 2);
    }
    b.apply(SplitDecision::Leaf);
    assert_eq!(b.pending(), Some((4, 8)));
    b.apply(SplitDecision::Leaf);
    assert_eq!(b.pending(), None);
    let (links, indices) = b.finish();
    assert_eq!(links.len(), 3);
    // Root: interior, right child at node 2.
    assert_eq!((links[0].left_first, links[0].count), (2, 0));
    assert_eq!((links[1].left_first, links[1].count), (0, 4));
    assert_eq!((links[2].left_first, links[2].count), (4, 4));
    let mut sorted = indices.clone();
    sorted.sort();
    assert_eq!(sorted, (0..8).collect::<Vec<u32>>());
}

#[test]
fn bvh_builder_falls_back_to_median_split() {
    // Every triangle in one bin: the range is split at its median by rank.
    let bins: Vec<usize> = vec![0; 6];
    let ranks: Vec<u32> = vec![50, 10, 40, 0, 30, 20];
    let mut b = BvhBuilder::new(6);
    b.apply(SplitDecision::Split { bins: &bins, split_bin: 3, ranks: &ranks });
    let (s, e) = b.pending().unwrap();
    assert_eq!(s, 0);
    assert!(e > 0 && e < 6);
    let left: Vec<u32> = b.indices()[0..e].iter().map(|&t| ranks[t as usize]).collect();
    let right: Vec<u32> = b.indices()[e..6].iter().map(|&t| ranks[t as usize]).collect();
    assert!(left.iter().max().unwrap() <= right.iter().min().unwrap());
    b.apply(SplitDecision::Leaf);
    b.apply(SplitDecision::Leaf);
    let (links, _) = b.finish();
    assert_eq!(links.len(), 3);
}

#[test]
fn workgroups_cover_every_pixel() {
    assert_eq!(workgroup_counts(0, 0), (0, 0));
    assert_eq!(workgroup_counts(8, 16), (1, 2));
    assert_eq!(workgroup_counts(9, 1), (2, 1));
    assert_eq!(workgroup_counts(1920, 1080), (240, 135));
}

#[test]
fn denoise_scratch_is_one_vec4_per_pixel() {
    assert_eq!(scratch_bytes(640, 480), 640 * 480 * 16);
    assert_eq!(scratch_bytes(0, 10), 160);
}

#[test]
fn blas_indices_flatten_triangles() {
    let tris = vec![
        RtTriangle { v0: 0, v1: 1, v2: 2, material_id: 9 },
        RtTriangle { v0: 2, v1: 1, v2: 3, material_id: 9 },
    ];
    assert_eq!(blas_indices(&tris), vec![0, 1, 2, 2, 1, 3]);
    assert_eq!(blas_indices(&Vec::new()), vec![0, 0, 0]);
    assert_eq!(blas_vertex_count(0), 3);
    assert_eq!(blas_vertex_count(2), 3);
    assert_eq!(blas_vertex_count(7), 7);
}

#[test]
fn ranks_order_triangles() {
    let ranks = vec![5u32, 1, 5, 9];
    assert_eq!(rank_of(&ranks, 3), 9);
    assert_eq!(compare_ranks(&ranks, 1, 0), Ordering::Less);
    assert_eq!(compare_ranks(&ranks, 0, 2), Ordering::Equal);
    assert_eq!(compare_ranks(&ranks, 3, 2), Ordering::Greater);
}

#[test]
fn fnv_negative_zero_hashes_as_zero() {
    let mut a = Fnv::new();
    a.write_f32_bits((-0.0f32).to_bits());
    let mut b = Fnv::new();
    b.write_f32_bits(0.0f32.to_bits());
    assert_eq!(a.0, b.0);
    let mut c = Fnv::new();
    c.write_f32_bits(1.0f32.to_bits());
    assert_ne!(a.0, c.0);
    let mut d = Fnv::new();
    d.write_u32(1.0f32.to_bits());
    assert_eq!(c.0, d.0);
}

fn sample_object(nfaces: u32) -> ObjectHashInput {
    ObjectHashInput {
        transform: [0; 10],
        shading: [1; 9],
        bsdf_tag: 2,
        bsdf: [3; 7],
        textures: [4, 0, 0, 0],
        ncoords: 8,
        nfaces,
    }
}

#[test]
fn hash_object_streams_its_words() {
    let o = sample_object(12);
    let mut h = Fnv::new();
    hash_object(&mut h, &o);
    let mut w = Fnv::new();
    w.write_u32s(&[0; 10]);
    w.write_u32s(&[1; 9]);
    w.write_u32(2);
    w.write_u32s(&[3; 7]);
    w.write_u32s(&[4, 0, 0, 0]);
    w.write_u32(8);
    w.write_u32(12);
    assert_eq!(h.0, w.0);
    let mut other = Fnv::new();
    hash_object(&mut other, &sample_object(13));
    assert_ne!(h.0, other.0);
}

#[test]
fn hash_instances_skips_absent_data() {
    let bare = InstanceHashInput { count: 2, positions: None, deformations: None, colors: None };
    let mut h = Fnv::new();
    hash_instances(&mut h, &bare);
    let mut w = Fnv::new();
    w.write_u32(2);
    assert_eq!(h.0, w.0);

    let full = InstanceHashInput {
        count: 1,
        positions: Some(vec![[5, 6, 7]]),
        deformations: Some(vec![[0x8000_0000, 1, 2]]),
        colors: Some(vec![[9, 9, 9, 9]]),
    };
    let mut h = Fnv::new();
    hash_instances(&mut h, &full);
    let mut w = Fnv::new();
    w.write_u32s(&[1, 5, 6, 7, 0, 1, 2, 9, 9, 9, 9]);
    assert_eq!(h.0, w.0);
}

#[test]
fn scene_hash_covers_objects_lights_and_ambient() {
    let inst = InstanceHashInput { count: 1, positions: None, deformations: None, colors: None };
    let objects = vec![(sample_object(12), inst.clone())];
    let lights = vec![sample_light(11)];
    let h = scene_hash(&objects, &lights, 0x3f80_0000);

    let mut w = Fnv::new();
    hash_object(&mut w, &objects[0].0);
    hash_instances(&mut w, &inst);
    hash_light(&mut w, &lights[0]);
    w.write_f32_bits(0x3f80_0000);
    assert_eq!(h, w.0);

    assert_ne!(h, scene_hash(&objects, &lights, 0));
    assert_ne!(h, scene_hash(&objects, &Vec::new(), 0x3f80_0000));
    let empty = scene_hash(&Vec::new(), &Vec::new(), 0x8000_0000);
    let mut e = Fnv::new();
    e.write_u32(0);
    assert_eq!(empty, e.0);
}

#[test]
fn backend_follows_device_support() {
    assert_eq!(pick_backend(true), RayBackend::HardwareRayQuery);
    assert_eq!(pick_backend(false), RayBackend::Compute);
}

/// Checks that the links form a tree whose leaves, in node order, cover
/// `0 .. n` contiguously, with every interior node's left child next to it.
fn check_tree(links: &[kiss3d::raytracer::bvh::BvhLink], n: u32) {
    assert!(links.len() as u32 <= 2 * n - 1);
    let mut next = 0u32;
    for (i, l) in links.iter().enumerate() {
        if l.count == 0 {
            assert!(i + 1 < l.left_first as usize && (l.left_first as usize) < links.len());
        } else {
            assert_eq!(l.left_first, next);
            next += l.count;
        }
    }
    assert_eq!(next, n);
}

#[test]
fn build_with_splits_by_the_callers_bins() {
    // Ten triangles; each range is split in two halves by bin until it fits a leaf.
    let (links, indices) = build_with(10, |start: usize, end: usize, _indices: &Vec<u32>| {
        let len = end - start;
        if len <= LEAF_SIZE {
            return None;
        }
        let bins: Vec<usize> = (0..len).map(|k| if k < len / 2 { 0 } else { 1 }).collect();
        let ranks: Vec<u32> = (0..len as u32).collect();
        Some((bins, 0, ranks))
    });
    check_tree(&links, 10);
    let mut sorted = indices.clone();
    sorted.sort();
    assert_eq!(sorted, (0..10).collect::<Vec<u32>>());
    // 10 -> 5 + 5 -> (2 + 3) + (2 + 3): seven nodes, four leaves.
    assert_eq!(links.len(), 7);
    assert_eq!(links.iter().filter(|l| l.count > 0).count(), 4);
}

#[test]
fn build_with_makes_a_leaf_of_a_malformed_answer() {
    // Lists of the wrong length make the range a leaf even above the leaf size.
    let (links, indices) = build_with(9, |_s: usize, _e: usize, _i: &Vec<u32>| Some((vec![0usize; 2], 0, vec![0u32; 2])));
    assert_eq!(links.len(), 1);
    assert_eq!((links[0].left_first, links[0].count), (0, 9));
    assert_eq!(indices, (0..9).collect::<Vec<u32>>());
}

#[test]
fn build_with_no_triangles_gives_one_empty_node() {
    let (links, indices) = build_with(0, |_s: usize, _e: usize, _i: &Vec<u32>| None);
    assert_eq!(links.len(), 1);
    assert_eq!((links[0].left_first, links[0].count), (0, 0));
    assert!(indices.is_empty());
}

#[test]
fn build_with_every_range_a_leaf_when_asked() {
    let (links, _) = build_with(3, |_s: usize, _e: usize, _i: &Vec<u32>| None);
    assert_eq!(links.len(), 1);
    assert_eq!((links[0].left_first, links[0].count), (0, 3));
}

fn gather_object(vert_count: u32, faces: Vec<[u16; 3]>, instance_count: u32, maps: [bool; 3]) -> Option<GatherObject> {
    Some(GatherObject { vert_count, faces, instance_count, maps })
}

#[test]
fn gather_layout_stores_each_mesh_once_and_numbers_instances() {
    let objects = vec![
        gather_object(3, vec![[0, 1, 2]], 2, [true, false, true]),
        None,
        gather_object(0, vec![[0, 1, 2]], 1, [false, false, false]),
        gather_object(4, vec![[0, 1, 2], [0, 2, 3]], 0, [false, false, false]),
        gather_object(4, vec![[0, 1, 2], [2, 3, 0]], 1, [false, true, false]),
    ];
    let l = gather_layout(&objects);

    // Only objects 0 and 4 contribute; the second mesh starts after the first.
    assert_eq!(
        l.ranges,
        vec![
            RtMeshRange { vert_start: 0, vert_count: 3, tri_start: 0, tri_count: 1 },
            RtMeshRange { vert_start: 3, vert_count: 4, tri_start: 1, tri_count: 2 },
        ]
    );
    assert_eq!(
        l.triangles,
        vec![
            RtTriangle { v0: 0, v1: 1, v2: 2, material_id: 0 },
            RtTriangle { v0: 3, v1: 4, v2: 5, material_id: 0 },
            RtTriangle { v0: 5, v1: 6, v2: 3, material_id: 0 },
        ]
    );
    // Two instances of mesh 0, one of mesh 1, each with its own material.
    assert_eq!(
        l.instances,
        vec![
            InstanceRecord { mesh_id: 0, material_id: 0 },
            InstanceRecord { mesh_id: 0, material_id: 1 },
            InstanceRecord { mesh_id: 1, material_id: 2 },
        ]
    );
    // Object 0: albedo, normal and emissive layers; object 4: albedo and
    // metallic-roughness layers.
    assert_eq!(
        l.textures,
        vec![
            TextureLayer { object: 0, map: 0 },
            TextureLayer { object: 0, map: 1 },
            TextureLayer { object: 0, map: 3 },
            TextureLayer { object: 4, map: 0 },
            TextureLayer { object: 4, map: 2 },
        ]
    );
    assert_eq!(l.materials, vec![[0, 1, -1, 2], [0, 1, -1, 2], [3, -1, 4, -1]]);
}

#[test]
fn gather_layout_of_an_empty_scene_is_empty() {
    let l = gather_layout(&vec![None, gather_object(3, vec![], 1, [true, true, true])]);
    assert!(l.triangles.is_empty());
    assert!(l.ranges.is_empty());
    assert!(l.instances.is_empty());
    assert!(l.materials.is_empty());
    assert!(l.textures.is_empty());
}
