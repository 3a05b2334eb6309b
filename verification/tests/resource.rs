use kiss3d::resource::dynamic_buffer::{DynamicUniformBuffer, FlushAction};
use kiss3d::resource::gpu_vector::{AllocationType, BufferType, GPUVec, GpuUpload};
use kiss3d::resource::managers::{MaterialManager2d, MeshManager2d, MeshManager3d, TextureManager};
use kiss3d::resource::mesh::{circle_faces, edges_from_faces};
use kiss3d::resource::pipeline_cache::{clamp_sample_count, PipelineCache};
use kiss3d::resource::texture::{
    bit_len, chain_mip_count, downsample_rgba, full_mip_count, mip_chain, mip_level_count,
};

#[test]
fn gpu_vec_first_load_creates_buffer() {
    let mut v: GPUVec<u32> = GPUVec::new(vec![1, 2, 3], BufferType::Array, AllocationType::StaticDraw);
    assert!(v.dirty());
    assert!(v.trash());
    assert!(!v.is_on_gpu());
    assert!(v.is_on_ram());
    assert_eq!(v.len(), 3);
    assert_eq!(v.buffer_type(), BufferType::Array);

    assert_eq!(v.load_to_gpu(0), GpuUpload::Create);
    assert!(v.is_on_gpu());
    assert!(!v.dirty());
    // Clean: a second load does nothing.
    assert_eq!(v.load_to_gpu(12), GpuUpload::Nothing);
}

#[test]
fn gpu_vec_dirty_load_writes_or_recreates() {
    let mut v: GPUVec<u32> = GPUVec::new(vec![1, 2, 3], BufferType::ElementArray, AllocationType::DynamicDraw);
    assert_eq!(v.load_to_gpu(0), GpuUpload::Create);

    if let Some(d) = v.data_mut() {
        d.push(4);
    }
    assert!(v.dirty());
    assert_eq!(v.len(), 4);
    // 4 elements of 4 bytes fit in a 16-byte buffer.
    assert_eq!(v.load_to_gpu(16), GpuUpload::Write);

    if let Some(d) = v.data_mut() {
        d.push(5);
    }
    // 20 bytes do not fit in 16.
    assert_eq!(v.load_to_gpu(16), GpuUpload::Recreate);
    assert_eq!(v.len(), 5);
}

#[test]
fn gpu_vec_empty_data_is_not_uploaded() {
    let mut v: GPUVec<u8> = GPUVec::new(Vec::new(), BufferType::Array, AllocationType::StreamDraw);
    assert!(v.is_empty());
    assert_eq!(v.load_to_gpu(0), GpuUpload::Nothing);
    assert!(!v.is_on_gpu());
    assert!(v.dirty());
}

#[test]
fn gpu_vec_new_empty_has_empty_ram_copy() {
    let mut v: GPUVec<u16> = GPUVec::new_empty(BufferType::ElementArray, AllocationType::StaticDraw);
    assert!(v.is_on_ram());
    assert!(!v.dirty());
    assert_eq!(v.len(), 0);
    assert_eq!(v.load_to_gpu(0), GpuUpload::Nothing);
    assert!(!v.is_on_gpu());
    assert_eq!(v.data(), &Some(Vec::new()));
}

#[test]
fn gpu_vec_unload_from_ram_flushes_dirty_buffer() {
    let mut v: GPUVec<u32> = GPUVec::new(vec![7, 8], BufferType::Array, AllocationType::StaticDraw);
    v.load_to_gpu(0);
    if let Some(d) = v.data_mut() {
        d[0] = 9;
    }
    let (action, data) = v.unload_from_ram(64);
    assert_eq!(action, GpuUpload::Write);
    assert_eq!(data, Some(vec![9, 8]));
    assert!(!v.is_on_ram());
    assert!(v.is_on_gpu());
    assert!(!v.dirty());
    assert_eq!(v.len(), 2);
}

#[test]
fn gpu_vec_unload_from_gpu_keeps_length() {
    let mut v: GPUVec<u32> = GPUVec::new(vec![1, 2, 3, 4], BufferType::Array, AllocationType::StaticDraw);
    v.load_to_gpu(0);
    let (action, data) = v.unload_from_ram(0);
    assert_eq!(action, GpuUpload::Nothing);
    assert_eq!(data, Some(vec![1, 2, 3, 4]));
    v.unload_from_gpu();
    assert!(!v.is_on_gpu());
    assert_eq!(v.len(), 4);
}

#[test]
fn dynamic_buffer_aligns_entries() {
    let mut b: DynamicUniformBuffer<[u8; 20]> = DynamicUniformBuffer::with_capacity(256, 4);
    assert_eq!(b.alignment(), 256);
    assert_eq!(b.aligned_size(), 256);
    assert_eq!(b.capacity(), 1024);
    assert!(b.is_empty());

    assert_eq!(b.push(&[1u8; 20]), 0);
    assert_eq!(b.push(&[2u8; 20]), 256);
    assert_eq!(b.len(), 2);
    assert_eq!(b.data().len(), 512);
    assert_eq!(b.data()[0], 1);
    assert_eq!(b.data()[19], 1);
    assert_eq!(b.data()[20], 0);
    assert_eq!(b.data()[255], 0);
    assert_eq!(b.data()[256], 2);
}

#[test]
fn dynamic_buffer_flush_grows_by_doubling() {
    let mut b: DynamicUniformBuffer<[u8; 16]> = DynamicUniformBuffer::with_capacity(16, 1);
    assert_eq!(b.capacity(), 16);
    assert_eq!(b.flush(), FlushAction::Nothing);
    b.push(&[0u8; 16]);
    assert_eq!(b.flush(), FlushAction::Write);
    b.push(&[0u8; 16]);
    b.push(&[0u8; 16]);
    assert_eq!(b.flush(), FlushAction::Reallocate);
    assert_eq!(b.capacity(), 64);
    b.clear();
    assert!(b.is_empty());
    assert_eq!(b.capacity(), 64);
    assert_eq!(b.flush(), FlushAction::Nothing);
}

#[test]
fn dynamic_buffer_rounds_size_up() {
    let b: DynamicUniformBuffer<[u8; 300]> = DynamicUniformBuffer::with_capacity(256, 2);
    assert_eq!(b.aligned_size(), 512);
    assert_eq!(b.capacity(), 1024);
}

#[test]
fn mip_level_counts() {
    assert_eq!(mip_level_count(256, 128, true), 9);
    assert_eq!(mip_level_count(1, 1, true), 1);
    assert_eq!(mip_level_count(1000, 3, true), 10);
    assert_eq!(mip_level_count(256, 128, false), 1);
    assert_eq!(mip_level_count(0, 0, true), 1);
    assert_eq!(bit_len(0), 0);
    assert_eq!(bit_len(255), 8);
    assert_eq!(bit_len(u32::MAX), 32);
}

#[test]
fn chain_and_full_mip_counts() {
    assert_eq!(chain_mip_count(1920, 1080), 7);
    assert_eq!(chain_mip_count(8, 4), 4);
    assert_eq!(chain_mip_count(0, 0), 1);
    assert_eq!(full_mip_count(256, 128), 9);
    assert_eq!(full_mip_count(0, 0), 1);
}

#[test]
fn downsample_averages_blocks() {
    // 2x2 image: one output pixel, the truncated mean of the four.
    let data: Vec<u8> = vec![
        10, 0, 0, 255, 20, 0, 0, 255, //
        30, 0, 0, 255, 41, 4, 1, 255,
    ];
    let out = downsample_rgba(&data, 2, 2);
    assert_eq!(out, vec![25, 1, 0, 255]);
}

#[test]
fn downsample_odd_width_uses_existing_pixels() {
    // 3x1 image: output 1x1 from the first 2x1 block.
    let data: Vec<u8> = vec![10, 10, 10, 10, 20, 20, 20, 20, 90, 90, 90, 90];
    let out = downsample_rgba(&data, 3, 1);
    assert_eq!(out, vec![15, 15, 15, 15]);
}

#[test]
fn mip_chain_halves_each_level() {
    let data: Vec<u8> = vec![100u8; 4 * 4 * 4];
    let levels = mip_chain(&data, 4, 4, 3);
    assert_eq!(levels.len(), 2);
    assert_eq!((levels[0].width, levels[0].height), (2, 2));
    assert_eq!(levels[0].data.len(), 16);
    assert_eq!((levels[1].width, levels[1].height), (1, 1));
    assert_eq!(levels[1].data, vec![100, 100, 100, 100]);
    assert!(mip_chain(&data, 4, 4, 1).is_empty());
}

#[test]
fn edges_three_per_face() {
    let faces = vec![[0u16, 1, 2], [2, 3, 0]];
    let edges = edges_from_faces(&faces);
    assert_eq!(edges, vec![[0, 1], [1, 2], [2, 0], [2, 3], [3, 0], [0, 2]]);
}

#[test]
fn circle_fan_closes() {
    let faces = circle_faces(4);
    assert_eq!(faces.len(), 5);
    assert_eq!(faces[0], [0, 0, 1]);
    assert_eq!(faces[1], [0, 1, 2]);
    assert_eq!(faces[3], [0, 3, 4]);
    assert_eq!(faces[4], [0, 4, 1]);
}

#[test]
fn mesh_managers_register_builtins() {
    let mut m2 = MeshManager2d::new(1u32, 2u32);
    assert_eq!(m2.get("rectangle"), Some(&1));
    assert_eq!(m2.get("circle"), Some(&2));
    assert_eq!(m2.get("triangle"), None);
    m2.add(3, "triangle");
    assert_eq!(m2.get("triangle"), Some(&3));
    m2.add(4, "triangle");
    assert_eq!(m2.get("triangle"), Some(&4));
    m2.remove("circle");
    assert_eq!(m2.get("circle"), None);
    m2.clear();
    assert_eq!(m2.get("rectangle"), None);

    let mut m3 = MeshManager3d::new("s", "c", "k", "y");
    assert_eq!(m3.get("sphere"), Some(&"s"));
    assert_eq!(m3.get("cube"), Some(&"c"));
    assert_eq!(m3.get("cone"), Some(&"k"));
    assert_eq!(m3.get("cylinder"), Some(&"y"));
    m3.remove("cube");
    assert_eq!(m3.get("cube"), None);
    m3.add("q", "quad");
    assert_eq!(m3.get("quad"), Some(&"q"));
}

#[test]
fn material_manager_keeps_default() {
    let mut m = MaterialManager2d::new(String::from("flat"));
    assert_eq!(m.get_default(), "flat");
    assert_eq!(m.get("object").map(|s| s.as_str()), Some("flat"));
    m.add(String::from("toon"), "toon");
    assert_eq!(m.get("toon").map(|s| s.as_str()), Some("toon"));
    m.remove("object");
    assert!(m.get("object").is_none());
    m.clear();
    assert!(m.get("toon").is_none());
    assert_eq!(m.get_default(), "flat");
}

#[test]
fn texture_manager_creates_once() {
    let mut m = TextureManager::new(0u32);
    assert_eq!(*m.get_default(), 0);
    assert!(!m.generate_mipmaps());
    let mut built = 0;
    assert_eq!(*m.add_with("a", || {
        built += 1;
        7
    }), 7);
    assert_eq!(*m.add_with("a", || {
        built += 1;
        8
    }), 7);
    assert_eq!(built, 1);
    assert_eq!(m.get("a"), Some(&7));
    assert_eq!(m.get("b"), None);
    m.set_generate_mipmaps(true);
    assert!(m.generate_mipmaps());
}

#[test]
fn pipeline_cache_builds_once_per_sample_count() {
    assert_eq!(clamp_sample_count(0), 1);
    assert_eq!(clamp_sample_count(4), 4);
    let mut cache: PipelineCache<String> = PipelineCache::new();
    let mut builds = 0;
    assert_eq!(cache.get(4, |n| {
        builds += 1;
        format!("msaa{}", n)
    }), "msaa4");
    assert_eq!(cache.get(4, |n| {
        builds += 1;
        format!("other{}", n)
    }), "msaa4");
    assert_eq!(cache.get(0, |n| {
        builds += 1;
        format!("msaa{}", n)
    }), "msaa1");
    assert_eq!(cache.get(1, |n| {
        builds += 1;
        format!("other{}", n)
    }), "msaa1");
    assert_eq!(builds, 2);
}

#[test]
fn dynamic_buffer_grows_from_zero_capacity() {
    let mut b: DynamicUniformBuffer<[u8; 20]> = DynamicUniformBuffer::with_capacity(16, 0);
    assert_eq!(b.capacity(), 0);
    assert_eq!(b.push(&[3u8; 20]), 0);
    assert_eq!(b.flush(), FlushAction::Reallocate);
    assert_eq!(b.capacity(), 32);
    assert!(b.capacity() >= b.aligned_size());
    b.push(&[3u8; 20]);
    assert_eq!(b.flush(), FlushAction::Reallocate);
    assert_eq!(b.capacity(), 64);
}

#[test]
fn gpu_vec_unload_from_ram_before_upload_keeps_length() {
    let mut v: GPUVec<u32> = GPUVec::new(vec![1, 2, 3], BufferType::Array, AllocationType::StaticDraw);
    let (action, data) = v.unload_from_ram(0);
    assert_eq!(action, GpuUpload::Nothing);
    assert_eq!(data, Some(vec![1, 2, 3]));
    assert!(!v.is_on_ram());
    assert!(!v.dirty());
    assert_eq!(v.len(), 3);
    assert!(!v.is_empty());
    // Nothing left to upload.
    assert_eq!(v.load_to_gpu(0), GpuUpload::Nothing);
}

#[test]
fn gpu_vec_length_survives_dropped_ram_copy() {
    let mut v: GPUVec<u32> = GPUVec::new(vec![1, 2], BufferType::Array, AllocationType::StaticDraw);
    v.load_to_gpu(0);
    *v.data_mut() = None;
    assert!(v.dirty());
    assert_eq!(v.len(), 2);
}

fn png_bytes(width: u32, height: u32, texels: Vec<u8>) -> Vec<u8> {
    let img = image::RgbaImage::from_raw(width, height, texels).unwrap();
    let mut out = std::io::Cursor::new(Vec::new());
    img.write_to(&mut out, image::ImageFormat::Png).unwrap();
    out.into_inner()
}

#[test]
fn texture_manager_decodes_image_bytes() {
    let texels = vec![255, 0, 0, 255, 0, 255, 0, 128];
    let png = png_bytes(2, 1, texels.clone());
    let mut m: TextureManager<(u32, u32, Vec<u8>)> = TextureManager::new((1, 1, vec![255; 4]));
    let t = m.add_image_from_memory(&png, "red-green", |w, h, px| (w, h, px)).cloned();
    assert_eq!(t, Some((2, 1, texels.clone())));
    assert_eq!(m.get("red-green"), Some(&(2, 1, texels)));
}

#[test]
fn texture_manager_rejects_undecodable_bytes() {
    let mut m: TextureManager<u32> = TextureManager::new(0);
    assert_eq!(m.add_image_from_memory(b"not an image", "bad", |_, _, _| 7), None);
    assert_eq!(m.get("bad"), None);
}

#[test]
fn texture_manager_keeps_a_registered_image() {
    let mut m: TextureManager<u32> = TextureManager::new(0);
    let png = png_bytes(1, 1, vec![1, 2, 3, 4]);
    assert_eq!(m.add_image_from_memory(&png, "t", |w, _, _| w + 10), Some(&11));
    // Registered: nothing is decoded, so even bytes that are no image return it.
    assert_eq!(m.add_image_from_memory(b"garbage", "t", |_, _, _| 99), Some(&11));
}

#[test]
fn texture_manager_add_decoded_takes_the_decoded_image() {
    let mut m: TextureManager<usize> = TextureManager::new(0);
    assert_eq!(m.add_decoded("a", None, |_, _, px| px.len()), None);
    assert_eq!(m.add_decoded("a", Some((2, 2, vec![0; 16])), |_, _, px| px.len()), Some(&16));
    assert_eq!(m.add_decoded("a", Some((1, 1, vec![0; 4])), |_, _, px| px.len()), Some(&16));
}

#[test]
fn dynamic_buffer_new_has_room_for_256_entries() {
    let b: DynamicUniformBuffer<[u8; 20]> = DynamicUniformBuffer::new(16);
    assert_eq!(b.aligned_size(), 32);
    assert_eq!(b.capacity(), 32 * 256);
}
