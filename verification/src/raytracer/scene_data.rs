//! Flat, GPU-ready ray-tracing records and the FNV-1a content hash used to
//! detect when the GPU scene must be rebuilt.

use vstd::prelude::*;

verus! {

/// Light type tag matching the shader's `RtLight.light_type` convention.
pub const RT_LIGHT_POINT: u32 = 0;
/// Light type tag matching the shader's `RtLight.light_type` convention.
pub const RT_LIGHT_DIRECTIONAL: u32 = 1;
/// Light type tag matching the shader's `RtLight.light_type` convention.
pub const RT_LIGHT_SPOT: u32 = 2;

/// A triangle as three vertex indices plus the index of its material.
#[derive(Copy, Clone, Debug, Default, PartialEq, Eq, Structural)]
pub struct RtTriangle {
    /// Index of the first vertex.
    pub v0: u32,
    /// Index of the second vertex.
    pub v1: u32,
    /// Index of the third vertex.
    pub v2: u32,
    /// Index into the material table.
    pub material_id: u32,
}

/// GPU mesh descriptor for the two-level path: where one mesh's bottom-level
/// BVH nodes and triangles live in the concatenated buffers.
#[derive(Copy, Clone, Debug, Default)]
pub struct RtMeshDesc {
    /// Base index of this mesh's BVH nodes in the concatenated node buffer.
    pub node_offset: u32,
    /// Base index of this mesh's triangles in the concatenated triangle buffer.
    pub tri_offset: u32,
    /// Padding to a 16-byte layout.
    pub _pad: [u32; 2],
}

/// Per-mesh vertex and triangle ranges into the concatenated mesh arrays.
#[derive(Copy, Clone, Debug, Default, PartialEq, Eq, Structural)]
pub struct RtMeshRange {
    /// First vertex of this mesh.
    pub vert_start: u32,
    /// Vertex count.
    pub vert_count: u32,
    /// First triangle of this mesh.
    pub tri_start: u32,
    /// Triangle count.
    pub tri_count: u32,
}

/// The FNV-1a 64-bit offset basis.
pub const FNV_OFFSET_BASIS: u64 = 0xcbf29ce484222325;
/// The FNV-1a 64-bit prime.
pub const FNV_PRIME: u64 = 0x100000001b3;

/// One FNV-1a step: xor the byte in, then multiply by the prime modulo 2^64.
#[verifier::opaque]
pub open spec fn fnv_step(h: u64, b: u8) -> u64 {
    (((h ^ (b as u64)) as nat * FNV_PRIME as nat) % 0x1_0000_0000_0000_0000nat) as u64
}

/// FNV-1a folded over a byte sequence, starting from state `h`.
pub open spec fn fnv_bytes(h: u64, bytes: Seq<u8>) -> u64
    decreases bytes.len(),
{
    if bytes.len() == 0 {
        h
    } else {
        fnv_step(fnv_bytes(h, bytes.drop_last()), bytes.last())
    }
}

/// The four little-endian bytes of a 32-bit word.
pub open spec fn le_bytes(v: u32) -> Seq<u8> {
    seq![
        (v % 256) as u8,
        ((v / 256) % 256) as u8,
        ((v / 65536) % 256) as u8,
        (v / 16777216) as u8,
    ]
}

/// The little-endian bytes of a sequence of words, concatenated.
pub open spec fn words_le_bytes(words: Seq<u32>) -> Seq<u8>
    decreases words.len(),
{
    if words.len() == 0 {
        Seq::empty()
    } else {
        words_le_bytes(words.drop_last()) + le_bytes(words.last())
    }
}

/// FNV-1a folded over the little-endian bytes of a word sequence.
pub open spec fn fnv_words(h: u64, words: Seq<u32>) -> u64 {
    fnv_bytes(h, words_le_bytes(words))
}

/// Hashing a concatenation of bytes equals hashing the second part from the
/// state reached after the first.
pub proof fn lemma_fnv_bytes_concat(h: u64, a: Seq<u8>, b: Seq<u8>)
    ensures
        fnv_bytes(h, a + b) == fnv_bytes(fnv_bytes(h, a), b),
    decreases b.len(),
{
    if b.len() == 0 {
        assert(a + b =~= a);
    } else {
        lemma_fnv_bytes_concat(h, a, b.drop_last());
        assert((a + b).drop_last() =~= a + b.drop_last());
        assert((a + b).last() == b.last());
    }
}

/// The bytes of a concatenation of word sequences are the concatenation of
/// their bytes.
pub proof fn lemma_words_le_bytes_concat(a: Seq<u32>, b: Seq<u32>)
    ensures
        words_le_bytes(a + b) == words_le_bytes(a) + words_le_bytes(b),
    decreases b.len(),
{
    if b.len() == 0 {
        assert(a + b =~= a);
        assert(words_le_bytes(a) + words_le_bytes(b) =~= words_le_bytes(a));
    } else {
        lemma_words_le_bytes_concat(a, b.drop_last());
        assert((a + b).drop_last() =~= a + b.drop_last());
        assert((a + b).last() == b.last());
        assert(words_le_bytes(a + b) =~= words_le_bytes(a) + words_le_bytes(b));
    }
}

/// Law: the content hash is streaming. Hashing the words `a` followed by `b`
/// gives the same state as hashing `a` and then continuing with `b`, so the
/// scene hash does not depend on how its words are split into writes.
pub proof fn lemma_fnv_words_concat(h: u64, a: Seq<u32>, b: Seq<u32>)
    ensures
        fnv_words(h, a + b) == fnv_words(fnv_words(h, a), b),
{
    lemma_words_le_bytes_concat(a, b);
    lemma_fnv_bytes_concat(h, words_le_bytes(a), words_le_bytes(b));
}

/// The bits hashed for a float with bits `bits`: `-0.0` hashes as `0.0`, so
/// equal values hash equally.
pub open spec fn canonical_bits(bits: u32) -> u32 {
    if bits == 0x8000_0000 {
        0
    } else {
        bits
    }
}

/// The bits hashed for a sequence of floats given by their bits.
pub open spec fn canonical(words: Seq<u32>) -> Seq<u32> {
    words.map_values(|w: u32| canonical_bits(w))
}

/// The components of a sequence of 3-vectors, vector after vector.
pub open spec fn flat3(vs: Seq<[u32; 3]>) -> Seq<u32>
    decreases vs.len(),
{
    if vs.len() == 0 {
        Seq::empty()
    } else {
        flat3(vs.drop_last()) + vs.last()@
    }
}

/// The components of a sequence of 4-vectors, vector after vector.
pub open spec fn flat4(vs: Seq<[u32; 4]>) -> Seq<u32>
    decreases vs.len(),
{
    if vs.len() == 0 {
        Seq::empty()
    } else {
        flat4(vs.drop_last()) + vs.last()@
    }
}

/// Canonicalizing distributes over concatenation.
proof fn lemma_canonical_concat(a: Seq<u32>, b: Seq<u32>)
    ensures
        canonical(a + b) == canonical(a) + canonical(b),
{
    assert(canonical(a + b) =~= canonical(a) + canonical(b));
}

/// FNV-1a hasher accumulator.
pub struct Fnv(pub u64);

impl Fnv {
    /// A hasher in the FNV-1a initial state.
    pub fn new() -> (h: Fnv)
        ensures
            h.0 == FNV_OFFSET_BASIS,
    {
        Fnv(FNV_OFFSET_BASIS)
    }

    fn write_byte(&mut self, b: u8)
        ensures
            final(self).0 == fnv_step(old(self).0, b),
    {
        reveal(fnv_step);
        let x = self.0 ^ (b as u64);
        self.0 = x.wrapping_mul(FNV_PRIME);
    }

    /// Folds the bits of an `f32` into the hash, with `-0.0` folded as `0.0`.
    pub fn write_f32_bits(&mut self, bits: u32)
        ensures
            final(self).0 == fnv_words(old(self).0, seq![canonical_bits(bits)]),
    {
        let b = if bits == 0x8000_0000 {
            0
        } else {
            bits
        };
        self.write_u32(b);
    }

    /// Folds a sequence of words into the hash, in order.
    pub fn write_u32s(&mut self, words: &[u32])
        ensures
            final(self).0 == fnv_words(old(self).0, words@),
    {
        let ghost h0 = self.0;
        let mut i: usize = 0;
        while i < words.len()
            invariant
                0 <= i <= words.len(),
                self.0 == fnv_words(h0, words@.subrange(0, i as int)),
            decreases words.len() - i,
        {
            self.write_u32(words[i]);
            proof {
                lemma_fnv_words_concat(h0, words@.subrange(0, i as int), seq![words@[i as int]]);
                assert(words@.subrange(0, i as int) + seq![words@[i as int]] =~= words@.subrange(0, i + 1));
            }
            i = i + 1;
        }
        assert(words@.subrange(0, words.len() as int) =~= words@);
    }

    /// Folds a sequence of floats, given by their bits, into the hash, in
    /// order, with `-0.0` folded as `0.0`.
    pub fn write_f32s(&mut self, bits: &[u32])
        ensures
            final(self).0 == fnv_words(old(self).0, canonical(bits@)),
    {
        let ghost h0 = self.0;
        let mut i: usize = 0;
        while i < bits.len()
            invariant
                0 <= i <= bits.len(),
                self.0 == fnv_words(h0, canonical(bits@.subrange(0, i as int))),
            decreases bits.len() - i,
        {
            self.write_f32_bits(bits[i]);
            proof {
                let done = canonical(bits@.subrange(0, i as int));
                lemma_fnv_words_concat(h0, done, seq![canonical_bits(bits@[i as int])]);
                assert(done + seq![canonical_bits(bits@[i as int])] =~= canonical(
                    bits@.subrange(0, i + 1),
                ));
            }
            i = i + 1;
        }
        assert(bits@.subrange(0, bits.len() as int) =~= bits@);
    }

    /// Folds the four little-endian bytes of `v` into the hash.
    pub fn write_u32(&mut self, v: u32)
        ensures
            final(self).0 == fnv_bytes(old(self).0, le_bytes(v)),
            final(self).0 == fnv_words(old(self).0, seq![v]),
    {
        let ghost h0 = self.0;
        let ghost bs = le_bytes(v);
        let b0 = (v % 256) as u8;
        let b1 = ((v / 256) % 256) as u8;
        let b2 = ((v / 65536) % 256) as u8;
        let b3 = (v / 16777216) as u8;
        self.write_byte(b0);
        let ghost h1 = self.0;
        self.write_byte(b1);
        let ghost h2 = self.0;
        self.write_byte(b2);
        let ghost h3 = self.0;
        self.write_byte(b3);
        proof {
            assert(bs =~= seq![b0, b1, b2, b3]);
            let s1 = seq![b0];
            let s2 = seq![b0, b1];
            let s3 = seq![b0, b1, b2];
            assert(s1.drop_last() =~= Seq::<u8>::empty());
            assert(fnv_bytes(h0, Seq::<u8>::empty()) == h0);
            assert(fnv_bytes(h0, s1) == h1);
            assert(s2.drop_last() =~= s1);
            assert(fnv_bytes(h0, s2) == h2);
            assert(s3.drop_last() =~= s2);
            assert(fnv_bytes(h0, s3) == h3);
            assert(bs.drop_last() =~= s3);
            assert(fnv_bytes(h0, bs) == self.0);
            let w = seq![v];
            assert(w.drop_last() =~= Seq::<u32>::empty());
            assert(words_le_bytes(Seq::<u32>::empty()) == Seq::<u8>::empty());
            assert(words_le_bytes(w) =~= Seq::<u8>::empty() + bs);
            assert(words_le_bytes(w) =~= bs);
        }
    }
}

/// A light's fields that the scene's change hash covers, floats given as
/// their bits.
#[derive(Copy, Clone, Debug)]
pub struct LightHashInput {
    /// World position.
    pub position: [u32; 3],
    /// World direction.
    pub direction: [u32; 3],
    /// Color.
    pub color: [u32; 3],
    /// Intensity.
    pub intensity: u32,
    /// Radius of the emitting sphere.
    pub radius: u32,
}

/// The words a light folds into the hash, in order.
pub open spec fn light_words(l: LightHashInput) -> Seq<u32> {
    canonical(l.position@ + l.direction@ + l.color@ + seq![l.intensity, l.radius])
}

/// Folds a light's position, direction, color, intensity and radius into the
/// hash.
pub fn hash_light(h: &mut Fnv, l: &LightHashInput)
    ensures
        final(h).0 == fnv_words(old(h).0, light_words(*l)),
{
    let words: [u32; 11] = [
        l.position[0], l.position[1], l.position[2],
        l.direction[0], l.direction[1], l.direction[2],
        l.color[0], l.color[1], l.color[2],
        l.intensity, l.radius,
    ];
    h.write_f32s(&words);
    assert(words@ =~= l.position@ + l.direction@ + l.color@ + seq![l.intensity, l.radius]);
}

/// The fields of a drawn object that the scene's change hash covers, floats
/// given as their bits.
#[derive(Copy, Clone, Debug)]
pub struct ObjectHashInput {
    /// World translation, rotation quaternion (x, y, z, w) and scale.
    pub transform: [u32; 10],
    /// Metallic, roughness, base color (r, g, b, a) and emissive color (r, g, b).
    pub shading: [u32; 9],
    /// Tag of the path-tracer BSDF.
    pub bsdf_tag: u32,
    /// Index of refraction, transmission, specular tint (r, g, b), subsurface
    /// factor and subsurface radius.
    pub bsdf: [u32; 7],
    /// Identities of the albedo, normal, metallic-roughness and emissive
    /// textures (0 for none).
    pub textures: [u32; 4],
    /// Number of vertices.
    pub ncoords: u32,
    /// Number of faces.
    pub nfaces: u32,
}

/// The words an object folds into the hash, in order.
pub open spec fn object_words(o: ObjectHashInput) -> Seq<u32> {
    canonical(o.transform@) + canonical(o.shading@) + seq![o.bsdf_tag] + canonical(o.bsdf@)
        + o.textures@ + seq![o.ncoords, o.nfaces]
}

/// Law: what an object folds into the hash, word by word: its transform,
/// its shading, its BSDF tag, its BSDF parameters (floats with `-0.0` as
/// `0.0`), then its four texture identities and its vertex and face counts
/// verbatim, 33 words in all.
pub proof fn lemma_object_words_fields(o: ObjectHashInput)
    ensures
        object_words(o).len() == 33,
        forall|k: int| 0 <= k < 10 ==> object_words(o)[k] == canonical_bits(#[trigger] o.transform[k]),
        forall|k: int| 0 <= k < 9 ==> object_words(o)[10 + k] == canonical_bits(#[trigger] o.shading[k]),
        object_words(o)[19] == o.bsdf_tag,
        forall|k: int| 0 <= k < 7 ==> object_words(o)[20 + k] == canonical_bits(#[trigger] o.bsdf[k]),
        forall|k: int| 0 <= k < 4 ==> object_words(o)[27 + k] == #[trigger] o.textures[k],
        object_words(o)[31] == o.ncoords,
        object_words(o)[32] == o.nfaces,
{
    let w = object_words(o);
    let a = canonical(o.transform@);
    let b = canonical(o.shading@);
    let d = canonical(o.bsdf@);
    assert forall|k: int| 0 <= k < 10 implies w[k] == canonical_bits(#[trigger] o.transform[k]) by {
        assert(a[k] == canonical_bits(o.transform@[k]));
    }
    assert forall|k: int| 0 <= k < 9 implies w[10 + k] == canonical_bits(#[trigger] o.shading[k]) by {
        assert(b[k] == canonical_bits(o.shading@[k]));
    }
    assert forall|k: int| 0 <= k < 7 implies w[20 + k] == canonical_bits(#[trigger] o.bsdf[k]) by {
        assert(d[k] == canonical_bits(o.bsdf@[k]));
    }
    assert forall|k: int| 0 <= k < 4 implies w[27 + k] == #[trigger] o.textures[k] by {
        assert(o.textures@[k] == o.textures[k]);
    }
}

/// Law: two objects that fold the same words into the hash have the same
/// texture identities (all four), BSDF tag and vertex and face counts; so
/// changing any of them, a normal or emissive map as much as the albedo
/// texture, changes what is hashed.
pub proof fn lemma_object_words_distinguish(o: ObjectHashInput, o2: ObjectHashInput)
    requires
        object_words(o) == object_words(o2),
    ensures
        o.textures == o2.textures,
        o.bsdf_tag == o2.bsdf_tag,
        o.ncoords == o2.ncoords,
        o.nfaces == o2.nfaces,
{
    lemma_object_words_fields(o);
    lemma_object_words_fields(o2);
    assert forall|k: int| 0 <= k < 4 implies o.textures[k] == o2.textures[k] by {
        assert(object_words(o)[27 + k] == object_words(o2)[27 + k]);
    }
    assert(o.textures@ =~= o2.textures@);
    assert(object_words(o)[19] == object_words(o2)[19]);
    assert(object_words(o)[31] == object_words(o2)[31]);
    assert(object_words(o)[32] == object_words(o2)[32]);
}

/// Folds an object's world transform, material and element counts into the
/// hash.
pub fn hash_object(h: &mut Fnv, o: &ObjectHashInput)
    ensures
        final(h).0 == fnv_words(old(h).0, object_words(*o)),
{
    let ghost h0 = h.0;
    h.write_f32s(&o.transform);
    h.write_f32s(&o.shading);
    h.write_u32(o.bsdf_tag);
    h.write_f32s(&o.bsdf);
    h.write_u32s(&o.textures);
    h.write_u32(o.ncoords);
    h.write_u32(o.nfaces);
    proof {
        let a = canonical(o.transform@);
        let b = canonical(o.shading@);
        let c = seq![o.bsdf_tag];
        let d = canonical(o.bsdf@);
        let e = o.textures@;
        lemma_fnv_words_concat(h0, a, b);
        lemma_fnv_words_concat(h0, a + b, c);
        lemma_fnv_words_concat(h0, a + b + c, d);
        lemma_fnv_words_concat(h0, a + b + c + d, e);
        lemma_fnv_words_concat(h0, a + b + c + d + e, seq![o.ncoords]);
        lemma_fnv_words_concat(h0, a + b + c + d + e + seq![o.ncoords], seq![o.nfaces]);
        assert(a + b + c + d + e + seq![o.ncoords] + seq![o.nfaces] =~= object_words(*o));
    }
}

/// Folds a sequence of 3-vectors (floats given as bits) into the hash.
fn write_vec3s(h: &mut Fnv, vs: &Vec<[u32; 3]>)
    ensures
        final(h).0 == fnv_words(old(h).0, canonical(flat3(vs@))),
{
    let ghost h0 = h.0;
    let mut i: usize = 0;
    while i < vs.len()
        invariant
            0 <= i <= vs.len(),
            h.0 == fnv_words(h0, canonical(flat3(vs@.subrange(0, i as int)))),
        decreases vs.len() - i,
    {
        let v = vs[i];
        h.write_f32s(&v);
        proof {
            let done = flat3(vs@.subrange(0, i as int));
            assert(vs@.subrange(0, i + 1).drop_last() =~= vs@.subrange(0, i as int));
            assert(flat3(vs@.subrange(0, i + 1)) == done + v@);
            lemma_canonical_concat(done, v@);
            lemma_fnv_words_concat(h0, canonical(done), canonical(v@));
        }
        i = i + 1;
    }
    assert(vs@.subrange(0, vs.len() as int) =~= vs@);
}

/// Folds a sequence of 4-vectors (floats given as bits) into the hash.
fn write_vec4s(h: &mut Fnv, vs: &Vec<[u32; 4]>)
    ensures
        final(h).0 == fnv_words(old(h).0, canonical(flat4(vs@))),
{
    let ghost h0 = h.0;
    let mut i: usize = 0;
    while i < vs.len()
        invariant
            0 <= i <= vs.len(),
            h.0 == fnv_words(h0, canonical(flat4(vs@.subrange(0, i as int)))),
        decreases vs.len() - i,
    {
        let v = vs[i];
        h.write_f32s(&v);
        proof {
            let done = flat4(vs@.subrange(0, i as int));
            assert(vs@.subrange(0, i + 1).drop_last() =~= vs@.subrange(0, i as int));
            assert(flat4(vs@.subrange(0, i + 1)) == done + v@);
            lemma_canonical_concat(done, v@);
            lemma_fnv_words_concat(h0, canonical(done), canonical(v@));
        }
        i = i + 1;
    }
    assert(vs@.subrange(0, vs.len() as int) =~= vs@);
}

/// The components of an optional sequence of 3-vectors (none when absent).
pub open spec fn opt_flat3(vs: Option<Vec<[u32; 3]>>) -> Seq<u32> {
    match vs {
        Some(v) => flat3(v@),
        None => Seq::empty(),
    }
}

/// The components of an optional sequence of 4-vectors (none when absent).
pub open spec fn opt_flat4(vs: Option<Vec<[u32; 4]>>) -> Seq<u32> {
    match vs {
        Some(v) => flat4(v@),
        None => Seq::empty(),
    }
}

/// An object's instance data that the scene's change hash covers, floats
/// given as their bits.
#[derive(Clone, Debug)]
pub struct InstanceHashInput {
    /// Number of instances.
    pub count: u32,
    /// Per-instance offsets, if present.
    pub positions: Option<Vec<[u32; 3]>>,
    /// Per-instance deformation axes, if present.
    pub deformations: Option<Vec<[u32; 3]>>,
    /// Per-instance colors, if present.
    pub colors: Option<Vec<[u32; 4]>>,
}

/// The words an object's instances fold into the hash, in order.
pub open spec fn instance_words(i: InstanceHashInput) -> Seq<u32> {
    seq![i.count] + canonical(opt_flat3(i.positions)) + canonical(opt_flat3(i.deformations))
        + canonical(opt_flat4(i.colors))
}

/// Folds an object's instances into the hash: their count, then the
/// per-instance offsets, deformation axes and colors that are present.
pub fn hash_instances(h: &mut Fnv, i: &InstanceHashInput)
    ensures
        final(h).0 == fnv_words(old(h).0, instance_words(*i)),
{
    let ghost h0 = h.0;
    h.write_u32(i.count);
    let ghost h1 = h.0;
    match &i.positions {
        Some(p) => write_vec3s(h, p),
        None => {},
    }
    let ghost h2 = h.0;
    match &i.deformations {
        Some(d) => write_vec3s(h, d),
        None => {},
    }
    let ghost h3 = h.0;
    match &i.colors {
        Some(c) => write_vec4s(h, c),
        None => {},
    }
    proof {
        let a = seq![i.count];
        let b = canonical(opt_flat3(i.positions));
        let c = canonical(opt_flat3(i.deformations));
        let d = canonical(opt_flat4(i.colors));
        assert(canonical(Seq::<u32>::empty()) =~= Seq::<u32>::empty());
        assert(words_le_bytes(Seq::<u32>::empty()) == Seq::<u8>::empty());
        assert(fnv_bytes(h1, Seq::<u8>::empty()) == h1);
        assert(fnv_bytes(h2, Seq::<u8>::empty()) == h2);
        assert(fnv_bytes(h3, Seq::<u8>::empty()) == h3);
        assert(h2 == fnv_words(h1, b));
        assert(h3 == fnv_words(h2, c));
        assert(h.0 == fnv_words(h3, d));
        lemma_fnv_words_concat(h0, a, b);
        lemma_fnv_words_concat(h0, a + b, c);
        lemma_fnv_words_concat(h0, a + b + c, d);
    }
}

/// The words of the drawn objects, each object's fields then its instances.
pub open spec fn objects_words(objects: Seq<(ObjectHashInput, InstanceHashInput)>) -> Seq<u32>
    decreases objects.len(),
{
    if objects.len() == 0 {
        Seq::empty()
    } else {
        objects_words(objects.drop_last()) + object_words(objects.last().0) + instance_words(
            objects.last().1,
        )
    }
}

/// The words of the lights, light after light.
pub open spec fn lights_words(lights: Seq<LightHashInput>) -> Seq<u32>
    decreases lights.len(),
{
    if lights.len() == 0 {
        Seq::empty()
    } else {
        lights_words(lights.drop_last()) + light_words(lights.last())
    }
}

/// Everything the scene's change hash covers: the drawn objects with their
/// instances, the lights, then the ambient intensity.
pub open spec fn scene_words(
    objects: Seq<(ObjectHashInput, InstanceHashInput)>,
    lights: Seq<LightHashInput>,
    ambient: u32,
) -> Seq<u32> {
    objects_words(objects) + lights_words(lights) + seq![canonical_bits(ambient)]
}

/// The content hash of a scene: FNV-1a, from the offset basis, over the drawn
/// objects (in drawing order) with their instances, the lights and the
/// ambient intensity. A change of it means the GPU scene must be rebuilt.
pub fn scene_hash(
    objects: &Vec<(ObjectHashInput, InstanceHashInput)>,
    lights: &Vec<LightHashInput>,
    ambient: u32,
) -> (h: u64)
    ensures
        h == fnv_words(FNV_OFFSET_BASIS, scene_words(objects@, lights@, ambient)),
{
    let mut hasher = Fnv::new();
    let mut i: usize = 0;
    while i < objects.len()
        invariant
            0 <= i <= objects.len(),
            hasher.0 == fnv_words(FNV_OFFSET_BASIS, objects_words(objects@.subrange(0, i as int))),
        decreases objects.len() - i,
    {
        let ghost before = hasher.0;
        hash_object(&mut hasher, &objects[i].0);
        let ghost mid = hasher.0;
        hash_instances(&mut hasher, &objects[i].1);
        proof {
            let done = objects_words(objects@.subrange(0, i as int));
            let o = objects@[i as int];
            assert(objects@.subrange(0, i + 1).drop_last() =~= objects@.subrange(0, i as int));
            assert(objects@.subrange(0, i + 1).last() == o);
            lemma_fnv_words_concat(FNV_OFFSET_BASIS, done, object_words(o.0));
            lemma_fnv_words_concat(FNV_OFFSET_BASIS, done + object_words(o.0), instance_words(o.1));
        }
        i = i + 1;
    }
    assert(objects@.subrange(0, objects.len() as int) =~= objects@);
    let ghost after_objects = hasher.0;
    let mut k: usize = 0;
    while k < lights.len()
        invariant
            0 <= k <= lights.len(),
            hasher.0 == fnv_words(
                FNV_OFFSET_BASIS,
                objects_words(objects@) + lights_words(lights@.subrange(0, k as int)),
            ),
        decreases lights.len() - k,
    {
        hash_light(&mut hasher, &lights[k]);
        proof {
            let done = objects_words(objects@) + lights_words(lights@.subrange(0, k as int));
            assert(lights@.subrange(0, k + 1).drop_last() =~= lights@.subrange(0, k as int));
            lemma_fnv_words_concat(FNV_OFFSET_BASIS, done, light_words(lights@[k as int]));
            assert(done + light_words(lights@[k as int]) =~= objects_words(objects@) + lights_words(
                lights@.subrange(0, k + 1),
            ));
        }
        k = k + 1;
    }
    assert(lights@.subrange(0, lights.len() as int) =~= lights@);
    hasher.write_f32_bits(ambient);
    proof {
        lemma_fnv_words_concat(
            FNV_OFFSET_BASIS,
            objects_words(objects@) + lights_words(lights@),
            seq![canonical_bits(ambient)],
        );
    }
    hasher.0
}

/// The triangle that face `f` of a mesh whose first vertex sits at `vert_start`
/// becomes once its indices are made global. The material comes from the
/// instance, so the triangle's own material slot is 0.
pub open spec fn global_triangle(vert_start: u32, f: [u16; 3]) -> RtTriangle {
    RtTriangle {
        v0: (vert_start + f[0]) as u32,
        v1: (vert_start + f[1]) as u32,
        v2: (vert_start + f[2]) as u32,
        material_id: 0,
    }
}

/// Appends one mesh to the concatenated triangle array, with its vertex
/// indices offset by `vert_start` (the position of its first vertex in the
/// concatenated vertex array), records its vertex/triangle range, and returns
/// the new mesh's id.
pub fn push_mesh(
    triangles: &mut Vec<RtTriangle>,
    ranges: &mut Vec<RtMeshRange>,
    vert_start: u32,
    vert_count: u32,
    faces: &Vec<[u16; 3]>,
) -> (mesh_id: u32)
    requires
        old(ranges).len() <= u32::MAX,
        old(triangles).len() + faces.len() <= u32::MAX,
        forall|k: int, c: int|
            0 <= k < faces.len() && 0 <= c < 3 ==> vert_start + #[trigger] faces@[k][c] <= u32::MAX,
    ensures
        mesh_id == old(ranges).len(),
        final(ranges)@ == old(ranges)@.push(
            (RtMeshRange {
                vert_start,
                vert_count,
                tri_start: old(triangles).len() as u32,
                tri_count: faces.len() as u32,
            }),
        ),
        final(triangles).len() == old(triangles).len() + faces.len(),
        forall|k: int| 0 <= k < old(triangles).len() ==> final(triangles)@[k] == old(triangles)@[k],
        forall|k: int|
            0 <= k < faces.len() ==> #[trigger] final(triangles)@[old(triangles).len() + k]
                == global_triangle(vert_start, faces@[k]),
{
    let mesh_id = ranges.len() as u32;
    let tri_start = triangles.len() as u32;
    let ghost old_tris = triangles@;
    let mut i: usize = 0;
    while i < faces.len()
        invariant
            0 <= i <= faces.len(),
            old_tris.len() + faces.len() <= u32::MAX,
            forall|k: int, c: int|
                0 <= k < faces.len() && 0 <= c < 3 ==> vert_start + #[trigger] faces@[k][c]
                    <= u32::MAX,
            triangles.len() == old_tris.len() + i,
            forall|k: int| 0 <= k < old_tris.len() ==> triangles@[k] == old_tris[k],
            forall|k: int|
                0 <= k < i ==> #[trigger] triangles@[old_tris.len() + k] == global_triangle(
                    vert_start,
                    faces@[k],
                ),
        decreases faces.len() - i,
    {
        let f = faces[i];
        assert(vert_start + faces@[i as int][0] <= u32::MAX);
        assert(vert_start + faces@[i as int][1] <= u32::MAX);
        assert(vert_start + faces@[i as int][2] <= u32::MAX);
        triangles.push(
            RtTriangle {
                v0: vert_start + f[0] as u32,
                v1: vert_start + f[1] as u32,
                v2: vert_start + f[2] as u32,
                material_id: 0,
            },
        );
        i = i + 1;
    }
    ranges.push(
        RtMeshRange { vert_start, vert_count, tri_start, tri_count: faces.len() as u32 },
    );
    mesh_id
}

/// Entry `k` of the flat index buffer of `triangles`: vertex `k % 3` of
/// triangle `k / 3`.
pub open spec fn triangle_index(triangles: Seq<RtTriangle>, k: int) -> u32 {
    let t = triangles[k / 3];
    if k % 3 == 0 {
        t.v0
    } else if k % 3 == 1 {
        t.v1
    } else {
        t.v2
    }
}

/// The index buffer of the hardware acceleration structure: the vertex
/// indices of `triangles`, three per triangle. An acceleration structure needs
/// at least one triangle, so an empty list gives the degenerate `[0, 0, 0]`.
pub fn blas_indices(triangles: &Vec<RtTriangle>) -> (indices: Vec<u32>)
    requires
        triangles.len() * 3 <= usize::MAX,
    ensures
        triangles.len() == 0 ==> indices@ == seq![0u32, 0u32, 0u32],
        triangles.len() > 0 ==> indices.len() == 3 * triangles.len(),
        triangles.len() > 0 ==> forall|k: int|
            0 <= k < indices.len() ==> #[trigger] indices@[k] == triangle_index(triangles@, k),
{
    if triangles.len() == 0 {
        return vec![0, 0, 0];
    }
    let mut indices: Vec<u32> = Vec::new();
    let mut i: usize = 0;
    while i < triangles.len()
        invariant
            0 <= i <= triangles.len(),
            triangles.len() * 3 <= usize::MAX,
            indices.len() == 3 * i,
            forall|k: int| 0 <= k < indices.len() ==> #[trigger] indices@[k] == triangle_index(triangles@, k),
        decreases triangles.len() - i,
    {
        let t = triangles[i];
        let ghost n = 3 * i as int;
        proof {
            assert((n + 0) / 3 == i && (n + 0) % 3 == 0) by (nonlinear_arith)
                requires n == 3 * i;
            assert((n + 1) / 3 == i && (n + 1) % 3 == 1) by (nonlinear_arith)
                requires n == 3 * i;
            assert((n + 2) / 3 == i && (n + 2) % 3 == 2) by (nonlinear_arith)
                requires n == 3 * i;
        }
        indices.push(t.v0);
        indices.push(t.v1);
        indices.push(t.v2);
        proof {
            assert(indices@[n] == triangle_index(triangles@, n));
            assert(indices@[n + 1] == triangle_index(triangles@, n + 1));
            assert(indices@[n + 2] == triangle_index(triangles@, n + 2));
        }
        i = i + 1;
    }
    indices
}

/// The vertex count of the acceleration-structure geometry: the scene's
/// vertices, padded with zero vertices to at least three.
pub fn blas_vertex_count(vertex_count: usize) -> (n: usize)
    ensures
        n == (if vertex_count < 3 { 3 } else { vertex_count }),
{
    if vertex_count < 3 {
        3
    } else {
        vertex_count
    }
}

/// Registers an optional texture as the next layer of the material texture
/// array and returns its layer index, or -1 when there is no texture.
pub fn push_texture_layer<T>(layers: &mut Vec<T>, texture: Option<T>) -> (idx: i32)
    requires
        old(layers).len() < i32::MAX,
    ensures
        match texture {
            Some(t) => idx == old(layers).len() && final(layers)@ == old(layers)@.push(t),
            None => idx == -1 && final(layers)@ == old(layers)@,
        },
{
    match texture {
        Some(t) => {
            let idx = layers.len() as i32;
            layers.push(t);
            idx
        },
        None => -1,
    }
}


/// What gathering the scene for the path tracer needs of one drawn object:
/// its vertex count, its faces, its number of instances, and which of its
/// normal, metallic-roughness and emissive maps it has (its albedo map is its
/// texture, always present).
#[derive(Clone, Debug)]
pub struct GatherObject {
    /// Number of vertices.
    pub vert_count: u32,
    /// Faces, as indices into the object's own vertices.
    pub faces: Vec<[u16; 3]>,
    /// Number of instances.
    pub instance_count: u32,
    /// Presence of the normal, metallic-roughness and emissive maps.
    pub maps: [bool; 3],
}

/// One placed copy of a stored mesh, with its own material.
#[derive(Copy, Clone, Debug, PartialEq, Eq, Structural)]
pub struct InstanceRecord {
    /// The mesh (index into the mesh ranges).
    pub mesh_id: u32,
    /// The material (index into the materials).
    pub material_id: u32,
}

/// One layer of the material texture array: which object's map it holds
/// (map 0 albedo, 1 normal, 2 metallic-roughness, 3 emissive).
#[derive(Copy, Clone, Debug, PartialEq, Eq, Structural)]
pub struct TextureLayer {
    /// Index of the object in the gathered list.
    pub object: u32,
    /// Which of the object's maps.
    pub map: u32,
}

/// The two-level layout of a gathered scene: each mesh stored once in local
/// space, and one instance record and one material per instance.
pub struct SceneLayout {
    /// The meshes' triangles, concatenated, with global vertex indices.
    pub triangles: Vec<RtTriangle>,
    /// The vertex and triangle range of each mesh.
    pub ranges: Vec<RtMeshRange>,
    /// The instances, object after object.
    pub instances: Vec<InstanceRecord>,
    /// The texture layers of each material: albedo, normal,
    /// metallic-roughness and emissive (-1 for none).
    pub materials: Vec<[i32; 4]>,
    /// The texture layers, in layer order.
    pub textures: Vec<TextureLayer>,
}

/// Whether an object contributes to the gathered scene: it is drawn and has
/// vertices, faces and instances.
pub open spec fn contributes(o: Option<GatherObject>) -> bool {
    match o {
        Some(g) => g.vert_count > 0 && g.faces.len() > 0 && g.instance_count > 0,
        None => false,
    }
}

/// The number of vertices of the contributing objects.
pub open spec fn layout_vertices(objs: Seq<Option<GatherObject>>) -> nat
    decreases objs.len(),
{
    if objs.len() == 0 {
        0
    } else {
        layout_vertices(objs.drop_last()) + match objs.last() {
            Some(g) if contributes(objs.last()) => g.vert_count as nat,
            _ => 0,
        }
    }
}

/// The concatenated triangles of the contributing objects, each face made
/// global by the number of vertices before its object.
pub open spec fn layout_triangles(objs: Seq<Option<GatherObject>>) -> Seq<RtTriangle>
    decreases objs.len(),
{
    if objs.len() == 0 {
        Seq::empty()
    } else {
        let p = objs.drop_last();
        match objs.last() {
            Some(g) if contributes(objs.last()) => layout_triangles(p) + Seq::new(
                g.faces.len() as nat,
                |f: int| global_triangle(layout_vertices(p) as u32, g.faces@[f]),
            ),
            _ => layout_triangles(p),
        }
    }
}

/// The ranges of the contributing objects' meshes: prefix sums of their
/// vertex and triangle counts.
pub open spec fn layout_ranges(objs: Seq<Option<GatherObject>>) -> Seq<RtMeshRange>
    decreases objs.len(),
{
    if objs.len() == 0 {
        Seq::empty()
    } else {
        let p = objs.drop_last();
        match objs.last() {
            Some(g) if contributes(objs.last()) => layout_ranges(p).push(
                RtMeshRange {
                    vert_start: layout_vertices(p) as u32,
                    vert_count: g.vert_count,
                    tri_start: layout_triangles(p).len() as u32,
                    tri_count: g.faces.len() as u32,
                },
            ),
            _ => layout_ranges(p),
        }
    }
}

/// The texture layers of object `k`: its albedo map, then each of its normal,
/// metallic-roughness and emissive maps that is present.
pub open spec fn object_layers(k: u32, maps: [bool; 3]) -> Seq<TextureLayer> {
    seq![TextureLayer { object: k, map: 0 }] + (if maps[0] {
        seq![TextureLayer { object: k, map: 1 }]
    } else {
        Seq::empty()
    }) + (if maps[1] {
        seq![TextureLayer { object: k, map: 2 }]
    } else {
        Seq::empty()
    }) + (if maps[2] {
        seq![TextureLayer { object: k, map: 3 }]
    } else {
        Seq::empty()
    })
}

/// The texture layers: those of each contributing object, in order.
pub open spec fn layout_textures(objs: Seq<Option<GatherObject>>) -> Seq<TextureLayer>
    decreases objs.len(),
{
    if objs.len() == 0 {
        Seq::empty()
    } else {
        let p = objs.drop_last();
        match objs.last() {
            Some(g) if contributes(objs.last()) => layout_textures(p) + object_layers(
                (objs.len() - 1) as u32,
                g.maps,
            ),
            _ => layout_textures(p),
        }
    }
}

/// The texture layers of an object's material whose albedo map is layer
/// `base`, its other maps following in order (-1 for a missing map).
pub open spec fn material_maps(base: int, maps: [bool; 3]) -> [i32; 4] {
    let n1: int = if maps[0] { 1 } else { 0 };
    let n2: int = if maps[1] { 1 } else { 0 };
    [
        base as i32,
        (if maps[0] { base + 1 } else { -1 }) as i32,
        (if maps[1] { base + 1 + n1 } else { -1 }) as i32,
        (if maps[2] { base + 1 + n1 + n2 } else { -1 }) as i32,
    ]
}

/// The materials: one per instance, each with its object's texture layers.
pub open spec fn layout_materials(objs: Seq<Option<GatherObject>>) -> Seq<[i32; 4]>
    decreases objs.len(),
{
    if objs.len() == 0 {
        Seq::empty()
    } else {
        let p = objs.drop_last();
        match objs.last() {
            Some(g) if contributes(objs.last()) => layout_materials(p) + Seq::new(
                g.instance_count as nat,
                |j: int| material_maps(layout_textures(p).len() as int, g.maps),
            ),
            _ => layout_materials(p),
        }
    }
}

/// The instances: for each contributing object, one record per instance,
/// naming the object's mesh and a fresh material.
pub open spec fn layout_instances(objs: Seq<Option<GatherObject>>) -> Seq<InstanceRecord>
    decreases objs.len(),
{
    if objs.len() == 0 {
        Seq::empty()
    } else {
        let p = objs.drop_last();
        match objs.last() {
            Some(g) if contributes(objs.last()) => layout_instances(p) + Seq::new(
                g.instance_count as nat,
                |j: int|
                    InstanceRecord {
                        mesh_id: layout_ranges(p).len() as u32,
                        material_id: (layout_instances(p).len() + j) as u32,
                    },
            ),
            _ => layout_instances(p),
        }
    }
}

/// Whether every global vertex index of the contributing objects fits in 32
/// bits.
pub open spec fn indices_fit(objs: Seq<Option<GatherObject>>) -> bool
    decreases objs.len(),
{
    if objs.len() == 0 {
        true
    } else {
        let p = objs.drop_last();
        &&& indices_fit(p)
        &&& match objs.last() {
            Some(g) if contributes(objs.last()) => forall|f: int, c: int|
                0 <= f < g.faces.len() && 0 <= c < 3 ==> layout_vertices(p) + #[trigger] g.faces@[f][c]
                    <= u32::MAX,
            _ => true,
        }
    }
}

/// The totals of a prefix are at most those of the whole list.
proof fn lemma_layout_prefix(objs: Seq<Option<GatherObject>>, i: int)
    requires
        0 <= i <= objs.len(),
    ensures
        layout_vertices(objs.subrange(0, i)) <= layout_vertices(objs),
        layout_triangles(objs.subrange(0, i)).len() <= layout_triangles(objs).len(),
        layout_instances(objs.subrange(0, i)).len() <= layout_instances(objs).len(),
        layout_textures(objs.subrange(0, i)).len() <= layout_textures(objs).len(),
        layout_ranges(objs.subrange(0, i)).len() <= i,
        indices_fit(objs) ==> indices_fit(objs.subrange(0, i)),
    decreases objs.len(),
{
    if i == objs.len() {
        assert(objs.subrange(0, i) =~= objs);
        lemma_ranges_len(objs);
    } else {
        let p = objs.drop_last();
        lemma_layout_prefix(p, i);
        assert(p.subrange(0, i) =~= objs.subrange(0, i));
    }
}

/// There are at most as many meshes as objects, and one material per
/// instance.
proof fn lemma_ranges_len(objs: Seq<Option<GatherObject>>)
    ensures
        layout_ranges(objs).len() <= objs.len(),
        layout_materials(objs).len() == layout_instances(objs).len(),
    decreases objs.len(),
{
    if objs.len() > 0 {
        lemma_ranges_len(objs.drop_last());
    }
}

/// Law: instance `i` uses material `i`, and names one of the stored meshes.
pub proof fn lemma_instance_ids(objs: Seq<Option<GatherObject>>)
    requires
        layout_instances(objs).len() <= u32::MAX,
        objs.len() <= u32::MAX,
    ensures
        layout_materials(objs).len() == layout_instances(objs).len(),
        forall|i: int|
            0 <= i < layout_instances(objs).len() ==> (#[trigger] layout_instances(objs)[i]).material_id == i
                && layout_instances(objs)[i].mesh_id < layout_ranges(objs).len(),
    decreases objs.len(),
{
    lemma_ranges_len(objs);
    if objs.len() > 0 {
        let p = objs.drop_last();
        lemma_layout_prefix(objs, objs.len() - 1);
        assert(objs.subrange(0, objs.len() - 1) =~= p);
        lemma_instance_ids(p);
        lemma_ranges_len(p);
        match objs.last() {
            Some(g) if contributes(objs.last()) => {
                let base = layout_instances(p).len();
                assert forall|i: int| 0 <= i < layout_instances(objs).len() implies (#[trigger] layout_instances(
                    objs,
                )[i]).material_id == i && layout_instances(objs)[i].mesh_id < layout_ranges(objs).len() by {
                    if i >= base {
                        assert(layout_instances(objs)[i].material_id == (base + (i - base)) as u32);
                    } else {
                        assert(layout_instances(objs)[i] == layout_instances(p)[i]);
                    }
                }
            },
            _ => {},
        }
    }
}

/// The objects that contribute to the gathered scene, in order.
pub open spec fn contributing(objs: Seq<Option<GatherObject>>) -> Seq<GatherObject>
    decreases objs.len(),
{
    if objs.len() == 0 {
        Seq::empty()
    } else {
        let p = contributing(objs.drop_last());
        match objs.last() {
            Some(g) if contributes(objs.last()) => p.push(g),
            _ => p,
        }
    }
}

/// The sum of a sequence of naturals.
pub open spec fn sum_nat(s: Seq<nat>) -> nat
    decreases s.len(),
{
    if s.len() == 0 {
        0
    } else {
        sum_nat(s.drop_last()) + s.last()
    }
}

/// The vertex count of each object.
pub open spec fn vert_counts(cs: Seq<GatherObject>) -> Seq<nat> {
    cs.map_values(|g: GatherObject| g.vert_count as nat)
}

/// The face count of each object.
pub open spec fn face_counts(cs: Seq<GatherObject>) -> Seq<nat> {
    cs.map_values(|g: GatherObject| g.faces.len() as nat)
}

/// The instance count of each object.
pub open spec fn instance_counts(cs: Seq<GatherObject>) -> Seq<nat> {
    cs.map_values(|g: GatherObject| g.instance_count as nat)
}

/// How many of its normal, metallic-roughness and emissive maps an object has.
pub open spec fn map_count(maps: [bool; 3]) -> nat {
    (if maps[0] { 1nat } else { 0nat }) + (if maps[1] { 1nat } else { 0nat }) + (if maps[2] {
        1nat
    } else {
        0nat
    })
}

/// The texture-layer count of each object: its albedo map and its other maps.
pub open spec fn layer_counts(cs: Seq<GatherObject>) -> Seq<nat> {
    cs.map_values(|g: GatherObject| 1 + map_count(g.maps))
}

/// Position of instance `j` of contributing object `k` among the instances
/// (and materials).
pub open spec fn instance_slot(cs: Seq<GatherObject>, k: int, j: int) -> int {
    sum_nat(instance_counts(cs.take(k))) + j
}

/// Position of face `j` of contributing object `k` among the triangles.
pub open spec fn triangle_slot(cs: Seq<GatherObject>, k: int, j: int) -> int {
    sum_nat(face_counts(cs.take(k))) + j
}

/// The sum of the first `k` entries is the sum of the first `k - 1` plus
/// entry `k - 1`, and no prefix sums to more than the whole.
proof fn lemma_sum_prefix(s: Seq<nat>, k: int)
    requires
        0 <= k < s.len(),
    ensures
        sum_nat(s.take(k + 1)) == sum_nat(s.take(k)) + s[k],
        sum_nat(s.take(k)) + s[k] <= sum_nat(s),
    decreases s.len(),
{
    assert(s.take(k + 1).drop_last() =~= s.take(k));
    if k < s.len() - 1 {
        lemma_sum_prefix(s.drop_last(), k);
        assert(s.drop_last().take(k) =~= s.take(k));
    } else {
        assert(s.drop_last() =~= s.take(k));
    }
}

/// A sum of positive entries is zero only for the empty sequence.
proof fn lemma_sum_positive(s: Seq<nat>)
    requires
        forall|k: int| 0 <= k < s.len() ==> #[trigger] s[k] > 0,
    ensures
        sum_nat(s) == 0 <==> s.len() == 0,
{
    if s.len() > 0 {
        assert(s[s.len() - 1] > 0);
    }
}

/// An object's texture layers number one plus its maps.
proof fn lemma_object_layers_len(k: u32, maps: [bool; 3])
    ensures
        object_layers(k, maps).len() == 1 + map_count(maps),
{
}

/// Law: the layout in closed form over the contributing objects `cs`. There
/// is one mesh per contributing object, and the ranges are prefix sums of
/// their vertex and triangle counts; each object's triangles are its faces
/// offset by its mesh's first vertex; object `k`'s instances are the next
/// `instance_count` records, naming mesh `k` and consecutive materials that
/// all carry its texture layers. The scene is empty (no triangle, mesh or
/// instance) exactly when no object contributes.
pub proof fn lemma_layout_closed_form(objs: Seq<Option<GatherObject>>)
    ensures
        ({
            let cs = contributing(objs);
            &&& forall|k: int| 0 <= k < cs.len() ==> contributes(Some(#[trigger] cs[k]))
            &&& layout_vertices(objs) == sum_nat(vert_counts(cs))
            &&& layout_triangles(objs).len() == sum_nat(face_counts(cs))
            &&& layout_instances(objs).len() == sum_nat(instance_counts(cs))
            &&& layout_materials(objs).len() == sum_nat(instance_counts(cs))
            &&& layout_textures(objs).len() == sum_nat(layer_counts(cs))
            &&& layout_ranges(objs).len() == cs.len()
            &&& forall|k: int|
                0 <= k < cs.len() ==> #[trigger] layout_ranges(objs)[k] == (RtMeshRange {
                    vert_start: sum_nat(vert_counts(cs.take(k))) as u32,
                    vert_count: cs[k].vert_count,
                    tri_start: sum_nat(face_counts(cs.take(k))) as u32,
                    tri_count: cs[k].faces.len() as u32,
                })
            &&& forall|k: int, j: int|
                0 <= k < cs.len() && 0 <= j < cs[k].faces.len() ==> layout_triangles(objs)[#[trigger] triangle_slot(
                    cs,
                    k,
                    j,
                )] == global_triangle(sum_nat(vert_counts(cs.take(k))) as u32, cs[k].faces@[j])
            &&& forall|k: int, j: int|
                0 <= k < cs.len() && 0 <= j < cs[k].instance_count ==> {
                    &&& layout_instances(objs)[#[trigger] instance_slot(cs, k, j)] == (InstanceRecord {
                        mesh_id: k as u32,
                        material_id: instance_slot(cs, k, j) as u32,
                    })
                    &&& layout_materials(objs)[instance_slot(cs, k, j)] == material_maps(
                        sum_nat(layer_counts(cs.take(k))) as int,
                        cs[k].maps,
                    )
                }
            &&& layout_triangles(objs).len() == 0 <==> cs.len() == 0
            &&& layout_instances(objs).len() == 0 <==> cs.len() == 0
        }),
    decreases objs.len(),
{
    let cs = contributing(objs);
    if objs.len() > 0 {
        let p = objs.drop_last();
        let cp = contributing(p);
        lemma_layout_closed_form(p);
        lemma_ranges_len(p);
        lemma_ranges_len(objs);
        match objs.last() {
            Some(g) if contributes(objs.last()) => {
                let n = cp.len() as int;
                assert(cs == cp.push(g));
                assert(cs.take(n) =~= cp);
                assert(vert_counts(cs) =~= vert_counts(cp).push(g.vert_count as nat));
                assert(face_counts(cs) =~= face_counts(cp).push(g.faces.len() as nat));
                assert(instance_counts(cs) =~= instance_counts(cp).push(g.instance_count as nat));
                assert(layer_counts(cs) =~= layer_counts(cp).push(1 + map_count(g.maps)));
                assert(vert_counts(cs).drop_last() =~= vert_counts(cp));
                assert(face_counts(cs).drop_last() =~= face_counts(cp));
                assert(instance_counts(cs).drop_last() =~= instance_counts(cp));
                assert(layer_counts(cs).drop_last() =~= layer_counts(cp));
                lemma_object_layers_len((objs.len() - 1) as u32, g.maps);
                assert forall|k: int| 0 <= k < n implies #[trigger] cs.take(k) == cp.take(k) by {
                    assert(cs.take(k) =~= cp.take(k));
                }
                assert forall|k: int| 0 <= k < cs.len() implies contributes(Some(#[trigger] cs[k])) by {
                    if k < n {
                        assert(cs[k] == cp[k]);
                    }
                }
                assert forall|k: int| 0 <= k < cs.len() implies #[trigger] layout_ranges(objs)[k] == (RtMeshRange {
                    vert_start: sum_nat(vert_counts(cs.take(k))) as u32,
                    vert_count: cs[k].vert_count,
                    tri_start: sum_nat(face_counts(cs.take(k))) as u32,
                    tri_count: cs[k].faces.len() as u32,
                }) by {
                    if k < n {
                        assert(cs.take(k) == cp.take(k));
                        assert(cs[k] == cp[k]);
                        assert(layout_ranges(objs)[k] == layout_ranges(p)[k]);
                    }
                }
                assert forall|k: int, j: int|
                    0 <= k < cs.len() && 0 <= j < cs[k].faces.len() implies layout_triangles(objs)[#[trigger] triangle_slot(
                    cs,
                    k,
                    j,
                )] == global_triangle(sum_nat(vert_counts(cs.take(k))) as u32, cs[k].faces@[j]) by {
                    if k < n {
                        assert(cs.take(k) == cp.take(k));
                        assert(cs[k] == cp[k]);
                        lemma_sum_prefix(face_counts(cp), k);
                        assert(face_counts(cp).take(k) =~= face_counts(cp.take(k)));
                        assert(face_counts(cp)[k] == cp[k].faces.len());
                        assert(triangle_slot(cs, k, j) == triangle_slot(cp, k, j));
                    }
                }
                assert forall|k: int, j: int| 0 <= k < cs.len() && 0 <= j < cs[k].instance_count implies {
                    &&& layout_instances(objs)[#[trigger] instance_slot(cs, k, j)] == (InstanceRecord {
                        mesh_id: k as u32,
                        material_id: instance_slot(cs, k, j) as u32,
                    })
                    &&& layout_materials(objs)[instance_slot(cs, k, j)] == material_maps(
                        sum_nat(layer_counts(cs.take(k))) as int,
                        cs[k].maps,
                    )
                } by {
                    if k < n {
                        assert(cs.take(k) == cp.take(k));
                        assert(cs[k] == cp[k]);
                        lemma_sum_prefix(instance_counts(cp), k);
                        assert(instance_counts(cp).take(k) =~= instance_counts(cp.take(k)));
                        assert(instance_counts(cp)[k] == cp[k].instance_count);
                        assert(instance_slot(cs, k, j) == instance_slot(cp, k, j));
                    }
                }
                lemma_sum_positive(face_counts(cs));
                lemma_sum_positive(instance_counts(cs));
            },
            _ => {
                assert(cs == cp);
            },
        }
    }
}

/// Law: every material's albedo layer is a texture layer, and each of its
/// other maps is either missing (-1) or a later texture layer.
pub proof fn lemma_material_layers(objs: Seq<Option<GatherObject>>)
    requires
        layout_textures(objs).len() < i32::MAX,
    ensures
        forall|i: int|
            0 <= i < layout_materials(objs).len() ==> {
                let m = #[trigger] layout_materials(objs)[i];
                &&& 0 <= m[0] < layout_textures(objs).len()
                &&& forall|c: int|
                    1 <= c < 4 ==> m[c] == -1 || m[0] < #[trigger] m[c] < layout_textures(objs).len()
            },
    decreases objs.len(),
{
    if objs.len() > 0 {
        let p = objs.drop_last();
        lemma_layout_prefix(objs, objs.len() - 1);
        assert(objs.subrange(0, objs.len() - 1) =~= p);
        lemma_material_layers(p);
        match objs.last() {
            Some(g) if contributes(objs.last()) => {
                let base = layout_materials(p).len();
                lemma_object_layers_len((objs.len() - 1) as u32, g.maps);
                assert forall|i: int| 0 <= i < layout_materials(objs).len() implies {
                    let m = #[trigger] layout_materials(objs)[i];
                    &&& 0 <= m[0] < layout_textures(objs).len()
                    &&& forall|c: int|
                        1 <= c < 4 ==> m[c] == -1 || m[0] < #[trigger] m[c] < layout_textures(objs).len()
                } by {
                    if i < base {
                        assert(layout_materials(objs)[i] == layout_materials(p)[i]);
                    }
                }
            },
            _ => {},
        }
    }
}

/// Law: an object that does not contribute (not drawn, or without vertices,
/// faces or instances) changes nothing of the layout, wherever it stands
/// among the objects: the meshes, triangles, instances, materials and the
/// number of texture layers stay; only the object numbers that the texture
/// layers after it carry move up by one, and appended last it changes
/// nothing at all.
pub proof fn lemma_idle_object(objs: Seq<Option<GatherObject>>, i: int, o: Option<GatherObject>)
    requires
        0 <= i <= objs.len(),
        !contributes(o),
    ensures
        contributing(objs.insert(i, o)) == contributing(objs),
        layout_vertices(objs.insert(i, o)) == layout_vertices(objs),
        layout_triangles(objs.insert(i, o)) == layout_triangles(objs),
        layout_ranges(objs.insert(i, o)) == layout_ranges(objs),
        layout_instances(objs.insert(i, o)) == layout_instances(objs),
        layout_materials(objs.insert(i, o)) == layout_materials(objs),
        layout_textures(objs.insert(i, o)).len() == layout_textures(objs).len(),
        i == objs.len() ==> layout_textures(objs.insert(i, o)) == layout_textures(objs),
    decreases objs.len(),
{
    let objs2 = objs.insert(i, o);
    if i == objs.len() {
        assert(objs2.drop_last() =~= objs);
        assert(objs2.last() == o);
    } else {
        let p = objs.drop_last();
        lemma_idle_object(p, i, o);
        assert(objs2.drop_last() =~= p.insert(i, o));
        assert(objs2.last() == objs.last());
        match objs.last() {
            Some(g) if contributes(objs.last()) => {
                lemma_object_layers_len((objs2.len() - 1) as u32, g.maps);
                lemma_object_layers_len((objs.len() - 1) as u32, g.maps);
            },
            _ => {},
        }
    }
}

/// Appends one contributing object to the layout under construction: its
/// texture layers, its mesh (faces made global by `vert_start`), and one
/// instance and one material per instance.
fn gather_object(
    g: &GatherObject,
    k: u32,
    vert_start: u32,
    triangles: &mut Vec<RtTriangle>,
    ranges: &mut Vec<RtMeshRange>,
    instances: &mut Vec<InstanceRecord>,
    materials: &mut Vec<[i32; 4]>,
    textures: &mut Vec<TextureLayer>,
)
    requires
        old(ranges).len() <= u32::MAX,
        old(triangles).len() + g.faces.len() <= u32::MAX,
        forall|f: int, c: int|
            0 <= f < g.faces.len() && 0 <= c < 3 ==> vert_start + #[trigger] g.faces@[f][c] <= u32::MAX,
        old(instances).len() + g.instance_count <= u32::MAX,
        old(materials).len() == old(instances).len(),
        old(textures).len() + object_layers(k, g.maps).len() < i32::MAX,
    ensures
        final(triangles)@ == old(triangles)@ + Seq::new(
            g.faces.len() as nat,
            |f: int| global_triangle(vert_start, g.faces@[f]),
        ),
        final(ranges)@ == old(ranges)@.push(
            RtMeshRange {
                vert_start,
                vert_count: g.vert_count,
                tri_start: old(triangles).len() as u32,
                tri_count: g.faces.len() as u32,
            },
        ),
        final(textures)@ == old(textures)@ + object_layers(k, g.maps),
        final(instances)@ == old(instances)@ + Seq::new(
            g.instance_count as nat,
            |j: int|
                InstanceRecord {
                    mesh_id: old(ranges).len() as u32,
                    material_id: (old(instances).len() + j) as u32,
                },
        ),
        final(materials)@ == old(materials)@ + Seq::new(
            g.instance_count as nat,
            |j: int| material_maps(old(textures).len() as int, g.maps),
        ),
{
    let albedo = push_texture_layer(textures, Some(TextureLayer { object: k, map: 0 }));
    let normal = push_texture_layer(
        textures,
        if g.maps[0] {
            Some(TextureLayer { object: k, map: 1 })
        } else {
            None
        },
    );
    let mr = push_texture_layer(
        textures,
        if g.maps[1] {
            Some(TextureLayer { object: k, map: 2 })
        } else {
            None
        },
    );
    let emissive = push_texture_layer(
        textures,
        if g.maps[2] {
            Some(TextureLayer { object: k, map: 3 })
        } else {
            None
        },
    );
    assert(textures@ =~= old(textures)@ + object_layers(k, g.maps));
    let maps = [albedo, normal, mr, emissive];
    assert(maps =~= material_maps(old(textures).len() as int, g.maps));
    let ghost tris0 = triangles@;
    let mesh_id = push_mesh(triangles, ranges, vert_start, g.vert_count, &g.faces);
    proof {
        let added = Seq::new(g.faces.len() as nat, |f: int| global_triangle(vert_start, g.faces@[f]));
        assert forall|i: int| 0 <= i < triangles.len() implies triangles@[i] == (tris0 + added)[i] by {
            if i >= tris0.len() {
                let f = i - tris0.len();
                assert(triangles@[tris0.len() + f] == global_triangle(vert_start, g.faces@[f]));
            }
        }
        assert(triangles@ =~= tris0 + added);
    }
    let ghost inst0 = instances@;
    let ghost mat0 = materials@;
    let mut j: u32 = 0;
    while j < g.instance_count
        invariant
            0 <= j <= g.instance_count,
            inst0.len() + g.instance_count <= u32::MAX,
            inst0.len() == mat0.len(),
            mesh_id == old(ranges).len(),
            maps == material_maps(old(textures).len() as int, g.maps),
            instances@ == inst0 + Seq::new(
                j as nat,
                |jj: int| InstanceRecord { mesh_id: mesh_id, material_id: (inst0.len() + jj) as u32 },
            ),
            materials@ == mat0 + Seq::new(j as nat, |jj: int| maps),
        decreases g.instance_count - j,
    {
        let material_id = materials.len() as u32;
        materials.push(maps);
        instances.push(InstanceRecord { mesh_id, material_id });
        j = j + 1;
        assert(instances@ =~= inst0 + Seq::new(
            j as nat,
            |jj: int| InstanceRecord { mesh_id: mesh_id, material_id: (inst0.len() + jj) as u32 },
        ));
        assert(materials@ =~= mat0 + Seq::new(j as nat, |jj: int| maps));
    }
    assert(instances@ =~= inst0 + Seq::new(
        g.instance_count as nat,
        |jj: int|
            InstanceRecord {
                mesh_id: old(ranges).len() as u32,
                material_id: (inst0.len() + jj) as u32,
            },
    ));
    assert(materials@ =~= mat0 + Seq::new(
        g.instance_count as nat,
        |jj: int| material_maps(old(textures).len() as int, g.maps),
    ));
}

/// Lays out the gathered scene: walks the objects in order, skipping those
/// that are not drawn (`None`) or have no vertices, faces or instances; for
/// each other one, registers its texture maps as layers, stores its mesh once
/// (faces made global) and appends one instance and one material per
/// instance.
pub fn gather_layout(objects: &Vec<Option<GatherObject>>) -> (l: SceneLayout)
    requires
        objects.len() <= u32::MAX,
        layout_vertices(objects@) <= u32::MAX,
        layout_triangles(objects@).len() <= u32::MAX,
        layout_instances(objects@).len() <= u32::MAX,
        layout_textures(objects@).len() < i32::MAX,
        indices_fit(objects@),
    ensures
        l.triangles@ == layout_triangles(objects@),
        l.ranges@ == layout_ranges(objects@),
        l.instances@ == layout_instances(objects@),
        l.materials@ == layout_materials(objects@),
        l.textures@ == layout_textures(objects@),
        forall|i: int|
            0 <= i < l.instances.len() ==> (#[trigger] l.instances@[i]).material_id == i
                && l.instances@[i].mesh_id < l.ranges.len(),
{
    let mut triangles: Vec<RtTriangle> = Vec::new();
    let mut ranges: Vec<RtMeshRange> = Vec::new();
    let mut instances: Vec<InstanceRecord> = Vec::new();
    let mut materials: Vec<[i32; 4]> = Vec::new();
    let mut textures: Vec<TextureLayer> = Vec::new();
    let mut vert_start: u32 = 0;
    let mut k: usize = 0;
    assert(objects@.subrange(0, 0) =~= Seq::<Option<GatherObject>>::empty());
    while k < objects.len()
        invariant
            0 <= k <= objects.len(),
            objects.len() <= u32::MAX,
            layout_vertices(objects@) <= u32::MAX,
            layout_triangles(objects@).len() <= u32::MAX,
            layout_instances(objects@).len() <= u32::MAX,
            layout_textures(objects@).len() < i32::MAX,
            indices_fit(objects@),
            vert_start == layout_vertices(objects@.subrange(0, k as int)),
            triangles@ == layout_triangles(objects@.subrange(0, k as int)),
            ranges@ == layout_ranges(objects@.subrange(0, k as int)),
            instances@ == layout_instances(objects@.subrange(0, k as int)),
            materials@ == layout_materials(objects@.subrange(0, k as int)),
            textures@ == layout_textures(objects@.subrange(0, k as int)),
        decreases objects.len() - k,
    {
        let ghost q = objects@.subrange(0, k as int);
        let ghost q1 = objects@.subrange(0, k + 1);
        proof {
            assert(q1.drop_last() =~= q);
            assert(q1.last() == objects@[k as int]);
            lemma_layout_prefix(objects@, k + 1);
            lemma_ranges_len(q);
        }
        if let Some(g) = &objects[k] {
            if g.vert_count > 0 && g.faces.len() > 0 && g.instance_count > 0 {
                proof {
                    assert(contributes(q1.last()));
                    assert(indices_fit(q1));
                }
                gather_object(
                    g,
                    k as u32,
                    vert_start,
                    &mut triangles,
                    &mut ranges,
                    &mut instances,
                    &mut materials,
                    &mut textures,
                );
                vert_start = vert_start + g.vert_count;
            }
        }
        k = k + 1;
    }
    proof {
        assert(objects@.subrange(0, objects.len() as int) =~= objects@);
        lemma_instance_ids(objects@);
    }
    SceneLayout { triangles, ranges, instances, materials, textures }
}

} // verus!
