//! Name-keyed caches of meshes, materials and textures.
//!
//! Each cache maps names to shared handles of the cached resource; the handle
//! type is a parameter, so the caches hold whatever the renderer shares.

use vstd::prelude::*;
use vstd::hash_map::StringHashMap;

verus! {

/// A cache of 2D meshes, holding the built-in `rectangle` and `circle`.
#[verifier::reject_recursive_types(M)]
pub struct MeshManager2d<M> {
    meshes: StringHashMap<M>,
}

impl<M> MeshManager2d<M> {
    /// The cached meshes by name.
    pub closed spec fn view(&self) -> Map<Seq<char>, M> {
        self.meshes@
    }

    /// Creates a cache holding the built-in unit meshes under the names
    /// `rectangle` and `circle`.
    pub fn new(rectangle: M, circle: M) -> (m: Self)
        ensures
            m.view() == Map::<Seq<char>, M>::empty().insert("rectangle"@, rectangle).insert(
                "circle"@,
                circle,
            ),
    {
        let mut meshes = StringHashMap::new();
        meshes.insert("rectangle".to_owned(), rectangle);
        meshes.insert("circle".to_owned(), circle);
        MeshManager2d { meshes }
    }

    /// The mesh registered under `name`, if any.
    pub fn get(&self, name: &str) -> (r: Option<&M>)
        ensures
            match r {
                Some(v) => self.view().contains_key(name@) && *v == self.view()[name@],
                None => !self.view().contains_key(name@),
            },
    {
        self.meshes.get(name)
    }

    /// Registers `mesh` under `name`, replacing any mesh of that name.
    pub fn add(&mut self, mesh: M, name: &str)
        ensures
            final(self).view() == old(self).view().insert(name@, mesh),
    {
        self.meshes.insert(name.to_owned(), mesh);
    }

    /// Removes the mesh registered under `name`, if any.
    pub fn remove(&mut self, name: &str)
        ensures
            final(self).view() == old(self).view().remove(name@),
    {
        self.meshes.remove(name);
    }

    /// Releases every cached mesh.
    pub fn clear(&mut self)
        ensures
            final(self).view() == Map::<Seq<char>, M>::empty(),
    {
        self.meshes.clear();
    }
}

/// A cache of 3D meshes, holding the built-in `sphere`, `cube`, `cone` and
/// `cylinder`.
#[verifier::reject_recursive_types(M)]
pub struct MeshManager3d<M> {
    meshes: StringHashMap<M>,
}

impl<M> MeshManager3d<M> {
    /// The cached meshes by name.
    pub closed spec fn view(&self) -> Map<Seq<char>, M> {
        self.meshes@
    }

    /// Creates a cache holding the built-in unit meshes under the names
    /// `sphere`, `cube`, `cone` and `cylinder`.
    pub fn new(sphere: M, cube: M, cone: M, cylinder: M) -> (m: Self)
        ensures
            m.view() == Map::<Seq<char>, M>::empty().insert("sphere"@, sphere).insert(
                "cube"@,
                cube,
            ).insert("cone"@, cone).insert("cylinder"@, cylinder),
    {
        let mut meshes = StringHashMap::new();
        meshes.insert("sphere".to_owned(), sphere);
        meshes.insert("cube".to_owned(), cube);
        meshes.insert("cone".to_owned(), cone);
        meshes.insert("cylinder".to_owned(), cylinder);
        MeshManager3d { meshes }
    }

    /// The mesh registered under `name`, if any.
    pub fn get(&self, name: &str) -> (r: Option<&M>)
        ensures
            match r {
                Some(v) => self.view().contains_key(name@) && *v == self.view()[name@],
                None => !self.view().contains_key(name@),
            },
    {
        self.meshes.get(name)
    }

    /// Registers `mesh` under `name`, replacing any mesh of that name.
    pub fn add(&mut self, mesh: M, name: &str)
        ensures
            final(self).view() == old(self).view().insert(name@, mesh),
    {
        self.meshes.insert(name.to_owned(), mesh);
    }

    /// Removes the mesh registered under `name`, if any.
    pub fn remove(&mut self, name: &str)
        ensures
            final(self).view() == old(self).view().remove(name@),
    {
        self.meshes.remove(name);
    }
}

/// A cache of 2D materials with a default material, registered as `object`.
#[verifier::reject_recursive_types(M)]
pub struct MaterialManager2d<M> {
    default_material: M,
    materials: StringHashMap<M>,
}

impl<M: Clone> MaterialManager2d<M> {
    /// The cached materials by name.
    pub closed spec fn view(&self) -> Map<Seq<char>, M> {
        self.materials@
    }

    /// The default material.
    pub closed spec fn spec_default(&self) -> M {
        self.default_material
    }

    /// Creates a cache whose default material is `object`, also registered
    /// under the name `object`.
    pub fn new(object: M) -> (m: Self)
        ensures
            m.spec_default() == object,
            m.view().dom() == Set::<Seq<char>>::empty().insert("object"@),
            cloned(object, m.view()["object"@]),
    {
        let mut materials = StringHashMap::new();
        let registered = object.clone();
        materials.insert("object".to_owned(), registered);
        MaterialManager2d { default_material: object, materials }
    }

    /// The default material to draw objects.
    pub fn get_default(&self) -> (m: &M)
        ensures
            *m == self.spec_default(),
    {
        &self.default_material
    }

    /// The material registered under `name`, if any.
    pub fn get(&self, name: &str) -> (r: Option<&M>)
        ensures
            match r {
                Some(v) => self.view().contains_key(name@) && *v == self.view()[name@],
                None => !self.view().contains_key(name@),
            },
    {
        self.materials.get(name)
    }

    /// Registers `material` under `name`, replacing any material of that name.
    pub fn add(&mut self, material: M, name: &str)
        ensures
            final(self).view() == old(self).view().insert(name@, material),
            final(self).spec_default() == old(self).spec_default(),
    {
        self.materials.insert(name.to_owned(), material);
    }

    /// Removes the material registered under `name`, if any.
    pub fn remove(&mut self, name: &str)
        ensures
            final(self).view() == old(self).view().remove(name@),
            final(self).spec_default() == old(self).spec_default(),
    {
        self.materials.remove(name);
    }

    /// Releases every registered material (the default is kept).
    pub fn clear(&mut self)
        ensures
            final(self).view() == Map::<Seq<char>, M>::empty(),
            final(self).spec_default() == old(self).spec_default(),
    {
        self.materials.clear();
    }
}

/// Decodes an image file's bytes with `image::load_from_memory` and converts
/// the image with `DynamicImage::to_rgba8`, giving its dimensions and raw
/// texels, or `None` where the decoder reports an error. The decoder is chosen
/// by format detection hooks and decoding hooks that any code in the process
/// may register, so what comes back is not a function of the bytes; claimed is
/// only what holds of every image buffer: its texel bytes are at least four
/// per pixel (`ImageBuffer::from_raw` refuses a shorter buffer).
#[verifier::external_body]
fn decode_rgba8(bytes: &[u8]) -> (r: Option<(u32, u32, Vec<u8>)>)
    ensures
        r matches Some((w, h, px)) ==> px@.len() >= w * h * 4,
{
    match image::load_from_memory(bytes) {
        Ok(img) => {
            let rgba = img.to_rgba8();
            let (w, h) = rgba.dimensions();
            Some((w, h, rgba.into_raw()))
        },
        Err(_) => None,
    }
}

/// A cache of textures by name, with a default texture, that creates each
/// texture at most once per name.
#[verifier::reject_recursive_types(T)]
pub struct TextureManager<T> {
    default_texture: T,
    textures: StringHashMap<T>,
    generate_mipmaps: bool,
}

impl<T> TextureManager<T> {
    /// The cached textures by name.
    pub closed spec fn view(&self) -> Map<Seq<char>, T> {
        self.textures@
    }

    /// The default (white) texture.
    pub closed spec fn spec_default(&self) -> T {
        self.default_texture
    }

    /// Whether textures loaded from now on get mipmaps.
    pub closed spec fn spec_generate_mipmaps(&self) -> bool {
        self.generate_mipmaps
    }

    /// Creates an empty cache with the given default texture; mipmap
    /// generation is off.
    pub fn new(default_texture: T) -> (m: Self)
        ensures
            m.view() == Map::<Seq<char>, T>::empty(),
            m.spec_default() == default_texture,
            !m.spec_generate_mipmaps(),
    {
        TextureManager { default_texture, textures: StringHashMap::new(), generate_mipmaps: false }
    }

    /// The default, completely white, texture.
    pub fn get_default(&self) -> (t: &T)
        ensures
            *t == self.spec_default(),
    {
        &self.default_texture
    }

    /// The texture registered under `name`, if any.
    pub fn get(&self, name: &str) -> (r: Option<&T>)
        ensures
            match r {
                Some(v) => self.view().contains_key(name@) && *v == self.view()[name@],
                None => !self.view().contains_key(name@),
            },
    {
        self.textures.get(name)
    }

    /// Returns the texture registered under `name`; when there is none, the
    /// texture is created by `make` (which runs only then) and registered.
    /// An existing texture is never replaced.
    pub fn add_with<F: FnOnce() -> T>(&mut self, name: &str, make: F) -> (t: &T)
        requires
            call_requires(make, ()),
        ensures
            final(self).spec_default() == old(self).spec_default(),
            final(self).spec_generate_mipmaps() == old(self).spec_generate_mipmaps(),
            old(self).view().contains_key(name@) ==> {
                &&& final(self).view() == old(self).view()
                &&& *t == old(self).view()[name@]
            },
            !old(self).view().contains_key(name@) ==> {
                &&& call_ensures(make, (), *t)
                &&& final(self).view() == old(self).view().insert(name@, *t)
            },
    {
        if !self.textures.contains_key(name) {
            let texture = make();
            self.textures.insert(name.to_owned(), texture);
        }
        let r = self.textures.get(name);
        match r {
            Some(t) => t,
            None => {
                assert(false);
                &self.default_texture
            },
        }
    }

    /// Registers the texture made from an image already decoded to 8-bit
    /// RGBA (`None` when it could not be decoded). A texture registered under
    /// `name` is returned as it is; otherwise an undecodable image gives
    /// `None` and changes nothing, and a decoded one is handed to `make`
    /// (width, height, texels) and the result registered and returned.
    pub fn add_decoded<F: FnOnce(u32, u32, Vec<u8>) -> T>(
        &mut self,
        name: &str,
        decoded: Option<(u32, u32, Vec<u8>)>,
        make: F,
    ) -> (t: Option<&T>)
        requires
            forall|w: u32, h: u32, px: Vec<u8>| #[trigger] call_requires(make, (w, h, px)),
        ensures
            final(self).spec_default() == old(self).spec_default(),
            final(self).spec_generate_mipmaps() == old(self).spec_generate_mipmaps(),
            old(self).view().contains_key(name@) ==> {
                &&& final(self).view() == old(self).view()
                &&& t matches Some(v) && *v == old(self).view()[name@]
            },
            !old(self).view().contains_key(name@) && decoded is None ==> {
                &&& final(self).view() == old(self).view()
                &&& t is None
            },
            !old(self).view().contains_key(name@) && decoded is Some ==> {
                &&& t matches Some(v) && call_ensures(make, decoded.unwrap(), *v)
                &&& final(self).view() == old(self).view().insert(name@, *t.unwrap())
            },
    {
        if self.textures.contains_key(name) {
            return self.textures.get(name);
        }
        match decoded {
            None => None,
            Some((w, h, px)) => {
                let texture = make(w, h, px);
                self.textures.insert(name.to_owned(), texture);
                self.textures.get(name)
            },
        }
    }

    /// Returns the texture registered under `name`; when there is none, the
    /// image file's bytes are decoded to 8-bit RGBA and, if they decode, the
    /// texture made from them by `make` (width, height, texels) is registered
    /// and returned. Bytes that do not decode give `None` and change nothing.
    /// An existing texture is returned without decoding anything. Which image
    /// the bytes decode to is the decoder's; what is done with the result is
    /// [`add_decoded`](Self::add_decoded)'s.
    pub fn add_image_from_memory<F: FnOnce(u32, u32, Vec<u8>) -> T>(
        &mut self,
        image_data: &[u8],
        name: &str,
        make: F,
    ) -> (t: Option<&T>)
        requires
            forall|w: u32, h: u32, px: Vec<u8>| #[trigger] call_requires(make, (w, h, px)),
        ensures
            final(self).spec_default() == old(self).spec_default(),
            final(self).spec_generate_mipmaps() == old(self).spec_generate_mipmaps(),
            old(self).view().contains_key(name@) ==> {
                &&& final(self).view() == old(self).view()
                &&& t matches Some(v) && *v == old(self).view()[name@]
            },
            !old(self).view().contains_key(name@) ==> {
                ||| {
                    &&& t is None
                    &&& final(self).view() == old(self).view()
                }
                ||| {
                    &&& t is Some
                    &&& final(self).view() == old(self).view().insert(name@, *t.unwrap())
                    &&& exists|w: u32, h: u32, px: Vec<u8>|
                        px@.len() >= w * h * 4 && #[trigger] call_ensures(make, (w, h, px), *t.unwrap())
                }
            },
    {
        if self.textures.contains_key(name) {
            return self.textures.get(name);
        }
        let decoded = decode_rgba8(image_data);
        let ghost d = decoded;
        let t = self.add_decoded(name, decoded, make);
        proof {
            if d is Some {
                let (w, h, px) = d.unwrap();
                assert(call_ensures(make, (w, h, px), *t.unwrap()));
            }
        }
        t
    }

    /// Changes whether textures loaded from now on get mipmaps; textures
    /// already loaded are not affected.
    pub fn set_generate_mipmaps(&mut self, enabled: bool)
        ensures
            final(self).spec_generate_mipmaps() == enabled,
            final(self).view() == old(self).view(),
            final(self).spec_default() == old(self).spec_default(),
    {
        self.generate_mipmaps = enabled;
    }

    /// Whether textures loaded from now on get mipmaps.
    pub fn generate_mipmaps(&self) -> (b: bool)
        ensures
            b == self.spec_generate_mipmaps(),
    {
        self.generate_mipmaps
    }
}

} // verus!
