//! A builder for bind-group layouts: the ordered list of resource bindings a
//! render pipeline declares. The builder collects visibility/type pairs; the
//! binding slot of each is its position in the order they were added. The
//! finished list of layout bindings is handed to the graphics backend by the
//! surrounding application.

use vstd::prelude::*;

verus! {

/// Which shader stages see a binding, as a stage bit set.
#[derive(Clone, Copy, Debug, PartialEq, Eq, Structural)]
pub struct ShaderStage {
    pub bits: u32,
}

/// The dimensionality of a texture view.
#[derive(Clone, Copy, Debug, PartialEq, Eq, Structural)]
pub enum TextureViewDimension {
    D1,
    D2,
    D2Array,
    Cube,
    CubeArray,
    D3,
}

/// The type of a single binding.
#[derive(Clone, Copy, Debug, PartialEq, Eq, Structural)]
pub enum BindingType {
    UniformBuffer { dynamic: bool },
    StorageBuffer { dynamic: bool, readonly: bool },
    Sampler,
    SampledTexture { multisampled: bool, dimension: TextureViewDimension },
    StorageTexture { dimension: TextureViewDimension },
}

/// What the layout builder reads of a texture: its sample count and the
/// dimension a full view of it has.
#[derive(Clone, Copy, Debug, PartialEq, Eq, Structural)]
pub struct Texture {
    pub sample_count: u32,
    pub view_dimension: TextureViewDimension,
}

/// One finished layout entry: a binding slot, its visibility and its type.
#[derive(Clone, Copy, Debug, PartialEq, Eq, Structural)]
pub struct BindGroupLayoutBinding {
    pub binding: u32,
    pub visibility: ShaderStage,
    pub ty: BindingType,
}

/// A type aimed at simplifying the creation of a bind group layout.
#[derive(Debug)]
pub struct LayoutBuilder {
    bindings: Vec<(ShaderStage, BindingType)>,
}

impl View for LayoutBuilder {
    type V = Seq<(ShaderStage, BindingType)>;

    closed spec fn view(&self) -> Seq<(ShaderStage, BindingType)> {
        self.bindings@
    }
}

impl LayoutBuilder {
    /// Create a new empty builder.
    pub fn new() -> (b: LayoutBuilder)
        ensures
            b@ == Seq::<(ShaderStage, BindingType)>::empty(),
    {
        let b = LayoutBuilder { bindings: Vec::new() };
        proof {
            assert(b@ =~= Seq::<(ShaderStage, BindingType)>::empty());
        }
        b
    }

    /// Specify a new binding. Its slot will be its position in the order
    /// the bindings were added.
    pub fn binding(self, visibility: ShaderStage, ty: BindingType) -> (b: LayoutBuilder)
        ensures
            b@ == self@.push((visibility, ty)),
    {
        let mut bindings = self.bindings;
        bindings.push((visibility, ty));
        LayoutBuilder { bindings }
    }

    /// Add a uniform buffer binding to the layout.
    pub fn uniform_buffer(self, visibility: ShaderStage, dynamic: bool) -> (b: LayoutBuilder)
        ensures
            b@ == self@.push((visibility, BindingType::UniformBuffer { dynamic })),
    {
        let ty = BindingType::UniformBuffer { dynamic };
        self.binding(visibility, ty)
    }

    /// Add a storage buffer binding to the layout.
    pub fn storage_buffer(self, visibility: ShaderStage, dynamic: bool, readonly: bool) -> (b:
        LayoutBuilder)
        ensures
            b@ == self@.push((visibility, BindingType::StorageBuffer { dynamic, readonly })),
    {
        let ty = BindingType::StorageBuffer { dynamic, readonly };
        self.binding(visibility, ty)
    }

    /// Add a sampler binding to the layout.
    pub fn sampler(self, visibility: ShaderStage) -> (b: LayoutBuilder)
        ensures
            b@ == self@.push((visibility, BindingType::Sampler)),
    {
        let ty = BindingType::Sampler;
        self.binding(visibility, ty)
    }

    /// Add a sampled texture binding to the layout.
    pub fn sampled_texture(
        self,
        visibility: ShaderStage,
        multisampled: bool,
        dimension: TextureViewDimension,
    ) -> (b: LayoutBuilder)
        ensures
            b@ == self@.push(
                (visibility, BindingType::SampledTexture { multisampled, dimension }),
            ),
    {
        let ty = BindingType::SampledTexture { multisampled, dimension };
        self.binding(visibility, ty)
    }

    /// Short-hand for adding a sampled texture binding for a full view of
    /// the given texture: multisampling and dimension are read from the
    /// texture itself.
    pub fn sampled_texture_from(self, visibility: ShaderStage, texture: &Texture) -> (b:
        LayoutBuilder)
        ensures
            b@ == self@.push(
                (
                    visibility,
                    BindingType::SampledTexture {
                        multisampled: texture.sample_count > 1,
                        dimension: texture.view_dimension,
                    },
                ),
            ),
    {
        self.sampled_texture(visibility, texture.sample_count > 1, texture.view_dimension)
    }

    /// Add a storage texture binding to the layout.
    pub fn storage_texture(self, visibility: ShaderStage, dimension: TextureViewDimension) -> (b:
        LayoutBuilder)
        ensures
            b@ == self@.push((visibility, BindingType::StorageTexture { dimension })),
    {
        let ty = BindingType::StorageTexture { dimension };
        self.binding(visibility, ty)
    }

    /// Build the layout entries: one per added binding, in order, each slot
    /// its position. The surrounding application hands the result to the
    /// graphics backend.
    pub fn build(self) -> (r: Vec<BindGroupLayoutBinding>)
        requires
            self@.len() <= 0xffff_ffff,
        ensures
            r@.len() == self@.len(),
            forall|i: int|
                0 <= i < self@.len() ==> (#[trigger] r@[i]).binding == i && r@[i].visibility
                    == self@[i].0 && r@[i].ty == self@[i].1,
    {
        let mut out: Vec<BindGroupLayoutBinding> = Vec::new();
        let mut i: usize = 0;
        let n = self.bindings.len();
        while i < n
            invariant
                n == self@.len(),
                n <= 0xffff_ffff,
                i <= n,
                out@.len() == i,
                forall|j: int|
                    0 <= j < i ==> (#[trigger] out@[j]).binding == j && out@[j].visibility
                        == self@[j].0 && out@[j].ty == self@[j].1,
        decreases n - i,
        {
            let (visibility, ty) = self.bindings[i];
            out.push(BindGroupLayoutBinding { binding: i as u32, visibility, ty });
            i = i + 1;
        }
        out
    }
}

} // verus!
