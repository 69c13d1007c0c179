//! Tests of the bind-group layout builder: binding slots are assigned in
//! the order the bindings were added.

use growth::bind_group::{
    BindingType, LayoutBuilder, ShaderStage, Texture, TextureViewDimension,
};

#[test]
fn empty_builder_builds_no_bindings() {
    let out = LayoutBuilder::new().build();
    assert!(out.is_empty());
}

#[test]
fn bindings_get_slots_in_order() {
    let vs = ShaderStage { bits: 1 };
    let fs = ShaderStage { bits: 2 };
    let out = LayoutBuilder::new()
        .uniform_buffer(vs, false)
        .sampler(fs)
        .storage_buffer(fs, true, false)
        .storage_texture(fs, TextureViewDimension::D2)
        .build();
    assert_eq!(out.len(), 4);
    for (i, b) in out.iter().enumerate() {
        assert_eq!(b.binding, i as u32);
    }
    assert_eq!(out[0].visibility, vs);
    assert_eq!(out[0].ty, BindingType::UniformBuffer { dynamic: false });
    assert_eq!(out[1].ty, BindingType::Sampler);
    assert_eq!(out[2].ty, BindingType::StorageBuffer { dynamic: true, readonly: false });
    assert_eq!(out[3].ty, BindingType::StorageTexture { dimension: TextureViewDimension::D2 });
}

#[test]
fn sampled_texture_from_reads_the_texture() {
    let fs = ShaderStage { bits: 2 };
    let single = Texture { sample_count: 1, view_dimension: TextureViewDimension::Cube };
    let multi = Texture { sample_count: 4, view_dimension: TextureViewDimension::D2 };
    let out = LayoutBuilder::new()
        .sampled_texture_from(fs, &single)
        .sampled_texture_from(fs, &multi)
        .build();
    assert_eq!(
        out[0].ty,
        BindingType::SampledTexture { multisampled: false, dimension: TextureViewDimension::Cube }
    );
    assert_eq!(
        out[1].ty,
        BindingType::SampledTexture { multisampled: true, dimension: TextureViewDimension::D2 }
    );
}
