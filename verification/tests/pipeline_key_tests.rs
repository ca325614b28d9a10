use terrain_stream::pipeline_key::{
    DebugTerrain, PolygonMode, TerrainPipelineKey, ALBEDO, ALL_BITS, BRIGHT, CIRCULAR_LOD,
    LIGHTING, MESH_MORPH, MSAA_RESERVED_BITS, NONE, SHOW_LOD, SHOW_TILES, SHOW_UV, TEST,
    WIREFRAME,
};

fn off() -> DebugTerrain {
    DebugTerrain {
        wireframe: false,
        show_tiles: false,
        show_lod: false,
        show_uv: false,
        circular_lod: false,
        mesh_morph: false,
        albedo: false,
        bright: false,
        lighting: false,
        test: false,
    }
}

fn on() -> DebugTerrain {
    DebugTerrain {
        wireframe: true,
        show_tiles: true,
        show_lod: true,
        show_uv: true,
        circular_lod: true,
        mesh_morph: true,
        albedo: true,
        bright: true,
        lighting: true,
        test: true,
    }
}

#[test]
fn key_of_sample_counts() {
    assert_eq!(TerrainPipelineKey::from_msaa_samples(1).bits(), 0);
    assert_eq!(TerrainPipelineKey::from_msaa_samples(2).bits(), 1 << 26);
    assert_eq!(TerrainPipelineKey::from_msaa_samples(4).bits(), 3 << 26);
    assert_eq!(TerrainPipelineKey::from_msaa_samples(64).bits(), MSAA_RESERVED_BITS);
    assert_eq!(TerrainPipelineKey::from_msaa_samples(65).bits(), 0);
}

#[test]
fn sample_count_of_keys() {
    for samples in [1u32, 2, 4, 8, 16, 63, 64] {
        assert_eq!(TerrainPipelineKey::from_msaa_samples(samples).msaa_samples(), samples);
    }
    assert_eq!(TerrainPipelineKey::from_msaa_samples(65).msaa_samples(), 1);
    assert_eq!(TerrainPipelineKey::from_debug(&on()).msaa_samples(), 1);
}

#[test]
fn key_of_debug_options() {
    assert_eq!(TerrainPipelineKey::from_debug(&off()).bits(), NONE);
    assert_eq!(TerrainPipelineKey::from_debug(&on()).bits(), 0x3FF);
    let some = DebugTerrain { wireframe: true, albedo: true, lighting: true, ..off() };
    assert_eq!(TerrainPipelineKey::from_debug(&some).bits(), 0x141);
    let one = DebugTerrain { test: true, ..off() };
    let key = TerrainPipelineKey::from_debug(&one);
    assert_eq!(key.bits(), TEST);
    assert!(key.contains(TEST));
    assert!(!key.contains(WIREFRAME));
    for flag in [WIREFRAME, SHOW_TILES, SHOW_LOD, SHOW_UV, CIRCULAR_LOD, MESH_MORPH, ALBEDO, BRIGHT, LIGHTING, TEST] {
        assert!(TerrainPipelineKey::from_debug(&on()).contains(flag));
        assert!(!TerrainPipelineKey::from_debug(&off()).contains(flag));
    }
}

#[test]
fn key_from_bits() {
    assert_eq!(TerrainPipelineKey::from_bits(0).map(|k| k.bits()), Some(0));
    assert_eq!(TerrainPipelineKey::from_bits(ALL_BITS).map(|k| k.bits()), Some(ALL_BITS));
    assert_eq!(TerrainPipelineKey::from_bits(0x400), None);
    assert_eq!(TerrainPipelineKey::from_bits(0x0200_0000), None);
    assert_eq!(TerrainPipelineKey::from_bits(u32::MAX), None);
}

#[test]
fn union_holds_samples_and_flags() {
    let some = DebugTerrain { show_lod: true, bright: true, ..off() };
    let key = TerrainPipelineKey::from_msaa_samples(4).union(TerrainPipelineKey::from_debug(&some));
    assert_eq!(key.bits(), (3 << 26) | SHOW_LOD | BRIGHT);
    assert_eq!(key.msaa_samples(), 4);
    assert!(key.contains(SHOW_LOD));
    assert!(key.contains(BRIGHT));
    assert!(!key.contains(LIGHTING));
    assert_eq!(key.shader_defs(), vec!["SHOW_LOD".to_string(), "BRIGHT".to_string()]);
}

#[test]
fn polygon_mode_follows_the_wireframe_flag() {
    let wire = DebugTerrain { wireframe: true, ..off() };
    assert_eq!(TerrainPipelineKey::from_debug(&wire).polygon_mode(), PolygonMode::Line);
    assert_eq!(TerrainPipelineKey::from_debug(&off()).polygon_mode(), PolygonMode::Fill);
    assert_eq!(TerrainPipelineKey::from_msaa_samples(64).polygon_mode(), PolygonMode::Fill);
}

#[test]
fn shader_defs_name_the_flags_in_order() {
    assert_eq!(TerrainPipelineKey::from_debug(&off()).shader_defs(), Vec::<String>::new());
    let wire = DebugTerrain { wireframe: true, ..off() };
    assert_eq!(TerrainPipelineKey::from_debug(&wire).shader_defs(), Vec::<String>::new());
    assert_eq!(TerrainPipelineKey::from_msaa_samples(64).shader_defs(), Vec::<String>::new());
    let all: Vec<String> = [
        "SHOW_TILES",
        "SHOW_LOD",
        "SHOW_UV",
        "CIRCULAR_LOD",
        "MESH_MORPH",
        "ALBEDO",
        "BRIGHT",
        "LIGHTING",
        "TEST",
    ]
    .iter()
    .map(|name| name.to_string())
    .collect();
    assert_eq!(TerrainPipelineKey::from_debug(&on()).shader_defs(), all);
    let some = DebugTerrain { show_uv: true, mesh_morph: true, test: true, ..off() };
    assert_eq!(
        TerrainPipelineKey::from_debug(&some).shader_defs(),
        vec!["SHOW_UV".to_string(), "MESH_MORPH".to_string(), "TEST".to_string()]
    );
}
