//! The key that selects a variant of the terrain render pipeline.
//!
//! The key is a set of flags in the low bits of a 32-bit word, one for each
//! debug option of the terrain, and the number of samples per pixel, less
//! one, in its top six bits.

use vstd::prelude::*;
use vstd::string::StringExecFns;

verus! {

/// No flag.
pub const NONE: u32 = 0;

/// Draw the terrain as a wireframe.
pub const WIREFRAME: u32 = 0x1;

/// Colour each tile of the terrain.
pub const SHOW_TILES: u32 = 0x2;

/// Colour the terrain by its level of detail.
pub const SHOW_LOD: u32 = 0x4;

/// Colour the terrain by its texture coordinate.
pub const SHOW_UV: u32 = 0x8;

/// Bound the levels of detail by a circle rather than a square.
pub const CIRCULAR_LOD: u32 = 0x10;

/// Morph the mesh between levels of detail.
pub const MESH_MORPH: u32 = 0x20;

/// Sample the albedo attachment.
pub const ALBEDO: u32 = 0x40;

/// Draw the terrain in a bright colour.
pub const BRIGHT: u32 = 0x80;

/// Light the terrain.
pub const LIGHTING: u32 = 0x100;

/// An option for experiments.
pub const TEST: u32 = 0x200;

/// The bits that hold the number of samples per pixel.
pub const MSAA_RESERVED_BITS: u32 = 0xFC00_0000;

/// The mask of the number of samples per pixel, once shifted down.
pub const MSAA_MASK_BITS: u32 = 0x3F;

/// By how many bits the number of samples per pixel is shifted up.
pub const MSAA_SHIFT_BITS: u32 = 26;

/// Every bit that has a meaning in a key.
pub const ALL_BITS: u32 = 0xFC00_03FF;

/// The debug options of the terrain.
#[derive(Clone, Copy, Debug, PartialEq, Eq, Structural)]
pub struct DebugTerrain {
    /// Draw the terrain as a wireframe.
    pub wireframe: bool,
    /// Colour each tile of the terrain.
    pub show_tiles: bool,
    /// Colour the terrain by its level of detail.
    pub show_lod: bool,
    /// Colour the terrain by its texture coordinate.
    pub show_uv: bool,
    /// Bound the levels of detail by a circle rather than a square.
    pub circular_lod: bool,
    /// Morph the mesh between levels of detail.
    pub mesh_morph: bool,
    /// Sample the albedo attachment.
    pub albedo: bool,
    /// Draw the terrain in a bright colour.
    pub bright: bool,
    /// Light the terrain.
    pub lighting: bool,
    /// An option for experiments.
    pub test: bool,
}

/// How the triangles of the terrain are drawn.
#[derive(Clone, Copy, Debug, PartialEq, Eq, Structural)]
pub enum PolygonMode {
    /// The triangles are filled.
    Fill,
    /// Only the edges of the triangles are drawn.
    Line,
}

/// Whether `bits` has a bit of `flag` set.
pub open spec fn has(bits: u32, flag: u32) -> bool {
    bits & flag != 0
}

/// The bits of `flag` if `on`, else none.
pub open spec fn flag_if(on: bool, flag: u32) -> u32 {
    if on {
        flag
    } else {
        0
    }
}

/// The bits of the key for the debug options `debug`.
pub open spec fn debug_bits(debug: DebugTerrain) -> u32 {
    flag_if(debug.wireframe, WIREFRAME) | flag_if(debug.show_tiles, SHOW_TILES) | flag_if(
        debug.show_lod,
        SHOW_LOD,
    ) | flag_if(debug.show_uv, SHOW_UV) | flag_if(debug.circular_lod, CIRCULAR_LOD) | flag_if(
        debug.mesh_morph,
        MESH_MORPH,
    ) | flag_if(debug.albedo, ALBEDO) | flag_if(debug.bright, BRIGHT) | flag_if(
        debug.lighting,
        LIGHTING,
    ) | flag_if(debug.test, TEST)
}

/// The name `name` if `bits` has the flag `flag`, else nothing.
pub open spec fn named(bits: u32, flag: u32, name: Seq<char>) -> Seq<Seq<char>> {
    if has(bits, flag) {
        seq![name]
    } else {
        Seq::empty()
    }
}

/// The names that the shader is compiled with for a key with the bits
/// `bits`: one for each flag that is set, the wireframe flag apart, in the
/// order of the flags.
pub open spec fn shader_def_names(bits: u32) -> Seq<Seq<char>> {
    named(bits, SHOW_TILES, "SHOW_TILES"@) + named(bits, SHOW_LOD, "SHOW_LOD"@) + named(
        bits,
        SHOW_UV,
        "SHOW_UV"@,
    ) + named(bits, CIRCULAR_LOD, "CIRCULAR_LOD"@) + named(bits, MESH_MORPH, "MESH_MORPH"@)
        + named(bits, ALBEDO, "ALBEDO"@) + named(bits, BRIGHT, "BRIGHT"@) + named(
        bits,
        LIGHTING,
        "LIGHTING"@,
    ) + named(bits, TEST, "TEST"@)
}

/// What each of `defs` reads.
pub open spec fn texts(defs: Seq<String>) -> Seq<Seq<char>> {
    defs.map_values(|def: String| def@)
}

/// The key of a variant of the terrain render pipeline.
#[derive(Clone, Copy, Debug, PartialEq, Eq, Hash, Structural)]
pub struct TerrainPipelineKey {
    bits: u32,
}

impl TerrainPipelineKey {
    /// The bits of the key.
    pub closed spec fn view(&self) -> u32 {
        self.bits
    }

    /// The number of samples per pixel that the key holds.
    pub open spec fn samples(&self) -> int {
        self@ as int / 0x400_0000 + 1
    }

    /// The key with the bits `bits`, unless one of them has no meaning.
    pub fn from_bits(bits: u32) -> (key: Option<TerrainPipelineKey>)
        ensures
            key is Some <==> bits & !ALL_BITS == 0,
            key is Some ==> key->Some_0@ == bits,
    {
        if bits & !ALL_BITS == 0 {
            Some(TerrainPipelineKey { bits })
        } else {
            None
        }
    }

    /// The bits of the key.
    pub fn bits(&self) -> (bits: u32)
        ensures
            bits == self@,
    {
        self.bits
    }

    /// Whether the key has a bit of `flag` set.
    pub fn contains(&self, flag: u32) -> (set: bool)
        ensures
            set == has(self@, flag),
    {
        self.bits & flag != 0
    }

    /// The key that has the bits of both keys.
    pub fn union(self, other: TerrainPipelineKey) -> (key: TerrainPipelineKey)
        ensures
            key@ == self@ | other@,
    {
        TerrainPipelineKey { bits: self.bits | other.bits }
    }

    /// The key for `msaa_samples` samples per pixel and no flag. Counts
    /// above 64 wrap around.
    pub fn from_msaa_samples(msaa_samples: u32) -> (key: TerrainPipelineKey)
        requires
            msaa_samples >= 1,
        ensures
            key@ as int == ((msaa_samples - 1) % 64) * 0x400_0000,
            key.samples() == (msaa_samples - 1) % 64 + 1,
            msaa_samples <= 64 ==> key.samples() == msaa_samples,
            key@ & !MSAA_RESERVED_BITS == 0,
    {
        let less: u32 = msaa_samples - 1;
        let msaa_bits: u32 = (less & MSAA_MASK_BITS) << MSAA_SHIFT_BITS;
        assert(msaa_bits as int == (less % 64) * 0x400_0000 && msaa_bits & !0xFC00_0000u32 == 0)
            by (bit_vector)
            requires
                msaa_bits == (less & 0x3F) << 26,
        ;
        TerrainPipelineKey { bits: msaa_bits }
    }

    /// The key for the debug options `debug`, with the number of samples per
    /// pixel left open.
    pub fn from_debug(debug: &DebugTerrain) -> (key: TerrainPipelineKey)
        ensures
            key@ == debug_bits(*debug),
            has(key@, WIREFRAME) == debug.wireframe,
            has(key@, SHOW_TILES) == debug.show_tiles,
            has(key@, SHOW_LOD) == debug.show_lod,
            has(key@, SHOW_UV) == debug.show_uv,
            has(key@, CIRCULAR_LOD) == debug.circular_lod,
            has(key@, MESH_MORPH) == debug.mesh_morph,
            has(key@, ALBEDO) == debug.albedo,
            has(key@, BRIGHT) == debug.bright,
            has(key@, LIGHTING) == debug.lighting,
            has(key@, TEST) == debug.test,
            key@ & MSAA_RESERVED_BITS == 0,
    {
        let bits = with_flag(NONE, debug.wireframe, WIREFRAME);
        let bits = with_flag(bits, debug.show_tiles, SHOW_TILES);
        let bits = with_flag(bits, debug.show_lod, SHOW_LOD);
        let bits = with_flag(bits, debug.show_uv, SHOW_UV);
        let bits = with_flag(bits, debug.circular_lod, CIRCULAR_LOD);
        let bits = with_flag(bits, debug.mesh_morph, MESH_MORPH);
        let bits = with_flag(bits, debug.albedo, ALBEDO);
        let bits = with_flag(bits, debug.bright, BRIGHT);
        let bits = with_flag(bits, debug.lighting, LIGHTING);
        let bits = with_flag(bits, debug.test, TEST);
        proof {
            let first = flag_if(debug.wireframe, WIREFRAME);
            assert(0u32 | first == first) by (bit_vector);
            lemma_debug_bits(*debug);
        }
        TerrainPipelineKey { bits }
    }

    /// The number of samples per pixel that the key holds.
    pub fn msaa_samples(&self) -> (samples: u32)
        ensures
            samples as int == self.samples(),
            1 <= samples <= 64,
    {
        let bits = self.bits;
        let field: u32 = (bits >> MSAA_SHIFT_BITS) & MSAA_MASK_BITS;
        assert(field == bits / 0x400_0000 && field < 64) by (bit_vector)
            requires
                field == (bits >> 26) & 0x3F,
        ;
        field + 1
    }

    /// How the triangles are drawn: as lines for a wireframe, else filled.
    pub fn polygon_mode(&self) -> (mode: PolygonMode)
        ensures
            mode == if has(self@, WIREFRAME) {
                PolygonMode::Line
            } else {
                PolygonMode::Fill
            },
    {
        if (self.bits & WIREFRAME) != 0 {
            PolygonMode::Line
        } else {
            PolygonMode::Fill
        }
    }

    /// The names that the shader is compiled with: one for each flag of the
    /// key, the wireframe flag apart, in the order of the flags.
    pub fn shader_defs(&self) -> (shader_defs: Vec<String>)
        ensures
            texts(shader_defs@) == shader_def_names(self@),
    {
        let mut shader_defs: Vec<String> = Vec::new();
        let bits = self.bits;
        proof {
            assert(texts(shader_defs@) =~= Seq::<Seq<char>>::empty());
        }
        push_def(&mut shader_defs, bits, SHOW_TILES, "SHOW_TILES");
        push_def(&mut shader_defs, bits, SHOW_LOD, "SHOW_LOD");
        push_def(&mut shader_defs, bits, SHOW_UV, "SHOW_UV");
        push_def(&mut shader_defs, bits, CIRCULAR_LOD, "CIRCULAR_LOD");
        push_def(&mut shader_defs, bits, MESH_MORPH, "MESH_MORPH");
        push_def(&mut shader_defs, bits, ALBEDO, "ALBEDO");
        push_def(&mut shader_defs, bits, BRIGHT, "BRIGHT");
        push_def(&mut shader_defs, bits, LIGHTING, "LIGHTING");
        push_def(&mut shader_defs, bits, TEST, "TEST");
        proof {
            assert(texts(shader_defs@) =~= shader_def_names(bits));
        }
        shader_defs
    }
}

/// The bits `bits` with those of `flag` added if `on`.
fn with_flag(bits: u32, on: bool, flag: u32) -> (with: u32)
    ensures
        with == bits | flag_if(on, flag),
{
    if on {
        bits | flag
    } else {
        assert(bits | 0u32 == bits) by (bit_vector);
        bits
    }
}

/// Appends `name` to `defs` if `bits` has the flag `flag`.
fn push_def(defs: &mut Vec<String>, bits: u32, flag: u32, name: &str)
    ensures
        texts(final(defs)@) == texts(old(defs)@) + named(bits, flag, name@),
{
    if (bits & flag) != 0 {
        defs.push(String::from_str(name));
        proof {
            assert(texts(defs@) =~= texts(old(defs)@) + seq![name@]);
        }
    } else {
        proof {
            assert(texts(defs@) =~= texts(old(defs)@) + Seq::<Seq<char>>::empty());
        }
    }
}

/// The key of some debug options has the flag of an option exactly if the
/// option is on, and it leaves the number of samples per pixel open.
pub proof fn lemma_debug_bits(debug: DebugTerrain)
    ensures
        has(debug_bits(debug), WIREFRAME) == debug.wireframe,
        has(debug_bits(debug), SHOW_TILES) == debug.show_tiles,
        has(debug_bits(debug), SHOW_LOD) == debug.show_lod,
        has(debug_bits(debug), SHOW_UV) == debug.show_uv,
        has(debug_bits(debug), CIRCULAR_LOD) == debug.circular_lod,
        has(debug_bits(debug), MESH_MORPH) == debug.mesh_morph,
        has(debug_bits(debug), ALBEDO) == debug.albedo,
        has(debug_bits(debug), BRIGHT) == debug.bright,
        has(debug_bits(debug), LIGHTING) == debug.lighting,
        has(debug_bits(debug), TEST) == debug.test,
        debug_bits(debug) & MSAA_RESERVED_BITS == 0,
        debug_bits(debug) & !ALL_BITS == 0,
{
    let a = flag_if(debug.wireframe, WIREFRAME);
    let b = flag_if(debug.show_tiles, SHOW_TILES);
    let c = flag_if(debug.show_lod, SHOW_LOD);
    let d = flag_if(debug.show_uv, SHOW_UV);
    let e = flag_if(debug.circular_lod, CIRCULAR_LOD);
    let f = flag_if(debug.mesh_morph, MESH_MORPH);
    let g = flag_if(debug.albedo, ALBEDO);
    let h = flag_if(debug.bright, BRIGHT);
    let i = flag_if(debug.lighting, LIGHTING);
    let j = flag_if(debug.test, TEST);
    let all = a | b | c | d | e | f | g | h | i | j;
    assert({
        &&& (all & 0x1 != 0) == (a != 0)
        &&& (all & 0x2 != 0) == (b != 0)
        &&& (all & 0x4 != 0) == (c != 0)
        &&& (all & 0x8 != 0) == (d != 0)
        &&& (all & 0x10 != 0) == (e != 0)
        &&& (all & 0x20 != 0) == (f != 0)
        &&& (all & 0x40 != 0) == (g != 0)
        &&& (all & 0x80 != 0) == (h != 0)
        &&& (all & 0x100 != 0) == (i != 0)
        &&& (all & 0x200 != 0) == (j != 0)
        &&& all & 0xFC00_0000u32 == 0
        &&& all & !0xFC00_03FFu32 == 0
    }) by (bit_vector)
        requires
            all == a | b | c | d | e | f | g | h | i | j,
            a == 0 || a == 0x1,
            b == 0 || b == 0x2,
            c == 0 || c == 0x4,
            d == 0 || d == 0x8,
            e == 0 || e == 0x10,
            f == 0 || f == 0x20,
            g == 0 || g == 0x40,
            h == 0 || h == 0x80,
            i == 0 || i == 0x100,
            j == 0 || j == 0x200,
    ;
}

/// The number of samples and the flags do not disturb one another: the key
/// made of both holds the number of samples of the one and the flags of the
/// other.
pub proof fn lemma_union_keeps(samples_bits: u32, flag_bits: u32, flag: u32)
    requires
        samples_bits & !MSAA_RESERVED_BITS == 0,
        flag_bits & MSAA_RESERVED_BITS == 0,
        flag & MSAA_RESERVED_BITS == 0,
    ensures
        (samples_bits | flag_bits) as int / 0x400_0000 == samples_bits as int / 0x400_0000,
        has(samples_bits | flag_bits, flag) == has(flag_bits, flag),
{
    assert((samples_bits | flag_bits) / 0x400_0000 == samples_bits / 0x400_0000 && (((samples_bits
        | flag_bits) & flag != 0) == (flag_bits & flag != 0))) by (bit_vector)
        requires
            samples_bits & !0xFC00_0000u32 == 0,
            flag_bits & 0xFC00_0000u32 == 0,
            flag & 0xFC00_0000u32 == 0,
    ;
}

} // verus!
