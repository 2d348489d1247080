//! The packed material word and the fixed-size chunk of materials that is
//! uploaded to the GPU.
//!
//! A material is one `u32`: red in bits 24..32, green in 16..24, blue in
//! 8..16, a kind flag in bits 6..8 (0 absent, 1 rough, 2 emissive,
//! 3 opacity) and a six-bit attribute in bits 0..6.

use vstd::prelude::*;

verus! {

/// An 8-bit-per-channel color.
#[derive(Clone, Copy, Debug, PartialEq, Eq, Structural)]
pub struct Color {
    r: u8,
    g: u8,
    b: u8,
}

impl Color {
    pub closed spec fn red(self) -> u8 {
        self.r
    }

    pub closed spec fn green(self) -> u8 {
        self.g
    }

    pub closed spec fn blue(self) -> u8 {
        self.b
    }

    pub fn new(r: u8, g: u8, b: u8) -> (c: Self)
        ensures
            c.red() == r,
            c.green() == g,
            c.blue() == b,
    {
        Color { r, g, b }
    }
}

/// The kind of a material with its 8-bit attribute.
#[derive(Clone, Copy, Debug, PartialEq, Eq, Structural)]
pub enum MaterialType {
    Absent,
    Rough(u8),
    Emissive(u8),
    Opacity(u8),
}

/// The low byte of the word for a material kind: the flag in the top two
/// bits and the attribute reduced to six bits.
pub open spec fn type_byte(t: MaterialType) -> int {
    match t {
        MaterialType::Absent => 0,
        MaterialType::Rough(v) => 64 + v / 4,
        MaterialType::Emissive(v) => 128 + v / 4,
        MaterialType::Opacity(v) => 192 + v / 4,
    }
}

/// The kind stored in the low byte `low` of a word.
pub open spec fn kind_of(low: int) -> MaterialType {
    let attrib = (low % 64) as u8;
    if low / 64 == 1 {
        MaterialType::Rough(attrib)
    } else if low / 64 == 2 {
        MaterialType::Emissive(attrib)
    } else if low / 64 == 3 {
        MaterialType::Opacity(attrib)
    } else {
        MaterialType::Absent
    }
}

/// The word with channels `r`, `g`, `b` and low byte `low`.
pub open spec fn pack(r: int, g: int, b: int, low: int) -> int {
    r * 0x100_0000 + g * 0x1_0000 + b * 0x100 + low
}

impl MaterialType {
    fn to_byte(&self) -> (r: u8)
        ensures
            r == type_byte(*self),
    {
        match *self {
            MaterialType::Absent => 0,
            MaterialType::Rough(v) => {
                assert((0x40u8 | (v >> 2u8)) == 64 + v / 4) by (bit_vector);
                0x40u8 | (v >> 2u8)
            },
            MaterialType::Emissive(v) => {
                assert((0x80u8 | (v >> 2u8)) == 128 + v / 4) by (bit_vector);
                0x80u8 | (v >> 2u8)
            },
            MaterialType::Opacity(v) => {
                assert((0xC0u8 | (v >> 2u8)) == 192 + v / 4) by (bit_vector);
                0xC0u8 | (v >> 2u8)
            },
        }
    }
}

/// A packed material word.
#[derive(Clone, Copy, Debug, PartialEq, Eq, Structural)]
pub struct Material {
    data: u32,
}

impl Material {
    /// The packed word.
    pub closed spec fn word(self) -> u32 {
        self.data
    }

    /// The kind and attribute that the word stores.
    pub open spec fn kind(self) -> MaterialType {
        kind_of(self.word() as int % 256)
    }

    /// The word is not absent: its flag bits are not both clear.
    pub open spec fn present(self) -> bool {
        self.word() as int % 256 >= 64
    }

    /// A material of color `color` and kind `t`.
    pub fn new(color: Color, t: MaterialType) -> (m: Self)
        ensures
            m.word() == pack(
                color.red() as int,
                color.green() as int,
                color.blue() as int,
                type_byte(t),
            ),
    {
        let material = Material { data: 0 };
        let material = material.set_type(t);
        material.set_color(color)
    }

    /// The same color with kind `t`.
    pub fn set_type(&self, t: MaterialType) -> (m: Self)
        ensures
            m.word() == (self.word() as int / 256) * 256 + type_byte(t),
    {
        let byte = t.to_byte();
        let d = self.data;
        let w = (d & !0xFFu32) | byte as u32;
        assert(w == (d / 256) * 256 + byte) by (bit_vector)
            requires
                w == (d & !0xFFu32) | byte as u32,
        ;
        Material { data: w }
    }

    /// The same kind with color `c`.
    pub fn set_color(&self, c: Color) -> (m: Self)
        ensures
            m.word() == pack(
                c.red() as int,
                c.green() as int,
                c.blue() as int,
                self.word() as int % 256,
            ),
    {
        let d = self.data;
        let r = c.r as u32;
        let g = c.g as u32;
        let b = c.b as u32;
        let w = (d & 0xFF) | (r << 24u32) | (g << 16u32) | (b << 8u32);
        assert(w == r * 0x100_0000 + g * 0x1_0000 + b * 0x100 + d % 256) by (bit_vector)
            requires
                w == (d & 0xFF) | (r << 24u32) | (g << 16u32) | (b << 8u32),
                r < 256,
                g < 256,
                b < 256,
        ;
        Material { data: w }
    }

    pub fn is_present(&self) -> (r: bool)
        ensures
            r == self.present(),
    {
        let d = self.data;
        assert(((d & 0b1100_0000) != 0) == (d % 256 >= 64)) by (bit_vector);
        d & 0b1100_0000 != 0
    }

    /// The all-zero word: no color, absent.
    pub fn absent() -> (m: Self)
        ensures
            m.word() == 0,
    {
        Material { data: 0 }
    }

    /// Decodes the kind flag and the six-bit attribute.
    pub fn material_type(&self) -> (t: MaterialType)
        ensures
            t == self.kind(),
    {
        let d = self.data;
        let attrib = (d & 0b11_1111) as u8;
        let flag = (d >> 6u32) & 0b11;
        assert((d & 0b11_1111) == (d % 256) % 64) by (bit_vector);
        assert(((d >> 6u32) & 0b11) == (d % 256) / 64) by (bit_vector);
        if flag == 0b01 {
            MaterialType::Rough(attrib)
        } else if flag == 0b10 {
            MaterialType::Emissive(attrib)
        } else if flag == 0b11 {
            MaterialType::Opacity(attrib)
        } else {
            MaterialType::Absent
        }
    }

    /// The color channels.
    pub fn color(&self) -> (c: Color)
        ensures
            c.red() == self.word() / 0x100_0000,
            c.green() == (self.word() / 0x1_0000) % 256,
            c.blue() == (self.word() / 0x100) % 256,
    {
        let d = self.data;
        assert(((d >> 24u32) & 0xFF) == d / 0x100_0000) by (bit_vector);
        assert(((d >> 16u32) & 0xFF) == (d / 0x1_0000) % 256) by (bit_vector);
        assert(((d >> 8u32) & 0xFF) == (d / 0x100) % 256) by (bit_vector);
        Color { r: ((d >> 24u32) & 0xFF) as u8, g: ((d >> 16u32) & 0xFF) as u8, b: ((d >> 8u32) & 0xFF) as u8 }
    }
}

/// The kind that a word built from `t` decodes to: the attribute keeps its
/// top six bits.
pub open spec fn quantized(t: MaterialType) -> MaterialType {
    match t {
        MaterialType::Absent => MaterialType::Absent,
        MaterialType::Rough(v) => MaterialType::Rough(v / 4),
        MaterialType::Emissive(v) => MaterialType::Emissive(v / 4),
        MaterialType::Opacity(v) => MaterialType::Opacity(v / 4),
    }
}

/// Packing then decoding gives back the three channels and the kind, whose
/// attribute keeps its top six bits; the material is present exactly when
/// its kind is not absent.
pub proof fn lemma_pack_round_trip(r: u8, g: u8, b: u8, t: MaterialType)
    ensures
        ({
            let w = pack(r as int, g as int, b as int, type_byte(t));
            &&& 0 <= w <= u32::MAX
            &&& kind_of(w % 256) == quantized(t)
            &&& w / 0x100_0000 == r
            &&& (w / 0x1_0000) % 256 == g
            &&& (w / 0x100) % 256 == b
            &&& (w % 256 >= 64) == !(t is Absent)
        }),
{
    let low = type_byte(t);
    let w = pack(r as int, g as int, b as int, low);
    assert(0 <= low < 256);
    assert(w % 256 == low);
    assert(w / 0x100_0000 == r);
    assert(w / 0x1_0000 == r as int * 256 + g);
    assert(w / 0x100 == (r as int * 256 + g) * 256 + b);
}

/// What one material adds to a level-of-detail mix.
pub struct Tally {
    pub present: u32,
    pub red: u32,
    pub green: u32,
    pub blue: u32,
    pub opacity: u32,
    pub emitting: u32,
    pub emit_red: u32,
    pub emit_green: u32,
    pub emit_blue: u32,
    pub strength: u32,
}

pub open spec fn red_of(m: Material) -> int {
    m.word() as int / 0x100_0000
}

pub open spec fn green_of(m: Material) -> int {
    (m.word() as int / 0x1_0000) % 256
}

pub open spec fn blue_of(m: Material) -> int {
    (m.word() as int / 0x100) % 256
}

/// The contribution of `m`: its color if present, its attribute if it is an
/// opacity, and its color and attribute if it is emissive.
pub open spec fn tally_of(m: Material) -> Tally {
    let p = m.present();
    let (emits, strength) = match m.kind() {
        MaterialType::Emissive(v) => (true, v as u32),
        _ => (false, 0u32),
    };
    Tally {
        present: if p { 1 } else { 0 },
        red: if p { red_of(m) as u32 } else { 0 },
        green: if p { green_of(m) as u32 } else { 0 },
        blue: if p { blue_of(m) as u32 } else { 0 },
        opacity: match m.kind() {
            MaterialType::Opacity(v) => v as u32,
            _ => 0,
        },
        emitting: if emits { 1 } else { 0 },
        emit_red: if emits { red_of(m) as u32 } else { 0 },
        emit_green: if emits { green_of(m) as u32 } else { 0 },
        emit_blue: if emits { blue_of(m) as u32 } else { 0 },
        strength,
    }
}

pub open spec fn tally_sum(x: Tally, y: Tally) -> Tally {
    Tally {
        present: (x.present + y.present) as u32,
        red: (x.red + y.red) as u32,
        green: (x.green + y.green) as u32,
        blue: (x.blue + y.blue) as u32,
        opacity: (x.opacity + y.opacity) as u32,
        emitting: (x.emitting + y.emitting) as u32,
        emit_red: (x.emit_red + y.emit_red) as u32,
        emit_green: (x.emit_green + y.emit_green) as u32,
        emit_blue: (x.emit_blue + y.emit_blue) as u32,
        strength: (x.strength + y.strength) as u32,
    }
}

/// Every count at most `n` and every sum at most `255 * n`.
pub open spec fn tally_bounded(t: Tally, n: int) -> bool {
    &&& t.present <= n
    &&& t.red <= 255 * n
    &&& t.green <= 255 * n
    &&& t.blue <= 255 * n
    &&& t.opacity <= 255 * n
    &&& t.emitting <= n
    &&& t.emit_red <= 255 * n
    &&& t.emit_green <= 255 * n
    &&& t.emit_blue <= 255 * n
    &&& t.strength <= 255 * n
}

/// `sum / n` rounded down, zero when there is nothing to average.
pub open spec fn mean(sum: int, n: int) -> int {
    if n > 0 {
        sum / n
    } else {
        0
    }
}

fn tally(m: &Material) -> (t: Tally)
    ensures
        t == tally_of(*m),
        tally_bounded(t, 1),
{
    let p = m.is_present();
    let c = m.color();
    let kind = m.material_type();
    let (emits, strength) = match kind {
        MaterialType::Emissive(v) => (true, v as u32),
        _ => (false, 0u32),
    };
    let opacity = match kind {
        MaterialType::Opacity(v) => v as u32,
        _ => 0,
    };
    Tally {
        present: if p { 1 } else { 0 },
        red: if p { c.r as u32 } else { 0 },
        green: if p { c.g as u32 } else { 0 },
        blue: if p { c.b as u32 } else { 0 },
        opacity,
        emitting: if emits { 1 } else { 0 },
        emit_red: if emits { c.r as u32 } else { 0 },
        emit_green: if emits { c.g as u32 } else { 0 },
        emit_blue: if emits { c.b as u32 } else { 0 },
        strength,
    }
}

fn add_tally(x: &Tally, y: &Tally, n: Ghost<int>) -> (t: Tally)
    requires
        0 <= n@ <= 3,
        tally_bounded(*x, n@),
        tally_bounded(*y, 1),
    ensures
        t == tally_sum(*x, *y),
        tally_bounded(t, n@ + 1),
{
    Tally {
        present: x.present + y.present,
        red: x.red + y.red,
        green: x.green + y.green,
        blue: x.blue + y.blue,
        opacity: x.opacity + y.opacity,
        emitting: x.emitting + y.emitting,
        emit_red: x.emit_red + y.emit_red,
        emit_green: x.emit_green + y.emit_green,
        emit_blue: x.emit_blue + y.emit_blue,
        strength: x.strength + y.strength,
    }
}

/// `sum / n` rounded down as a byte, zero when `n` is zero.
fn mean_byte(sum: u32, n: u32) -> (r: u8)
    requires
        sum <= 255 * n,
    ensures
        r == mean(sum as int, n as int),
{
    if n > 0 {
        assert(sum as int / n as int <= 255) by (nonlinear_arith)
            requires sum <= 255 * n, n > 0;
        (sum / n) as u8
    } else {
        0
    }
}

impl Material {
    /// Mixes four materials into a coarser level of detail: an opacity
    /// material with the mean color of the present ones and a quarter of the
    /// summed opacities, and an emissive material with the mean color and
    /// mean strength of the emissive ones. Means round down and are zero
    /// over nothing.
    pub fn mix_lod_materials(a: Material, b: Material, c: Material, d: Material) -> (r: (
        Material,
        Material,
    ))
        ensures
            ({
                let t = tally_sum(tally_sum(tally_sum(tally_of(a), tally_of(b)), tally_of(c)), tally_of(d));
                &&& r.0.word() == pack(
                    mean(t.red as int, t.present as int),
                    mean(t.green as int, t.present as int),
                    mean(t.blue as int, t.present as int),
                    type_byte(MaterialType::Opacity((t.opacity / 4) as u8)),
                )
                &&& r.1.word() == pack(
                    mean(t.emit_red as int, t.emitting as int),
                    mean(t.emit_green as int, t.emitting as int),
                    mean(t.emit_blue as int, t.emitting as int),
                    type_byte(MaterialType::Emissive(mean(t.strength as int, t.emitting as int) as u8)),
                )
            }),
    {
        let ta = tally(&a);
        let tb = tally(&b);
        let tc = tally(&c);
        let td = tally(&d);
        let t = add_tally(&ta, &tb, Ghost(1));
        let t = add_tally(&t, &tc, Ghost(2));
        let t = add_tally(&t, &td, Ghost(3));
        let color = Color::new(
            mean_byte(t.red, t.present),
            mean_byte(t.green, t.present),
            mean_byte(t.blue, t.present),
        );
        let emissive_color = Color::new(
            mean_byte(t.emit_red, t.emitting),
            mean_byte(t.emit_green, t.emitting),
            mean_byte(t.emit_blue, t.emitting),
        );
        let strength = mean_byte(t.strength, t.emitting);
        let opacity = (t.opacity / 4) as u8;
        (
            Material::new(color, MaterialType::Opacity(opacity)),
            Material::new(emissive_color, MaterialType::Emissive(strength)),
        )
    }
}

/// Edge of a chunk, in voxels.
pub const CHUNK_DIM: usize = 16;

/// Number of voxels in a chunk.
pub const CHUNK_VOLUME: usize = 4096;

/// The slot of voxel `(x, y, z)` in a chunk: X varies fastest, then Y, then Z.
pub open spec fn slot(x: int, y: int, z: int) -> int {
    x + y * 16 + z * 256
}

/// A 16 × 16 × 16 block of materials at a chunk location.
pub struct Chunk {
    location: [i32; 3],
    data: Vec<Material>,
}

impl Chunk {
    /// The chunk location.
    pub closed spec fn origin(&self) -> (i32, i32, i32) {
        (self.location[0], self.location[1], self.location[2])
    }

    /// The materials, by slot.
    pub closed spec fn cells(&self) -> Seq<Material> {
        self.data@
    }

    pub open spec fn wf(&self) -> bool {
        self.cells().len() == CHUNK_VOLUME
    }

    /// A chunk at location `(x, y, z)` whose voxels are all absent.
    pub fn new(x: i32, y: i32, z: i32) -> (c: Self)
        ensures
            c.wf(),
            c.origin() == (x, y, z),
            forall|i: int| 0 <= i < CHUNK_VOLUME ==> (#[trigger] c.cells()[i]).word() == 0,
    {
        let mut data: Vec<Material> = Vec::new();
        let mut i: usize = 0;
        while i < CHUNK_VOLUME
            invariant
                i <= CHUNK_VOLUME,
                data@.len() == i,
                forall|j: int| 0 <= j < i ==> (#[trigger] data@[j]).word() == 0,
            decreases CHUNK_VOLUME - i,
        {
            data.push(Material::absent());
            i = i + 1;
        }
        Chunk { location: [x, y, z], data }
    }

    /// Stores `material` for voxel `(x, y, z)`.
    pub fn set_material(&mut self, x: i32, y: i32, z: i32, material: Material)
        requires
            old(self).wf(),
            0 <= x,
            0 <= y,
            0 <= z,
            slot(x as int, y as int, z as int) < CHUNK_VOLUME,
        ensures
            final(self).wf(),
            final(self).origin() == old(self).origin(),
            final(self).cells() == old(self).cells().update(
                slot(x as int, y as int, z as int),
                material,
            ),
    {
        let i = x as usize + y as usize * CHUNK_DIM + z as usize * CHUNK_DIM * CHUNK_DIM;
        self.data.set(i, material);
    }

    /// The material of voxel `(x, y, z)`.
    pub fn material(&self, x: i32, y: i32, z: i32) -> (m: Material)
        requires
            self.wf(),
            0 <= x,
            0 <= y,
            0 <= z,
            slot(x as int, y as int, z as int) < CHUNK_VOLUME,
        ensures
            m == self.cells()[slot(x as int, y as int, z as int)],
    {
        self.data[x as usize + y as usize * CHUNK_DIM + z as usize * CHUNK_DIM * CHUNK_DIM]
    }

    pub fn location(&self) -> (r: [i32; 3])
        ensures
            (r[0], r[1], r[2]) == self.origin(),
    {
        self.location
    }
}

} // verus!
