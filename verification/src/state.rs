//! The stack-allocated state: a fixed array of sixteen bytes, read and written
//! through a `LayoutConfig` that says at which byte offset each field lives.

use vstd::prelude::*;

verus! {

/// Fixed-size state primitive: sixteen bytes of addressable scratch, passed by value.
#[derive(Clone, Copy, PartialEq, Eq, Hash, Debug)]
pub struct PackedState {
    pub data: [u8; 16],
}

/// Where each field of a state lives inside `PackedState::data` (byte offsets).
#[derive(Clone, Copy, Debug, PartialEq, Eq)]
pub struct LayoutConfig {
    pub loc_offset: usize,
    pub loc_bytes: usize,
    pub keys_offset: usize,
    pub doors_offset: usize,
    pub switches_offset: usize,
    pub ticks_offset: usize,
    pub tick_cost_offset: usize,
}

impl View for PackedState {
    type V = Seq<u8>;

    open spec fn view(&self) -> Seq<u8> {
        self.data@
    }
}

// ─── Byte-level model ──────────────────────────────────────────────────────

/// A little-endian 16-bit value made of two bytes.
pub open spec fn le16(lo: u8, hi: u8) -> int {
    lo as int + 256 * (hi as int)
}

/// A little-endian 32-bit value made of the four bytes starting at `o`.
pub open spec fn le32(d: Seq<u8>, o: int) -> int {
    d[o] as int + 256 * (d[o + 1] as int) + 65536 * (d[o + 2] as int) + 16777216 * (d[o + 3] as int)
}

/// Bit `id` of the byte `b` is set.
pub open spec fn flag(b: u8, id: u8) -> bool {
    (b >> id) & 1u8 == 1u8
}

/// The byte `b` with bit `id` set.
pub open spec fn with_flag(b: u8, id: u8) -> u8 {
    b | (1u8 << id)
}

/// The byte `b` with bit `id` flipped.
pub open spec fn flipped(b: u8, id: u8) -> u8 {
    b ^ (1u8 << id)
}

/// Two byte spans `[a, a + na)` and `[b, b + nb)` do not overlap.
pub open spec fn spans_disjoint(a: int, na: int, b: int, nb: int) -> bool {
    a + na <= b || b + nb <= a
}

impl LayoutConfig {
    /// Number of bytes the location getter reads.
    pub open spec fn loc_width(self) -> int {
        if self.loc_bytes == 1 {
            1
        } else {
            2
        }
    }

    /// How many distinct locations the location field holds.
    pub open spec fn loc_capacity(self) -> int {
        if self.loc_bytes == 1 {
            256
        } else {
            65536
        }
    }

    /// Number of bytes the location setter writes.
    pub open spec fn loc_write_width(self) -> int {
        if self.loc_bytes > 1 {
            2
        } else {
            1
        }
    }

    /// The location field lies inside the state.
    pub open spec fn loc_in_bounds(self) -> bool {
        self.loc_offset + self.loc_width() <= 16
    }

    /// The two tick bytes lie inside the state.
    pub open spec fn ticks_in_bounds(self) -> bool {
        self.ticks_offset + 2 <= 16
    }

    /// Every field that the accessors touch lies inside the state.
    pub open spec fn in_bounds(self) -> bool {
        &&& self.loc_in_bounds()
        &&& self.keys_offset < 16
        &&& self.doors_offset < 16
        &&& self.switches_offset < 16
        &&& self.ticks_in_bounds()
        &&& self.tick_cost_offset < 16
    }

    /// A layout whose fields all lie inside the state and never share a byte,
    /// with a location of one or two bytes.
    pub open spec fn wf(self) -> bool {
        let l = self.loc_offset as int;
        let lw = self.loc_width();
        let k = self.keys_offset as int;
        let d = self.doors_offset as int;
        let s = self.switches_offset as int;
        let t = self.ticks_offset as int;
        let c = self.tick_cost_offset as int;
        &&& self.in_bounds()
        &&& (self.loc_bytes == 1 || self.loc_bytes == 2)
        &&& spans_disjoint(l, lw, k, 1)
        &&& spans_disjoint(l, lw, d, 1)
        &&& spans_disjoint(l, lw, s, 1)
        &&& spans_disjoint(l, lw, t, 2)
        &&& spans_disjoint(l, lw, c, 1)
        &&& spans_disjoint(k, 1, d, 1)
        &&& spans_disjoint(k, 1, s, 1)
        &&& spans_disjoint(k, 1, t, 2)
        &&& spans_disjoint(k, 1, c, 1)
        &&& spans_disjoint(d, 1, s, 1)
        &&& spans_disjoint(d, 1, t, 2)
        &&& spans_disjoint(d, 1, c, 1)
        &&& spans_disjoint(s, 1, t, 2)
        &&& spans_disjoint(s, 1, c, 1)
        &&& spans_disjoint(t, 2, c, 1)
    }

    /// Standard layout: location in bytes 0..2, keys 2, doors 3, switches 4,
    /// ticks 5..7, tick cost 7.
    pub fn standard() -> (r: Self)
        ensures
            r == (LayoutConfig {
                loc_offset: 0,
                loc_bytes: 2,
                keys_offset: 2,
                doors_offset: 3,
                switches_offset: 4,
                ticks_offset: 5,
                tick_cost_offset: 7,
            }),
            r.wf(),
    {
        LayoutConfig {
            loc_offset: 0,
            loc_bytes: 2,
            keys_offset: 2,
            doors_offset: 3,
            switches_offset: 4,
            ticks_offset: 5,
            tick_cost_offset: 7,
        }
    }
}

/// The location stored in `d`: one byte, or two bytes little-endian.
pub open spec fn read_location(d: Seq<u8>, cfg: LayoutConfig) -> int {
    let o = cfg.loc_offset as int;
    if cfg.loc_bytes == 1 {
        d[o] as int
    } else {
        le16(d[o], d[o + 1])
    }
}

/// `d` after storing the location `v`: its low byte, and its high byte when
/// the location has more than one byte.
pub open spec fn write_location(d: Seq<u8>, cfg: LayoutConfig, v: u16) -> Seq<u8> {
    let o = cfg.loc_offset as int;
    let d1 = d.update(o, (v % 256) as u8);
    if cfg.loc_bytes > 1 {
        d1.update(o + 1, (v / 256) as u8)
    } else {
        d1
    }
}

/// The tick counter stored in `d` (two bytes, little-endian).
pub open spec fn read_ticks(d: Seq<u8>, cfg: LayoutConfig) -> int {
    le16(d[cfg.ticks_offset as int], d[cfg.ticks_offset + 1])
}

/// `d` after storing the tick counter `v`.
pub open spec fn write_ticks(d: Seq<u8>, cfg: LayoutConfig, v: u16) -> Seq<u8> {
    let t = cfg.ticks_offset as int;
    d.update(t, (v % 256) as u8).update(t + 1, (v / 256) as u8)
}

/// `v + amount`, held at `u16::MAX`.
pub open spec fn saturating_ticks(v: int, amount: int) -> u16 {
    if v + amount > u16::MAX {
        u16::MAX
    } else {
        (v + amount) as u16
    }
}

/// `d` after adding `amount` to its tick counter, held at `u16::MAX`.
pub open spec fn advance_ticks(d: Seq<u8>, cfg: LayoutConfig, amount: u16) -> Seq<u8> {
    write_ticks(d, cfg, saturating_ticks(read_ticks(d, cfg), amount as int))
}

/// The fields of a state, as a layout reads them.
pub struct StateFields {
    pub location: int,
    pub keys: u8,
    pub doors: u8,
    pub switches: u8,
    pub ticks: int,
    pub tick_cost: u8,
}

/// All fields of `d` under the layout `cfg`.
pub open spec fn fields_of(d: Seq<u8>, cfg: LayoutConfig) -> StateFields {
    StateFields {
        location: read_location(d, cfg),
        keys: d[cfg.keys_offset as int],
        doors: d[cfg.doors_offset as int],
        switches: d[cfg.switches_offset as int],
        ticks: read_ticks(d, cfg),
        tick_cost: d[cfg.tick_cost_offset as int],
    }
}

proof fn lemma_le16_bits(lo: u8, hi: u8)
    ensures
        ((lo as u16) | ((hi as u16) << 8u16)) as int == le16(lo, hi),
{
    assert(((lo as u16) | ((hi as u16) << 8u16)) == lo + 256 * hi) by (bit_vector);
}

proof fn lemma_u16_split(v: u16)
    ensures
        ((v & 0xFFu16) as u8) == (v % 256) as u8,
        (((v >> 8u16) & 0xFFu16) as u8) == (v / 256) as u8,
        v / 256 < 256,
        le16((v % 256) as u8, (v / 256) as u8) == v,
{
    assert(((v & 0xFFu16) as u8) == (v % 256) as u8) by (bit_vector);
    assert((((v >> 8u16) & 0xFFu16) as u8) == (v / 256) as u8) by (bit_vector);
    assert(v / 256 < 256) by (bit_vector);
    assert((v % 256) + 256 * (v / 256) == v) by (bit_vector);
}


/// Setting bit `id` of a byte sets that bit and leaves the other seven as they were.
pub proof fn lemma_with_flag(b: u8, id: u8)
    requires
        id < 8,
    ensures
        flag(with_flag(b, id), id),
        forall|j: u8| j < 8 && j != id ==> flag(with_flag(b, id), j) == flag(b, j),
        flag(b, id) ==> with_flag(b, id) == b,
{
    assert(flag(b | (1u8 << id), id)) by (bit_vector)
        requires
            id < 8,
    ;
    assert(forall|j: u8| j < 8 && j != id ==> flag(b | (1u8 << id), j) == flag(b, j)) by (bit_vector)
        requires
            id < 8,
    ;
    assert(flag(b, id) ==> (b | (1u8 << id)) == b) by (bit_vector)
        requires
            id < 8,
    ;
}

/// Flipping bit `id` of a byte flips that bit only, and flipping it twice
/// gives the byte back.
pub proof fn lemma_flipped(b: u8, id: u8)
    requires
        id < 8,
    ensures
        flag(flipped(b, id), id) == !flag(b, id),
        forall|j: u8| j < 8 && j != id ==> flag(flipped(b, id), j) == flag(b, j),
        flipped(flipped(b, id), id) == b,
{
    assert(flag(b ^ (1u8 << id), id) == !flag(b, id)) by (bit_vector)
        requires
            id < 8,
    ;
    assert(forall|j: u8| j < 8 && j != id ==> flag(b ^ (1u8 << id), j) == flag(b, j)) by (bit_vector)
        requires
            id < 8,
    ;
    assert((b ^ (1u8 << id)) ^ (1u8 << id) == b) by (bit_vector);
}

proof fn lemma_flag_mask(b: u8, id: u8)
    requires
        id < 8,
    ensures
        ((b & (1u8 << id)) != 0) == flag(b, id),
{
    assert(((b & (1u8 << id)) != 0) == flag(b, id)) by (bit_vector)
        requires
            id < 8,
    ;
}

proof fn lemma_u32_bytes(v: u32)
    ensures
        ((v & 0xFFu32) as u8) == (v % 256) as u8,
        (((v >> 8u32) & 0xFFu32) as u8) == ((v / 256) % 256) as u8,
        (((v >> 16u32) & 0xFFu32) as u8) == ((v / 65536) % 256) as u8,
        (((v >> 24u32) & 0xFFu32) as u8) == (v / 16777216) as u8,
        v / 16777216 < 256,
        (v % 256) + 256 * ((v / 256) % 256) + 65536 * ((v / 65536) % 256) + 16777216 * (v
            / 16777216) == v,
{
    assert(((v & 0xFFu32) as u8) == (v % 256) as u8) by (bit_vector);
    assert((((v >> 8u32) & 0xFFu32) as u8) == ((v / 256) % 256) as u8) by (bit_vector);
    assert((((v >> 16u32) & 0xFFu32) as u8) == ((v / 65536) % 256) as u8) by (bit_vector);
    assert((((v >> 24u32) & 0xFFu32) as u8) == (v / 16777216) as u8) by (bit_vector);
    assert(v / 16777216 < 256) by (bit_vector);
    assert((v % 256) + 256 * ((v / 256) % 256) + 65536 * ((v / 65536) % 256) + 16777216 * (v
        / 16777216) == v) by (bit_vector);
}

proof fn lemma_le32_bits(b0: u8, b1: u8, b2: u8, b3: u8)
    ensures
        ((b0 as u32) | ((b1 as u32) << 8u32) | ((b2 as u32) << 16u32) | ((b3 as u32) << 24u32))
            == b0 + 256 * b1 + 65536 * b2 + 16777216 * b3,
{
    assert(((b0 as u32) | ((b1 as u32) << 8u32) | ((b2 as u32) << 16u32) | ((b3 as u32)
        << 24u32)) == b0 + 256 * b1 + 65536 * b2 + 16777216 * b3) by (bit_vector);
}

/// Under a well-formed layout, storing a location changes the location field
/// only, and reading it back gives the value modulo the field's capacity.
pub proof fn lemma_write_location(d: Seq<u8>, cfg: LayoutConfig, v: u16)
    requires
        cfg.wf(),
        d.len() == 16,
    ensures
        write_location(d, cfg, v).len() == 16,
        fields_of(write_location(d, cfg, v), cfg) == (StateFields {
            location: v as int % cfg.loc_capacity(),
            ..fields_of(d, cfg)
        }),
{
    lemma_u16_split(v);
}

/// Under a well-formed layout, storing the tick counter changes that field only.
pub proof fn lemma_write_ticks(d: Seq<u8>, cfg: LayoutConfig, v: u16)
    requires
        cfg.wf(),
        d.len() == 16,
    ensures
        write_ticks(d, cfg, v).len() == 16,
        fields_of(write_ticks(d, cfg, v), cfg) == (StateFields { ticks: v as int, ..fields_of(d, cfg) }),
{
    lemma_u16_split(v);
}

impl PackedState {
    /// Zero-initialised state.
    pub fn zero() -> (r: Self)
        ensures
            r@ == Seq::new(16, |i: int| 0u8),
    {
        let r = PackedState { data: [0u8; 16] };
        assert(r@ =~= Seq::new(16, |i: int| 0u8));
        r
    }

    // ─── Location (one or two bytes, little-endian) ───────────────────────

    /// The location: one byte, or two bytes little-endian.
    pub fn get_location(&self, cfg: &LayoutConfig) -> (r: u16)
        requires
            cfg.loc_in_bounds(),
        ensures
            r == read_location(self@, *cfg),
    {
        let off = cfg.loc_offset;
        if cfg.loc_bytes == 1 {
            self.data[off] as u16
        } else {
            let lo = self.data[off];
            let hi = self.data[off + 1];
            proof {
                lemma_le16_bits(lo, hi);
            }
            (lo as u16) | ((hi as u16) << 8u16)
        }
    }

    /// Store a location: its low byte, and its high byte when the field has two.
    pub fn set_location(&mut self, cfg: &LayoutConfig, val: u16)
        requires
            cfg.loc_offset + cfg.loc_write_width() <= 16,
        ensures
            final(self)@ == write_location(old(self)@, *cfg, val),
            cfg.loc_bytes >= 1 ==> read_location(final(self)@, *cfg) == val as int % cfg.loc_capacity(),
            cfg.wf() ==> fields_of(final(self)@, *cfg) == (StateFields {
                location: val as int % cfg.loc_capacity(),
                ..fields_of(old(self)@, *cfg)
            }),
    {
        proof {
            lemma_u16_split(val);
        }
        let off = cfg.loc_offset;
        self.data[off] = (val & 0xFFu16) as u8;
        if cfg.loc_bytes > 1 {
            self.data[off + 1] = ((val >> 8u16) & 0xFFu16) as u8;
        }
        assert(self@ =~= write_location(old(self)@, *cfg, val));
    }

    // ─── Single-byte bitflags ─────────────────────────────────────────────

    /// The key bitflags.
    pub fn get_keys(&self, cfg: &LayoutConfig) -> (r: u8)
        requires
            cfg.keys_offset < 16,
        ensures
            r == self@[cfg.keys_offset as int],
    {
        self.data[cfg.keys_offset]
    }

    /// Store the key bitflags.
    pub fn set_keys(&mut self, cfg: &LayoutConfig, val: u8)
        requires
            cfg.keys_offset < 16,
        ensures
            final(self)@ == old(self)@.update(cfg.keys_offset as int, val),
            cfg.wf() ==> fields_of(final(self)@, *cfg) == (StateFields {
                keys: val,
                ..fields_of(old(self)@, *cfg)
            }),
    {
        self.data[cfg.keys_offset] = val;
    }

    /// Key `id` is held.
    pub fn has_key(&self, cfg: &LayoutConfig, id: u8) -> (r: bool)
        requires
            cfg.keys_offset < 16,
            id < 8,
        ensures
            r == flag(self@[cfg.keys_offset as int], id),
    {
        proof {
            lemma_flag_mask(self@[cfg.keys_offset as int], id);
        }
        (self.data[cfg.keys_offset] & (1u8 << id)) != 0
    }

    /// Pick up key `id`.
    pub fn add_key(&mut self, cfg: &LayoutConfig, id: u8)
        requires
            cfg.keys_offset < 16,
            id < 8,
        ensures
            final(self)@ == old(self)@.update(
                cfg.keys_offset as int,
                with_flag(old(self)@[cfg.keys_offset as int], id),
            ),
            flag(final(self)@[cfg.keys_offset as int], id),
            forall|j: u8|
                j < 8 && j != id ==> flag(final(self)@[cfg.keys_offset as int], j) == flag(
                    old(self)@[cfg.keys_offset as int],
                    j,
                ),
            cfg.wf() ==> fields_of(final(self)@, *cfg) == (StateFields {
                keys: with_flag(old(self)@[cfg.keys_offset as int], id),
                ..fields_of(old(self)@, *cfg)
            }),
    {
        proof {
            lemma_with_flag(self@[cfg.keys_offset as int], id);
        }
        self.data[cfg.keys_offset] = self.data[cfg.keys_offset] | (1u8 << id);
    }

    /// The door bitflags.
    pub fn get_doors(&self, cfg: &LayoutConfig) -> (r: u8)
        requires
            cfg.doors_offset < 16,
        ensures
            r == self@[cfg.doors_offset as int],
    {
        self.data[cfg.doors_offset]
    }

    /// Store the door bitflags.
    pub fn set_doors(&mut self, cfg: &LayoutConfig, val: u8)
        requires
            cfg.doors_offset < 16,
        ensures
            final(self)@ == old(self)@.update(cfg.doors_offset as int, val),
            cfg.wf() ==> fields_of(final(self)@, *cfg) == (StateFields {
                doors: val,
                ..fields_of(old(self)@, *cfg)
            }),
    {
        self.data[cfg.doors_offset] = val;
    }

    /// Door `id` is open.
    pub fn is_door_open(&self, cfg: &LayoutConfig, id: u8) -> (r: bool)
        requires
            cfg.doors_offset < 16,
            id < 8,
        ensures
            r == flag(self@[cfg.doors_offset as int], id),
    {
        proof {
            lemma_flag_mask(self@[cfg.doors_offset as int], id);
        }
        (self.data[cfg.doors_offset] & (1u8 << id)) != 0
    }

    /// Flip door `id`.
    pub fn toggle_door(&mut self, cfg: &LayoutConfig, id: u8)
        requires
            cfg.doors_offset < 16,
            id < 8,
        ensures
            final(self)@ == old(self)@.update(
                cfg.doors_offset as int,
                flipped(old(self)@[cfg.doors_offset as int], id),
            ),
            flag(final(self)@[cfg.doors_offset as int], id) == !flag(
                old(self)@[cfg.doors_offset as int],
                id,
            ),
            forall|j: u8|
                j < 8 && j != id ==> flag(final(self)@[cfg.doors_offset as int], j) == flag(
                    old(self)@[cfg.doors_offset as int],
                    j,
                ),
            cfg.wf() ==> fields_of(final(self)@, *cfg) == (StateFields {
                doors: flipped(old(self)@[cfg.doors_offset as int], id),
                ..fields_of(old(self)@, *cfg)
            }),
    {
        proof {
            lemma_flipped(self@[cfg.doors_offset as int], id);
        }
        self.data[cfg.doors_offset] = self.data[cfg.doors_offset] ^ (1u8 << id);
    }

    /// Open door `id`.
    pub fn open_door(&mut self, cfg: &LayoutConfig, id: u8)
        requires
            cfg.doors_offset < 16,
            id < 8,
        ensures
            final(self)@ == old(self)@.update(
                cfg.doors_offset as int,
                with_flag(old(self)@[cfg.doors_offset as int], id),
            ),
            flag(final(self)@[cfg.doors_offset as int], id),
            forall|j: u8|
                j < 8 && j != id ==> flag(final(self)@[cfg.doors_offset as int], j) == flag(
                    old(self)@[cfg.doors_offset as int],
                    j,
                ),
            cfg.wf() ==> fields_of(final(self)@, *cfg) == (StateFields {
                doors: with_flag(old(self)@[cfg.doors_offset as int], id),
                ..fields_of(old(self)@, *cfg)
            }),
    {
        proof {
            lemma_with_flag(self@[cfg.doors_offset as int], id);
        }
        self.data[cfg.doors_offset] = self.data[cfg.doors_offset] | (1u8 << id);
    }

    /// The switch bitflags.
    pub fn get_switches(&self, cfg: &LayoutConfig) -> (r: u8)
        requires
            cfg.switches_offset < 16,
        ensures
            r == self@[cfg.switches_offset as int],
    {
        self.data[cfg.switches_offset]
    }

    /// Store the switch bitflags.
    pub fn set_switches(&mut self, cfg: &LayoutConfig, val: u8)
        requires
            cfg.switches_offset < 16,
        ensures
            final(self)@ == old(self)@.update(cfg.switches_offset as int, val),
            cfg.wf() ==> fields_of(final(self)@, *cfg) == (StateFields {
                switches: val,
                ..fields_of(old(self)@, *cfg)
            }),
    {
        self.data[cfg.switches_offset] = val;
    }

    /// Switch `id` is flipped.
    pub fn is_switch_flipped(&self, cfg: &LayoutConfig, id: u8) -> (r: bool)
        requires
            cfg.switches_offset < 16,
            id < 8,
        ensures
            r == flag(self@[cfg.switches_offset as int], id),
    {
        proof {
            lemma_flag_mask(self@[cfg.switches_offset as int], id);
        }
        (self.data[cfg.switches_offset] & (1u8 << id)) != 0
    }

    /// Flip switch `id`.
    pub fn toggle_switch(&mut self, cfg: &LayoutConfig, id: u8)
        requires
            cfg.switches_offset < 16,
            id < 8,
        ensures
            final(self)@ == old(self)@.update(
                cfg.switches_offset as int,
                flipped(old(self)@[cfg.switches_offset as int], id),
            ),
            flag(final(self)@[cfg.switches_offset as int], id) == !flag(
                old(self)@[cfg.switches_offset as int],
                id,
            ),
            forall|j: u8|
                j < 8 && j != id ==> flag(final(self)@[cfg.switches_offset as int], j) == flag(
                    old(self)@[cfg.switches_offset as int],
                    j,
                ),
            cfg.wf() ==> fields_of(final(self)@, *cfg) == (StateFields {
                switches: flipped(old(self)@[cfg.switches_offset as int], id),
                ..fields_of(old(self)@, *cfg)
            }),
    {
        proof {
            lemma_flipped(self@[cfg.switches_offset as int], id);
        }
        self.data[cfg.switches_offset] = self.data[cfg.switches_offset] ^ (1u8 << id);
    }

    // ─── Ticks (two bytes, little-endian) ─────────────────────────────────

    /// The tick counter (two bytes, little-endian).
    pub fn get_ticks(&self, cfg: &LayoutConfig) -> (r: u16)
        requires
            cfg.ticks_in_bounds(),
        ensures
            r == read_ticks(self@, *cfg),
    {
        let off = cfg.ticks_offset;
        let lo = self.data[off];
        let hi = self.data[off + 1];
        proof {
            lemma_le16_bits(lo, hi);
        }
        (lo as u16) | ((hi as u16) << 8u16)
    }

    /// Store the tick counter.
    pub fn set_ticks(&mut self, cfg: &LayoutConfig, val: u16)
        requires
            cfg.ticks_in_bounds(),
        ensures
            final(self)@ == write_ticks(old(self)@, *cfg, val),
            read_ticks(final(self)@, *cfg) == val,
            cfg.wf() ==> fields_of(final(self)@, *cfg) == (StateFields {
                ticks: val as int,
                ..fields_of(old(self)@, *cfg)
            }),
    {
        proof {
            lemma_u16_split(val);
        }
        let off = cfg.ticks_offset;
        self.data[off] = (val & 0xFFu16) as u8;
        self.data[off + 1] = ((val >> 8u16) & 0xFFu16) as u8;
        assert(self@ =~= write_ticks(old(self)@, *cfg, val));
    }

    /// Add `amount` to the tick counter, held at `u16::MAX`.
    pub fn increment_ticks(&mut self, cfg: &LayoutConfig, amount: u16)
        requires
            cfg.ticks_in_bounds(),
        ensures
            final(self)@ == advance_ticks(old(self)@, *cfg, amount),
            read_ticks(final(self)@, *cfg) == saturating_ticks(
                read_ticks(old(self)@, *cfg),
                amount as int,
            ),
            cfg.wf() ==> fields_of(final(self)@, *cfg) == (StateFields {
                ticks: saturating_ticks(read_ticks(old(self)@, *cfg), amount as int) as int,
                ..fields_of(old(self)@, *cfg)
            }),
    {
        let current = self.get_ticks(cfg);
        let next = current.saturating_add(amount);
        self.set_ticks(cfg, next);
    }

    // ─── Tick cost accumulator (variable terrain) ────────────────────────

    /// The accumulated tick cost.
    pub fn get_tick_cost(&self, cfg: &LayoutConfig) -> (r: u8)
        requires
            cfg.tick_cost_offset < 16,
        ensures
            r == self@[cfg.tick_cost_offset as int],
    {
        self.data[cfg.tick_cost_offset]
    }

    /// Add `amount` to the tick cost, held at `u8::MAX`.
    pub fn add_tick_cost(&mut self, cfg: &LayoutConfig, amount: u8)
        requires
            cfg.tick_cost_offset < 16,
        ensures
            final(self)@ == old(self)@.update(
                cfg.tick_cost_offset as int,
                if old(self)@[cfg.tick_cost_offset as int] + amount > u8::MAX {
                    u8::MAX
                } else {
                    (old(self)@[cfg.tick_cost_offset as int] + amount) as u8
                },
            ),
            cfg.wf() ==> fields_of(final(self)@, *cfg) == (StateFields {
                tick_cost: final(self)@[cfg.tick_cost_offset as int],
                ..fields_of(old(self)@, *cfg)
            }),
    {
        let current = self.data[cfg.tick_cost_offset];
        self.data[cfg.tick_cost_offset] = current.saturating_add(amount);
    }

    // ─── Raw 32-bit words (little-endian) ─────────────────────────────────

    /// Reads the four bytes at `offset` as a little-endian `u32`.
    pub fn get_u32(&self, offset: usize) -> (r: u32)
        requires
            offset + 4 <= 16,
        ensures
            r == le32(self@, offset as int),
    {
        let b0 = self.data[offset];
        let b1 = self.data[offset + 1];
        let b2 = self.data[offset + 2];
        let b3 = self.data[offset + 3];
        proof {
            lemma_le32_bits(b0, b1, b2, b3);
        }
        (b0 as u32) | ((b1 as u32) << 8u32) | ((b2 as u32) << 16u32) | ((b3 as u32) << 24u32)
    }

    /// Writes `val` into the four bytes at `offset`, little-endian.
    pub fn set_u32(&mut self, offset: usize, val: u32)
        requires
            offset + 4 <= 16,
        ensures
            final(self)@ == old(self)@.update(offset as int, (val % 256) as u8).update(
                offset + 1,
                ((val / 256) % 256) as u8,
            ).update(offset + 2, ((val / 65536) % 256) as u8).update(
                offset + 3,
                (val / 16777216) as u8,
            ),
            le32(final(self)@, offset as int) == val,
    {
        proof {
            lemma_u32_bytes(val);
        }
        self.data[offset] = (val & 0xFFu32) as u8;
        self.data[offset + 1] = ((val >> 8u32) & 0xFFu32) as u8;
        self.data[offset + 2] = ((val >> 16u32) & 0xFFu32) as u8;
        self.data[offset + 3] = ((val >> 24u32) & 0xFFu32) as u8;
    }
}

} // verus!
