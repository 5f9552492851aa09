//! Per-slot metadata flags:
//! - occupied (bit 0): the slot is the canonical slot of some run
//! - continuation (bit 1): the slot continues the run of the slot before it
//! - shifted (bit 2): the entry in the slot is not in its canonical slot

use vstd::prelude::*;

verus! {

/// Flag `bit` (0, 1 or 2) of a raw metadata byte.
pub open spec fn flag(v: u8, bit: nat) -> bool {
    if bit == 0 {
        v % 2 == 1
    } else if bit == 1 {
        (v / 2) % 2 == 1
    } else {
        (v / 4) % 2 == 1
    }
}

pub open spec fn spec_occupied(v: u8) -> bool {
    flag(v, 0)
}

pub open spec fn spec_continuation(v: u8) -> bool {
    flag(v, 1)
}

pub open spec fn spec_shifted(v: u8) -> bool {
    flag(v, 2)
}

/// The raw byte that holds exactly the three given flags.
pub open spec fn flags_byte(occupied: bool, continuation: bool, shifted: bool) -> u8 {
    ((if occupied { 1u8 } else { 0u8 }) + (if continuation { 2u8 } else { 0u8 }) + (if shifted { 4u8 } else { 0u8 })) as u8
}

/// The compact rendering of the flags of `v`: `O`, `C`, `S` for a set
/// occupied, continuation or shifted flag, `-` for a clear one.
pub open spec fn flag_chars(v: u8) -> Seq<char> {
    seq![
        if spec_occupied(v) { 'O' } else { '-' },
        if spec_continuation(v) { 'C' } else { '-' },
        if spec_shifted(v) { 'S' } else { '-' },
    ]
}

/// The text of a boolean.
pub open spec fn bool_chars(b: bool) -> Seq<char> {
    if b { "true"@ } else { "false"@ }
}

/// The verbose rendering of the flags of `v`, each by name.
pub open spec fn flag_names(v: u8) -> Seq<char> {
    "SlotMetadata { occupied: "@ + bool_chars(spec_occupied(v)) + ", continuation: "@ + bool_chars(
        spec_continuation(v),
    ) + ", shifted: "@ + bool_chars(spec_shifted(v)) + "}"@
}

/// A byte below 8 is made of its three flags and nothing else.
pub proof fn lemma_flags_byte(v: u8)
    requires
        v < 8,
    ensures
        v == flags_byte(spec_occupied(v), spec_continuation(v), spec_shifted(v)),
{
    assert(v == 0 || v == 1 || v == 2 || v == 3 || v == 4 || v == 5 || v == 6 || v == 7);
}

/// A compact metadata tag for one filter slot: a byte holding three flags.
#[derive(Clone, Copy, PartialEq, Eq, Structural)]
pub struct SlotMetadata(u8);

impl View for SlotMetadata {
    type V = u8;

    closed spec fn view(&self) -> u8 {
        self.0
    }
}

impl Default for SlotMetadata {
    fn default() -> (m: SlotMetadata)
        ensures
            m@ == 0,
    {
        SlotMetadata(0)
    }
}

impl SlotMetadata {
    /// Metadata with all flags cleared.
    pub fn new() -> (m: SlotMetadata)
        ensures
            m@ == 0,
    {
        SlotMetadata(0)
    }

    /// Metadata with exactly the given flags set.
    pub fn with_flags(is_occupied: bool, is_continuation: bool, is_shifted: bool) -> (m: SlotMetadata)
        ensures
            m@ == flags_byte(is_occupied, is_continuation, is_shifted),
            spec_occupied(m@) == is_occupied,
            spec_continuation(m@) == is_continuation,
            spec_shifted(m@) == is_shifted,
    {
        let o: u8 = if is_occupied { 1 } else { 0 };
        let c: u8 = if is_continuation { 2 } else { 0 };
        let s: u8 = if is_shifted { 4 } else { 0 };
        let value: u8 = o + c + s;
        SlotMetadata(value)
    }

    /// Whether none of the three flags is set.
    pub fn is_empty(&self) -> (r: bool)
        ensures
            r == (!spec_occupied(self@) && !spec_continuation(self@) && !spec_shifted(self@)),
    {
        !self.is_occupied() && !self.is_continuation() && !self.is_shifted()
    }

    pub fn is_occupied(&self) -> (r: bool)
        ensures
            r == spec_occupied(self@),
    {
        proof {
            let v: u8 = self.0;
            assert((v >> 0u8) & 1 == 1 <==> v % 2 == 1) by (bit_vector);
        }
        (self.0 >> 0u8) & 1 == 1
    }

    /// Sets or clears the occupied flag; the other bits stay.
    pub fn set_occupied(&mut self, value: bool)
        ensures
            spec_occupied(final(self)@) == value,
            final(self)@ / 2 == old(self)@ / 2,
    {
        let v: u8 = self.0;
        if value {
            self.0 = v | 1;
            assert((v | 1) % 2 == 1 && (v | 1) / 2 == v / 2) by (bit_vector);
        } else {
            self.0 = v & !1u8;
            assert((v & !1u8) % 2 == 0 && (v & !1u8) / 2 == v / 2) by (bit_vector);
        }
    }

    pub fn is_continuation(&self) -> (r: bool)
        ensures
            r == spec_continuation(self@),
    {
        proof {
            let v: u8 = self.0;
            assert((v >> 1u8) & 1 == 1 <==> (v / 2) % 2 == 1) by (bit_vector);
        }
        (self.0 >> 1u8) & 1 == 1
    }

    /// Sets or clears the continuation flag; the other bits stay.
    pub fn set_continuation(&mut self, value: bool)
        ensures
            spec_continuation(final(self)@) == value,
            final(self)@ % 2 == old(self)@ % 2,
            final(self)@ / 4 == old(self)@ / 4,
    {
        let v: u8 = self.0;
        if value {
            self.0 = v | 2;
            assert(((v | 2) / 2) % 2 == 1 && (v | 2) % 2 == v % 2 && (v | 2) / 4 == v / 4) by (bit_vector);
        } else {
            self.0 = v & !2u8;
            assert(((v & !2u8) / 2) % 2 == 0 && (v & !2u8) % 2 == v % 2 && (v & !2u8) / 4 == v / 4)
                by (bit_vector);
        }
    }

    pub fn is_shifted(&self) -> (r: bool)
        ensures
            r == spec_shifted(self@),
    {
        proof {
            let v: u8 = self.0;
            assert((v >> 2u8) & 1 == 1 <==> (v / 4) % 2 == 1) by (bit_vector);
        }
        (self.0 >> 2u8) & 1 == 1
    }

    /// Sets or clears the shifted flag; the other bits stay.
    pub fn set_shifted(&mut self, value: bool)
        ensures
            spec_shifted(final(self)@) == value,
            final(self)@ % 4 == old(self)@ % 4,
            final(self)@ / 8 == old(self)@ / 8,
    {
        let v: u8 = self.0;
        if value {
            self.0 = v | 4;
            assert(((v | 4) / 4) % 2 == 1 && (v | 4) % 4 == v % 4 && (v | 4) / 8 == v / 8) by (bit_vector);
        } else {
            self.0 = v & !4u8;
            assert(((v & !4u8) / 4) % 2 == 0 && (v & !4u8) % 4 == v % 4 && (v & !4u8) / 8 == v / 8)
                by (bit_vector);
        }
    }

    /// A cluster start: occupied and not shifted.
    pub fn is_cluster_start(&self) -> (r: bool)
        ensures
            r == (spec_occupied(self@) && !spec_shifted(self@)),
    {
        self.is_occupied() && !self.is_shifted()
    }

    /// A run start: not a continuation, and occupied or shifted.
    pub fn is_run_start(&self) -> (r: bool)
        ensures
            r == (!spec_continuation(self@) && (spec_occupied(self@) || spec_shifted(self@))),
    {
        !self.is_continuation() && (self.is_occupied() || self.is_shifted())
    }

    /// Whether any of the three flags is set.
    pub fn has_data(&self) -> (r: bool)
        ensures
            r == (spec_shifted(self@) || spec_continuation(self@) || spec_occupied(self@)),
    {
        self.is_shifted() || self.is_continuation() || self.is_occupied()
    }

    /// Clears every bit.
    pub fn clear(&mut self)
        ensures
            final(self)@ == 0,
    {
        self.0 = 0;
    }

    /// The raw byte.
    pub fn raw(&self) -> (r: u8)
        ensures
            r == self@,
    {
        self.0
    }

    /// The three flags as `O`/`C`/`S`, or `-` for a clear flag (e.g. `O-S`).
    pub fn to_flag_string(&self) -> (s: String)
        ensures
            s@ == flag_chars(self@),
    {
        let mut s = String::new();
        if self.is_occupied() {
            s.append("O");
        } else {
            s.append("-");
        }
        if self.is_continuation() {
            s.append("C");
        } else {
            s.append("-");
        }
        if self.is_shifted() {
            s.append("S");
        } else {
            s.append("-");
        }
        proof {
            reveal_strlit("O");
            reveal_strlit("C");
            reveal_strlit("S");
            reveal_strlit("-");
            assert(s@ =~= flag_chars(self@));
        }
        s
    }

    /// The three flags by name, e.g.
    /// `SlotMetadata { occupied: true, continuation: false, shifted: true}`.
    pub fn debug_string(&self) -> (s: String)
        ensures
            s@ == flag_names(self@),
    {
        let mut s = String::new();
        s.append("SlotMetadata { occupied: ");
        append_bool(&mut s, self.is_occupied());
        s.append(", continuation: ");
        append_bool(&mut s, self.is_continuation());
        s.append(", shifted: ");
        append_bool(&mut s, self.is_shifted());
        s.append("}");
        proof {
            assert(s@ =~= flag_names(self@));
        }
        s
    }

    /// Rebuilds metadata from a raw byte.
    pub fn from_raw(value: u8) -> (m: SlotMetadata)
        ensures
            m@ == value,
    {
        SlotMetadata(value)
    }
}


/// Appends the text of `b` to `s`.
fn append_bool(s: &mut String, b: bool)
    ensures
        final(s)@ == old(s)@ + bool_chars(b),
{
    if b {
        s.append("true");
    } else {
        s.append("false");
    }
}

} // verus!
