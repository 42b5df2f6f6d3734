//! Amounts of memory written as a whole number of binary units and the bytes
//! that are left over below one unit.

use vstd::prelude::*;

verus! {

/// Binary shift of one kibibyte.
pub const SHIFT_KB: u64 = 10;

/// Binary shift of one mebibyte.
pub const SHIFT_MB: u64 = 20;

/// Binary shift of one gibibyte.
pub const SHIFT_GB: u64 = 30;

/// Binary shift of one tebibyte.
pub const SHIFT_TB: u64 = 40;

/// Binary shift of one pebibyte.
pub const SHIFT_PB: u64 = 50;

/// A binary unit of memory, each 1024 times the one before it.
#[derive(Clone, Copy, Debug, PartialEq, Eq, Structural)]
pub enum Unit {
    B,
    KB,
    MB,
    GB,
    TB,
    PB,
}

/// How far one unit is shifted from a byte.
pub open spec fn unit_shift(u: Unit) -> u64 {
    match u {
        Unit::B => 0,
        Unit::KB => 10,
        Unit::MB => 20,
        Unit::GB => 30,
        Unit::TB => 40,
        Unit::PB => 50,
    }
}

/// How many bytes one unit holds.
pub open spec fn unit_size(u: Unit) -> u64 {
    match u {
        Unit::B => 1,
        Unit::KB => 0x400,
        Unit::MB => 0x10_0000,
        Unit::GB => 0x4000_0000,
        Unit::TB => 0x100_0000_0000,
        Unit::PB => 0x4_0000_0000_0000,
    }
}

/// The unit in which an amount of bytes is written: the largest unit that
/// is not larger than the amount, or bytes below one kibibyte.
pub open spec fn unit_for(bytes: u64) -> Unit {
    if bytes >= unit_size(Unit::PB) {
        Unit::PB
    } else if bytes >= unit_size(Unit::TB) {
        Unit::TB
    } else if bytes >= unit_size(Unit::GB) {
        Unit::GB
    } else if bytes >= unit_size(Unit::MB) {
        Unit::MB
    } else if bytes >= unit_size(Unit::KB) {
        Unit::KB
    } else {
        Unit::B
    }
}

/// The name under which a unit is shown.
pub open spec fn unit_name(u: Unit) -> Seq<char> {
    match u {
        Unit::B => seq!['B'],
        Unit::KB => seq!['K', 'B'],
        Unit::MB => seq!['M', 'B'],
        Unit::GB => seq!['G', 'B'],
        Unit::TB => seq!['T', 'B'],
        Unit::PB => seq!['P', 'B'],
    }
}

impl Unit {
    /// The name under which this unit is shown: "B", "KB", "MB", "GB",
    /// "TB" or "PB".
    pub fn name(&self) -> (s: String)
        ensures
            s@ == unit_name(*self),
    {
        let s = match self {
            Unit::B => "B",
            Unit::KB => "KB",
            Unit::MB => "MB",
            Unit::GB => "GB",
            Unit::TB => "TB",
            Unit::PB => "PB",
        };
        proof {
            reveal_strlit("B");
            reveal_strlit("KB");
            reveal_strlit("MB");
            reveal_strlit("GB");
            reveal_strlit("TB");
            reveal_strlit("PB");
        }
        s.to_string()
    }
}

/// An amount of memory: `quotient` whole units of `unit` and `remainder`
/// bytes below one unit.
#[derive(Clone, Copy, Debug, PartialEq, Eq, Structural)]
pub struct Storage {
    pub quotient: u64,
    pub remainder: u64,
    pub unit: Unit,
}

/// The storage in which an amount of bytes is written: in the unit that
/// `unit_for` picks, the whole units and the bytes left over.
pub open spec fn storage_from_bytes(bytes: u64) -> Storage {
    let u = unit_for(bytes);
    Storage { quotient: bytes / unit_size(u), remainder: bytes % unit_size(u), unit: u }
}

/// The bytes that `to_bytes` gives back: the quotient alone for bytes, and
/// otherwise the quotient shifted up by the unit with the remainder's bits
/// set in.
pub open spec fn storage_bits(s: Storage) -> u64 {
    match s.unit {
        Unit::B => s.quotient,
        _ => ((s.quotient << unit_shift(s.unit)) | s.remainder) as u64,
    }
}

impl Storage {
    /// The amount that a storage stands for, in bytes: a remainder in bytes
    /// is not counted.
    pub open spec fn value(self) -> int {
        match self.unit {
            Unit::B => self.quotient as int,
            _ => self.quotient * unit_size(self.unit) + self.remainder,
        }
    }

    /// A storage whose remainder lies below one unit and whose amount fits
    /// in 64 bits.
    pub open spec fn wf(self) -> bool {
        &&& self.unit != Unit::B ==> self.remainder < unit_size(self.unit)
        &&& self.value() <= u64::MAX
    }

    /// A storage that is written as `from_bytes` writes it: well formed, with
    /// no remainder in bytes, and in the largest unit that its amount reaches.
    pub open spec fn normalized(self) -> bool {
        &&& self.wf()
        &&& self.unit == Unit::B ==> self.remainder == 0 && self.quotient < 1024
        &&& self.unit != Unit::B ==> self.quotient >= 1
        &&& self.unit != Unit::B && self.unit != Unit::PB ==> self.quotient < 1024
    }

    /// Makes a storage of the three parts as they are given.
    pub fn new(quotient: u64, remainder: u64, unit: Unit) -> (s: Self)
        ensures
            s == (Storage { quotient, remainder, unit }),
    {
        Self { quotient, remainder, unit }
    }

    /// Writes an amount of bytes in the largest unit that it reaches, with
    /// the bytes below one unit as the remainder.
    pub fn from_bytes(bytes: u64) -> (s: Self)
        ensures
            s == storage_from_bytes(bytes),
    {
        proof {
            lemma_unit_sizes();
            lemma_split(bytes);
        }
        if bytes >= (1u64 << SHIFT_PB) {
            let q = bytes >> SHIFT_PB;
            let r = bytes & ((1u64 << SHIFT_PB) - 1);
            Storage::new(q, r, Unit::PB)
        } else if bytes >= (1u64 << SHIFT_TB) {
            let q = bytes >> SHIFT_TB;
            let r = bytes & ((1u64 << SHIFT_TB) - 1);
            Storage::new(q, r, Unit::TB)
        } else if bytes >= (1u64 << SHIFT_GB) {
            let q = bytes >> SHIFT_GB;
            let r = bytes & ((1u64 << SHIFT_GB) - 1);
            Storage::new(q, r, Unit::GB)
        } else if bytes >= (1u64 << SHIFT_MB) {
            let q = bytes >> SHIFT_MB;
            let r = bytes & ((1u64 << SHIFT_MB) - 1);
            Storage::new(q, r, Unit::MB)
        } else if bytes >= (1u64 << SHIFT_KB) {
            let q = bytes >> SHIFT_KB;
            let r = bytes & ((1u64 << SHIFT_KB) - 1);
            Storage::new(q, r, Unit::KB)
        } else {
            assert(unit_for(bytes) == Unit::B);
            assert(bytes / 1 == bytes);
            assert(bytes % 1 == 0);
            Storage::new(bytes, 0, Unit::B)
        }
    }

    /// The amount of bytes that this storage stands for; for a well-formed
    /// storage, its quotient times the unit plus its remainder.
    pub fn to_bytes(&self) -> (b: u64)
        ensures
            b == storage_bits(*self),
            self.wf() ==> b == self.value(),
    {
        proof {
            lemma_unit_sizes();
            if self.wf() && self.unit != Unit::B {
                lemma_join(self.quotient, self.remainder, unit_shift(self.unit));
            }
        }
        match self.unit {
            Unit::B => self.quotient,
            Unit::KB => (self.quotient << SHIFT_KB) | self.remainder,
            Unit::MB => (self.quotient << SHIFT_MB) | self.remainder,
            Unit::GB => (self.quotient << SHIFT_GB) | self.remainder,
            Unit::TB => (self.quotient << SHIFT_TB) | self.remainder,
            Unit::PB => (self.quotient << SHIFT_PB) | self.remainder,
        }
    }

    /// The whole units.
    pub fn quotient(&self) -> (q: u64)
        ensures
            q == self.quotient,
    {
        self.quotient
    }

    /// The bytes below one unit.
    pub fn remainder(&self) -> (r: u64)
        ensures
            r == self.remainder,
    {
        self.remainder
    }

    /// The unit.
    pub fn unit(&self) -> (u: Unit)
        ensures
            u == self.unit,
    {
        self.unit
    }
}

/// The storage of the sum of two amounts, as `+` on storages gives it.
pub open spec fn storage_sum(a: Storage, b: Storage) -> Storage {
    storage_from_bytes((storage_bits(a) + storage_bits(b)) as u64)
}

/// Whether the bytes of two storages add up without leaving 64 bits.
pub open spec fn sum_fits(a: Storage, b: Storage) -> bool {
    storage_bits(a) + storage_bits(b) <= u64::MAX
}

impl core::ops::Add<Storage> for Storage {
    type Output = Storage;

    /// The sum of the two amounts, written anew as `from_bytes` writes it.
    fn add(self, other: Storage) -> (r: Storage) {
        let total_bytes = self.to_bytes() + other.to_bytes();
        Storage::from_bytes(total_bytes)
    }
}

impl vstd::std_specs::ops::AddSpecImpl<Storage> for Storage {
    open spec fn obeys_add_spec() -> bool {
        true
    }

    open spec fn add_req(self, rhs: Storage) -> bool {
        sum_fits(self, rhs)
    }

    open spec fn add_spec(self, rhs: Storage) -> Storage {
        storage_sum(self, rhs)
    }
}

impl core::ops::Add<&Storage> for Storage {
    type Output = Storage;

    /// The sum of the two amounts, written anew as `from_bytes` writes it.
    fn add(self, other: &Storage) -> (r: Storage) {
        let total_bytes = self.to_bytes() + other.to_bytes();
        Storage::from_bytes(total_bytes)
    }
}

impl vstd::std_specs::ops::AddSpecImpl<&Storage> for Storage {
    open spec fn obeys_add_spec() -> bool {
        true
    }

    open spec fn add_req(self, rhs: &Storage) -> bool {
        sum_fits(self, *rhs)
    }

    open spec fn add_spec(self, rhs: &Storage) -> Storage {
        storage_sum(self, *rhs)
    }
}

impl core::ops::Add<Storage> for &Storage {
    type Output = Storage;

    /// The sum of the two amounts, written anew as `from_bytes` writes it.
    fn add(self, other: Storage) -> (r: Storage) {
        let total_bytes = self.to_bytes() + other.to_bytes();
        Storage::from_bytes(total_bytes)
    }
}

impl vstd::std_specs::ops::AddSpecImpl<Storage> for &Storage {
    open spec fn obeys_add_spec() -> bool {
        true
    }

    open spec fn add_req(self, rhs: Storage) -> bool {
        sum_fits(*self, rhs)
    }

    open spec fn add_spec(self, rhs: Storage) -> Storage {
        storage_sum(*self, rhs)
    }
}

impl core::ops::Add<&Storage> for &Storage {
    type Output = Storage;

    /// The sum of the two amounts, written anew as `from_bytes` writes it.
    fn add(self, other: &Storage) -> (r: Storage) {
        let total_bytes = self.to_bytes() + other.to_bytes();
        Storage::from_bytes(total_bytes)
    }
}

impl vstd::std_specs::ops::AddSpecImpl<&Storage> for &Storage {
    open spec fn obeys_add_spec() -> bool {
        true
    }

    open spec fn add_req(self, rhs: &Storage) -> bool {
        sum_fits(*self, *rhs)
    }

    open spec fn add_spec(self, rhs: &Storage) -> Storage {
        storage_sum(*self, *rhs)
    }
}

/// For a well-formed storage, the bits that `to_bytes` gives back are its
/// amount.
pub proof fn lemma_bits_are_value(s: Storage)
    requires
        s.wf(),
    ensures
        storage_bits(s) == s.value(),
{
    lemma_unit_sizes();
    if s.unit != Unit::B {
        lemma_join(s.quotient, s.remainder, unit_shift(s.unit));
    }
}

/// `from_bytes` writes every amount as a normalized storage whose amount is
/// the amount given: reading it back with `to_bytes` gives the same bytes.
pub proof fn law_round_trip(bytes: u64)
    ensures
        storage_from_bytes(bytes).normalized(),
        storage_from_bytes(bytes).value() == bytes,
        storage_bits(storage_from_bytes(bytes)) == bytes,
{
    let s = storage_from_bytes(bytes);
    let size = unit_size(s.unit) as int;
    let q = s.quotient as int;
    let r = s.remainder as int;
    let b = bytes as int;
    assert(q == b / size && r == b % size);
    assert(q * size + r == b && 0 <= r < size) by (nonlinear_arith)
        requires
            size > 0,
            q == b / size,
            r == b % size,
    ;
    if s.unit != Unit::B {
        assert(size <= b);
        assert(q >= 1) by (nonlinear_arith)
            requires
                size > 0,
                size <= b,
                q == b / size,
        ;
    }
    if s.unit != Unit::PB {
        assert(b < 1024 * size);
        assert(q < 1024) by (nonlinear_arith)
            requires
                size > 0,
                b < 1024 * size,
                q == b / size,
        ;
    }
    assert(s.value() == bytes);
    lemma_bits_are_value(s);
}

/// `from_bytes` picks the largest unit that the amount reaches: the unit is
/// no larger than the amount, and the next unit is larger than it.
pub proof fn law_unit_is_largest(bytes: u64)
    ensures
        storage_from_bytes(bytes).unit == Unit::B || unit_size(storage_from_bytes(bytes).unit)
            <= bytes,
        storage_from_bytes(bytes).unit != Unit::PB ==> bytes < 1024 * unit_size(
            storage_from_bytes(bytes).unit,
        ),
{
}

/// A normalized storage is the one that `from_bytes` writes for its amount:
/// writing the bytes it gives back anew gives it again.
pub proof fn law_normalized_round_trip(s: Storage)
    requires
        s.normalized(),
    ensures
        storage_from_bytes(storage_bits(s)) == s,
{
    lemma_bits_are_value(s);
    let b = storage_bits(s);
    let size = unit_size(s.unit) as int;
    assert(b == s.quotient * size + s.remainder) by {
        if s.unit == Unit::B {
            assert(size == 1);
        }
    }
    assert(unit_for(b) == s.unit) by {
        match s.unit {
            Unit::B => {},
            Unit::KB => {
                assert(b < 1024 * 0x400) by (nonlinear_arith)
                    requires
                        b == s.quotient * 0x400 + s.remainder,
                        s.quotient < 1024,
                        s.remainder < 0x400,
                ;
            },
            Unit::MB => {
                assert(b < 1024 * 0x10_0000) by (nonlinear_arith)
                    requires
                        b == s.quotient * 0x10_0000 + s.remainder,
                        s.quotient < 1024,
                        s.remainder < 0x10_0000,
                ;
            },
            Unit::GB => {
                assert(b < 1024 * 0x4000_0000) by (nonlinear_arith)
                    requires
                        b == s.quotient * 0x4000_0000 + s.remainder,
                        s.quotient < 1024,
                        s.remainder < 0x4000_0000,
                ;
            },
            Unit::TB => {
                assert(b < 1024 * 0x100_0000_0000) by (nonlinear_arith)
                    requires
                        b == s.quotient * 0x100_0000_0000 + s.remainder,
                        s.quotient < 1024,
                        s.remainder < 0x100_0000_0000,
                ;
            },
            Unit::PB => {},
        }
    }
    vstd::arithmetic::div_mod::lemma_fundamental_div_mod_converse(
        b as int,
        size,
        s.quotient as int,
        s.remainder as int,
    );
}

/// Adding storages adds their bytes: where the sum fits, the sum gives back
/// the two amounts' bytes added.
pub proof fn law_sum_adds_bytes(a: Storage, b: Storage)
    requires
        sum_fits(a, b),
    ensures
        storage_bits(storage_sum(a, b)) == storage_bits(a) + storage_bits(b),
        storage_sum(a, b).normalized(),
{
    law_round_trip((storage_bits(a) + storage_bits(b)) as u64);
}

/// Adding storages does not depend on the order of the two.
pub proof fn law_sum_commutes(a: Storage, b: Storage)
    ensures
        storage_sum(a, b) == storage_sum(b, a),
{
}

/// Adding three storages in either grouping gives the same storage, where
/// the sums fit.
pub proof fn law_sum_associates(a: Storage, b: Storage, c: Storage)
    requires
        storage_bits(a) + storage_bits(b) + storage_bits(c) <= u64::MAX,
    ensures
        storage_sum(storage_sum(a, b), c) == storage_sum(a, storage_sum(b, c)),
{
    law_sum_adds_bytes(a, b);
    law_sum_adds_bytes(b, c);
}

/// Each unit's size is one shifted up by the unit's shift.
proof fn lemma_unit_sizes()
    ensures
        1u64 << 10u64 == 0x400u64,
        1u64 << 20u64 == 0x10_0000u64,
        1u64 << 30u64 == 0x4000_0000u64,
        1u64 << 40u64 == 0x100_0000_0000u64,
        1u64 << 50u64 == 0x4_0000_0000_0000u64,
        forall|u: Unit| #[trigger] unit_size(u) == 1u64 << unit_shift(u),
{
    assert(1u64 << 0u64 == 1u64) by (bit_vector);
    assert(1u64 << 10u64 == 0x400u64) by (bit_vector);
    assert(1u64 << 20u64 == 0x10_0000u64) by (bit_vector);
    assert(1u64 << 30u64 == 0x4000_0000u64) by (bit_vector);
    assert(1u64 << 40u64 == 0x100_0000_0000u64) by (bit_vector);
    assert(1u64 << 50u64 == 0x4_0000_0000_0000u64) by (bit_vector);
}

/// Shifting down by a unit's shift and masking with the unit's size less
/// one split an amount into whole units and the bytes left over.
proof fn lemma_split(b: u64)
    ensures
        b >> 10u64 == b / 0x400,
        b & 0x3ffu64 == b % 0x400,
        b >> 20u64 == b / 0x10_0000,
        b & 0xf_ffffu64 == b % 0x10_0000,
        b >> 30u64 == b / 0x4000_0000,
        b & 0x3fff_ffffu64 == b % 0x4000_0000,
        b >> 40u64 == b / 0x100_0000_0000,
        b & 0xff_ffff_ffffu64 == b % 0x100_0000_0000,
        b >> 50u64 == b / 0x4_0000_0000_0000,
        b & 0x3_ffff_ffff_ffffu64 == b % 0x4_0000_0000_0000,
{
    assert(b >> 10u64 == b / 0x400) by (bit_vector);
    assert(b & 0x3ffu64 == b % 0x400) by (bit_vector);
    assert(b >> 20u64 == b / 0x10_0000) by (bit_vector);
    assert(b & 0xf_ffffu64 == b % 0x10_0000) by (bit_vector);
    assert(b >> 30u64 == b / 0x4000_0000) by (bit_vector);
    assert(b & 0x3fff_ffffu64 == b % 0x4000_0000) by (bit_vector);
    assert(b >> 40u64 == b / 0x100_0000_0000) by (bit_vector);
    assert(b & 0xff_ffff_ffffu64 == b % 0x100_0000_0000) by (bit_vector);
    assert(b >> 50u64 == b / 0x4_0000_0000_0000) by (bit_vector);
    assert(b & 0x3_ffff_ffff_ffffu64 == b % 0x4_0000_0000_0000) by (bit_vector);
}

/// Shifting whole units up and setting the remainder's bits adds them, when
/// the remainder lies below one unit and the sum fits.
proof fn lemma_join(q: u64, r: u64, s: u64)
    requires
        s < 64,
        r < (1u64 << s),
        q * (1u64 << s) + r <= u64::MAX,
    ensures
        ((q << s) | r) == q * (1u64 << s) + r,
{
    assert(((q << s) | r) == q * (1u64 << s) + r) by (bit_vector)
        requires
            s < 64,
            r < (1u64 << s),
            q * (1u64 << s) + r <= u64::MAX,
    ;
}

} // verus!
