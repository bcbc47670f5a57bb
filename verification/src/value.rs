//! Tagged values: one 64-bit word that holds either an immediate or a
//! reference to a heap cell, told apart by the low four bits.
use vstd::prelude::*;

verus! {

/// The kind of object a tagged value denotes.
#[derive(Clone, Copy, Debug, PartialEq, Eq, Structural, Hash)]
pub enum Tag {
    Int,
    Float,
    Cons,
    Symbol,
    String,
    ByteString,
    Vector,
    HashTable,
    SubrFn,
    LispFn,
    Buffer,
    Nil,
    True,
}

/// Number of low bits taken by the tag.
pub const TAG_BITS: u64 = 4;

/// Mask that selects the tag bits of a word.
pub const TAG_MASK: u64 = 15;

/// Bit that tells a reference into the global block from one into a local block.
pub const GLOBAL_BIT: u64 = 16;

/// Number of low bits below the index of a heap reference.
pub const INDEX_SHIFT: u64 = 5;

/// Largest index a heap reference can carry.
pub const MAX_INDEX: u64 = 0x07ff_ffff_ffff_ffff;

/// Mask that selects the sixty payload bits of an immediate integer.
pub const FIXNUM_MASK: u64 = 0x0fff_ffff_ffff_ffff;

/// Smallest integer an immediate can carry.
pub const MIN_FIXNUM: i64 = -0x0800_0000_0000_0000;

/// Largest integer an immediate can carry.
pub const MAX_FIXNUM: i64 = 0x07ff_ffff_ffff_ffff;

impl Tag {
    /// The four-bit code of the tag.
    pub open spec fn code(self) -> u64 {
        match self {
            Tag::Int => 0,
            Tag::Float => 1,
            Tag::Cons => 2,
            Tag::Symbol => 3,
            Tag::String => 4,
            Tag::ByteString => 5,
            Tag::Vector => 6,
            Tag::HashTable => 7,
            Tag::SubrFn => 8,
            Tag::LispFn => 9,
            Tag::Buffer => 10,
            Tag::Nil => 11,
            Tag::True => 12,
        }
    }

    /// The tag of a four-bit code; the three unused codes read as `Nil`.
    pub open spec fn of_code(code: u64) -> Tag {
        if code == 0 {
            Tag::Int
        } else if code == 1 {
            Tag::Float
        } else if code == 2 {
            Tag::Cons
        } else if code == 3 {
            Tag::Symbol
        } else if code == 4 {
            Tag::String
        } else if code == 5 {
            Tag::ByteString
        } else if code == 6 {
            Tag::Vector
        } else if code == 7 {
            Tag::HashTable
        } else if code == 8 {
            Tag::SubrFn
        } else if code == 9 {
            Tag::LispFn
        } else if code == 10 {
            Tag::Buffer
        } else if code == 12 {
            Tag::True
        } else {
            Tag::Nil
        }
    }

    /// Whether values of this tag refer to a heap cell.
    pub open spec fn is_heap(self) -> bool {
        match self {
            Tag::Int | Tag::Symbol | Tag::Nil | Tag::True => false,
            _ => true,
        }
    }

    /// The four-bit code of the tag.
    pub fn to_code(self) -> (c: u64)
        ensures
            c == self.code(),
            c <= 12,
            Tag::of_code(c) == self,
    {
        match self {
            Tag::Int => 0,
            Tag::Float => 1,
            Tag::Cons => 2,
            Tag::Symbol => 3,
            Tag::String => 4,
            Tag::ByteString => 5,
            Tag::Vector => 6,
            Tag::HashTable => 7,
            Tag::SubrFn => 8,
            Tag::LispFn => 9,
            Tag::Buffer => 10,
            Tag::Nil => 11,
            Tag::True => 12,
        }
    }

    /// The tag of a four-bit code; the three unused codes read as `Nil`.
    pub fn from_code(code: u64) -> (t: Tag)
        ensures
            t == Tag::of_code(code),
    {
        if code == 0 {
            Tag::Int
        } else if code == 1 {
            Tag::Float
        } else if code == 2 {
            Tag::Cons
        } else if code == 3 {
            Tag::Symbol
        } else if code == 4 {
            Tag::String
        } else if code == 5 {
            Tag::ByteString
        } else if code == 6 {
            Tag::Vector
        } else if code == 7 {
            Tag::HashTable
        } else if code == 8 {
            Tag::SubrFn
        } else if code == 9 {
            Tag::LispFn
        } else if code == 10 {
            Tag::Buffer
        } else if code == 12 {
            Tag::True
        } else {
            Tag::Nil
        }
    }

    /// Whether values of this tag refer to a heap cell.
    pub fn heap_kind(self) -> (b: bool)
        ensures
            b == self.is_heap(),
    {
        match self {
            Tag::Int | Tag::Symbol | Tag::Nil | Tag::True => false,
            _ => true,
        }
    }
}

/// The integer that an immediate keeps of `x`: `x` wrapped into sixty bits,
/// two's complement.
pub open spec fn wrap_fixnum(x: int) -> int {
    let m = x % 0x1000_0000_0000_0000;
    if m >= 0x0800_0000_0000_0000 {
        m - 0x1000_0000_0000_0000
    } else {
        m
    }
}

/// A tagged value.
#[derive(Clone, Copy, Debug, PartialEq, Eq, Structural, Hash)]
pub struct Value {
    pub word: u64,
}

impl Value {
    /// The tag of the value.
    pub open spec fn tag_spec(self) -> Tag {
        Tag::of_code(self.word & TAG_MASK)
    }

    /// The integer of an immediate.
    pub open spec fn int_spec(self) -> int {
        let p = (self.word >> 4) as int;
        if p >= 0x0800_0000_0000_0000 {
            p - 0x1000_0000_0000_0000
        } else {
            p
        }
    }

    /// The index carried by a heap reference or a symbol.
    pub open spec fn index_spec(self) -> nat {
        (self.word >> 5) as nat
    }

    /// Whether a heap reference points into the global block.
    pub open spec fn global_spec(self) -> bool {
        self.word & GLOBAL_BIT != 0
    }

    /// The immediate for `wrap_fixnum(x)`.
    pub open spec fn fixnum(x: int) -> Value {
        Value { word: (((x % 0x1000_0000_0000_0000) as u64) << 4) }
    }

    /// The value with the given tag, block bit and index.
    pub open spec fn pack(tag: Tag, global: bool, index: nat) -> Value {
        Value { word: ((index as u64) << 5) | (if global { GLOBAL_BIT } else { 0 }) | tag.code() }
    }

    /// The value `nil`.
    pub open spec fn nil_spec() -> Value {
        Value { word: 11 }
    }

    /// The value `t`.
    pub open spec fn true_spec() -> Value {
        Value { word: 12 }
    }

    /// The symbol with the given number.
    pub open spec fn symbol_spec(id: nat) -> Value {
        Value::pack(Tag::Symbol, false, id)
    }

    /// The tag of the value.
    #[verifier::when_used_as_spec(tag_spec)]
    pub fn tag(self) -> (t: Tag)
        ensures
            t == self.tag_spec(),
    {
        Tag::from_code(self.word & TAG_MASK)
    }

    /// The value `nil`.
    pub fn nil() -> (v: Value)
        ensures
            v == Value::nil_spec(),
            v.tag_spec() == Tag::Nil,
    {
        assert(11u64 & 15 == 11) by (bit_vector);
        Value { word: 11 }
    }

    /// The value `t`.
    pub fn truth() -> (v: Value)
        ensures
            v == Value::true_spec(),
            v.tag_spec() == Tag::True,
    {
        assert(12u64 & 15 == 12) by (bit_vector);
        Value { word: 12 }
    }

    /// Whether the value is `nil`.
    pub fn is_nil(self) -> (b: bool)
        ensures
            b == (self == Value::nil_spec()),
    {
        self.word == 11
    }

    /// The reference with the given tag, block bit and index.
    pub fn heap(tag: Tag, global: bool, index: u64) -> (v: Value)
        requires
            index <= MAX_INDEX,
        ensures
            v == Value::pack(tag, global, index as nat),
            v.tag_spec() == tag,
            v.global_spec() == global,
            v.index_spec() == index,
    {
        let code = tag.to_code();
        let bit: u64 = if global {
            GLOBAL_BIT
        } else {
            0
        };
        proof {
            lemma_pack(tag, global, index as nat);
        }
        Value { word: (index << 5) | bit | code }
    }

    /// The symbol with the given number.
    pub fn symbol(id: u64) -> (v: Value)
        requires
            id <= MAX_INDEX,
        ensures
            v == Value::symbol_spec(id as nat),
            v.tag_spec() == Tag::Symbol,
            v.index_spec() == id,
    {
        Value::heap(Tag::Symbol, false, id)
    }

    /// The index carried by a heap reference or a symbol.
    pub fn index(self) -> (i: u64)
        ensures
            i == self.index_spec(),
            i <= MAX_INDEX,
    {
        let w = self.word;
        assert(w >> 5 <= 0x07ff_ffff_ffff_ffffu64) by (bit_vector);
        w >> 5
    }

    /// Whether a heap reference points into the global block.
    #[verifier::when_used_as_spec(global_spec)]
    pub fn is_global(self) -> (b: bool)
        ensures
            b == self.global_spec(),
    {
        self.word & GLOBAL_BIT != 0
    }

    /// The immediate that holds `x`: the low sixty bits are kept, the rest is
    /// dropped.
    pub fn from_int(x: i64) -> (v: Value)
        ensures
            v == Value::fixnum(x as int),
            v.tag_spec() == Tag::Int,
            v.int_spec() == wrap_fixnum(x as int),
            MIN_FIXNUM <= x <= MAX_FIXNUM ==> v.int_spec() == x,
    {
        let u: u64 = if x >= 0 {
            x as u64
        } else {
            (x - i64::MIN) as u64
        };
        let p = u & FIXNUM_MASK;
        proof {
            assert(p == u % 0x1000_0000_0000_0000u64) by (bit_vector)
                requires
                    p == u & 0x0fff_ffff_ffff_ffff,
            ;
            if x < 0 {
                vstd::arithmetic::div_mod::lemma_mod_multiples_vanish(
                    8,
                    x as int,
                    0x1000_0000_0000_0000,
                );
            }
            lemma_fixnum(x as int);
        }
        Value { word: p << 4 }
    }

    /// The integer of an immediate; meaningful where the tag is `Int`.
    pub fn untag_int(self) -> (x: i64)
        ensures
            x == self.int_spec(),
            MIN_FIXNUM <= x <= MAX_FIXNUM,
    {
        let w = self.word;
        let p = w >> 4;
        assert(p < 0x1000_0000_0000_0000u64) by (bit_vector)
            requires
                p == w >> 4,
        ;
        if p >= 0x0800_0000_0000_0000 {
            (p - 0x0800_0000_0000_0000) as i64 - 0x0800_0000_0000_0000
        } else {
            p as i64
        }
    }
}

/// A packed reference gives back its tag, its block bit and its index.
pub proof fn lemma_pack(tag: Tag, global: bool, index: nat)
    requires
        index <= MAX_INDEX,
    ensures
        Value::pack(tag, global, index).tag_spec() == tag,
        Value::pack(tag, global, index).global_spec() == global,
        Value::pack(tag, global, index).index_spec() == index,
{
    let i = index as u64;
    let g: u64 = if global {
        16
    } else {
        0
    };
    let c = tag.code();
    let w = (i << 5) | g | c;
    assert(w & 15 == c && (w & 16 == g) && w >> 5 == i) by (bit_vector)
        requires
            i <= 0x07ff_ffff_ffff_ffffu64,
            g == 16 || g == 0,
            c <= 12,
            w == (i << 5) | g | c,
    ;
}

/// Tagging can be undone: two packed references are equal only where tag,
/// block bit and index are.
pub proof fn law_tagging_reversible(t1: Tag, g1: bool, i1: nat, t2: Tag, g2: bool, i2: nat)
    requires
        i1 <= MAX_INDEX,
        i2 <= MAX_INDEX,
        Value::pack(t1, g1, i1) == Value::pack(t2, g2, i2),
    ensures
        t1 == t2,
        g1 == g2,
        i1 == i2,
{
    lemma_pack(t1, g1, i1);
    lemma_pack(t2, g2, i2);
}

/// An immediate built from `x` reads back as `x` wrapped into sixty bits, and
/// as `x` itself where `x` fits.
pub proof fn lemma_fixnum(x: int)
    ensures
        Value::fixnum(x).tag_spec() == Tag::Int,
        Value::fixnum(x).int_spec() == wrap_fixnum(x),
        MIN_FIXNUM <= x <= MAX_FIXNUM ==> wrap_fixnum(x) == x,
        MIN_FIXNUM <= wrap_fixnum(x) <= MAX_FIXNUM,
{
    let m = x % 0x1000_0000_0000_0000;
    let p = m as u64;
    let w = p << 4;
    assert(w & 15 == 0 && w >> 4 == p) by (bit_vector)
        requires
            p < 0x1000_0000_0000_0000u64,
            w == p << 4,
    ;
    if 0 <= x <= MAX_FIXNUM {
        vstd::arithmetic::div_mod::lemma_small_mod(x as nat, 0x1000_0000_0000_0000);
    } else if MIN_FIXNUM <= x < 0 {
        vstd::arithmetic::div_mod::lemma_mod_multiples_vanish(1, x, 0x1000_0000_0000_0000);
        vstd::arithmetic::div_mod::lemma_small_mod(
            (x + 0x1000_0000_0000_0000) as nat,
            0x1000_0000_0000_0000,
        );
    }
}

} // verus!
