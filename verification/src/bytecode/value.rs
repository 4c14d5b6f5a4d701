//! The types values have at run time.
use vstd::prelude::*;

use crate::text::str_eq;

verus! {

/// Every type Luarus has at runtime. There is no `number`: a program says
/// which width it means, which is the point of the language.
#[derive(Clone, Copy, Debug, PartialEq, Eq, Hash, Structural)]
pub enum RtType {
    I8,
    I16,
    I32,
    I64,
    U8,
    U16,
    U32,
    U64,
    F16,
    F32,
    F64,
    Bool,
    Str,
    Nil,
}

/// The name a program writes for a type.
pub open spec fn rt_type_name(t: RtType) -> Seq<char> {
    match t {
        RtType::I8 => "i8"@,
        RtType::I16 => "i16"@,
        RtType::I32 => "i32"@,
        RtType::I64 => "i64"@,
        RtType::U8 => "u8"@,
        RtType::U16 => "u16"@,
        RtType::U32 => "u32"@,
        RtType::U64 => "u64"@,
        RtType::F16 => "f16"@,
        RtType::F32 => "f32"@,
        RtType::F64 => "f64"@,
        RtType::Bool => "bool"@,
        RtType::Str => "str"@,
        RtType::Nil => "nil"@,
    }
}

/// The byte that stands for a type in a chunk file.
pub open spec fn type_tag(t: RtType) -> u8 {
    match t {
        RtType::I8 => 0,
        RtType::I16 => 1,
        RtType::I32 => 2,
        RtType::I64 => 3,
        RtType::U8 => 4,
        RtType::U16 => 5,
        RtType::U32 => 6,
        RtType::U64 => 7,
        RtType::F16 => 8,
        RtType::F32 => 9,
        RtType::F64 => 10,
        RtType::Bool => 11,
        RtType::Str => 12,
        RtType::Nil => 13,
    }
}

/// The type a tag stands for, if any.
pub open spec fn type_of_tag(tag: u8) -> Option<RtType> {
    if tag == 0 {
        Some(RtType::I8)
    } else if tag == 1 {
        Some(RtType::I16)
    } else if tag == 2 {
        Some(RtType::I32)
    } else if tag == 3 {
        Some(RtType::I64)
    } else if tag == 4 {
        Some(RtType::U8)
    } else if tag == 5 {
        Some(RtType::U16)
    } else if tag == 6 {
        Some(RtType::U32)
    } else if tag == 7 {
        Some(RtType::U64)
    } else if tag == 8 {
        Some(RtType::F16)
    } else if tag == 9 {
        Some(RtType::F32)
    } else if tag == 10 {
        Some(RtType::F64)
    } else if tag == 11 {
        Some(RtType::Bool)
    } else if tag == 12 {
        Some(RtType::Str)
    } else if tag == 13 {
        Some(RtType::Nil)
    } else {
        None
    }
}

/// Signed integer types.
pub open spec fn signed_int(t: RtType) -> bool {
    t is I8 || t is I16 || t is I32 || t is I64
}

/// Unsigned integer types.
pub open spec fn unsigned_int(t: RtType) -> bool {
    t is U8 || t is U16 || t is U32 || t is U64
}

/// Floating-point types.
pub open spec fn float_type(t: RtType) -> bool {
    t is F16 || t is F32 || t is F64
}

/// The inclusive bounds of an integer type.
pub open spec fn int_bounds(t: RtType) -> Option<(int, int)> {
    match t {
        RtType::I8 => Some((i8::MIN as int, i8::MAX as int)),
        RtType::I16 => Some((i16::MIN as int, i16::MAX as int)),
        RtType::I32 => Some((i32::MIN as int, i32::MAX as int)),
        RtType::I64 => Some((i64::MIN as int, i64::MAX as int)),
        RtType::U8 => Some((0, u8::MAX as int)),
        RtType::U16 => Some((0, u16::MAX as int)),
        RtType::U32 => Some((0, u32::MAX as int)),
        RtType::U64 => Some((0, u64::MAX as int)),
        _ => None,
    }
}

/// Each integer type holds exactly the values of the machine integer of
/// the same name, from its least to its greatest value; the other types
/// have no integer range.
pub proof fn lemma_int_bounds_are_machine_ranges(t: RtType)
    ensures
        t == RtType::I8 ==> int_bounds(t) == Some((-128int, 127int)),
        t == RtType::I16 ==> int_bounds(t) == Some((-32768int, 32767int)),
        t == RtType::I32 ==> int_bounds(t) == Some((-2147483648int, 2147483647int)),
        t == RtType::I64 ==> int_bounds(t) == Some((-9223372036854775808int, 9223372036854775807int)),
        t == RtType::U8 ==> int_bounds(t) == Some((0int, 255int)),
        t == RtType::U16 ==> int_bounds(t) == Some((0int, 65535int)),
        t == RtType::U32 ==> int_bounds(t) == Some((0int, 4294967295int)),
        t == RtType::U64 ==> int_bounds(t) == Some((0int, 18446744073709551615int)),
        !(signed_int(t) || unsigned_int(t)) ==> int_bounds(t) is None,
{
}

impl RtType {
    pub fn name(self) -> (r: &'static str)
        ensures
            r@ == rt_type_name(self),
    {
        match self {
            RtType::I8 => "i8",
            RtType::I16 => "i16",
            RtType::I32 => "i32",
            RtType::I64 => "i64",
            RtType::U8 => "u8",
            RtType::U16 => "u16",
            RtType::U32 => "u32",
            RtType::U64 => "u64",
            RtType::F16 => "f16",
            RtType::F32 => "f32",
            RtType::F64 => "f64",
            RtType::Bool => "bool",
            RtType::Str => "str",
            RtType::Nil => "nil",
        }
    }

    /// The type a program names, if it names one.
    pub fn from_name(name: &str) -> (r: Option<RtType>)
        ensures
            match r {
                Some(t) => rt_type_name(t) == name@,
                None => forall|t: RtType| rt_type_name(t) != name@,
            },
            forall|t: RtType| rt_type_name(t) == name@ ==> r == Some(t),
    {

        if str_eq(name, "i8") {
            proof {
                lemma_name_determines(name@, RtType::I8);
            }
            return Some(RtType::I8);
        }
        if str_eq(name, "i16") {
            proof {
                lemma_name_determines(name@, RtType::I16);
            }
            return Some(RtType::I16);
        }
        if str_eq(name, "i32") {
            proof {
                lemma_name_determines(name@, RtType::I32);
            }
            return Some(RtType::I32);
        }
        if str_eq(name, "i64") {
            proof {
                lemma_name_determines(name@, RtType::I64);
            }
            return Some(RtType::I64);
        }
        if str_eq(name, "u8") {
            proof {
                lemma_name_determines(name@, RtType::U8);
            }
            return Some(RtType::U8);
        }
        if str_eq(name, "u16") {
            proof {
                lemma_name_determines(name@, RtType::U16);
            }
            return Some(RtType::U16);
        }
        if str_eq(name, "u32") {
            proof {
                lemma_name_determines(name@, RtType::U32);
            }
            return Some(RtType::U32);
        }
        if str_eq(name, "u64") {
            proof {
                lemma_name_determines(name@, RtType::U64);
            }
            return Some(RtType::U64);
        }
        if str_eq(name, "f16") {
            proof {
                lemma_name_determines(name@, RtType::F16);
            }
            return Some(RtType::F16);
        }
        if str_eq(name, "f32") {
            proof {
                lemma_name_determines(name@, RtType::F32);
            }
            return Some(RtType::F32);
        }
        if str_eq(name, "f64") {
            proof {
                lemma_name_determines(name@, RtType::F64);
            }
            return Some(RtType::F64);
        }
        if str_eq(name, "bool") {
            proof {
                lemma_name_determines(name@, RtType::Bool);
            }
            return Some(RtType::Bool);
        }
        if str_eq(name, "str") {
            proof {
                lemma_name_determines(name@, RtType::Str);
            }
            return Some(RtType::Str);
        }
        if str_eq(name, "nil") {
            proof {
                lemma_name_determines(name@, RtType::Nil);
            }
            return Some(RtType::Nil);
        }
        None
    }

    pub fn is_signed_int(self) -> (r: bool)
        ensures
            r == signed_int(self),
    {
        matches!(self, RtType::I8 | RtType::I16 | RtType::I32 | RtType::I64)
    }

    pub fn is_unsigned_int(self) -> (r: bool)
        ensures
            r == unsigned_int(self),
    {
        matches!(self, RtType::U8 | RtType::U16 | RtType::U32 | RtType::U64)
    }

    pub fn is_int(self) -> (r: bool)
        ensures
            r == (signed_int(self) || unsigned_int(self)),
    {
        self.is_signed_int() || self.is_unsigned_int()
    }

    pub fn is_float(self) -> (r: bool)
        ensures
            r == float_type(self),
    {
        matches!(self, RtType::F16 | RtType::F32 | RtType::F64)
    }

    pub fn is_numeric(self) -> (r: bool)
        ensures
            r == (signed_int(self) || unsigned_int(self) || float_type(self)),
    {
        self.is_int() || self.is_float()
    }

    /// Inclusive bounds for an integer type.
    pub fn int_range(self) -> (r: Option<(i128, i128)>)
        ensures
            match r {
                Some((lo, hi)) => int_bounds(self) == Some((lo as int, hi as int)),
                None => int_bounds(self) is None,
            },
    {
        match self {
            RtType::I8 => Some((i8::MIN as i128, i8::MAX as i128)),
            RtType::I16 => Some((i16::MIN as i128, i16::MAX as i128)),
            RtType::I32 => Some((i32::MIN as i128, i32::MAX as i128)),
            RtType::I64 => Some((i64::MIN as i128, i64::MAX as i128)),
            RtType::U8 => Some((0, u8::MAX as i128)),
            RtType::U16 => Some((0, u16::MAX as i128)),
            RtType::U32 => Some((0, u32::MAX as i128)),
            RtType::U64 => Some((0, u64::MAX as i128)),
            _ => None,
        }
    }

    /// The byte that stands for this type in a chunk file.
    pub fn tag(self) -> (r: u8)
        ensures
            r == type_tag(self),
    {
        match self {
            RtType::I8 => 0,
            RtType::I16 => 1,
            RtType::I32 => 2,
            RtType::I64 => 3,
            RtType::U8 => 4,
            RtType::U16 => 5,
            RtType::U32 => 6,
            RtType::U64 => 7,
            RtType::F16 => 8,
            RtType::F32 => 9,
            RtType::F64 => 10,
            RtType::Bool => 11,
            RtType::Str => 12,
            RtType::Nil => 13,
        }
    }

    pub fn from_tag(tag: u8) -> (r: Option<RtType>)
        ensures
            r == type_of_tag(tag),
    {
        match tag {
            0 => Some(RtType::I8),
            1 => Some(RtType::I16),
            2 => Some(RtType::I32),
            3 => Some(RtType::I64),
            4 => Some(RtType::U8),
            5 => Some(RtType::U16),
            6 => Some(RtType::U32),
            7 => Some(RtType::U64),
            8 => Some(RtType::F16),
            9 => Some(RtType::F32),
            10 => Some(RtType::F64),
            11 => Some(RtType::Bool),
            12 => Some(RtType::Str),
            13 => Some(RtType::Nil),
            _ => None,
        }
    }
}

/// A tag reads back as the type that wrote it, and every other byte reads
/// as nothing.
pub proof fn lemma_tag_round_trip(t: RtType, tag: u8)
    ensures
        type_of_tag(type_tag(t)) == Some(t),
        type_tag(t) < 14,
        tag >= 14 ==> type_of_tag(tag) is None,
        type_of_tag(tag) matches Some(u) ==> type_tag(u) == tag,
{
}

/// Enough of a type's name to tell it from every other.
spec fn name_key(t: RtType) -> (nat, char, char, char) {
    match t {
        RtType::I8 => (2, 'i', '8', '8'),
        RtType::I16 => (3, 'i', '1', '6'),
        RtType::I32 => (3, 'i', '3', '2'),
        RtType::I64 => (3, 'i', '6', '4'),
        RtType::U8 => (2, 'u', '8', '8'),
        RtType::U16 => (3, 'u', '1', '6'),
        RtType::U32 => (3, 'u', '3', '2'),
        RtType::U64 => (3, 'u', '6', '4'),
        RtType::F16 => (3, 'f', '1', '6'),
        RtType::F32 => (3, 'f', '3', '2'),
        RtType::F64 => (3, 'f', '6', '4'),
        RtType::Bool => (4, 'b', 'o', 'l'),
        RtType::Str => (3, 's', 't', 'r'),
        RtType::Nil => (3, 'n', 'i', 'l'),
    }
}

proof fn lemma_name_key(t: RtType)
    ensures
        rt_type_name(t).len() == name_key(t).0,
        rt_type_name(t)[0] == name_key(t).1,
        rt_type_name(t)[1] == name_key(t).2,
        rt_type_name(t)[rt_type_name(t).len() - 1] == name_key(t).3,
{
    match t {
        RtType::I8 => reveal_strlit("i8"),
        RtType::I16 => reveal_strlit("i16"),
        RtType::I32 => reveal_strlit("i32"),
        RtType::I64 => reveal_strlit("i64"),
        RtType::U8 => reveal_strlit("u8"),
        RtType::U16 => reveal_strlit("u16"),
        RtType::U32 => reveal_strlit("u32"),
        RtType::U64 => reveal_strlit("u64"),
        RtType::F16 => reveal_strlit("f16"),
        RtType::F32 => reveal_strlit("f32"),
        RtType::F64 => reveal_strlit("f64"),
        RtType::Bool => reveal_strlit("bool"),
        RtType::Str => reveal_strlit("str"),
        RtType::Nil => reveal_strlit("nil"),
    }
}

/// A name names at most one type.
proof fn lemma_name_determines(s: Seq<char>, u: RtType)
    requires
        rt_type_name(u) == s,
    ensures
        forall|t: RtType| rt_type_name(t) == s ==> t == u,
{
    assert forall|t: RtType| rt_type_name(t) == s implies t == u by {
        lemma_type_names_distinct(t, u);
    }
}

/// No two types share a name.
pub proof fn lemma_type_names_distinct(a: RtType, b: RtType)
    requires
        rt_type_name(a) == rt_type_name(b),
    ensures
        a == b,
{
    lemma_name_key(a);
    lemma_name_key(b);
}

/// The type a name spells, if it spells one.
pub open spec fn type_named(s: Seq<char>) -> Option<RtType> {
    if exists|t: RtType| rt_type_name(t) == s {
        Some(choose|t: RtType| rt_type_name(t) == s)
    } else {
        None
    }
}

/// `from_name` gives exactly the type a name spells.
pub proof fn lemma_from_name(s: Seq<char>, r: Option<RtType>)
    requires
        match r {
            Some(t) => rt_type_name(t) == s,
            None => forall|t: RtType| rt_type_name(t) != s,
        },
    ensures
        r == type_named(s),
{
    if let Some(t) = r {
        let c = choose|u: RtType| rt_type_name(u) == s;
        lemma_type_names_distinct(c, t);
    }
}

} // verus!
