//! PostgreSQL values as machine words, and the types they have.

use crate::text;
use vstd::prelude::*;

verus! {

pub const BOOLOID: u32 = 16;

pub const NAMEOID: u32 = 19;

pub const INT8OID: u32 = 20;

pub const INT2OID: u32 = 21;

pub const INT4OID: u32 = 23;

pub const TEXTOID: u32 = 25;

pub const FLOAT4OID: u32 = 700;

pub const FLOAT8OID: u32 = 701;

pub const BPCHAROID: u32 = 1042;

pub const VARCHAROID: u32 = 1043;

pub const DATEOID: u32 = 1082;

pub const TIMESTAMPOID: u32 = 1114;

pub const TIMESTAMPTZOID: u32 = 1184;

/// Microseconds between the Unix epoch (1970-01-01) and the PostgreSQL epoch (2000-01-01).
pub const PG_EPOCH_OFFSET_USEC: i64 = 946_684_800_000_000;

/// Days between the Unix epoch and the PostgreSQL epoch.
pub const PG_EPOCH_OFFSET_DAYS: i32 = 10_957;

/// Microseconds in a day.
pub const USEC_PER_DAY: i64 = 86_400_000_000;

/// A PostgreSQL value: a 64-bit word that holds a number or refers to memory.
#[derive(Clone, Copy, PartialEq, Eq, Structural, Debug)]
pub struct Datum {
    pub word: u64,
}

/// A value with its null flag; the value of a null is meaningless and set to zero.
pub type Cell = (Datum, bool);

/// The null cell.
pub open spec fn null_cell() -> Cell {
    (Datum { word: 0 }, true)
}

/// The signed number that a word holds in two's complement.
pub open spec fn signed(word: u64) -> int {
    if word < 0x8000_0000_0000_0000 {
        word as int
    } else {
        word as int - 0x1_0000_0000_0000_0000
    }
}

/// The word that holds a signed 64-bit number in two's complement.
pub open spec fn word_of(v: int) -> u64
    recommends
        i64::MIN <= v <= i64::MAX,
{
    if v >= 0 {
        v as u64
    } else {
        (v + 0x1_0000_0000_0000_0000) as u64
    }
}

/// The signed number that the low 32 bits of a word hold.
pub open spec fn signed32(word: u64) -> int {
    let low = word as int % 0x1_0000_0000;
    if low < 0x8000_0000 {
        low
    } else {
        low - 0x1_0000_0000
    }
}

/// The signed number that the low 16 bits of a word hold.
pub open spec fn signed16(word: u64) -> int {
    let low = word as int % 0x1_0000;
    if low < 0x8000 {
        low
    } else {
        low - 0x1_0000
    }
}

/// A word holds every signed 64-bit number, and reading it gives the number back.
pub proof fn law_word_roundtrip(v: int, w: u64)
    requires
        i64::MIN <= v <= i64::MAX,
    ensures
        signed(word_of(v)) == v,
        word_of(signed(w)) == w,
        i64::MIN <= signed(w) <= i64::MAX,
{
}

impl Datum {
    /// The word itself.
    pub fn value(self) -> (w: u64)
        ensures
            w == self.word,
    {
        self.word
    }

    /// The word read as a signed 64-bit number.
    pub fn to_i64(self) -> (v: i64)
        ensures
            v == signed(self.word),
    {
        let w: u64 = self.word;
        let v: i64 = w as i64;
        assert(w < 0x8000_0000_0000_0000 ==> v == w) by (bit_vector)
            requires
                v == w as i64,
        ;
        assert(w >= 0x8000_0000_0000_0000 ==> v == w - 0x1_0000_0000_0000_0000) by (bit_vector)
            requires
                v == w as i64,
        ;
        v
    }

    /// The word that holds `v` in two's complement.
    pub fn from_i64(v: i64) -> (d: Datum)
        ensures
            d.word == word_of(v as int),
            signed(d.word) == v,
    {
        let w: u64 = v as u64;
        assert(v >= 0 ==> w == v) by (bit_vector)
            requires
                w == v as u64,
        ;
        assert(v < 0 ==> w == v + 0x1_0000_0000_0000_0000) by (bit_vector)
            requires
                w == v as u64,
        ;
        Datum { word: w }
    }
}

impl From<usize> for Datum {
    fn from(v: usize) -> (d: Datum) {
        Datum { word: v as u64 }
    }
}

impl vstd::std_specs::convert::FromSpecImpl<usize> for Datum {
    open spec fn obeys_from_spec() -> bool {
        true
    }

    open spec fn from_spec(v: usize) -> Datum {
        Datum { word: v as u64 }
    }
}

/// The null cell.
pub fn new_null() -> (c: Cell)
    ensures
        c == null_cell(),
{
    (Datum { word: 0 }, true)
}

/// The number that a datum adds to an integer sum, by the type of its column: integers are
/// signed in their own width, anything else counts as the unsigned word.
pub open spec fn integer_value(word: u64, type_oid: u32) -> int {
    if type_oid == INT2OID {
        signed16(word)
    } else if type_oid == INT4OID {
        signed32(word)
    } else if type_oid == INT8OID {
        signed(word)
    } else {
        word as int
    }
}

/// Converts a datum to the number that it adds to an integer sum.
pub fn datum_to_i128(datum: Datum, type_oid: u32) -> (v: i128)
    ensures
        v == integer_value(datum.word, type_oid),
        -0x8000_0000_0000_0000 <= v <= 0xffff_ffff_ffff_ffff,
{
    let w: u64 = datum.word;
    if type_oid == INT2OID {
        let s: i16 = w as i16;
        assert((w % 0x1_0000) < 0x8000 ==> s == w % 0x1_0000) by (bit_vector)
            requires
                s == w as i16,
        ;
        assert((w % 0x1_0000) >= 0x8000 ==> s == (w % 0x1_0000) - 0x1_0000) by (bit_vector)
            requires
                s == w as i16,
        ;
        s as i128
    } else if type_oid == INT4OID {
        let s: i32 = w as i32;
        assert((w % 0x1_0000_0000) < 0x8000_0000 ==> s == w % 0x1_0000_0000) by (bit_vector)
            requires
                s == w as i32,
        ;
        assert((w % 0x1_0000_0000) >= 0x8000_0000 ==> s == (w % 0x1_0000_0000) - 0x1_0000_0000)
            by (bit_vector)
            requires
                s == w as i32,
        ;
        s as i128
    } else if type_oid == INT8OID {
        datum.to_i64() as i128
    } else {
        w as i128
    }
}

/// Whether values of this type are text.
pub open spec fn is_text_oid(type_oid: u32) -> bool {
    type_oid == TEXTOID || type_oid == VARCHAROID || type_oid == BPCHAROID
}

/// Whether values of this type are floating-point numbers.
pub open spec fn is_float_oid(type_oid: u32) -> bool {
    type_oid == FLOAT4OID || type_oid == FLOAT8OID
}

/// Whether values of this type are integers.
pub open spec fn is_integer_oid(type_oid: u32) -> bool {
    type_oid == INT2OID || type_oid == INT4OID || type_oid == INT8OID
}

/// Whether values of this type are text.
pub fn is_text_type(type_oid: u32) -> (r: bool)
    ensures
        r == is_text_oid(type_oid),
{
    type_oid == TEXTOID || type_oid == VARCHAROID || type_oid == BPCHAROID
}

/// Whether values of this type are floating-point numbers.
pub fn is_float_type(type_oid: u32) -> (r: bool)
    ensures
        r == is_float_oid(type_oid),
{
    type_oid == FLOAT4OID || type_oid == FLOAT8OID
}

/// Whether values of this type are integers.
pub fn is_integer_type(type_oid: u32) -> (r: bool)
    ensures
        r == is_integer_oid(type_oid),
{
    type_oid == INT2OID || type_oid == INT4OID || type_oid == INT8OID
}

/// The type that a catalog type name stands for; unknown names are treated as text.
pub open spec fn oid_of_name(name: Seq<char>) -> u32 {
    if name == "timestamptz"@ {
        TIMESTAMPTZOID
    } else if name == "timestamp"@ {
        TIMESTAMPOID
    } else if name == "float8"@ {
        FLOAT8OID
    } else if name == "float4"@ {
        FLOAT4OID
    } else if name == "int2"@ {
        INT2OID
    } else if name == "int4"@ {
        INT4OID
    } else if name == "int8"@ {
        INT8OID
    } else if name == "date"@ {
        DATEOID
    } else if name == "bpchar"@ {
        BPCHAROID
    } else if name == "bool"@ {
        BOOLOID
    } else if name == "varchar"@ {
        VARCHAROID
    } else {
        TEXTOID
    }
}

/// Maps a catalog type name to its type.
pub fn pg_type_oid(udt_name: &str) -> (oid: u32)
    ensures
        oid == oid_of_name(udt_name@),
{
    if text::str_eq(udt_name, "timestamptz") {
        TIMESTAMPTZOID
    } else if text::str_eq(udt_name, "timestamp") {
        TIMESTAMPOID
    } else if text::str_eq(udt_name, "float8") {
        FLOAT8OID
    } else if text::str_eq(udt_name, "float4") {
        FLOAT4OID
    } else if text::str_eq(udt_name, "int2") {
        INT2OID
    } else if text::str_eq(udt_name, "int4") {
        INT4OID
    } else if text::str_eq(udt_name, "int8") {
        INT8OID
    } else if text::str_eq(udt_name, "date") {
        DATEOID
    } else if text::str_eq(udt_name, "bpchar") {
        BPCHAROID
    } else if text::str_eq(udt_name, "bool") {
        BOOLOID
    } else if text::str_eq(udt_name, "varchar") {
        VARCHAROID
    } else {
        TEXTOID
    }
}

/// The name under which the codecs know a type.
pub open spec fn codec_name(type_oid: u32) -> Seq<char> {
    if type_oid == TIMESTAMPTZOID || type_oid == TIMESTAMPOID {
        "timestamp with time zone"@
    } else if type_oid == FLOAT8OID {
        "double precision"@
    } else if type_oid == FLOAT4OID {
        "real"@
    } else if type_oid == INT2OID {
        "smallint"@
    } else if type_oid == INT4OID {
        "integer"@
    } else if type_oid == INT8OID {
        "bigint"@
    } else if type_oid == DATEOID {
        "date"@
    } else if type_oid == BOOLOID {
        "boolean"@
    } else {
        "text"@
    }
}

/// Maps a type to the name under which the codecs know it.
pub fn pg_type_name(type_oid: u32) -> (name: String)
    ensures
        name@ == codec_name(type_oid),
{
    let name = if type_oid == TIMESTAMPTZOID || type_oid == TIMESTAMPOID {
        "timestamp with time zone"
    } else if type_oid == FLOAT8OID {
        "double precision"
    } else if type_oid == FLOAT4OID {
        "real"
    } else if type_oid == INT2OID {
        "smallint"
    } else if type_oid == INT4OID {
        "integer"
    } else if type_oid == INT8OID {
        "bigint"
    } else if type_oid == DATEOID {
        "date"
    } else if type_oid == BOOLOID {
        "boolean"
    } else {
        "text"
    };
    name.to_string()
}

// ---------------------------------------------------------------------------
// Laws
// ---------------------------------------------------------------------------

/// An integer of its type's width is read back from any word whose low bits hold it, signed; words
/// of other types count as they are.
pub proof fn law_integer_values(word: u64, type_oid: u32, v: int, upper: int)
    requires
        word == v + upper * (if type_oid == 21 {
            0x1_0000int
        } else if type_oid == 23 {
            0x1_0000_0000int
        } else {
            0x1_0000_0000_0000_0000int
        }),
    ensures
        type_oid == 21 && i16::MIN <= v <= i16::MAX ==> integer_value(word, type_oid) == v,
        type_oid == 23 && i32::MIN <= v <= i32::MAX ==> integer_value(word, type_oid) == v,
        type_oid == 20 && i64::MIN <= v <= i64::MAX ==> integer_value(word, type_oid) == v,
        type_oid != 21 && type_oid != 23 && type_oid != 20 ==> integer_value(word, type_oid)
            == word,
{
}

/// The types of texts, floating-point numbers and integers, by their identifiers in the catalog of
/// PostgreSQL; no type is of two of these classes.
pub proof fn law_type_classes(type_oid: u32)
    ensures
        is_text_oid(type_oid) <==> type_oid == 25 || type_oid == 1043 || type_oid == 1042,
        is_float_oid(type_oid) <==> type_oid == 700 || type_oid == 701,
        is_integer_oid(type_oid) <==> type_oid == 20 || type_oid == 21 || type_oid == 23,
        !(is_text_oid(type_oid) && is_float_oid(type_oid)),
        !(is_text_oid(type_oid) && is_integer_oid(type_oid)),
        !(is_float_oid(type_oid) && is_integer_oid(type_oid)),
{
}

/// A null cell has the null flag, and a word that is not used.
pub proof fn law_null_cell()
    ensures
        null_cell().1,
        null_cell().0.word == 0,
{
}

/// The type of a catalog type name is the one that PostgreSQL gives that identifier.
pub proof fn law_types_of_names()
    ensures
        oid_of_name("timestamptz"@) == 1184,
        oid_of_name("timestamp"@) == 1114,
        oid_of_name("date"@) == 1082,
        oid_of_name("float8"@) == 701,
        oid_of_name("float4"@) == 700,
        oid_of_name("int2"@) == 21,
        oid_of_name("int4"@) == 23,
        oid_of_name("int8"@) == 20,
        oid_of_name("bool"@) == 16,
        oid_of_name("text"@) == 25,
        oid_of_name("varchar"@) == 1043,
        oid_of_name("bpchar"@) == 1042,
{
    lemma_catalog_names();
}

/// The catalog names are all different.
proof fn lemma_catalog_names()
    ensures
        "timestamptz"@.len() == 11,
        "timestamp"@.len() == 9,
        "varchar"@.len() == 7,
        "float8"@.len() == 6 && "float8"@[0] == 'f' && "float8"@[5] == '8',
        "float4"@.len() == 6 && "float4"@[0] == 'f' && "float4"@[5] == '4',
        "bpchar"@.len() == 6 && "bpchar"@[0] == 'b',
        "int2"@.len() == 4 && "int2"@[0] == 'i' && "int2"@[3] == '2',
        "int4"@.len() == 4 && "int4"@[0] == 'i' && "int4"@[3] == '4',
        "int8"@.len() == 4 && "int8"@[0] == 'i' && "int8"@[3] == '8',
        "date"@.len() == 4 && "date"@[0] == 'd',
        "bool"@.len() == 4 && "bool"@[0] == 'b',
        "text"@.len() == 4 && "text"@[0] == 't',
{
    reveal_strlit("timestamptz");
    reveal_strlit("timestamp");
    reveal_strlit("date");
    reveal_strlit("float8");
    reveal_strlit("float4");
    reveal_strlit("int2");
    reveal_strlit("int4");
    reveal_strlit("int8");
    reveal_strlit("bool");
    reveal_strlit("text");
    reveal_strlit("varchar");
    reveal_strlit("bpchar");
}

/// A name that is not one of the catalog's stands for text, and a type without a codec of its own is
/// known to the codecs as text.
pub proof fn law_unknown_types(name: Seq<char>, type_oid: u32)
    ensures
        name != "timestamptz"@ && name != "timestamp"@ && name != "date"@ && name != "float8"@
            && name != "float4"@ && name != "int2"@ && name != "int4"@ && name != "int8"@ && name
            != "bool"@ && name != "varchar"@ && name != "bpchar"@ ==> oid_of_name(name) == 25,
        type_oid != 1184 && type_oid != 1114 && type_oid != 1082 && type_oid != 701 && type_oid
            != 700 && type_oid != 21 && type_oid != 23 && type_oid != 20 && type_oid != 16
            ==> codec_name(type_oid) == "text"@,
{
}

/// The codecs know a column by the SQL name of the type that its catalog name stands for; both
/// timestamps are one to them, and so are all texts.
pub proof fn law_codec_names()
    ensures
        codec_name(oid_of_name("timestamptz"@)) == "timestamp with time zone"@,
        codec_name(oid_of_name("timestamp"@)) == "timestamp with time zone"@,
        codec_name(oid_of_name("date"@)) == "date"@,
        codec_name(oid_of_name("float8"@)) == "double precision"@,
        codec_name(oid_of_name("float4"@)) == "real"@,
        codec_name(oid_of_name("int2"@)) == "smallint"@,
        codec_name(oid_of_name("int4"@)) == "integer"@,
        codec_name(oid_of_name("int8"@)) == "bigint"@,
        codec_name(oid_of_name("bool"@)) == "boolean"@,
        codec_name(oid_of_name("text"@)) == "text"@,
        codec_name(oid_of_name("varchar"@)) == "text"@,
        codec_name(oid_of_name("bpchar"@)) == "text"@,
{
    lemma_catalog_names();
}

} // verus!
