use vstd::prelude::*;
use vstd::utf8::*;
use vstd::string::*;
use crate::errors::RelationErrors;
use crate::ieee::{double_less, fixed, fixed_text, lemma_line_injective, less};
use crate::text::{
    chars_of, i32_text, int_text, lemma_bytes_before_asymmetric, lemma_bytes_before_transitive,
    lemma_text_before_total, parse_i32, read_i32, str_rank, text_before, trim_bounds, trimmed, Rank,
};

verus! {

/// What a stored value is: a text, a 32-bit integer, or a double given by its
/// IEEE-754 bit pattern.
pub enum Value {
    Text(Seq<char>),
    Integer(i32),
    Float(u64),
}

/// A stored value. A floating-point number is held as the 64 bits of its
/// IEEE-754 representation, so that equality, hashing and the wire encoding
/// all go by the same bits.
#[derive(Debug, Hash)]
pub enum DataType {
    String(String),
    Int(i32),
    Float(u64),
}

impl View for DataType {
    type V = Value;

    open spec fn view(&self) -> Value {
        match self {
            DataType::String(s) => Value::Text(s@),
            DataType::Int(i) => Value::Integer(*i),
            DataType::Float(b) => Value::Float(*b),
        }
    }
}

/// The values that a sequence of stored values stands for.
pub open spec fn views(s: Seq<DataType>) -> Seq<Value> {
    s.map_values(|d: DataType| d@)
}

impl Clone for DataType {
    fn clone(&self) -> (r: Self)
        ensures
            r@ == self@,
    {
        match self {
            DataType::String(s) => DataType::String(s.clone()),
            DataType::Int(i) => DataType::Int(*i),
            DataType::Float(b) => DataType::Float(*b),
        }
    }
}

impl PartialEq for DataType {
    fn eq(&self, other: &DataType) -> (r: bool) {
        match (self, other) {
            (DataType::String(a), DataType::String(b)) => crate::text::str_eq(a.as_str(), b.as_str()),
            (DataType::Int(a), DataType::Int(b)) => *a == *b,
            (DataType::Float(a), DataType::Float(b)) => *a == *b,
            _ => false,
        }
    }
}

impl vstd::std_specs::cmp::PartialEqSpecImpl for DataType {
    open spec fn obeys_eq_spec() -> bool {
        true
    }

    open spec fn eq_spec(&self, other: &DataType) -> bool {
        self@ == other@
    }
}

impl Eq for DataType {}

/// Whether `a` is less than `b` as two values of one kind are compared: two
/// integers as numbers, two doubles in the order of all doubles, two texts
/// in the dictionary order. Of two different values of one kind one is less
/// than the other; between values of different kinds neither is less.
pub open spec fn value_before(a: Value, b: Value) -> bool {
    match (a, b) {
        (Value::Integer(x), Value::Integer(y)) => x < y,
        (Value::Float(x), Value::Float(y)) => double_less(x, y),
        (Value::Text(x), Value::Text(y)) => text_before(x, y),
        _ => false,
    }
}

/// The place of a value's kind in the order of the kinds: texts first, then
/// integers, then doubles.
pub open spec fn kind_rank(v: Value) -> int {
    match v {
        Value::Text(_) => 0,
        Value::Integer(_) => 1,
        Value::Float(_) => 2,
    }
}

/// Whether `a` is less than `b` in the order of all values: by kind first,
/// and within one kind as `value_before` says. The order is total, and two
/// values neither of which is less than the other are one value.
pub open spec fn value_less(a: Value, b: Value) -> bool {
    kind_rank(a) < kind_rank(b) || (kind_rank(a) == kind_rank(b) && value_before(a, b))
}

/// Of two values at most one is less than the other.
pub proof fn lemma_value_before_asymmetric(a: Value, b: Value)
    requires
        value_before(a, b),
    ensures
        !value_before(b, a),
        a != b,
{
    match (a, b) {
        (Value::Text(x), Value::Text(y)) => {
            lemma_bytes_before_asymmetric(encode_utf8(x), encode_utf8(y));
        },
        _ => {},
    }
}

/// In the order of all values no value is less than itself, and of two
/// values at most one is less than the other.
pub proof fn lemma_value_less_asymmetric(a: Value, b: Value)
    requires
        value_less(a, b),
    ensures
        !value_less(b, a),
        a != b,
{
    if kind_rank(a) == kind_rank(b) {
        lemma_value_before_asymmetric(a, b);
    }
}

/// The order of all values is transitive.
pub proof fn lemma_value_less_transitive(a: Value, b: Value, c: Value)
    requires
        value_less(a, b),
        value_less(b, c),
    ensures
        value_less(a, c),
{
    match (a, b, c) {
        (Value::Text(x), Value::Text(y), Value::Text(z)) => {
            lemma_bytes_before_transitive(encode_utf8(x), encode_utf8(y), encode_utf8(z));
        },
        _ => {},
    }
}

/// Of two different values one is less than the other in the order of all
/// values.
pub proof fn lemma_value_less_total(a: Value, b: Value)
    ensures
        a == b || value_less(a, b) || value_less(b, a),
{
    match (a, b) {
        (Value::Text(x), Value::Text(y)) => {
            if x != y {
                lemma_text_before_total(x, y);
            }
        },
        (Value::Float(x), Value::Float(y)) => {
            if !double_less(x, y) && !double_less(y, x) {
                lemma_line_injective(x, y);
            }
        },
        _ => {},
    }
}

/// A number that mixes the first `n` bytes of `bytes` into `seed`.
pub open spec fn mix(seed: u64, bytes: Seq<u8>, n: nat) -> u64
    decreases n,
{
    if n == 0 {
        seed
    } else {
        let h = mix(seed, bytes, (n - 1) as nat);
        ((h << 5) | (h >> 59)) ^ (bytes[n - 1] as u64)
    }
}

/// The hash of a value: a number that depends on nothing but the value, so
/// that equal values have equal hashes.
pub open spec fn value_hash(v: Value) -> u64 {
    match v {
        Value::Text(s) => mix(0x7465_7874, encode_utf8(s), encode_utf8(s).len()),
        Value::Integer(i) => (i as u32) as u64,
        Value::Float(b) => b,
    }
}

/// The canonical text of a value: an integer in decimal, a double with six
/// digits behind the point, a text as itself.
pub open spec fn value_text(v: Value) -> Seq<char> {
    match v {
        Value::Text(s) => s,
        Value::Integer(i) => int_text(i as int),
        Value::Float(b) => fixed_text(b, 6),
    }
}

/// The value that a text denotes, given what reading it as a floating-point
/// number gave: the integer where the text denotes one that fits 32 bits,
/// else the double where it was read as one, else the text itself.
pub open spec fn value_of_text(t: Seq<char>, as_float: Option<u64>) -> Value {
    match parse_i32(t) {
        Some(i) => Value::Integer(i),
        None => match as_float {
            Some(bits) => Value::Float(bits),
            None => Value::Text(t),
        },
    }
}

/// The number of bytes that the payload of a value takes.
pub open spec fn value_size(v: Value) -> nat {
    match v {
        Value::Text(s) => encode_utf8(s).len(),
        Value::Integer(_) => 4,
        Value::Float(_) => 8,
    }
}

/// Whether `v` is a value that the text `s` can be read as. The text is
/// taken without the white space at its start and end. Where it denotes a
/// 32-bit integer, `v` is that integer; else `v` goes by one of the results
/// that `parse_float` has on it.
pub open spec fn reads_as<P: Fn(&str) -> Option<u64>>(parse_float: P, s: Seq<char>, v: Value) -> bool {
    match parse_i32(trimmed(s)) {
        Some(i) => v == Value::Integer(i),
        None => exists|t: &str, f: Option<u64>|
            t@ == trimmed(s) && #[trigger] call_ensures(parse_float, (t,), f) && v == value_of_text(
                t@,
                f,
            ),
    }
}

impl DataType {
    /// The value that the text `s` denotes, with the white space at its
    /// start and end left out. The text is tried as a 32-bit integer first.
    /// Where it is none, `parse_float` is asked to read it as a
    /// floating-point number and to give the bits of the double; where that
    /// gives nothing either, the value is the text itself.
    pub fn from_str<P: Fn(&str) -> Option<u64>>(s: &str, parse_float: P) -> (v: DataType)
        requires
            forall|t: &str| call_requires(parse_float, (t,)),
        ensures
            reads_as(parse_float, s@, v@),
    {
        DataType::read(s, &parse_float)
    }

    /// The value that the text `s` denotes, as `from_str` gives it, with the
    /// reader of floating-point numbers lent.
    pub fn read<P: Fn(&str) -> Option<u64>>(s: &str, parse_float: &P) -> (v: DataType)
        requires
            forall|t: &str| call_requires(*parse_float, (t,)),
        ensures
            reads_as(*parse_float, s@, v@),
    {
        let chars = chars_of(s);
        let (from, to) = trim_bounds(&chars);
        match read_i32(&chars, from, to) {
            Some(i) => DataType::Int(i),
            None => {
                let t = s.substring_char(from, to);
                let f = parse_float(t);
                match f {
                    Some(bits) => DataType::Float(bits),
                    None => DataType::String(t.to_string()),
                }
            },
        }
    }

    /// The canonical text of this value.
    pub fn to_str(&self) -> (r: String)
        ensures
            r@ == value_text(self@),
    {
        match self {
            DataType::Int(i) => i32_text(*i),
            DataType::Float(b) => fixed(*b, 6),
            DataType::String(s) => s.clone(),
        }
    }

    /// The number of bytes that this value takes with a tag byte in front.
    pub fn slen(&self) -> (r: usize)
        requires
            value_size(self@) < usize::MAX,
        ensures
            r == value_size(self@) + 1,
    {
        self.dlen() + 1
    }

    /// The number of bytes that the payload of this value takes.
    pub fn dlen(&self) -> (r: usize)
        ensures
            r == value_size(self@),
    {
        match self {
            DataType::Int(_) => 4,
            DataType::Float(_) => 8,
            DataType::String(s) => s.as_str().as_bytes().len(),
        }
    }

    /// The name of the kind of this value as a JSON string.
    pub fn to_json(&self) -> (r: String)
        ensures
            r@ == (match self@ {
                Value::Integer(_) => "\"Integer\""@,
                Value::Float(_) => "\"Float\""@,
                Value::Text(_) => "\"String\""@,
            }),
    {
        match self {
            DataType::Int(_) => "\"Integer\"".to_string(),
            DataType::Float(_) => "\"Float\"".to_string(),
            DataType::String(_) => "\"String\"".to_string(),
        }
    }

    /// The hash of this value.
    pub fn hash_code(&self) -> (r: u64)
        ensures
            r == value_hash(self@),
    {
        match self {
            DataType::String(s) => {
                let bytes = s.as_str().as_bytes();
                let mut h: u64 = 0x7465_7874;
                let mut i: usize = 0;
                while i < bytes.len()
                    invariant
                        i <= bytes.len(),
                        h == mix(0x7465_7874, bytes@, i as nat),
                    decreases bytes.len() - i,
                {
                    h = ((h << 5) | (h >> 59)) ^ (bytes[i] as u64);
                    i += 1;
                }
                h
            },
            DataType::Int(i) => (*i as u32) as u64,
            DataType::Float(b) => *b,
        }
    }

    /// Whether this value is less than `other` as two values of one kind are
    /// compared.
    pub fn before(&self, other: &DataType) -> (r: bool)
        ensures
            r == value_before(self@, other@),
    {
        match (self, other) {
            (DataType::Int(x), DataType::Int(y)) => *x < *y,
            (DataType::Float(x), DataType::Float(y)) => less(*x, *y),
            (DataType::String(x), DataType::String(y)) => {
                match str_rank(x.as_str(), y.as_str()) {
                    Rank::Before => true,
                    Rank::Same => false,
                    Rank::After => {
                        proof {
                            lemma_bytes_before_asymmetric(encode_utf8(y@), encode_utf8(x@));
                        }
                        false
                    },
                }
            },
            _ => false,
        }
    }

    /// Whether this value is less than `other` in the order of all values.
    pub fn less_than(&self, other: &DataType) -> (r: bool)
        ensures
            r == value_less(self@, other@),
    {
        match (self, other) {
            (DataType::String(_), DataType::Int(_)) => true,
            (DataType::String(_), DataType::Float(_)) => true,
            (DataType::Int(_), DataType::Float(_)) => true,
            (DataType::Int(_), DataType::String(_)) => false,
            (DataType::Float(_), DataType::String(_)) => false,
            (DataType::Float(_), DataType::Int(_)) => false,
            _ => self.before(other),
        }
    }
}

/// The four bytes of `x`, most significant first.
pub open spec fn be_u32(x: u32) -> Seq<u8> {
    seq![
        ((x >> 24) & 0xff) as u8,
        ((x >> 16) & 0xff) as u8,
        ((x >> 8) & 0xff) as u8,
        (x & 0xff) as u8,
    ]
}

/// The eight bytes of `x`, most significant first.
pub open spec fn be_u64(x: u64) -> Seq<u8> {
    seq![
        ((x >> 56) & 0xff) as u8,
        ((x >> 48) & 0xff) as u8,
        ((x >> 40) & 0xff) as u8,
        ((x >> 32) & 0xff) as u8,
        ((x >> 24) & 0xff) as u8,
        ((x >> 16) & 0xff) as u8,
        ((x >> 8) & 0xff) as u8,
        (x & 0xff) as u8,
    ]
}

/// The number whose big-endian bytes are the first four of `b`.
pub open spec fn from_be_u32(b: Seq<u8>) -> u32 {
    (b[0] as u32) << 24 | (b[1] as u32) << 16 | (b[2] as u32) << 8 | (b[3] as u32)
}

/// The number whose big-endian bytes are the first eight of `b`.
pub open spec fn from_be_u64(b: Seq<u8>) -> u64 {
    (b[0] as u64) << 56 | (b[1] as u64) << 48 | (b[2] as u64) << 40 | (b[3] as u64) << 32
        | (b[4] as u64) << 24 | (b[5] as u64) << 16 | (b[6] as u64) << 8 | (b[7] as u64)
}

/// The wire form of one value: a tag byte, then the payload.
pub open spec fn encode_value(v: Value) -> Seq<u8> {
    match v {
        Value::Text(s) => seq![0u8] + be_u64(encode_utf8(s).len() as u64) + encode_utf8(s),
        Value::Integer(i) => seq![1u8] + be_u32(i as u32),
        Value::Float(b) => seq![2u8] + be_u64(b),
    }
}

/// The wire form of a sequence of values: their wire forms, one after another.
pub open spec fn encode_all(vs: Seq<Value>) -> Seq<u8>
    decreases vs.len(),
{
    if vs.len() == 0 {
        Seq::<u8>::empty()
    } else {
        encode_value(vs[0]) + encode_all(vs.drop_first())
    }
}

/// The value at the front of `bytes` and the number of bytes it takes, or
/// `None` where the front is no complete value.
pub open spec fn decode_first(bytes: Seq<u8>) -> Option<(Value, int)> {
    if bytes.len() == 0 {
        None
    } else if bytes[0] == 0 {
        if bytes.len() < 9 {
            None
        } else {
            let n = from_be_u64(bytes.subrange(1, 9)) as int;
            if bytes.len() - 9 < n || !valid_utf8(bytes.subrange(9, 9 + n)) {
                None
            } else {
                Some((Value::Text(decode_utf8(bytes.subrange(9, 9 + n))), 9 + n))
            }
        }
    } else if bytes[0] == 1 {
        if bytes.len() < 5 {
            None
        } else {
            Some((Value::Integer(from_be_u32(bytes.subrange(1, 5)) as i32), 5))
        }
    } else if bytes[0] == 2 {
        if bytes.len() < 9 {
            None
        } else {
            Some((Value::Float(from_be_u64(bytes.subrange(1, 9))), 9))
        }
    } else {
        None
    }
}

/// The values that `bytes` is the wire form of, read front to back until the
/// buffer is used up, or `None` where it is malformed.
pub open spec fn decode_all(bytes: Seq<u8>) -> Option<Seq<Value>>
    decreases bytes.len(),
{
    if bytes.len() == 0 {
        Some(Seq::<Value>::empty())
    } else {
        match decode_first(bytes) {
            None => None,
            Some((v, n)) => if 0 < n <= bytes.len() {
                match decode_all(bytes.skip(n)) {
                    Some(rest) => Some(seq![v] + rest),
                    None => None,
                }
            } else {
                None
            },
        }
    }
}

/// Reading back the big-endian bytes of a 32-bit number gives the number.
pub proof fn lemma_be_u32_round_trip(x: u32)
    ensures
        be_u32(x).len() == 4,
        from_be_u32(be_u32(x)) == x,
{
    let b0 = ((x >> 24) & 0xff) as u8;
    let b1 = ((x >> 16) & 0xff) as u8;
    let b2 = ((x >> 8) & 0xff) as u8;
    let b3 = (x & 0xff) as u8;
    assert((b0 as u32) << 24 | (b1 as u32) << 16 | (b2 as u32) << 8 | (b3 as u32) == x)
        by (bit_vector)
        requires
            b0 == ((x >> 24) & 0xff) as u8,
            b1 == ((x >> 16) & 0xff) as u8,
            b2 == ((x >> 8) & 0xff) as u8,
            b3 == (x & 0xff) as u8,
    ;
}

/// Reading back the big-endian bytes of a 64-bit number gives the number.
pub proof fn lemma_be_u64_round_trip(x: u64)
    ensures
        be_u64(x).len() == 8,
        from_be_u64(be_u64(x)) == x,
{
    let b0 = ((x >> 56) & 0xff) as u8;
    let b1 = ((x >> 48) & 0xff) as u8;
    let b2 = ((x >> 40) & 0xff) as u8;
    let b3 = ((x >> 32) & 0xff) as u8;
    let b4 = ((x >> 24) & 0xff) as u8;
    let b5 = ((x >> 16) & 0xff) as u8;
    let b6 = ((x >> 8) & 0xff) as u8;
    let b7 = (x & 0xff) as u8;
    assert((b0 as u64) << 56 | (b1 as u64) << 48 | (b2 as u64) << 40 | (b3 as u64) << 32
        | (b4 as u64) << 24 | (b5 as u64) << 16 | (b6 as u64) << 8 | (b7 as u64) == x)
        by (bit_vector)
        requires
            b0 == ((x >> 56) & 0xff) as u8,
            b1 == ((x >> 48) & 0xff) as u8,
            b2 == ((x >> 40) & 0xff) as u8,
            b3 == ((x >> 32) & 0xff) as u8,
            b4 == ((x >> 24) & 0xff) as u8,
            b5 == ((x >> 16) & 0xff) as u8,
            b6 == ((x >> 8) & 0xff) as u8,
            b7 == (x & 0xff) as u8,
    ;
}

/// Appending one value to a sequence appends its wire form.
pub proof fn lemma_encode_push(vs: Seq<Value>, v: Value)
    ensures
        encode_all(vs.push(v)) == encode_all(vs) + encode_value(v),
    decreases vs.len(),
{
    if vs.len() == 0 {
        assert(vs.push(v).drop_first() =~= vs);
        assert(encode_all(vs.push(v)) =~= encode_all(vs) + encode_value(v));
    } else {
        assert(vs.push(v).drop_first() =~= vs.drop_first().push(v));
        lemma_encode_push(vs.drop_first(), v);
        assert(encode_all(vs.push(v)) =~= encode_all(vs) + encode_value(v));
    }
}

/// A value whose wire form can be written: the length of a text fits the
/// eight bytes that carry it.
pub open spec fn encodable(v: Value) -> bool {
    v matches Value::Text(s) ==> encode_utf8(s).len() <= u64::MAX
}

/// The wire form of a value, followed by anything, reads back as that value.
pub proof fn lemma_decode_first_of_encoded(v: Value, tail: Seq<u8>)
    requires
        encodable(v),
    ensures
        decode_first(encode_value(v) + tail) == Some((v, encode_value(v).len() as int)),
        encode_value(v).len() > 0,
{
    let bytes = encode_value(v) + tail;
    match v {
        Value::Text(s) => {
            let payload = encode_utf8(s);
            let n = payload.len() as u64;
            lemma_be_u64_round_trip(n);
            assert(bytes.subrange(1, 9) =~= be_u64(n));
            assert(bytes.subrange(9, 9 + n) =~= payload);
            encode_utf8_valid_utf8(s);
            encode_utf8_decode_utf8(s);
        },
        Value::Integer(i) => {
            lemma_be_u32_round_trip(i as u32);
            assert(bytes.subrange(1, 5) =~= be_u32(i as u32));
            assert((i as u32) as i32 == i) by (bit_vector);
        },
        Value::Float(b) => {
            lemma_be_u64_round_trip(b);
            assert(bytes.subrange(1, 9) =~= be_u64(b));
        },
    }
}

/// Decoding the wire form of any sequence of values gives the sequence back.
pub proof fn lemma_decode_encode(vs: Seq<Value>)
    requires
        forall|i: int| 0 <= i < vs.len() ==> encodable(#[trigger] vs[i]),
    ensures
        decode_all(encode_all(vs)) == Some(vs),
    decreases vs.len(),
{
    if vs.len() == 0 {
        assert(vs =~= Seq::<Value>::empty());
    } else {
        let head = encode_value(vs[0]);
        let tail = encode_all(vs.drop_first());
        lemma_decode_first_of_encoded(vs[0], tail);
        assert((head + tail).skip(head.len() as int) =~= tail);
        assert forall|i: int| 0 <= i < vs.drop_first().len() implies encodable(#[trigger] vs.drop_first()[i]) by {
            assert(vs.drop_first()[i] == vs[i + 1]);
        }
        lemma_decode_encode(vs.drop_first());
        assert(seq![vs[0]] + vs.drop_first() =~= vs);
    }
}

/// Writes the four bytes of `x` at the end of `out`, most significant first.
fn push_be_u32(out: &mut Vec<u8>, x: u32)
    ensures
        final(out)@ == old(out)@ + be_u32(x),
{
    out.push(((x >> 24) & 0xff) as u8);
    out.push(((x >> 16) & 0xff) as u8);
    out.push(((x >> 8) & 0xff) as u8);
    out.push((x & 0xff) as u8);
    assert(out@ =~= old(out)@ + be_u32(x));
}

/// Writes the eight bytes of `x` at the end of `out`, most significant first.
fn push_be_u64(out: &mut Vec<u8>, x: u64)
    ensures
        final(out)@ == old(out)@ + be_u64(x),
{
    out.push(((x >> 56) & 0xff) as u8);
    out.push(((x >> 48) & 0xff) as u8);
    out.push(((x >> 40) & 0xff) as u8);
    out.push(((x >> 32) & 0xff) as u8);
    out.push(((x >> 24) & 0xff) as u8);
    out.push(((x >> 16) & 0xff) as u8);
    out.push(((x >> 8) & 0xff) as u8);
    out.push((x & 0xff) as u8);
    assert(out@ =~= old(out)@ + be_u64(x));
}

/// Writes `bytes` at the end of `out`.
fn push_bytes(out: &mut Vec<u8>, bytes: &[u8])
    ensures
        final(out)@ == old(out)@ + bytes@,
{
    let mut i: usize = 0;
    while i < bytes.len()
        invariant
            i <= bytes.len(),
            out@ == old(out)@ + bytes@.take(i as int),
        decreases bytes.len() - i,
    {
        out.push(bytes[i]);
        assert(bytes@.take(i + 1) =~= bytes@.take(i as int).push(bytes@[i as int]));
        i += 1;
    }
    assert(bytes@.take(i as int) =~= bytes@);
}

/// Writes the wire form of one value at the end of `out`.
fn encode_into(out: &mut Vec<u8>, value: &DataType)
    ensures
        final(out)@ == old(out)@ + encode_value(value@),
{
    match value {
        DataType::String(s) => {
            let bytes = s.as_str().as_bytes();
            out.push(0u8);
            push_be_u64(out, bytes.len() as u64);
            push_bytes(out, bytes);
            assert(out@ =~= old(out)@ + encode_value(value@));
        },
        DataType::Int(i) => {
            out.push(1u8);
            push_be_u32(out, *i as u32);
            assert(out@ =~= old(out)@ + encode_value(value@));
        },
        DataType::Float(b) => {
            out.push(2u8);
            push_be_u64(out, *b);
            assert(out@ =~= old(out)@ + encode_value(value@));
        },
    }
}

/// The wire form of `data_types`: for each value a tag byte (0 for a text, 1
/// for an integer, 2 for a double) and its payload. Always succeeds.
pub fn serialize_data_types(data_types: &[DataType]) -> (r: Result<Vec<u8>, RelationErrors>)
    ensures
        r matches Ok(bytes) && bytes@ == encode_all(views(data_types@)),
{
    let mut out: Vec<u8> = Vec::new();
    let mut i: usize = 0;
    while i < data_types.len()
        invariant
            i <= data_types.len(),
            out@ == encode_all(views(data_types@.take(i as int))),
        decreases data_types.len() - i,
    {
        encode_into(&mut out, &data_types[i]);
        proof {
            lemma_encode_push(views(data_types@.take(i as int)), data_types@[i as int]@);
            assert(views(data_types@.take(i + 1)) =~= views(data_types@.take(i as int)).push(
                data_types@[i as int]@,
            ));
        }
        i += 1;
    }
    assert(data_types@.take(i as int) =~= data_types@);
    Ok(out)
}

/// `String::from_utf8`: the text that the bytes encode in UTF-8, and `None`
/// exactly where the bytes are not valid UTF-8.
#[verifier::external_body]
fn string_from_utf8(bytes: Vec<u8>) -> (r: Option<String>)
    ensures
        r is Some <==> valid_utf8(bytes@),
        r matches Some(s) ==> encode_utf8(s@) == bytes@,
{
    String::from_utf8(bytes).ok()
}

/// The bytes from `from` up to `to`.
fn copy_range(bytes: &[u8], from: usize, to: usize) -> (r: Vec<u8>)
    requires
        from <= to <= bytes.len(),
    ensures
        r@ == bytes@.subrange(from as int, to as int),
{
    let mut out: Vec<u8> = Vec::new();
    let mut i: usize = from;
    while i < to
        invariant
            from <= i <= to <= bytes.len(),
            out@ == bytes@.subrange(from as int, i as int),
        decreases to - i,
    {
        out.push(bytes[i]);
        assert(bytes@.subrange(from as int, i + 1) =~= bytes@.subrange(from as int, i as int).push(
            bytes@[i as int],
        ));
        i += 1;
    }
    out
}

/// The number whose big-endian bytes are the four from `at` on.
fn read_be_u32(bytes: &[u8], at: usize) -> (r: u32)
    requires
        at + 4 <= bytes.len(),
    ensures
        r == from_be_u32(bytes@.subrange(at as int, at + 4)),
{
    (bytes[at] as u32) << 24 | (bytes[at + 1] as u32) << 16 | (bytes[at + 2] as u32) << 8 | (bytes[at
        + 3] as u32)
}

/// The number whose big-endian bytes are the eight from `at` on.
fn read_be_u64(bytes: &[u8], at: usize) -> (r: u64)
    requires
        at + 8 <= bytes.len(),
    ensures
        r == from_be_u64(bytes@.subrange(at as int, at + 8)),
{
    (bytes[at] as u64) << 56 | (bytes[at + 1] as u64) << 48 | (bytes[at + 2] as u64) << 40 | (bytes[at
        + 3] as u64) << 32 | (bytes[at + 4] as u64) << 24 | (bytes[at + 5] as u64) << 16 | (bytes[at
        + 6] as u64) << 8 | (bytes[at + 7] as u64)
}

/// Reads the value that starts at `at`, with the number of bytes it takes.
fn decode_at(bytes: &[u8], at: usize) -> (r: Option<(DataType, usize)>)
    requires
        at < bytes.len(),
    ensures
        match r {
            Some((value, n)) => decode_first(bytes@.skip(at as int)) == Some((value@, n as int))
                && 0 < n <= bytes.len() - at,
            None => decode_first(bytes@.skip(at as int)) is None,
        },
{
    let ghost rest = bytes@.skip(at as int);
    let tag = bytes[at];
    let left = bytes.len() - at;
    if tag == 0 {
        if left < 9 {
            return None;
        }
        let n = read_be_u64(bytes, at + 1);
        assert(rest.subrange(1, 9) =~= bytes@.subrange(at + 1, at + 9));
        if n > (left - 9) as u64 {
            return None;
        }
        let len = n as usize;
        let raw = copy_range(bytes, at + 9, at + 9 + len);
        assert(rest.subrange(9, 9 + n) =~= bytes@.subrange(at + 9, at + 9 + len));
        match string_from_utf8(raw) {
            Some(s) => {
                proof {
                    encode_utf8_decode_utf8(s@);
                }
                Some((DataType::String(s), 9 + len))
            },
            None => None,
        }
    } else if tag == 1 {
        if left < 5 {
            return None;
        }
        let x = read_be_u32(bytes, at + 1);
        assert(rest.subrange(1, 5) =~= bytes@.subrange(at + 1, at + 5));
        Some((DataType::Int(x as i32), 5))
    } else if tag == 2 {
        if left < 9 {
            return None;
        }
        let x = read_be_u64(bytes, at + 1);
        assert(rest.subrange(1, 9) =~= bytes@.subrange(at + 1, at + 9));
        Some((DataType::Float(x), 9))
    } else {
        None
    }
}

/// The values that `bytes` is the wire form of. Fails with `DecodeError`
/// exactly where the buffer is malformed: an unknown tag, a payload cut short,
/// or a text that is not UTF-8.
pub fn deserialize_data_types(bytes: &[u8]) -> (r: Result<Vec<DataType>, RelationErrors>)
    ensures
        match r {
            Ok(values) => decode_all(bytes@) == Some(views(values@)),
            Err(e) => decode_all(bytes@) is None && e is DecodeError,
        },
{
    let mut out: Vec<DataType> = Vec::new();
    let mut i: usize = 0;
    proof {
        assert(bytes@.skip(0) =~= bytes@);
        if decode_all(bytes@) is Some {
            assert(views(out@) + decode_all(bytes@)->0 =~= decode_all(bytes@)->0);
        }
    }
    while i < bytes.len()
        invariant
            i <= bytes.len(),
            decode_all(bytes@) == match decode_all(bytes@.skip(i as int)) {
                Some(rest) => Some(views(out@) + rest),
                None => None,
            },
        decreases bytes.len() - i,
    {
        match decode_at(bytes, i) {
            None => {
                return Err(RelationErrors::DecodeError);
            },
            Some((value, n)) => {
                proof {
                    assert(bytes@.skip(i as int).skip(n as int) =~= bytes@.skip(i + n));
                    let after = decode_all(bytes@.skip(i + n));
                    if after is Some {
                        assert(views(out@.push(value)) + after->0 =~= views(out@) + (seq![value@]
                            + after->0));
                    }
                }
                out.push(value);
                i += n;
            },
        }
    }
    proof {
        assert(views(out@) + Seq::<Value>::empty() =~= views(out@));
    }
    Ok(out)
}

} // verus!
