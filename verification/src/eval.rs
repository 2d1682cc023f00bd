use vstd::prelude::*;
use vstd::pervasive::unreached;
use crate::ast::{Constant, PrimitiveType, Type};
use crate::common::Key;

verus! {

pub const BYTE_MIN: i64 = -128i64;
pub const BYTE_MAX: i64 = 127i64;
pub const SHORT_MIN: i64 = -32768i64;
pub const SHORT_MAX: i64 = 32767i64;
pub const INT_MIN: i64 = -2147483648i64;
pub const INT_MAX: i64 = 2147483647i64;

/// Messages are at most this long.
pub const MESSAGE_MAX_LENGTH: i64 = 32767i64;

#[derive(Debug, Clone)]
pub struct InputValue(pub Key);

#[derive(Debug, Clone)]
pub struct OutputValue(pub Key);

/// A message: `None` is the null message.
#[derive(Debug, Clone)]
pub struct MessageValue(pub Option<Vec<u8>>);

#[derive(Debug, Clone)]
pub struct BooleanValue(pub bool);

#[derive(Debug, Clone)]
pub struct ByteValue(pub i8);

#[derive(Debug, Clone)]
pub struct ShortValue(pub i16);

#[derive(Debug, Clone)]
pub struct IntValue(pub i32);

#[derive(Debug, Clone)]
pub struct LongValue(pub i64);

#[derive(Debug, Clone)]
pub struct InputArrayValue(pub Vec<InputValue>);

#[derive(Debug, Clone)]
pub struct OutputArrayValue(pub Vec<OutputValue>);

#[derive(Debug, Clone)]
pub struct MessageArrayValue(pub Vec<MessageValue>);

#[derive(Debug, Clone)]
pub struct BooleanArrayValue(pub Vec<BooleanValue>);

#[derive(Debug, Clone)]
pub struct ByteArrayValue(pub Vec<ByteValue>);

#[derive(Debug, Clone)]
pub struct ShortArrayValue(pub Vec<ShortValue>);

#[derive(Debug, Clone)]
pub struct IntArrayValue(pub Vec<IntValue>);

#[derive(Debug, Clone)]
pub struct LongArrayValue(pub Vec<LongValue>);

/// A run-time value of the protocol language.
#[derive(Debug, Clone)]
pub enum Value {
    Input(InputValue),
    Output(OutputValue),
    Message(MessageValue),
    Boolean(BooleanValue),
    Byte(ByteValue),
    Short(ShortValue),
    Int(IntValue),
    Long(LongValue),
    InputArray(InputArrayValue),
    OutputArray(OutputArrayValue),
    MessageArray(MessageArrayValue),
    BooleanArray(BooleanArrayValue),
    ByteArray(ByteArrayValue),
    ShortArray(ShortArrayValue),
    IntArray(IntArrayValue),
    LongArray(LongArrayValue),
}

/// Whether `v` is one of the integer values (byte, short, int, long).
pub open spec fn is_integer(v: Value) -> bool {
    v is Byte || v is Short || v is Int || v is Long
}

/// The width class of an integer value: byte 0, short 1, int 2, long 3.
pub open spec fn int_rank(v: Value) -> nat {
    match v {
        Value::Byte(_) => 0,
        Value::Short(_) => 1,
        Value::Int(_) => 2,
        _ => 3,
    }
}

/// The mathematical integer held by an integer value.
pub open spec fn int_of(v: Value) -> int {
    match v {
        Value::Byte(ByteValue(b)) => b as int,
        Value::Short(ShortValue(s)) => s as int,
        Value::Int(IntValue(i)) => i as int,
        Value::Long(LongValue(l)) => l as int,
        _ => 0,
    }
}

/// Whether `x` can be held by an integer value of the given width class.
pub open spec fn fits_rank(rank: nat, x: int) -> bool {
    if rank == 0 {
        i8::MIN <= x <= i8::MAX
    } else if rank == 1 {
        i16::MIN <= x <= i16::MAX
    } else if rank == 2 {
        i32::MIN <= x <= i32::MAX
    } else {
        i64::MIN <= x <= i64::MAX
    }
}

/// The integer value of the given width class holding `x`.
pub open spec fn integer_value(rank: nat, x: int) -> Value {
    if rank == 0 {
        Value::Byte(ByteValue(x as i8))
    } else if rank == 1 {
        Value::Short(ShortValue(x as i16))
    } else if rank == 2 {
        Value::Int(IntValue(x as i32))
    } else {
        Value::Long(LongValue(x as i64))
    }
}

pub open spec fn max_rank(a: Value, b: Value) -> nat {
    if int_rank(a) >= int_rank(b) {
        int_rank(a)
    } else {
        int_rank(b)
    }
}

/// Rust's remainder: the sign follows the dividend.
pub open spec fn trunc_rem(a: int, b: int) -> int {
    let m = if b >= 0 {
        b
    } else {
        -b
    };
    if a >= 0 {
        a % m
    } else {
        -((-a) % m)
    }
}


/// The remainder as the standard library specifies `checked_rem` for signed integers.
spec fn signed_rem_output(x: int, d: int) -> int {
    if x == 0 {
        0
    } else if x > 0 && d > 0 {
        x % d
    } else if x < 0 && d < 0 {
        ((x * -1) % (d * -1)) * -1
    } else if x < 0 {
        ((x * -1) % d) * -1
    } else {
        x % (d * -1)
    }
}

proof fn lemma_signed_rem(x: int, d: int)
    requires
        d != 0,
    ensures
        signed_rem_output(x, d) == trunc_rem(x, d),
        x >= 0 ==> 0 <= trunc_rem(x, d) <= x,
        x < 0 ==> x <= trunc_rem(x, d) <= 0,
{
    let m = if d >= 0 { d } else { -d };
    if x >= 0 {
        assert(x % m <= x) by (nonlinear_arith) requires x >= 0, m > 0;
    } else {
        assert((-x) % m <= -x) by (nonlinear_arith) requires -x >= 0, m > 0;
    }
}

/// The contents of a message, `None` for the null message.
pub open spec fn message_contents(m: MessageValue) -> Option<Seq<u8>> {
    match m.0 {
        Some(buf) => Some(buf@),
        None => None,
    }
}

pub open spec fn bool_value(b: bool) -> Value {
    Value::Boolean(BooleanValue(b))
}

/// The exact type of a value.
pub open spec fn type_of(v: Value) -> Type {
    match v {
        Value::Input(_) => Type { primitive: PrimitiveType::Input, array: false },
        Value::Output(_) => Type { primitive: PrimitiveType::Output, array: false },
        Value::Message(_) => Type { primitive: PrimitiveType::Message, array: false },
        Value::Boolean(_) => Type { primitive: PrimitiveType::Boolean, array: false },
        Value::Byte(_) => Type { primitive: PrimitiveType::Byte, array: false },
        Value::Short(_) => Type { primitive: PrimitiveType::Short, array: false },
        Value::Int(_) => Type { primitive: PrimitiveType::Int, array: false },
        Value::Long(_) => Type { primitive: PrimitiveType::Long, array: false },
        Value::InputArray(_) => Type { primitive: PrimitiveType::Input, array: true },
        Value::OutputArray(_) => Type { primitive: PrimitiveType::Output, array: true },
        Value::MessageArray(_) => Type { primitive: PrimitiveType::Message, array: true },
        Value::BooleanArray(_) => Type { primitive: PrimitiveType::Boolean, array: true },
        Value::ByteArray(_) => Type { primitive: PrimitiveType::Byte, array: true },
        Value::ShortArray(_) => Type { primitive: PrimitiveType::Short, array: true },
        Value::IntArray(_) => Type { primitive: PrimitiveType::Int, array: true },
        Value::LongArray(_) => Type { primitive: PrimitiveType::Long, array: true },
    }
}

/// The width class of an integer primitive type (byte 0 .. long 3); none for other types.
pub open spec fn primitive_rank(p: PrimitiveType) -> Option<nat> {
    match p {
        PrimitiveType::Byte => Some(0nat),
        PrimitiveType::Short => Some(1nat),
        PrimitiveType::Int => Some(2nat),
        PrimitiveType::Long => Some(3nat),
        _ => None,
    }
}

/// Whether a value may be stored in a variable of type `t`: a scalar fits its own type,
/// booleans and integers also fit any integer type at least as wide
/// (booleans widening like bytes), and an array fits only its own array type.
pub open spec fn compatible(v: Value, t: Type) -> bool {
    match v {
        Value::Input(_) => !t.array && t.primitive is Input,
        Value::Output(_) => !t.array && t.primitive is Output,
        Value::Message(_) => !t.array && t.primitive is Message,
        Value::Boolean(_) => !t.array && (t.primitive is Boolean || primitive_rank(t.primitive) is Some),
        Value::Byte(_) => !t.array && primitive_rank(t.primitive) is Some,
        Value::Short(_) => !t.array && (primitive_rank(t.primitive) matches Some(r) && r >= 1),
        Value::Int(_) => !t.array && (primitive_rank(t.primitive) matches Some(r) && r >= 2),
        Value::Long(_) => !t.array && t.primitive is Long,
        Value::InputArray(_) => t.array && t.primitive is Input,
        Value::OutputArray(_) => t.array && t.primitive is Output,
        Value::MessageArray(_) => t.array && t.primitive is Message,
        Value::BooleanArray(_) => t.array && t.primitive is Boolean,
        Value::ByteArray(_) => t.array && t.primitive is Byte,
        Value::ShortArray(_) => t.array && t.primitive is Short,
        Value::IntArray(_) => t.array && t.primitive is Int,
        Value::LongArray(_) => t.array && t.primitive is Long,
    }
}

/// The number of elements of a message or array value.
pub open spec fn element_count(v: Value) -> Option<nat> {
    match v {
        Value::Message(MessageValue(Some(buf))) => Some(buf@.len()),
        Value::InputArray(InputArrayValue(a)) => Some(a@.len()),
        Value::OutputArray(OutputArrayValue(a)) => Some(a@.len()),
        Value::MessageArray(MessageArrayValue(a)) => Some(a@.len()),
        Value::BooleanArray(BooleanArrayValue(a)) => Some(a@.len()),
        Value::ByteArray(ByteArrayValue(a)) => Some(a@.len()),
        Value::ShortArray(ShortArrayValue(a)) => Some(a@.len()),
        Value::IntArray(IntArrayValue(a)) => Some(a@.len()),
        Value::LongArray(LongArrayValue(a)) => Some(a@.len()),
        _ => None,
    }
}


/// The least integer of the given width class.
pub open spec fn rank_min(rank: nat) -> int {
    if rank == 0 {
        i8::MIN as int
    } else if rank == 1 {
        i16::MIN as int
    } else if rank == 2 {
        i32::MIN as int
    } else {
        i64::MIN as int
    }
}


/// A value as mathematics sees it: the contents of messages and arrays as sequences.
pub enum ValueView {
    Input(Key),
    Output(Key),
    Message(Option<Seq<u8>>),
    Boolean(bool),
    Byte(i8),
    Short(i16),
    Int(i32),
    Long(i64),
    InputArray(Seq<Key>),
    OutputArray(Seq<Key>),
    MessageArray(Seq<Option<Seq<u8>>>),
    BooleanArray(Seq<bool>),
    ByteArray(Seq<i8>),
    ShortArray(Seq<i16>),
    IntArray(Seq<i32>),
    LongArray(Seq<i64>),
}

impl View for Value {
    type V = ValueView;

    open spec fn view(&self) -> ValueView {
        match self {
            Value::Input(InputValue(k)) => ValueView::Input(*k),
            Value::Output(OutputValue(k)) => ValueView::Output(*k),
            Value::Message(m) => ValueView::Message(message_contents(*m)),
            Value::Boolean(BooleanValue(b)) => ValueView::Boolean(*b),
            Value::Byte(ByteValue(b)) => ValueView::Byte(*b),
            Value::Short(ShortValue(x)) => ValueView::Short(*x),
            Value::Int(IntValue(x)) => ValueView::Int(*x),
            Value::Long(LongValue(x)) => ValueView::Long(*x),
            Value::InputArray(InputArrayValue(a)) => ValueView::InputArray(a@.map_values(|x: InputValue| x.0)),
            Value::OutputArray(OutputArrayValue(a)) => ValueView::OutputArray(a@.map_values(|x: OutputValue| x.0)),
            Value::MessageArray(MessageArrayValue(a)) => ValueView::MessageArray(a@.map_values(|m: MessageValue| message_contents(m))),
            Value::BooleanArray(BooleanArrayValue(a)) => ValueView::BooleanArray(a@.map_values(|x: BooleanValue| x.0)),
            Value::ByteArray(ByteArrayValue(a)) => ValueView::ByteArray(a@.map_values(|x: ByteValue| x.0)),
            Value::ShortArray(ShortArrayValue(a)) => ValueView::ShortArray(a@.map_values(|x: ShortValue| x.0)),
            Value::IntArray(IntArrayValue(a)) => ValueView::IntArray(a@.map_values(|x: IntValue| x.0)),
            Value::LongArray(LongArrayValue(a)) => ValueView::LongArray(a@.map_values(|x: LongValue| x.0)),
        }
    }
}



/// Whether `v` is one of the integer values (byte, short, int, long).
pub open spec fn vis_integer(v: ValueView) -> bool {
    v is Byte || v is Short || v is Int || v is Long
}

/// The mathematical integer held by an integer value.
pub open spec fn vint(v: ValueView) -> int {
    match v {
        ValueView::Byte(b) => b as int,
        ValueView::Short(x) => x as int,
        ValueView::Int(x) => x as int,
        ValueView::Long(x) => x as int,
        _ => 0,
    }
}

/// The width class of an integer value: byte 0, short 1, int 2, long 3.
pub open spec fn vrank(v: ValueView) -> nat {
    match v {
        ValueView::Byte(_) => 0,
        ValueView::Short(_) => 1,
        ValueView::Int(_) => 2,
        _ => 3,
    }
}

pub open spec fn vmax_rank(a: ValueView, b: ValueView) -> nat {
    if vrank(a) >= vrank(b) {
        vrank(a)
    } else {
        vrank(b)
    }
}

/// The integer value of the given width class holding `x`.
pub open spec fn vinteger(rank: nat, x: int) -> ValueView {
    if rank == 0 {
        ValueView::Byte(x as i8)
    } else if rank == 1 {
        ValueView::Short(x as i16)
    } else if rank == 2 {
        ValueView::Int(x as i32)
    } else {
        ValueView::Long(x as i64)
    }
}

/// The number of elements of a message or array value.
pub open spec fn vcount(v: ValueView) -> Option<nat> {
    match v {
        ValueView::Message(Some(b)) => Some(b.len()),
        ValueView::InputArray(a) => Some(a.len()),
        ValueView::OutputArray(a) => Some(a.len()),
        ValueView::MessageArray(a) => Some(a.len()),
        ValueView::BooleanArray(a) => Some(a.len()),
        ValueView::ByteArray(a) => Some(a.len()),
        ValueView::ShortArray(a) => Some(a.len()),
        ValueView::IntArray(a) => Some(a.len()),
        ValueView::LongArray(a) => Some(a.len()),
        _ => None,
    }
}

/// Whether a value may be stored in a variable of type `t` (see [`compatible`]).
pub open spec fn vcompatible(v: ValueView, t: Type) -> bool {
    match v {
        ValueView::Input(_) => !t.array && t.primitive is Input,
        ValueView::Output(_) => !t.array && t.primitive is Output,
        ValueView::Message(_) => !t.array && t.primitive is Message,
        ValueView::Boolean(_) => !t.array && (t.primitive is Boolean || primitive_rank(t.primitive) is Some),
        ValueView::Byte(_) => !t.array && primitive_rank(t.primitive) is Some,
        ValueView::Short(_) => !t.array && (primitive_rank(t.primitive) matches Some(r) && r >= 1),
        ValueView::Int(_) => !t.array && (primitive_rank(t.primitive) matches Some(r) && r >= 2),
        ValueView::Long(_) => !t.array && t.primitive is Long,
        ValueView::InputArray(_) => t.array && t.primitive is Input,
        ValueView::OutputArray(_) => t.array && t.primitive is Output,
        ValueView::MessageArray(_) => t.array && t.primitive is Message,
        ValueView::BooleanArray(_) => t.array && t.primitive is Boolean,
        ValueView::ByteArray(_) => t.array && t.primitive is Byte,
        ValueView::ShortArray(_) => t.array && t.primitive is Short,
        ValueView::IntArray(_) => t.array && t.primitive is Int,
        ValueView::LongArray(_) => t.array && t.primitive is Long,
    }
}

/// The spec functions on values agree with those on their views.
pub proof fn lemma_value_view(v: Value)
    ensures
        is_integer(v) == vis_integer(v@),
        int_of(v) == vint(v@),
        int_rank(v) == vrank(v@),
        element_count(v) == vcount(v@),
        forall|t: Type| compatible(v, t) == vcompatible(v@, t),
        (v is Message) == (v@ is Message),
        (v is Boolean) == (v@ is Boolean),
        v is Message ==> v@->Message_0 == message_contents(v->Message_0),
        v is Boolean ==> v@->Boolean_0 == v->Boolean_0.0,
        (v is Byte || v is Short) == (v@ is Byte || v@ is Short),
{
}

/// The view of an integer value built from its width class and integer.
pub proof fn lemma_integer_value_view(rank: nat, x: int)
    ensures
        integer_value(rank, x)@ == vinteger(rank, x),
        is_integer(integer_value(rank, x)),
{
}

/// A copy of a message.
fn copy_message(m: &MessageValue) -> (r: MessageValue)
    ensures
        message_contents(r) == message_contents(*m),
{
    match &m.0 {
        Some(b) => MessageValue(Some(copy_bytes(b))),
        None => MessageValue(None),
    }
}

/// Copies a vector element by element, with `copy` making each new element.
fn copy_elements<T, V, F: Fn(&T) -> T>(v: &Vec<T>, copy: F, Ghost(f): Ghost<spec_fn(T) -> V>) -> (r: Vec<T>)
    requires
        forall|x: &T| #[trigger] copy.requires((x,)),
        forall|x: &T, y: T| #[trigger] copy.ensures((x,), y) ==> f(y) == f(*x),
    ensures
        r@.len() == v@.len(),
        forall|k: int| 0 <= k < v@.len() ==> f(#[trigger] r@[k]) == f(v@[k]),
{
    let mut r: Vec<T> = Vec::new();
    let mut i: usize = 0;
    while i < v.len()
        invariant
            i <= v.len(),
            r@.len() == i,
            forall|x: &T| #[trigger] copy.requires((x,)),
            forall|x: &T, y: T| #[trigger] copy.ensures((x,), y) ==> f(y) == f(*x),
            forall|k: int| 0 <= k < i ==> f(#[trigger] r@[k]) == f(v@[k]),
        decreases v.len() - i,
    {
        let x = copy(&v[i]);
        r.push(x);
        i += 1;
    }
    r
}

impl Value {

    /// A copy of this value.
    pub fn duplicate(&self) -> (r: Value)
        ensures
            r@ == self@,
    {
        match self {
            Value::Input(InputValue(k)) => Value::Input(InputValue(*k)),
            Value::Output(OutputValue(k)) => Value::Output(OutputValue(*k)),
            Value::Message(m) => Value::Message(copy_message(m)),
            Value::Boolean(BooleanValue(b)) => Value::Boolean(BooleanValue(*b)),
            Value::Byte(ByteValue(b)) => Value::Byte(ByteValue(*b)),
            Value::Short(ShortValue(x)) => Value::Short(ShortValue(*x)),
            Value::Int(IntValue(x)) => Value::Int(IntValue(*x)),
            Value::Long(LongValue(x)) => Value::Long(LongValue(*x)),
            Value::InputArray(InputArrayValue(a)) => {
                let c = copy_elements::<InputValue, Key, _>(a, |x: &InputValue| -> (y: InputValue) ensures y.0 == x.0 { InputValue(x.0) }, Ghost(|x: InputValue| x.0));
                assert(c@.map_values(|x: InputValue| x.0) =~= a@.map_values(|x: InputValue| x.0));
                Value::InputArray(InputArrayValue(c))
            },
            Value::OutputArray(OutputArrayValue(a)) => {
                let c = copy_elements::<OutputValue, Key, _>(a, |x: &OutputValue| -> (y: OutputValue) ensures y.0 == x.0 { OutputValue(x.0) }, Ghost(|x: OutputValue| x.0));
                assert(c@.map_values(|x: OutputValue| x.0) =~= a@.map_values(|x: OutputValue| x.0));
                Value::OutputArray(OutputArrayValue(c))
            },
            Value::MessageArray(MessageArrayValue(a)) => {
                let c = copy_elements::<MessageValue, Option<Seq<u8>>, _>(a, |x: &MessageValue| -> (y: MessageValue) ensures message_contents(y) == message_contents(*x) { copy_message(x) }, Ghost(|m: MessageValue| message_contents(m)));
                assert(c@.map_values(|m: MessageValue| message_contents(m)) =~= a@.map_values(|m: MessageValue| message_contents(m)));
                Value::MessageArray(MessageArrayValue(c))
            },
            Value::BooleanArray(BooleanArrayValue(a)) => {
                let c = copy_elements::<BooleanValue, bool, _>(a, |x: &BooleanValue| -> (y: BooleanValue) ensures y.0 == x.0 { BooleanValue(x.0) }, Ghost(|x: BooleanValue| x.0));
                assert(c@.map_values(|x: BooleanValue| x.0) =~= a@.map_values(|x: BooleanValue| x.0));
                Value::BooleanArray(BooleanArrayValue(c))
            },
            Value::ByteArray(ByteArrayValue(a)) => {
                let c = copy_elements::<ByteValue, i8, _>(a, |x: &ByteValue| -> (y: ByteValue) ensures y.0 == x.0 { ByteValue(x.0) }, Ghost(|x: ByteValue| x.0));
                assert(c@.map_values(|x: ByteValue| x.0) =~= a@.map_values(|x: ByteValue| x.0));
                Value::ByteArray(ByteArrayValue(c))
            },
            Value::ShortArray(ShortArrayValue(a)) => {
                let c = copy_elements::<ShortValue, i16, _>(a, |x: &ShortValue| -> (y: ShortValue) ensures y.0 == x.0 { ShortValue(x.0) }, Ghost(|x: ShortValue| x.0));
                assert(c@.map_values(|x: ShortValue| x.0) =~= a@.map_values(|x: ShortValue| x.0));
                Value::ShortArray(ShortArrayValue(c))
            },
            Value::IntArray(IntArrayValue(a)) => {
                let c = copy_elements::<IntValue, i32, _>(a, |x: &IntValue| -> (y: IntValue) ensures y.0 == x.0 { IntValue(x.0) }, Ghost(|x: IntValue| x.0));
                assert(c@.map_values(|x: IntValue| x.0) =~= a@.map_values(|x: IntValue| x.0));
                Value::IntArray(IntArrayValue(c))
            },
            Value::LongArray(LongArrayValue(a)) => {
                let c = copy_elements::<LongValue, i64, _>(a, |x: &LongValue| -> (y: LongValue) ensures y.0 == x.0 { LongValue(x.0) }, Ghost(|x: LongValue| x.0));
                assert(c@.map_values(|x: LongValue| x.0) =~= a@.map_values(|x: LongValue| x.0));
                Value::LongArray(LongArrayValue(c))
            },
        }
    }
    /// A message value holding a copy of the received bytes.
    pub fn receive_message(buffer: &Vec<u8>) -> (r: Value)
        ensures
            r is Message && message_contents(r->Message_0) == Some(buffer@),
    {
        Value::Message(MessageValue(Some(copy_bytes(buffer))))
    }

    /// A zeroed message of the given length, or the null message if the length is negative or
    /// larger than `MESSAGE_MAX_LENGTH`.
    pub fn create_message(length: Value) -> (r: Value)
        requires
            is_integer(length),
        ensures
            r is Message,
            int_of(length) < 0 || int_of(length) > MESSAGE_MAX_LENGTH ==> message_contents(r->Message_0) is None,
            0 <= int_of(length) <= MESSAGE_MAX_LENGTH ==> message_contents(r->Message_0) == Some(Seq::new(int_of(length) as nat, |i: int| 0u8)),
    {
        let length: i64 = length.to_i64();
        if length < 0 || length > MESSAGE_MAX_LENGTH {
            // Only messages within the expected length are allowed
            Value::Message(MessageValue(None))
        } else {
            let n = length as usize;
            let mut buf: Vec<u8> = Vec::new();
            let mut i: usize = 0;
            while i < n
                invariant
                    i <= n,
                    buf@ == Seq::new(i as nat, |k: int| 0u8),
                decreases n - i,
            {
                buf.push(0u8);
                i += 1;
                assert(buf@ =~= Seq::new(i as nat, |k: int| 0u8));
            }
            Value::Message(MessageValue(Some(buf)))
        }
    }

    /// The value of a literal: the null message, a boolean, or an integer held by the narrowest
    /// integer type that fits it.
    pub fn from_constant(constant: &Constant) -> (r: Value)
        requires
            !(constant is Character),
            constant matches Constant::Integer(data) ==> decimal_i64(data@) is Some,
        ensures
            constant is Null ==> r is Message && message_contents(r->Message_0) is None,
            constant is True ==> r == bool_value(true),
            constant is False ==> r == bool_value(false),
            constant matches Constant::Integer(data) ==> r == integer_value(narrowest_rank(decimal_value(data@)), decimal_value(data@)),
    {
        match constant {
            Constant::Null => Value::Message(MessageValue(None)),
            Constant::True => Value::Boolean(BooleanValue(true)),
            Constant::False => Value::Boolean(BooleanValue(false)),
            Constant::Integer(data) => {
                let val = parse_i64(data).unwrap();
                if val >= BYTE_MIN && val <= BYTE_MAX {
                    Value::Byte(ByteValue(val as i8))
                } else if val >= SHORT_MIN && val <= SHORT_MAX {
                    Value::Short(ShortValue(val as i16))
                } else if val >= INT_MIN && val <= INT_MAX {
                    Value::Int(IntValue(val as i32))
                } else {
                    Value::Long(LongValue(val))
                }
            },
            Constant::Character(_) => unreached(),
        }
    }

    /// Writes `value` at position `index` of this message. Returns the written value, or
    /// `None` when the update is inconsistent: the index is out of bounds, the message is null,
    /// or the value is not a byte in `0..=127`.
    pub fn set(&mut self, index: &Value, value: &Value) -> (r: Option<Value>)
        requires
            is_integer(*index),
            int_of(*index) < 0 || int_of(*index) >= MESSAGE_MAX_LENGTH || (*old(self) is Message && (
                old(self)->Message_0.0 is None || value is Byte || value is Short)),
        ensures
            ({
                let i = int_of(*index);
                let ok = 0 <= i < MESSAGE_MAX_LENGTH && *old(self) is Message && old(self)->Message_0.0 is Some
                    && 0 <= int_of(*value) <= 127 && i < old(self)->Message_0.0->0@.len();
                &&& ok ==> r == Some(*value) && *final(self) is Message && message_contents(final(self)->Message_0) == Some(
                    old(self)->Message_0.0->0@.update(i, int_of(*value) as u8))
                &&& !ok ==> r is None && *final(self) == *old(self)
            }),
    {
        // The index must be of integer type, and non-negative
        let index: i64 = index.to_i64();
        if index < 0 || index >= MESSAGE_MAX_LENGTH {
            // It is inconsistent to update out of bounds
            return None;
        }
        let the_index = index as usize;
        // The subject must be a message, and the value must be compatible
        match self {
            Value::Message(MessageValue(None)) => {
                // It is inconsistent to update the null message
                None
            },
            Value::Message(MessageValue(Some(buffer))) => {
                let b: i64 = match value {
                    Value::Byte(ByteValue(b)) => *b as i64,
                    Value::Short(ShortValue(b)) => *b as i64,
                    _ => unreached(),
                };
                if b < 0 || b > BYTE_MAX {
                    // It is inconsistent to update with a negative value or a too large value
                    return None;
                }
                if the_index < buffer.len() {
                    buffer.set(the_index, b as u8);
                    match value {
                        Value::Byte(ByteValue(b)) => Some(Value::Byte(ByteValue(*b))),
                        Value::Short(ShortValue(b)) => Some(Value::Short(ShortValue(*b))),
                        _ => unreached(),
                    }
                } else {
                    // It is inconsistent to update out of bounds
                    None
                }
            },
            _ => unreached(),
        }
    }

    /// Reads position `index` of this message as a short, or `None` when the read is
    /// inconsistent: the index is out of bounds or the message is null.
    pub fn get(&self, index: &Value) -> (r: Option<Value>)
        requires
            is_integer(*index),
            int_of(*index) < 0 || int_of(*index) >= MESSAGE_MAX_LENGTH || self is Message,
        ensures
            ({
                let i = int_of(*index);
                if 0 <= i < MESSAGE_MAX_LENGTH && self is Message && self->Message_0.0 is Some && i < self->Message_0.0->0@.len() {
                    r == Some(Value::Short(ShortValue(self->Message_0.0->0@[i] as i16)))
                } else {
                    r is None
                }
            }),
    {
        // The index must be of integer type, and non-negative
        let index: i64 = index.to_i64();
        if index < 0 || index >= MESSAGE_MAX_LENGTH {
            // It is inconsistent to read out of bounds
            return None;
        }
        let the_index = index as usize;
        match self {
            Value::Message(MessageValue(None)) => {
                // It is inconsistent to read from the null message
                None
            },
            Value::Message(MessageValue(Some(buffer))) => {
                if the_index < buffer.len() {
                    Some(Value::Short(ShortValue(buffer[the_index] as i16)))
                } else {
                    // It is inconsistent to read out of bounds
                    None
                }
            },
            _ => unreached(),
        }
    }

    /// The number of elements of a message or array, as an int; `None` for the null message.
    pub fn length(&self) -> (r: Option<Value>)
        requires
            element_count(*self) is Some || (self is Message && self->Message_0.0 is None),
            element_count(*self) matches Some(n) ==> n <= i32::MAX,
        ensures
            element_count(*self) matches Some(n) ==> r == Some(Value::Int(IntValue(n as i32))),
            element_count(*self) is None ==> r is None,
    {
        match self {
            Value::Message(MessageValue(None)) => {
                // It is inconsistent to get length from the null message
                None
            },
            Value::Message(MessageValue(Some(buffer))) => Some(Value::Int(IntValue(buffer.len() as i32))),
            Value::InputArray(InputArrayValue(vec)) => Some(Value::Int(IntValue(vec.len() as i32))),
            Value::OutputArray(OutputArrayValue(vec)) => Some(Value::Int(IntValue(vec.len() as i32))),
            Value::MessageArray(MessageArrayValue(vec)) => Some(Value::Int(IntValue(vec.len() as i32))),
            Value::BooleanArray(BooleanArrayValue(vec)) => Some(Value::Int(IntValue(vec.len() as i32))),
            Value::ByteArray(ByteArrayValue(vec)) => Some(Value::Int(IntValue(vec.len() as i32))),
            Value::ShortArray(ShortArrayValue(vec)) => Some(Value::Int(IntValue(vec.len() as i32))),
            Value::IntArray(IntArrayValue(vec)) => Some(Value::Int(IntValue(vec.len() as i32))),
            Value::LongArray(LongArrayValue(vec)) => Some(Value::Int(IntValue(vec.len() as i32))),
            _ => unreached(),
        }
    }

    /// The sum, held by the wider of the two integer types.
    pub fn plus(&self, other: &Value) -> (r: Value)
        requires
            is_integer(*self),
            is_integer(*other),
            fits_rank(max_rank(*self, *other), int_of(*self) + int_of(*other)),
        ensures
            r == integer_value(max_rank(*self, *other), int_of(*self) + int_of(*other)),
    {
        match (self, other) {
            (Value::Byte(ByteValue(s)), Value::Byte(ByteValue(o))) => Value::Byte(ByteValue(*s + *o)),
            (Value::Byte(ByteValue(s)), Value::Short(ShortValue(o))) => Value::Short(ShortValue((*s as i16) + *o)),
            (Value::Byte(ByteValue(s)), Value::Int(IntValue(o))) => Value::Int(IntValue((*s as i32) + *o)),
            (Value::Byte(ByteValue(s)), Value::Long(LongValue(o))) => Value::Long(LongValue((*s as i64) + *o)),
            (Value::Short(ShortValue(s)), Value::Byte(ByteValue(o))) => Value::Short(ShortValue(*s + *o as i16)),
            (Value::Short(ShortValue(s)), Value::Short(ShortValue(o))) => Value::Short(ShortValue(*s + *o)),
            (Value::Short(ShortValue(s)), Value::Int(IntValue(o))) => Value::Int(IntValue((*s as i32) + *o)),
            (Value::Short(ShortValue(s)), Value::Long(LongValue(o))) => Value::Long(LongValue((*s as i64) + *o)),
            (Value::Int(IntValue(s)), Value::Byte(ByteValue(o))) => Value::Int(IntValue(*s + *o as i32)),
            (Value::Int(IntValue(s)), Value::Short(ShortValue(o))) => Value::Int(IntValue(*s + *o as i32)),
            (Value::Int(IntValue(s)), Value::Int(IntValue(o))) => Value::Int(IntValue(*s + *o)),
            (Value::Int(IntValue(s)), Value::Long(LongValue(o))) => Value::Long(LongValue((*s as i64) + *o)),
            (Value::Long(LongValue(s)), Value::Byte(ByteValue(o))) => Value::Long(LongValue(*s + *o as i64)),
            (Value::Long(LongValue(s)), Value::Short(ShortValue(o))) => Value::Long(LongValue(*s + *o as i64)),
            (Value::Long(LongValue(s)), Value::Int(IntValue(o))) => Value::Long(LongValue(*s + *o as i64)),
            (Value::Long(LongValue(s)), Value::Long(LongValue(o))) => Value::Long(LongValue(*s + *o)),
            _ => unreached(),
        }
    }

    /// The difference, held by the wider of the two integer types.
    pub fn minus(&self, other: &Value) -> (r: Value)
        requires
            is_integer(*self),
            is_integer(*other),
            fits_rank(max_rank(*self, *other), int_of(*self) - int_of(*other)),
        ensures
            r == integer_value(max_rank(*self, *other), int_of(*self) - int_of(*other)),
    {
        match (self, other) {
            (Value::Byte(ByteValue(s)), Value::Byte(ByteValue(o))) => Value::Byte(ByteValue(*s - *o)),
            (Value::Byte(ByteValue(s)), Value::Short(ShortValue(o))) => Value::Short(ShortValue((*s as i16) - *o)),
            (Value::Byte(ByteValue(s)), Value::Int(IntValue(o))) => Value::Int(IntValue((*s as i32) - *o)),
            (Value::Byte(ByteValue(s)), Value::Long(LongValue(o))) => Value::Long(LongValue((*s as i64) - *o)),
            (Value::Short(ShortValue(s)), Value::Byte(ByteValue(o))) => Value::Short(ShortValue(*s - *o as i16)),
            (Value::Short(ShortValue(s)), Value::Short(ShortValue(o))) => Value::Short(ShortValue(*s - *o)),
            (Value::Short(ShortValue(s)), Value::Int(IntValue(o))) => Value::Int(IntValue((*s as i32) - *o)),
            (Value::Short(ShortValue(s)), Value::Long(LongValue(o))) => Value::Long(LongValue((*s as i64) - *o)),
            (Value::Int(IntValue(s)), Value::Byte(ByteValue(o))) => Value::Int(IntValue(*s - *o as i32)),
            (Value::Int(IntValue(s)), Value::Short(ShortValue(o))) => Value::Int(IntValue(*s - *o as i32)),
            (Value::Int(IntValue(s)), Value::Int(IntValue(o))) => Value::Int(IntValue(*s - *o)),
            (Value::Int(IntValue(s)), Value::Long(LongValue(o))) => Value::Long(LongValue((*s as i64) - *o)),
            (Value::Long(LongValue(s)), Value::Byte(ByteValue(o))) => Value::Long(LongValue(*s - *o as i64)),
            (Value::Long(LongValue(s)), Value::Short(ShortValue(o))) => Value::Long(LongValue(*s - *o as i64)),
            (Value::Long(LongValue(s)), Value::Int(IntValue(o))) => Value::Long(LongValue(*s - *o as i64)),
            (Value::Long(LongValue(s)), Value::Long(LongValue(o))) => Value::Long(LongValue(*s - *o)),
            _ => unreached(),
        }
    }

    #[verifier::rlimit(40)]
    /// The remainder (with the sign of the dividend), held by the wider of the two integer types.
    pub fn modulus(&self, other: &Value) -> (r: Value)
        requires
            is_integer(*self),
            is_integer(*other),
            int_of(*other) != 0,
            int_of(*other) != -1 || int_of(*self) != rank_min(max_rank(*self, *other)),
            fits_rank(max_rank(*self, *other), trunc_rem(int_of(*self), int_of(*other))),
        ensures
            r == integer_value(max_rank(*self, *other), trunc_rem(int_of(*self), int_of(*other))),
    {
        proof {
            lemma_signed_rem(int_of(*self), int_of(*other));
        }
        match (self, other) {
            (Value::Byte(ByteValue(s)), Value::Byte(ByteValue(o))) => Value::Byte(ByteValue((*s).checked_rem(*o).unwrap())),
            (Value::Byte(ByteValue(s)), Value::Short(ShortValue(o))) => Value::Short(ShortValue((*s as i16).checked_rem(*o).unwrap())),
            (Value::Byte(ByteValue(s)), Value::Int(IntValue(o))) => Value::Int(IntValue((*s as i32).checked_rem(*o).unwrap())),
            (Value::Byte(ByteValue(s)), Value::Long(LongValue(o))) => Value::Long(LongValue((*s as i64).checked_rem(*o).unwrap())),
            (Value::Short(ShortValue(s)), Value::Byte(ByteValue(o))) => Value::Short(ShortValue((*s).checked_rem(*o as i16).unwrap())),
            (Value::Short(ShortValue(s)), Value::Short(ShortValue(o))) => Value::Short(ShortValue((*s).checked_rem(*o).unwrap())),
            (Value::Short(ShortValue(s)), Value::Int(IntValue(o))) => Value::Int(IntValue((*s as i32).checked_rem(*o).unwrap())),
            (Value::Short(ShortValue(s)), Value::Long(LongValue(o))) => Value::Long(LongValue((*s as i64).checked_rem(*o).unwrap())),
            (Value::Int(IntValue(s)), Value::Byte(ByteValue(o))) => Value::Int(IntValue((*s).checked_rem(*o as i32).unwrap())),
            (Value::Int(IntValue(s)), Value::Short(ShortValue(o))) => Value::Int(IntValue((*s).checked_rem(*o as i32).unwrap())),
            (Value::Int(IntValue(s)), Value::Int(IntValue(o))) => Value::Int(IntValue((*s).checked_rem(*o).unwrap())),
            (Value::Int(IntValue(s)), Value::Long(LongValue(o))) => Value::Long(LongValue((*s as i64).checked_rem(*o).unwrap())),
            (Value::Long(LongValue(s)), Value::Byte(ByteValue(o))) => Value::Long(LongValue((*s).checked_rem(*o as i64).unwrap())),
            (Value::Long(LongValue(s)), Value::Short(ShortValue(o))) => Value::Long(LongValue((*s).checked_rem(*o as i64).unwrap())),
            (Value::Long(LongValue(s)), Value::Int(IntValue(o))) => Value::Long(LongValue((*s).checked_rem(*o as i64).unwrap())),
            (Value::Long(LongValue(s)), Value::Long(LongValue(o))) => Value::Long(LongValue((*s).checked_rem(*o).unwrap())),
            _ => unreached(),
        }
    }

    /// Equality of two integers, or of two messages.
    pub fn eq(&self, other: &Value) -> (r: Value)
        requires
            (is_integer(*self) && is_integer(*other)) || (self is Message && other is Message),
        ensures
            is_integer(*self) && is_integer(*other) ==> r == bool_value(int_of(*self) == int_of(*other)),
            self is Message && other is Message ==> r == bool_value(message_contents(self->Message_0) == message_contents(other->Message_0)),
    {
        match (self, other) {
            (Value::Byte(ByteValue(s)), Value::Byte(ByteValue(o))) => Value::Boolean(BooleanValue(*s == *o)),
            (Value::Byte(ByteValue(s)), Value::Short(ShortValue(o))) => Value::Boolean(BooleanValue((*s as i16) == *o)),
            (Value::Byte(ByteValue(s)), Value::Int(IntValue(o))) => Value::Boolean(BooleanValue((*s as i32) == *o)),
            (Value::Byte(ByteValue(s)), Value::Long(LongValue(o))) => Value::Boolean(BooleanValue((*s as i64) == *o)),
            (Value::Short(ShortValue(s)), Value::Byte(ByteValue(o))) => Value::Boolean(BooleanValue(*s == *o as i16)),
            (Value::Short(ShortValue(s)), Value::Short(ShortValue(o))) => Value::Boolean(BooleanValue(*s == *o)),
            (Value::Short(ShortValue(s)), Value::Int(IntValue(o))) => Value::Boolean(BooleanValue((*s as i32) == *o)),
            (Value::Short(ShortValue(s)), Value::Long(LongValue(o))) => Value::Boolean(BooleanValue((*s as i64) == *o)),
            (Value::Int(IntValue(s)), Value::Byte(ByteValue(o))) => Value::Boolean(BooleanValue(*s == *o as i32)),
            (Value::Int(IntValue(s)), Value::Short(ShortValue(o))) => Value::Boolean(BooleanValue(*s == *o as i32)),
            (Value::Int(IntValue(s)), Value::Int(IntValue(o))) => Value::Boolean(BooleanValue(*s == *o)),
            (Value::Int(IntValue(s)), Value::Long(LongValue(o))) => Value::Boolean(BooleanValue((*s as i64) == *o)),
            (Value::Long(LongValue(s)), Value::Byte(ByteValue(o))) => Value::Boolean(BooleanValue(*s == *o as i64)),
            (Value::Long(LongValue(s)), Value::Short(ShortValue(o))) => Value::Boolean(BooleanValue(*s == *o as i64)),
            (Value::Long(LongValue(s)), Value::Int(IntValue(o))) => Value::Boolean(BooleanValue(*s == *o as i64)),
            (Value::Long(LongValue(s)), Value::Long(LongValue(o))) => Value::Boolean(BooleanValue(*s == *o)),
            (Value::Message(s), Value::Message(o)) => Value::Boolean(BooleanValue(messages_equal(s, o))),
            _ => unreached(),
        }
    }

    /// Inequality of two integers, or of two messages.
    pub fn neq(&self, other: &Value) -> (r: Value)
        requires
            (is_integer(*self) && is_integer(*other)) || (self is Message && other is Message),
        ensures
            is_integer(*self) && is_integer(*other) ==> r == bool_value(int_of(*self) != int_of(*other)),
            self is Message && other is Message ==> r == bool_value(message_contents(self->Message_0) != message_contents(other->Message_0)),
    {
        match (self, other) {
            (Value::Byte(ByteValue(s)), Value::Byte(ByteValue(o))) => Value::Boolean(BooleanValue(*s != *o)),
            (Value::Byte(ByteValue(s)), Value::Short(ShortValue(o))) => Value::Boolean(BooleanValue((*s as i16) != *o)),
            (Value::Byte(ByteValue(s)), Value::Int(IntValue(o))) => Value::Boolean(BooleanValue((*s as i32) != *o)),
            (Value::Byte(ByteValue(s)), Value::Long(LongValue(o))) => Value::Boolean(BooleanValue((*s as i64) != *o)),
            (Value::Short(ShortValue(s)), Value::Byte(ByteValue(o))) => Value::Boolean(BooleanValue(*s != *o as i16)),
            (Value::Short(ShortValue(s)), Value::Short(ShortValue(o))) => Value::Boolean(BooleanValue(*s != *o)),
            (Value::Short(ShortValue(s)), Value::Int(IntValue(o))) => Value::Boolean(BooleanValue((*s as i32) != *o)),
            (Value::Short(ShortValue(s)), Value::Long(LongValue(o))) => Value::Boolean(BooleanValue((*s as i64) != *o)),
            (Value::Int(IntValue(s)), Value::Byte(ByteValue(o))) => Value::Boolean(BooleanValue(*s != *o as i32)),
            (Value::Int(IntValue(s)), Value::Short(ShortValue(o))) => Value::Boolean(BooleanValue(*s != *o as i32)),
            (Value::Int(IntValue(s)), Value::Int(IntValue(o))) => Value::Boolean(BooleanValue(*s != *o)),
            (Value::Int(IntValue(s)), Value::Long(LongValue(o))) => Value::Boolean(BooleanValue((*s as i64) != *o)),
            (Value::Long(LongValue(s)), Value::Byte(ByteValue(o))) => Value::Boolean(BooleanValue(*s != *o as i64)),
            (Value::Long(LongValue(s)), Value::Short(ShortValue(o))) => Value::Boolean(BooleanValue(*s != *o as i64)),
            (Value::Long(LongValue(s)), Value::Int(IntValue(o))) => Value::Boolean(BooleanValue(*s != *o as i64)),
            (Value::Long(LongValue(s)), Value::Long(LongValue(o))) => Value::Boolean(BooleanValue(*s != *o)),
            (Value::Message(s), Value::Message(o)) => Value::Boolean(BooleanValue(!messages_equal(s, o))),
            _ => unreached(),
        }
    }

    /// Whether this integer is less than the other.
    pub fn lt(&self, other: &Value) -> (r: Value)
        requires
            is_integer(*self),
            is_integer(*other),
        ensures
            r == bool_value(int_of(*self) < int_of(*other)),
    {
        match (self, other) {
            (Value::Byte(ByteValue(s)), Value::Byte(ByteValue(o))) => Value::Boolean(BooleanValue(*s < *o)),
            (Value::Byte(ByteValue(s)), Value::Short(ShortValue(o))) => Value::Boolean(BooleanValue((*s as i16) < *o)),
            (Value::Byte(ByteValue(s)), Value::Int(IntValue(o))) => Value::Boolean(BooleanValue((*s as i32) < *o)),
            (Value::Byte(ByteValue(s)), Value::Long(LongValue(o))) => Value::Boolean(BooleanValue((*s as i64) < *o)),
            (Value::Short(ShortValue(s)), Value::Byte(ByteValue(o))) => Value::Boolean(BooleanValue(*s < *o as i16)),
            (Value::Short(ShortValue(s)), Value::Short(ShortValue(o))) => Value::Boolean(BooleanValue(*s < *o)),
            (Value::Short(ShortValue(s)), Value::Int(IntValue(o))) => Value::Boolean(BooleanValue((*s as i32) < *o)),
            (Value::Short(ShortValue(s)), Value::Long(LongValue(o))) => Value::Boolean(BooleanValue((*s as i64) < *o)),
            (Value::Int(IntValue(s)), Value::Byte(ByteValue(o))) => Value::Boolean(BooleanValue(*s < *o as i32)),
            (Value::Int(IntValue(s)), Value::Short(ShortValue(o))) => Value::Boolean(BooleanValue(*s < *o as i32)),
            (Value::Int(IntValue(s)), Value::Int(IntValue(o))) => Value::Boolean(BooleanValue(*s < *o)),
            (Value::Int(IntValue(s)), Value::Long(LongValue(o))) => Value::Boolean(BooleanValue((*s as i64) < *o)),
            (Value::Long(LongValue(s)), Value::Byte(ByteValue(o))) => Value::Boolean(BooleanValue(*s < *o as i64)),
            (Value::Long(LongValue(s)), Value::Short(ShortValue(o))) => Value::Boolean(BooleanValue(*s < *o as i64)),
            (Value::Long(LongValue(s)), Value::Int(IntValue(o))) => Value::Boolean(BooleanValue(*s < *o as i64)),
            (Value::Long(LongValue(s)), Value::Long(LongValue(o))) => Value::Boolean(BooleanValue(*s < *o)),
            _ => unreached(),
        }
    }

    /// Whether this integer is at most the other.
    pub fn lte(&self, other: &Value) -> (r: Value)
        requires
            is_integer(*self),
            is_integer(*other),
        ensures
            r == bool_value(int_of(*self) <= int_of(*other)),
    {
        match (self, other) {
            (Value::Byte(ByteValue(s)), Value::Byte(ByteValue(o))) => Value::Boolean(BooleanValue(*s <= *o)),
            (Value::Byte(ByteValue(s)), Value::Short(ShortValue(o))) => Value::Boolean(BooleanValue((*s as i16) <= *o)),
            (Value::Byte(ByteValue(s)), Value::Int(IntValue(o))) => Value::Boolean(BooleanValue((*s as i32) <= *o)),
            (Value::Byte(ByteValue(s)), Value::Long(LongValue(o))) => Value::Boolean(BooleanValue((*s as i64) <= *o)),
            (Value::Short(ShortValue(s)), Value::Byte(ByteValue(o))) => Value::Boolean(BooleanValue(*s <= *o as i16)),
            (Value::Short(ShortValue(s)), Value::Short(ShortValue(o))) => Value::Boolean(BooleanValue(*s <= *o)),
            (Value::Short(ShortValue(s)), Value::Int(IntValue(o))) => Value::Boolean(BooleanValue((*s as i32) <= *o)),
            (Value::Short(ShortValue(s)), Value::Long(LongValue(o))) => Value::Boolean(BooleanValue((*s as i64) <= *o)),
            (Value::Int(IntValue(s)), Value::Byte(ByteValue(o))) => Value::Boolean(BooleanValue(*s <= *o as i32)),
            (Value::Int(IntValue(s)), Value::Short(ShortValue(o))) => Value::Boolean(BooleanValue(*s <= *o as i32)),
            (Value::Int(IntValue(s)), Value::Int(IntValue(o))) => Value::Boolean(BooleanValue(*s <= *o)),
            (Value::Int(IntValue(s)), Value::Long(LongValue(o))) => Value::Boolean(BooleanValue((*s as i64) <= *o)),
            (Value::Long(LongValue(s)), Value::Byte(ByteValue(o))) => Value::Boolean(BooleanValue(*s <= *o as i64)),
            (Value::Long(LongValue(s)), Value::Short(ShortValue(o))) => Value::Boolean(BooleanValue(*s <= *o as i64)),
            (Value::Long(LongValue(s)), Value::Int(IntValue(o))) => Value::Boolean(BooleanValue(*s <= *o as i64)),
            (Value::Long(LongValue(s)), Value::Long(LongValue(o))) => Value::Boolean(BooleanValue(*s <= *o)),
            _ => unreached(),
        }
    }

    /// Whether this integer is greater than the other.
    pub fn gt(&self, other: &Value) -> (r: Value)
        requires
            is_integer(*self),
            is_integer(*other),
        ensures
            r == bool_value(int_of(*self) > int_of(*other)),
    {
        match (self, other) {
            (Value::Byte(ByteValue(s)), Value::Byte(ByteValue(o))) => Value::Boolean(BooleanValue(*s > *o)),
            (Value::Byte(ByteValue(s)), Value::Short(ShortValue(o))) => Value::Boolean(BooleanValue((*s as i16) > *o)),
            (Value::Byte(ByteValue(s)), Value::Int(IntValue(o))) => Value::Boolean(BooleanValue((*s as i32) > *o)),
            (Value::Byte(ByteValue(s)), Value::Long(LongValue(o))) => Value::Boolean(BooleanValue((*s as i64) > *o)),
            (Value::Short(ShortValue(s)), Value::Byte(ByteValue(o))) => Value::Boolean(BooleanValue(*s > *o as i16)),
            (Value::Short(ShortValue(s)), Value::Short(ShortValue(o))) => Value::Boolean(BooleanValue(*s > *o)),
            (Value::Short(ShortValue(s)), Value::Int(IntValue(o))) => Value::Boolean(BooleanValue((*s as i32) > *o)),
            (Value::Short(ShortValue(s)), Value::Long(LongValue(o))) => Value::Boolean(BooleanValue((*s as i64) > *o)),
            (Value::Int(IntValue(s)), Value::Byte(ByteValue(o))) => Value::Boolean(BooleanValue(*s > *o as i32)),
            (Value::Int(IntValue(s)), Value::Short(ShortValue(o))) => Value::Boolean(BooleanValue(*s > *o as i32)),
            (Value::Int(IntValue(s)), Value::Int(IntValue(o))) => Value::Boolean(BooleanValue(*s > *o)),
            (Value::Int(IntValue(s)), Value::Long(LongValue(o))) => Value::Boolean(BooleanValue((*s as i64) > *o)),
            (Value::Long(LongValue(s)), Value::Byte(ByteValue(o))) => Value::Boolean(BooleanValue(*s > *o as i64)),
            (Value::Long(LongValue(s)), Value::Short(ShortValue(o))) => Value::Boolean(BooleanValue(*s > *o as i64)),
            (Value::Long(LongValue(s)), Value::Int(IntValue(o))) => Value::Boolean(BooleanValue(*s > *o as i64)),
            (Value::Long(LongValue(s)), Value::Long(LongValue(o))) => Value::Boolean(BooleanValue(*s > *o)),
            _ => unreached(),
        }
    }

    /// Whether this integer is at least the other.
    pub fn gte(&self, other: &Value) -> (r: Value)
        requires
            is_integer(*self),
            is_integer(*other),
        ensures
            r == bool_value(int_of(*self) >= int_of(*other)),
    {
        match (self, other) {
            (Value::Byte(ByteValue(s)), Value::Byte(ByteValue(o))) => Value::Boolean(BooleanValue(*s >= *o)),
            (Value::Byte(ByteValue(s)), Value::Short(ShortValue(o))) => Value::Boolean(BooleanValue((*s as i16) >= *o)),
            (Value::Byte(ByteValue(s)), Value::Int(IntValue(o))) => Value::Boolean(BooleanValue((*s as i32) >= *o)),
            (Value::Byte(ByteValue(s)), Value::Long(LongValue(o))) => Value::Boolean(BooleanValue((*s as i64) >= *o)),
            (Value::Short(ShortValue(s)), Value::Byte(ByteValue(o))) => Value::Boolean(BooleanValue(*s >= *o as i16)),
            (Value::Short(ShortValue(s)), Value::Short(ShortValue(o))) => Value::Boolean(BooleanValue(*s >= *o)),
            (Value::Short(ShortValue(s)), Value::Int(IntValue(o))) => Value::Boolean(BooleanValue((*s as i32) >= *o)),
            (Value::Short(ShortValue(s)), Value::Long(LongValue(o))) => Value::Boolean(BooleanValue((*s as i64) >= *o)),
            (Value::Int(IntValue(s)), Value::Byte(ByteValue(o))) => Value::Boolean(BooleanValue(*s >= *o as i32)),
            (Value::Int(IntValue(s)), Value::Short(ShortValue(o))) => Value::Boolean(BooleanValue(*s >= *o as i32)),
            (Value::Int(IntValue(s)), Value::Int(IntValue(o))) => Value::Boolean(BooleanValue(*s >= *o)),
            (Value::Int(IntValue(s)), Value::Long(LongValue(o))) => Value::Boolean(BooleanValue((*s as i64) >= *o)),
            (Value::Long(LongValue(s)), Value::Byte(ByteValue(o))) => Value::Boolean(BooleanValue(*s >= *o as i64)),
            (Value::Long(LongValue(s)), Value::Short(ShortValue(o))) => Value::Boolean(BooleanValue(*s >= *o as i64)),
            (Value::Long(LongValue(s)), Value::Int(IntValue(o))) => Value::Boolean(BooleanValue(*s >= *o as i64)),
            (Value::Long(LongValue(s)), Value::Long(LongValue(o))) => Value::Boolean(BooleanValue(*s >= *o)),
            _ => unreached(),
        }
    }

    /// The boolean held by this value.
    pub fn as_boolean(&self) -> (r: &BooleanValue)
        requires
            self is Boolean,
        ensures
            *r == self->Boolean_0,
    {
        match self {
            Value::Boolean(result) => result,
            _ => unreached(),
        }
    }

    /// The boolean value `b`.
    pub fn from_bool(b: bool) -> (r: Value)
        ensures
            r == bool_value(b),
    {
        Value::Boolean(BooleanValue(b))
    }

    /// The boolean held by this value.
    pub fn to_bool(&self) -> (r: bool)
        requires
            self is Boolean,
        ensures
            r == self->Boolean_0.0,
    {
        match self {
            Value::Boolean(BooleanValue(b)) => *b,
            _ => unreached(),
        }
    }

    /// This byte as an `i8`.
    pub fn to_i8(&self) -> (r: i8)
        requires
            self is Byte,
        ensures
            r == int_of(*self),
    {
        match self {
            Value::Byte(ByteValue(b)) => *b,
            _ => unreached(),
        }
    }

    /// This byte or short as an `i16`.
    pub fn to_i16(&self) -> (r: i16)
        requires
            self is Byte || self is Short,
        ensures
            r == int_of(*self),
    {
        match self {
            Value::Byte(ByteValue(b)) => *b as i16,
            Value::Short(ShortValue(s)) => *s,
            _ => unreached(),
        }
    }

    /// This byte, short or int as an `i32`.
    pub fn to_i32(&self) -> (r: i32)
        requires
            self is Byte || self is Short || self is Int,
        ensures
            r == int_of(*self),
    {
        match self {
            Value::Byte(ByteValue(b)) => *b as i32,
            Value::Short(ShortValue(s)) => (*s as i32),
            Value::Int(IntValue(i)) => *i,
            _ => unreached(),
        }
    }

    /// This integer as an `i64`.
    pub fn to_i64(&self) -> (r: i64)
        requires
            is_integer(*self),
        ensures
            r == int_of(*self),
    {
        match self {
            Value::Byte(ByteValue(b)) => *b as i64,
            Value::Short(ShortValue(s)) => (*s as i64),
            Value::Int(IntValue(i)) => *i as i64,
            Value::Long(LongValue(l)) => *l,
            _ => unreached(),
        }
    }
}


pub open spec fn is_digit(c: u8) -> bool {
    48 <= c <= 57
}

/// The number written by a sequence of decimal digits.
pub open spec fn digits_value(s: Seq<u8>) -> int
    decreases s.len(),
{
    if s.len() == 0 {
        0
    } else {
        digits_value(s.drop_last()) * 10 + (s.last() - 48)
    }
}

/// Length of the optional leading sign (`+` or `-`).
pub open spec fn sign_len(s: Seq<u8>) -> int {
    if s.len() > 0 && (s[0] == 43 || s[0] == 45) {
        1
    } else {
        0
    }
}

/// The number written by an optionally signed decimal literal.
pub open spec fn decimal_value(s: Seq<u8>) -> int {
    let d = s.skip(sign_len(s));
    if s.len() > 0 && s[0] == 45 {
        -digits_value(d)
    } else {
        digits_value(d)
    }
}

/// The `i64` written by `s`: an optional sign followed by at least one decimal digit, whose
/// value is within range; `None` otherwise.
pub open spec fn decimal_i64(s: Seq<u8>) -> Option<i64> {
    let d = s.skip(sign_len(s));
    if d.len() > 0 && (forall|i: int| 0 <= i < d.len() ==> is_digit(#[trigger] d[i])) && i64::MIN
        <= decimal_value(s) <= i64::MAX {
        Some(decimal_value(s) as i64)
    } else {
        None
    }
}

/// The narrowest integer width class (byte 0 .. long 3) that holds `x`.
pub open spec fn narrowest_rank(x: int) -> nat {
    if fits_rank(0, x) {
        0
    } else if fits_rank(1, x) {
        1
    } else if fits_rank(2, x) {
        2
    } else {
        3
    }
}

proof fn lemma_digits_prefix(s: Seq<u8>, k: int)
    requires
        0 <= k <= s.len(),
        forall|i: int| 0 <= i < s.len() ==> is_digit(#[trigger] s[i]),
    ensures
        0 <= digits_value(s.take(k)) <= digits_value(s),
    decreases s.len(),
{
    if s.len() > 0 {
        if k == s.len() {
            assert(s.take(k) =~= s);
            lemma_digits_prefix(s.drop_last(), k - 1);
        } else {
            lemma_digits_prefix(s.drop_last(), k);
            assert(s.drop_last().take(k) =~= s.take(k));
        }
    } else {
        assert(s.take(k) =~= s);
    }
}

/// Parses an optionally signed decimal `i64` literal.
pub fn parse_i64(data: &Vec<u8>) -> (r: Option<i64>)
    ensures
        r == decimal_i64(data@),
{
    let negative = data.len() > 0 && data[0] == 45u8;
    let start: usize = if data.len() > 0 && (data[0] == 43u8 || data[0] == 45u8) {
        1
    } else {
        0
    };
    let ghost d = data@.skip(start as int);
    if start == data.len() {
        return None;
    }
    let limit: i128 = 9223372036854775808i128;
    let mut mag: i128 = 0;
    let mut k: usize = start;
    while k < data.len()
        invariant
            start <= k <= data.len(),
            d == data@.skip(start as int),
            start as int == sign_len(data@),
            forall|i: int| 0 <= i < k - start ==> is_digit(#[trigger] d[i]),
            mag == digits_value(d.take(k - start)),
            limit == 9223372036854775808i128,
            0 <= mag <= limit,
        decreases data.len() - k,
    {
        let c = data[k];
        if c < 48u8 || c > 57u8 {
            proof {
                assert(d.len() == data@.len() - start);
                assert(d[k - start] == data@[k as int]);
                assert(d[k - start] == c);
                assert(!is_digit(d[k - start]));
            }
            return None;
        }
        proof {
            assert(d.take(k - start + 1).drop_last() =~= d.take(k - start));
        }
        mag = mag * 10 + (c - 48u8) as i128;
        k += 1;
        if mag > limit {
            proof {
                let j = (k - start) as int;
                if forall|i: int| 0 <= i < d.len() ==> is_digit(#[trigger] d[i]) {
                    lemma_digits_prefix(d, j);
                }
            }
            return None;
        }
    }
    proof {
        assert(d.take(k - start) =~= d);
    }
    if negative {
        Some((0i128 - mag) as i64)
    } else {
        if mag == limit {
            return None;
        }
        Some(mag as i64)
    }
}


/// The type of a value, and the types of the variables that may hold it.
pub trait ValueImpl {
    fn exact_type(&self) -> Type;

    fn is_type_compatible(&self, t: &Type) -> bool;
}

impl ValueImpl for InputValue {
    fn exact_type(&self) -> (t: Type)
        ensures
            t == type_of(Value::Input(*self)),
    {
        Type { primitive: PrimitiveType::Input, array: false }
    }

    fn is_type_compatible(&self, t: &Type) -> (r: bool)
        ensures
            r == compatible(Value::Input(*self), *t),
    {
        if t.array {
            return false;
        }
        match &t.primitive {
            PrimitiveType::Input => true,
            _ => false,
        }
    }
}

impl ValueImpl for OutputValue {
    fn exact_type(&self) -> (t: Type)
        ensures
            t == type_of(Value::Output(*self)),
    {
        Type { primitive: PrimitiveType::Output, array: false }
    }

    fn is_type_compatible(&self, t: &Type) -> (r: bool)
        ensures
            r == compatible(Value::Output(*self), *t),
    {
        if t.array {
            return false;
        }
        match &t.primitive {
            PrimitiveType::Output => true,
            _ => false,
        }
    }
}

impl ValueImpl for MessageValue {
    fn exact_type(&self) -> (t: Type)
        ensures
            t == type_of(Value::Message(*self)),
    {
        Type { primitive: PrimitiveType::Message, array: false }
    }

    fn is_type_compatible(&self, t: &Type) -> (r: bool)
        ensures
            r == compatible(Value::Message(*self), *t),
    {
        if t.array {
            return false;
        }
        match &t.primitive {
            PrimitiveType::Message => true,
            _ => false,
        }
    }
}

impl ValueImpl for BooleanValue {
    fn exact_type(&self) -> (t: Type)
        ensures
            t == type_of(Value::Boolean(*self)),
    {
        Type { primitive: PrimitiveType::Boolean, array: false }
    }

    fn is_type_compatible(&self, t: &Type) -> (r: bool)
        ensures
            r == compatible(Value::Boolean(*self), *t),
    {
        if t.array {
            return false;
        }
        match &t.primitive {
            PrimitiveType::Boolean => true,
            PrimitiveType::Byte => true,
            PrimitiveType::Short => true,
            PrimitiveType::Int => true,
            PrimitiveType::Long => true,
            _ => false,
        }
    }
}

impl ValueImpl for ByteValue {
    fn exact_type(&self) -> (t: Type)
        ensures
            t == type_of(Value::Byte(*self)),
    {
        Type { primitive: PrimitiveType::Byte, array: false }
    }

    fn is_type_compatible(&self, t: &Type) -> (r: bool)
        ensures
            r == compatible(Value::Byte(*self), *t),
    {
        if t.array {
            return false;
        }
        match &t.primitive {
            PrimitiveType::Byte => true,
            PrimitiveType::Short => true,
            PrimitiveType::Int => true,
            PrimitiveType::Long => true,
            _ => false,
        }
    }
}

impl ValueImpl for ShortValue {
    fn exact_type(&self) -> (t: Type)
        ensures
            t == type_of(Value::Short(*self)),
    {
        Type { primitive: PrimitiveType::Short, array: false }
    }

    fn is_type_compatible(&self, t: &Type) -> (r: bool)
        ensures
            r == compatible(Value::Short(*self), *t),
    {
        if t.array {
            return false;
        }
        match &t.primitive {
            PrimitiveType::Short => true,
            PrimitiveType::Int => true,
            PrimitiveType::Long => true,
            _ => false,
        }
    }
}

impl ValueImpl for IntValue {
    fn exact_type(&self) -> (t: Type)
        ensures
            t == type_of(Value::Int(*self)),
    {
        Type { primitive: PrimitiveType::Int, array: false }
    }

    fn is_type_compatible(&self, t: &Type) -> (r: bool)
        ensures
            r == compatible(Value::Int(*self), *t),
    {
        if t.array {
            return false;
        }
        match &t.primitive {
            PrimitiveType::Int => true,
            PrimitiveType::Long => true,
            _ => false,
        }
    }
}

impl ValueImpl for LongValue {
    fn exact_type(&self) -> (t: Type)
        ensures
            t == type_of(Value::Long(*self)),
    {
        Type { primitive: PrimitiveType::Long, array: false }
    }

    fn is_type_compatible(&self, t: &Type) -> (r: bool)
        ensures
            r == compatible(Value::Long(*self), *t),
    {
        if t.array {
            return false;
        }
        match &t.primitive {
            PrimitiveType::Long => true,
            _ => false,
        }
    }
}

impl ValueImpl for InputArrayValue {
    fn exact_type(&self) -> (t: Type)
        ensures
            t == type_of(Value::InputArray(*self)),
    {
        Type { primitive: PrimitiveType::Input, array: true }
    }

    fn is_type_compatible(&self, t: &Type) -> (r: bool)
        ensures
            r == compatible(Value::InputArray(*self), *t),
    {
        if !t.array {
            return false;
        }
        match &t.primitive {
            PrimitiveType::Input => true,
            _ => false,
        }
    }
}

impl ValueImpl for OutputArrayValue {
    fn exact_type(&self) -> (t: Type)
        ensures
            t == type_of(Value::OutputArray(*self)),
    {
        Type { primitive: PrimitiveType::Output, array: true }
    }

    fn is_type_compatible(&self, t: &Type) -> (r: bool)
        ensures
            r == compatible(Value::OutputArray(*self), *t),
    {
        if !t.array {
            return false;
        }
        match &t.primitive {
            PrimitiveType::Output => true,
            _ => false,
        }
    }
}

impl ValueImpl for MessageArrayValue {
    fn exact_type(&self) -> (t: Type)
        ensures
            t == type_of(Value::MessageArray(*self)),
    {
        Type { primitive: PrimitiveType::Message, array: true }
    }

    fn is_type_compatible(&self, t: &Type) -> (r: bool)
        ensures
            r == compatible(Value::MessageArray(*self), *t),
    {
        if !t.array {
            return false;
        }
        match &t.primitive {
            PrimitiveType::Message => true,
            _ => false,
        }
    }
}

impl ValueImpl for BooleanArrayValue {
    fn exact_type(&self) -> (t: Type)
        ensures
            t == type_of(Value::BooleanArray(*self)),
    {
        Type { primitive: PrimitiveType::Boolean, array: true }
    }

    fn is_type_compatible(&self, t: &Type) -> (r: bool)
        ensures
            r == compatible(Value::BooleanArray(*self), *t),
    {
        if !t.array {
            return false;
        }
        match &t.primitive {
            PrimitiveType::Boolean => true,
            _ => false,
        }
    }
}

impl ValueImpl for ByteArrayValue {
    fn exact_type(&self) -> (t: Type)
        ensures
            t == type_of(Value::ByteArray(*self)),
    {
        Type { primitive: PrimitiveType::Byte, array: true }
    }

    fn is_type_compatible(&self, t: &Type) -> (r: bool)
        ensures
            r == compatible(Value::ByteArray(*self), *t),
    {
        if !t.array {
            return false;
        }
        match &t.primitive {
            PrimitiveType::Byte => true,
            _ => false,
        }
    }
}

impl ValueImpl for ShortArrayValue {
    fn exact_type(&self) -> (t: Type)
        ensures
            t == type_of(Value::ShortArray(*self)),
    {
        Type { primitive: PrimitiveType::Short, array: true }
    }

    fn is_type_compatible(&self, t: &Type) -> (r: bool)
        ensures
            r == compatible(Value::ShortArray(*self), *t),
    {
        if !t.array {
            return false;
        }
        match &t.primitive {
            PrimitiveType::Short => true,
            _ => false,
        }
    }
}

impl ValueImpl for IntArrayValue {
    fn exact_type(&self) -> (t: Type)
        ensures
            t == type_of(Value::IntArray(*self)),
    {
        Type { primitive: PrimitiveType::Int, array: true }
    }

    fn is_type_compatible(&self, t: &Type) -> (r: bool)
        ensures
            r == compatible(Value::IntArray(*self), *t),
    {
        if !t.array {
            return false;
        }
        match &t.primitive {
            PrimitiveType::Int => true,
            _ => false,
        }
    }
}

impl ValueImpl for LongArrayValue {
    fn exact_type(&self) -> (t: Type)
        ensures
            t == type_of(Value::LongArray(*self)),
    {
        Type { primitive: PrimitiveType::Long, array: true }
    }

    fn is_type_compatible(&self, t: &Type) -> (r: bool)
        ensures
            r == compatible(Value::LongArray(*self), *t),
    {
        if !t.array {
            return false;
        }
        match &t.primitive {
            PrimitiveType::Long => true,
            _ => false,
        }
    }
}

impl ValueImpl for Value {
    fn exact_type(&self) -> (t: Type)
        ensures
            t == type_of(*self),
    {
        match self {
            Value::Input(val) => val.exact_type(),
            Value::Output(val) => val.exact_type(),
            Value::Message(val) => val.exact_type(),
            Value::Boolean(val) => val.exact_type(),
            Value::Byte(val) => val.exact_type(),
            Value::Short(val) => val.exact_type(),
            Value::Int(val) => val.exact_type(),
            Value::Long(val) => val.exact_type(),
            Value::InputArray(val) => val.exact_type(),
            Value::OutputArray(val) => val.exact_type(),
            Value::MessageArray(val) => val.exact_type(),
            Value::BooleanArray(val) => val.exact_type(),
            Value::ByteArray(val) => val.exact_type(),
            Value::ShortArray(val) => val.exact_type(),
            Value::IntArray(val) => val.exact_type(),
            Value::LongArray(val) => val.exact_type(),
        }
    }

    fn is_type_compatible(&self, t: &Type) -> (r: bool)
        ensures
            r == compatible(*self, *t),
    {
        match self {
            Value::Input(val) => val.is_type_compatible(t),
            Value::Output(val) => val.is_type_compatible(t),
            Value::Message(val) => val.is_type_compatible(t),
            Value::Boolean(val) => val.is_type_compatible(t),
            Value::Byte(val) => val.is_type_compatible(t),
            Value::Short(val) => val.is_type_compatible(t),
            Value::Int(val) => val.is_type_compatible(t),
            Value::Long(val) => val.is_type_compatible(t),
            Value::InputArray(val) => val.is_type_compatible(t),
            Value::OutputArray(val) => val.is_type_compatible(t),
            Value::MessageArray(val) => val.is_type_compatible(t),
            Value::BooleanArray(val) => val.is_type_compatible(t),
            Value::ByteArray(val) => val.is_type_compatible(t),
            Value::ShortArray(val) => val.is_type_compatible(t),
            Value::IntArray(val) => val.is_type_compatible(t),
            Value::LongArray(val) => val.is_type_compatible(t),
        }
    }
}

/// A copy of a byte buffer.
pub fn copy_bytes(v: &Vec<u8>) -> (r: Vec<u8>)
    ensures
        r@ == v@,
{
    let mut r: Vec<u8> = Vec::new();
    let mut i: usize = 0;
    while i < v.len()
        invariant
            i <= v.len(),
            r@ == v@.take(i as int),
        decreases v.len() - i,
    {
        r.push(v[i]);
        i += 1;
        assert(r@ =~= v@.take(i as int));
    }
    assert(r@ =~= v@);
    r
}

/// Whether two byte buffers hold the same bytes.
pub fn bytes_equal(a: &Vec<u8>, b: &Vec<u8>) -> (r: bool)
    ensures
        r == (a@ == b@),
{
    if a.len() != b.len() {
        return false;
    }
    let mut i: usize = 0;
    while i < a.len()
        invariant
            a.len() == b.len(),
            i <= a.len(),
            forall|k: int| 0 <= k < i ==> a@[k] == b@[k],
        decreases a.len() - i,
    {
        if a[i] != b[i] {
            return false;
        }
        i += 1;
    }
    assert(a@ =~= b@);
    true
}

/// Whether two messages are equal (both null, or both holding the same bytes).
pub fn messages_equal(a: &MessageValue, b: &MessageValue) -> (r: bool)
    ensures
        r == (message_contents(*a) == message_contents(*b)),
{
    match (&a.0, &b.0) {
        (None, None) => true,
        (Some(x), Some(y)) => bytes_equal(x, y),
        _ => false,
    }
}

} // verus!
