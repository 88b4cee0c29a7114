//! The protobuf wire format of the messages that processors exchange.

use prost::encoding::{bytes, decode_key, fixed32, skip_field, uint64, DecodeContext, WireType};
use vstd::prelude::*;

use crate::text::digits;

verus! {

/// The wire type of a number of variable length.
pub const VARINT: u64 = 0;

/// The wire type of a field of eight bytes.
pub const SIXTY_FOUR_BIT: u64 = 1;

/// The wire type of bytes behind their length.
pub const LENGTH_DELIMITED: u64 = 2;

/// The wire type of the start of a group of fields.
pub const START_GROUP: u64 = 3;

/// The wire type of the end of a group of fields.
pub const END_GROUP: u64 = 4;

/// The wire type of a field of four bytes.
pub const THIRTY_TWO_BIT: u64 = 5;

/// A number in groups of seven bits, the lowest first. All groups but the last have
/// their highest bit set.
pub open spec fn varint(v: nat) -> Seq<u8>
    decreases v,
{
    if v < 128 {
        seq![v as u8]
    } else {
        seq![(128 + v % 128) as u8] + varint(v / 128)
    }
}

/// The number that `s` starts with and how many bytes it takes, at most `room`.
pub open spec fn varint_within(s: Seq<u8>, room: nat) -> Option<(nat, nat)>
    decreases room,
{
    if room == 0 || s.len() == 0 {
        None
    } else if s[0] < 128 {
        Some((s[0] as nat, 1))
    } else {
        match varint_within(s.drop_first(), (room - 1) as nat) {
            Some((v, n)) => Some(((s[0] - 128 + 128 * v) as nat, n + 1)),
            None => None,
        }
    }
}

/// The number that `s` starts with and how many bytes it takes. It takes at most ten, and
/// fits into 64 bits.
pub open spec fn read_varint(s: Seq<u8>) -> Option<(u64, nat)> {
    match varint_within(s, 10) {
        Some((v, n)) => if v <= u64::MAX {
            Some((v as u64, n))
        } else {
            None
        },
        None => None,
    }
}

/// The key that `s` starts with: the field's number, its wire type, and how many bytes the
/// key takes.
pub open spec fn read_key(s: Seq<u8>) -> Option<(u32, u64, nat)> {
    match read_varint(s) {
        Some((key, n)) => if key <= u32::MAX && key % 8 <= 5 && key / 8 >= 1 {
            Some(((key / 8) as u32, key % 8, n))
        } else {
            None
        },
        None => None,
    }
}

/// The number in a field, and how many bytes it takes.
pub open spec fn read_number(wire_type: u64, s: Seq<u8>) -> Option<(u64, nat)> {
    if wire_type == VARINT {
        read_varint(s)
    } else {
        None
    }
}

/// Where the bytes in a field start and end.
pub open spec fn read_bytes(wire_type: u64, s: Seq<u8>) -> Option<(nat, nat)> {
    match read_varint(s) {
        Some((len, n)) => if wire_type == LENGTH_DELIMITED && n + len <= s.len() {
            Some((n, n + len as nat))
        } else {
            None
        },
        None => None,
    }
}

/// What skipping a group of fields comes to: how many bytes it takes after its key, to the
/// end of its closing key, or the text of the error.
pub uninterp spec fn skipped_group(tag: u32, s: Seq<u8>) -> Result<nat, Seq<char>>;

/// How many bytes a field takes after its key.
pub open spec fn field_len(wire_type: u64, tag: u32, s: Seq<u8>) -> Option<nat> {
    let len = if wire_type == VARINT {
        match read_varint(s) {
            Some((_, n)) => Some(n),
            None => None,
        }
    } else if wire_type == SIXTY_FOUR_BIT {
        Some(8nat)
    } else if wire_type == LENGTH_DELIMITED {
        match read_bytes(wire_type, s) {
            Some((_, end)) => Some(end),
            None => None,
        }
    } else if wire_type == START_GROUP {
        match skipped_group(tag, s) {
            Ok(n) => Some(n),
            Err(_) => None,
        }
    } else if wire_type == THIRTY_TWO_BIT {
        Some(4nat)
    } else {
        None
    };
    match len {
        Some(n) => if n <= s.len() {
            Some(n)
        } else {
            None
        },
        None => None,
    }
}

/// The text of an error, of which `what` says the cause.
pub open spec fn failure(what: Seq<char>) -> Seq<char> {
    "failed to decode Protobuf message: "@ + what
}

/// The text of an error in a field.
pub open spec fn field_failure(message: Seq<char>, field: Seq<char>, what: Seq<char>) -> Seq<
    char,
> {
    failure(message + "."@ + field + ": "@ + what)
}

/// How errors call a wire type.
pub open spec fn wire_type_name(wire_type: u64) -> Seq<char> {
    if wire_type == VARINT {
        "Varint"@
    } else if wire_type == SIXTY_FOUR_BIT {
        "SixtyFourBit"@
    } else if wire_type == LENGTH_DELIMITED {
        "LengthDelimited"@
    } else if wire_type == START_GROUP {
        "StartGroup"@
    } else if wire_type == END_GROUP {
        "EndGroup"@
    } else {
        "ThirtyTwoBit"@
    }
}

/// Why a field is not of a wire type.
pub open spec fn wrong_wire_type(actual: u64, expected: u64) -> Seq<char> {
    "invalid wire type: "@ + wire_type_name(actual) + " (expected "@ + wire_type_name(expected)
        + ")"@
}

/// Why bytes start with no key.
pub open spec fn key_error(s: Seq<u8>) -> Seq<char> {
    match read_varint(s) {
        None => "invalid varint"@,
        Some((key, _)) => if key > u32::MAX {
            "invalid key value: "@ + digits(key as nat)
        } else if key % 8 > 5 {
            "invalid wire type value: "@ + digits((key % 8) as nat)
        } else {
            "invalid tag value: 0"@
        },
    }
}

/// Why a field is no number.
pub open spec fn number_error(wire_type: u64) -> Seq<char> {
    if wire_type != VARINT {
        wrong_wire_type(wire_type, VARINT)
    } else {
        "invalid varint"@
    }
}

/// Why a field is no four bytes.
pub open spec fn word_error(wire_type: u64) -> Seq<char> {
    if wire_type != THIRTY_TWO_BIT {
        wrong_wire_type(wire_type, THIRTY_TWO_BIT)
    } else {
        "buffer underflow"@
    }
}

/// Why a field is no bytes behind their length.
pub open spec fn bytes_error(wire_type: u64, s: Seq<u8>) -> Seq<char> {
    if wire_type != LENGTH_DELIMITED {
        wrong_wire_type(wire_type, LENGTH_DELIMITED)
    } else if read_varint(s) is None {
        "invalid varint"@
    } else {
        "buffer underflow"@
    }
}

/// The text of the error for a field that cannot be skipped.
pub open spec fn skip_failure(wire_type: u64, tag: u32, s: Seq<u8>) -> Seq<char> {
    if wire_type == START_GROUP {
        match skipped_group(tag, s) {
            Ok(_) => seq![],
            Err(text) => text,
        }
    } else if wire_type == END_GROUP {
        failure("unexpected end group tag"@)
    } else if wire_type == VARINT {
        failure("invalid varint"@)
    } else if wire_type == LENGTH_DELIMITED {
        failure(bytes_error(wire_type, s))
    } else {
        failure("buffer underflow"@)
    }
}

/// `prost::encoding::decode_key`: the key that the bytes start with, and the bytes behind
/// it. The key is a number of at most 32 bits, eight times the field's number plus the
/// wire type. No field has the number 0, and wire types end at 5.
#[verifier::external_body]
fn take_key(buf: &[u8]) -> (r: Result<((u32, u64), &[u8]), String>)
    ensures
        match r {
            Ok(((tag, wire_type), rest)) => read_key(buf@) matches Some((t, w, n)) && t == tag && w
                == wire_type && n <= buf@.len() && rest@ == buf@.skip(n as int),
            Err(text) => read_key(buf@) is None && text@ == failure(key_error(buf@)),
        },
{
    let mut rest = buf;
    match decode_key(&mut rest) {
        Ok((tag, wire_type)) => Ok(((tag, wire_type as u64), rest)),
        Err(e) => Err(e.to_string()),
    }
}

/// `prost::encoding::uint64::merge`: the number in a field, and the bytes behind it. The
/// field is of the wire type of numbers. The text of an error names the field, which
/// `prost::DecodeError::push` puts there.
#[verifier::external_body]
fn take_number<'a>(
    message: &'static str,
    field: &'static str,
    wire_type: u64,
    buf: &'a [u8],
) -> (r: Result<(u64, &'a [u8]), String>)
    requires
        wire_type <= 5,
    ensures
        match r {
            Ok((value, rest)) => read_number(wire_type, buf@) matches Some((v, n)) && v == value
                && n <= buf@.len() && rest@ == buf@.skip(n as int),
            Err(text) => read_number(wire_type, buf@) is None && text@ == field_failure(
                message@,
                field@,
                number_error(wire_type),
            ),
        },
{
    let (mut rest, mut value) = (buf, 0u64);
    WireType::try_from(wire_type)
        .and_then(|w| uint64::merge(w, &mut value, &mut rest, DecodeContext::default()))
        .map_err(|mut e| {
            e.push(message, field);
            e.to_string()
        })?;
    Ok((value, rest))
}

/// `prost::encoding::fixed32::merge`: the bytes behind a field of four bytes. The text of
/// an error names the field, which `prost::DecodeError::push` puts there. Nothing is said of
/// the value of the four bytes, which is not handed out.
#[verifier::external_body]
fn take_word<'a>(
    message: &'static str,
    field: &'static str,
    wire_type: u64,
    buf: &'a [u8],
) -> (r: Result<&'a [u8], String>)
    requires
        wire_type <= 5,
    ensures
        match r {
            Ok(rest) => wire_type == THIRTY_TWO_BIT && buf@.len() >= 4 && rest@ == buf@.skip(4),
            Err(text) => !(wire_type == THIRTY_TWO_BIT && buf@.len() >= 4) && text@
                == field_failure(message@, field@, word_error(wire_type)),
        },
{
    let (mut rest, mut value) = (buf, 0u32);
    WireType::try_from(wire_type)
        .and_then(|w| fixed32::merge(w, &mut value, &mut rest, DecodeContext::default()))
        .map_err(|mut e| {
            e.push(message, field);
            e.to_string()
        })?;
    Ok(rest)
}

/// `prost::encoding::bytes::merge`: the bytes of a field that stand behind their length,
/// and the bytes behind them. The text of an error names the field, which
/// `prost::DecodeError::push` puts there.
#[verifier::external_body]
fn take_bytes<'a>(
    message: &'static str,
    field: &'static str,
    wire_type: u64,
    buf: &'a [u8],
) -> (r: Result<(Vec<u8>, &'a [u8]), String>)
    requires
        wire_type <= 5,
    ensures
        match r {
            Ok((value, rest)) => read_bytes(wire_type, buf@) matches Some((start, end)) && start
                <= end <= buf@.len() && value@ == buf@.subrange(start as int, end as int) && rest@
                == buf@.skip(end as int),
            Err(text) => read_bytes(wire_type, buf@) is None && text@ == field_failure(
                message@,
                field@,
                bytes_error(wire_type, buf@),
            ),
        },
{
    let (mut rest, mut value) = (buf, Vec::new());
    WireType::try_from(wire_type)
        .and_then(|w| bytes::merge(w, &mut value, &mut rest, DecodeContext::default()))
        .map_err(|mut e| {
            e.push(message, field);
            e.to_string()
        })?;
    Ok((value, rest))
}

/// `prost::encoding::skip_field`: the bytes behind a field. A number ends where it says, and
/// so do bytes behind their length. A field of four or eight bytes takes as many, and the
/// end of a group is no field. What skipping a group of fields comes to has a name.
#[verifier::external_body]
fn skip<'a>(wire_type: u64, tag: u32, buf: &'a [u8]) -> (r: Result<&'a [u8], String>)
    requires
        wire_type <= 5,
    ensures
        match r {
            Ok(rest) => field_len(wire_type, tag, buf@) matches Some(n) && rest@ == buf@.skip(
                n as int,
            ),
            Err(text) => field_len(wire_type, tag, buf@) is None && text@ == skip_failure(
                wire_type,
                tag,
                buf@,
            ),
        },
        wire_type == START_GROUP ==> match r {
            Ok(rest) => skipped_group(tag, buf@) matches Ok(n) && n <= buf@.len() && rest@
                == buf@.skip(n as int),
            Err(text) => skipped_group(tag, buf@) == Err::<nat, Seq<char>>(text@),
        },
{
    let mut rest = buf;
    WireType::try_from(wire_type)
        .and_then(|w| skip_field(w, tag, &mut rest, DecodeContext::default()))
        .map_err(|e| e.to_string())?;
    Ok(rest)
}

/// `prost::encoding::encoded_len_varint`: how many bytes a number takes.
pub assume_specification[ prost::encoding::encoded_len_varint ](value: u64) -> (n: usize)
    ensures
        n == varint(value as nat).len(),
;

/// A field that holds a number.
pub open spec fn number_field(tag: u32, value: u64) -> Seq<u8> {
    varint((8 * tag + VARINT) as nat) + varint(value as nat)
}

/// A field that holds bytes behind their length.
pub open spec fn bytes_field(tag: u32, value: Seq<u8>) -> Seq<u8> {
    varint((8 * tag + LENGTH_DELIMITED) as nat) + varint(value.len()) + value
}

/// `prost::encoding::uint64::encode`: appends a field that holds a number. It panics on a
/// field number out of range and where the buffer cannot grow to hold the field.
#[verifier::external_body]
fn put_number(tag: u32, value: u64, buf: &mut Vec<u8>)
    requires
        1 <= tag < 0x2000_0000,
        old(buf)@.len() + number_field(tag, value).len() <= isize::MAX,
    ensures
        final(buf)@ == old(buf)@ + number_field(tag, value),
{
    uint64::encode(tag, &value, buf)
}

/// `prost::encoding::bytes::encode`: appends a field that holds bytes behind their length.
/// It panics on a field number out of range and where the buffer cannot grow to hold the
/// field.
#[verifier::external_body]
pub(crate) fn put_bytes(tag: u32, value: &Vec<u8>, buf: &mut Vec<u8>)
    requires
        1 <= tag < 0x2000_0000,
        old(buf)@.len() + bytes_field(tag, value@).len() <= isize::MAX,
    ensures
        final(buf)@ == old(buf)@ + bytes_field(tag, value@),
{
    bytes::encode(tag, value, buf)
}

/// What a message says that one of its fields holds.
#[derive(Clone, Copy, Debug, PartialEq, Eq, Structural)]
pub enum FieldKind {
    Number,
    Word,
    Bytes,
}

/// A field of a message: its name and what it holds.
#[derive(Clone, Copy, Debug)]
pub struct FieldShape {
    pub name: &'static str,
    pub kind: FieldKind,
}

/// A message: its name and its fields, which are numbered from 1 on.
#[derive(Debug)]
pub struct MessageShape {
    pub name: &'static str,
    pub fields: Vec<FieldShape>,
}

/// The value of a [`MessageShape`].
pub struct ShapeView {
    pub name: Seq<char>,
    pub fields: Seq<FieldShape>,
}

impl View for MessageShape {
    type V = ShapeView;

    open spec fn view(&self) -> ShapeView {
        ShapeView { name: self.name@, fields: self.fields@ }
    }
}

impl ShapeView {
    /// The field with a number, if the message has one.
    pub open spec fn field(self, tag: u32) -> Option<FieldShape> {
        if 1 <= tag <= self.fields.len() {
            Some(self.fields[tag - 1])
        } else {
            None
        }
    }
}

/// What a field was found to hold. The fields that a message does not have are skipped.
#[derive(Debug)]
pub enum Value {
    Number(u64),
    Word,
    Bytes(Vec<u8>),
    Skipped,
}

/// A field that was found in a message.
#[derive(Debug)]
pub struct Field {
    pub tag: u32,
    pub value: Value,
}

/// The value of a [`Value`].
pub enum ValueView {
    Number(u64),
    Word,
    Bytes(Seq<u8>),
    Skipped,
}

/// The value of a [`Field`].
pub struct FieldView {
    pub tag: u32,
    pub value: ValueView,
}

impl View for Value {
    type V = ValueView;

    open spec fn view(&self) -> ValueView {
        match self {
            Value::Number(v) => ValueView::Number(*v),
            Value::Word => ValueView::Word,
            Value::Bytes(b) => ValueView::Bytes(b@),
            Value::Skipped => ValueView::Skipped,
        }
    }
}

impl View for Field {
    type V = FieldView;

    open spec fn view(&self) -> FieldView {
        FieldView { tag: self.tag, value: self.value@ }
    }
}

/// The values of some fields.
pub open spec fn fields_view(fields: Seq<Field>) -> Seq<FieldView> {
    fields.map_values(|f: Field| f@)
}

/// What the field with this key holds and how many bytes it takes after the key, or the
/// text of the error.
pub open spec fn read_value(shape: ShapeView, tag: u32, wire_type: u64, s: Seq<u8>) -> Result<
    (ValueView, nat),
    Seq<char>,
> {
    match shape.field(tag) {
        None => match field_len(wire_type, tag, s) {
            Some(n) => Ok((ValueView::Skipped, n)),
            None => Err(skip_failure(wire_type, tag, s)),
        },
        Some(f) => match f.kind {
            FieldKind::Number => match read_number(wire_type, s) {
                Some((v, n)) => Ok((ValueView::Number(v), n)),
                None => Err(field_failure(shape.name, f.name@, number_error(wire_type))),
            },
            FieldKind::Word => if wire_type == THIRTY_TWO_BIT && s.len() >= 4 {
                Ok((ValueView::Word, 4))
            } else {
                Err(field_failure(shape.name, f.name@, word_error(wire_type)))
            },
            FieldKind::Bytes => match read_bytes(wire_type, s) {
                Some((start, end)) => Ok(
                    (ValueView::Bytes(s.subrange(start as int, end as int)), end),
                ),
                None => Err(field_failure(shape.name, f.name@, bytes_error(wire_type, s))),
            },
        },
    }
}

/// The field that `s` starts with and how many bytes it takes, or the text of the error.
pub open spec fn read_field(shape: ShapeView, s: Seq<u8>) -> Result<(FieldView, nat), Seq<char>> {
    match read_key(s) {
        None => Err(failure(key_error(s))),
        Some((tag, wire_type, n)) => match read_value(shape, tag, wire_type, s.skip(n as int)) {
            Ok((value, m)) => Ok((FieldView { tag, value }, n + m)),
            Err(text) => Err(text),
        },
    }
}

/// The fields of a message, or the text of the first error.
pub open spec fn read_fields(shape: ShapeView, s: Seq<u8>) -> Result<Seq<FieldView>, Seq<char>>
    decreases s.len(),
{
    if s.len() == 0 {
        Ok(seq![])
    } else {
        proof {
            lemma_field_within(shape, s);
        }
        match read_field(shape, s) {
            Err(text) => Err(text),
            Ok((field, n)) => after(seq![field], read_fields(shape, s.skip(n as int))),
        }
    }
}

/// Fields that come after others.
pub open spec fn after(
    before: Seq<FieldView>,
    rest: Result<Seq<FieldView>, Seq<char>>,
) -> Result<Seq<FieldView>, Seq<char>> {
    match rest {
        Ok(fields) => Ok(before + fields),
        Err(text) => Err(text),
    }
}

proof fn lemma_varint_within(s: Seq<u8>, room: nat)
    ensures
        varint_within(s, room) matches Some((v, n)) ==> 1 <= n <= s.len(),
    decreases room,
{
    if room > 0 && s.len() > 0 && s[0] >= 128 {
        lemma_varint_within(s.drop_first(), (room - 1) as nat);
    }
}

/// A field takes at least one byte, and none that is not there.
pub proof fn lemma_field_within(shape: ShapeView, s: Seq<u8>)
    ensures
        read_key(s) matches Some((t, w, n)) ==> 1 <= n <= s.len() && w <= 5,
        read_field(shape, s) matches Ok((f, n)) ==> 1 <= n <= s.len(),
{
    lemma_varint_within(s, 10);
    if let Some((tag, wire_type, n)) = read_key(s) {
        let rest = s.skip(n as int);
        lemma_varint_within(rest, 10);
    }
}

fn take_value<'a>(shape: &MessageShape, tag: u32, wire_type: u64, buf: &'a [u8]) -> (r: Result<
    (Value, &'a [u8]),
    String,
>)
    requires
        wire_type <= 5,
    ensures
        match r {
            Ok((value, rest)) => read_value(shape@, tag, wire_type, buf@) matches Ok((v, n)) && v
                == value@ && n <= buf@.len() && rest@ == buf@.skip(n as int),
            Err(text) => read_value(shape@, tag, wire_type, buf@) == Err::<(ValueView, nat), _>(
                text@,
            ),
        },
{
    if tag < 1 || tag as usize > shape.fields.len() {
        let rest = skip(wire_type, tag, buf)?;
        return Ok((Value::Skipped, rest));
    }
    let field = shape.fields[tag as usize - 1];
    match field.kind {
        FieldKind::Number => {
            let (value, rest) = take_number(shape.name, field.name, wire_type, buf)?;
            Ok((Value::Number(value), rest))
        },
        FieldKind::Word => {
            let rest = take_word(shape.name, field.name, wire_type, buf)?;
            Ok((Value::Word, rest))
        },
        FieldKind::Bytes => {
            let (value, rest) = take_bytes(shape.name, field.name, wire_type, buf)?;
            Ok((Value::Bytes(value), rest))
        },
    }
}

/// Returns the fields of a message in order, or the text of the first error.
pub fn take_fields(shape: &MessageShape, buf: &[u8]) -> (r: Result<Vec<Field>, String>)
    ensures
        match r {
            Ok(fields) => read_fields(shape@, buf@) == Ok::<Seq<FieldView>, Seq<char>>(
                fields_view(fields@),
            ),
            Err(text) => read_fields(shape@, buf@) == Err::<Seq<FieldView>, Seq<char>>(text@),
        },
{
    let mut fields: Vec<Field> = Vec::new();
    let mut rest = buf;
    proof {
        assert(fields_view(fields@) =~= seq![]);
        if let Ok(all) = read_fields(shape@, buf@) {
            assert(seq![] + all =~= all);
        }
    }
    while rest.len() > 0
        invariant
            read_fields(shape@, buf@) == after(
                fields_view(fields@),
                read_fields(shape@, rest@),
            ),
        decreases rest.len(),
    {
        let ghost before = fields_view(fields@);
        let ghost s = rest@;
        proof {
            lemma_field_within(shape@, s);
        }
        let ((tag, wire_type), behind_key) = take_key(rest)?;
        let (value, behind_field) = take_value(shape, tag, wire_type, behind_key)?;
        let field = Field { tag, value };
        proof {
            let n = read_field(shape@, s)->Ok_0.1;
            assert(behind_field@ =~= s.skip(n as int));
            assert(fields_view(fields@.push(field)) =~= before.push(field@));
            if let Ok(later) = read_fields(shape@, behind_field@) {
                assert(before + (seq![field@] + later) =~= before.push(field@) + later);
            }
        }
        fields.push(field);
        rest = behind_field;
    }
    proof {
        assert(fields_view(fields@) + seq![] =~= fields_view(fields@));
    }
    Ok(fields)
}

/// The least number that takes more than `n` bytes.
spec fn past(n: nat) -> nat
    decreases n,
{
    if n == 0 {
        1
    } else {
        128 * past((n - 1) as nat)
    }
}

proof fn lemma_varint_read_within(v: nat, rest: Seq<u8>, room: nat)
    requires
        room > 0,
        v < past(room),
    ensures
        1 <= varint(v).len() <= room,
        varint_within(varint(v) + rest, room) == Some((v, varint(v).len())),
    decreases room,
{
    let s = varint(v) + rest;
    if v >= 128 {
        assert(v / 128 < past((room - 1) as nat));
        assert(room > 1) by {
            assert(past(0) == 1);
        }
        lemma_varint_read_within(v / 128, rest, (room - 1) as nat);
        assert(s.drop_first() =~= varint(v / 128) + rest);
        assert(s[0] == 128 + v % 128);
    }
}

/// Reading a number gives back what was written, and stops where it ends.
pub proof fn lemma_varint_round_trip(v: u64, rest: Seq<u8>)
    ensures
        read_varint(varint(v as nat) + rest) == Some((v, varint(v as nat).len())),
        1 <= varint(v as nat).len() <= 10,
{
    reveal_with_fuel(past, 11);
    assert(past(10) > u64::MAX);
    lemma_varint_read_within(v as nat, rest, 10);
}

/// Reading a key gives back what was written, and stops where it ends.
pub proof fn lemma_key_round_trip(tag: u32, wire_type: u64, rest: Seq<u8>)
    requires
        1 <= tag < 0x2000_0000,
        wire_type <= 5,
    ensures
        ({
            let key = varint((8 * tag + wire_type) as nat);
            read_key(key + rest) == Some((tag, wire_type, key.len()))
        }),
{
    let key = (8 * tag + wire_type) as u64;
    lemma_varint_round_trip(key, rest);
}

/// Reading a field gives back the number that was written.
pub proof fn lemma_number_round_trip(shape: ShapeView, tag: u32, value: u64, rest: Seq<u8>)
    requires
        1 <= tag < 0x2000_0000,
        shape.field(tag) matches Some(f) && f.kind == FieldKind::Number,
    ensures
        read_fields(shape, number_field(tag, value) + rest) == after(
            seq![FieldView { tag, value: ValueView::Number(value) }],
            read_fields(shape, rest),
        ),
{
    let key = varint((8 * tag + VARINT) as nat);
    let number = varint(value as nat);
    let s = number_field(tag, value) + rest;
    lemma_key_round_trip(tag, VARINT, number + rest);
    lemma_varint_round_trip(value, rest);
    assert(s =~= key + (number + rest));
    assert(s.skip(key.len() as int) =~= number + rest);
    lemma_field_within(shape, s);
    let n = key.len() + number.len();
    assert(s.skip(n as int) =~= rest);
    assert(s.len() > 0);
}

/// Reading a field gives back the bytes that were written.
pub proof fn lemma_bytes_round_trip(shape: ShapeView, tag: u32, value: Seq<u8>, rest: Seq<u8>)
    requires
        1 <= tag < 0x2000_0000,
        shape.field(tag) matches Some(f) && f.kind == FieldKind::Bytes,
        value.len() <= u64::MAX,
    ensures
        read_fields(shape, bytes_field(tag, value) + rest) == after(
            seq![FieldView { tag, value: ValueView::Bytes(value) }],
            read_fields(shape, rest),
        ),
{
    let key = varint((8 * tag + LENGTH_DELIMITED) as nat);
    let len = varint(value.len());
    let s = bytes_field(tag, value) + rest;
    lemma_key_round_trip(tag, LENGTH_DELIMITED, len + value + rest);
    lemma_varint_round_trip(value.len() as u64, value + rest);
    assert(s =~= key + (len + value + rest));
    let behind = s.skip(key.len() as int);
    assert(behind =~= len + (value + rest));
    assert(behind.subrange(len.len() as int, (len.len() + value.len()) as int) =~= value);
    lemma_field_within(shape, s);
    let n = key.len() + len.len() + value.len();
    assert(s.skip(n as int) =~= rest);
    assert(s.len() > 0);
}

/// The number that a message says a field holds: the last that it says, or 0.
pub open spec fn last_number(fields: Seq<FieldView>, tag: u32) -> u64
    decreases fields.len(),
{
    if fields.len() == 0 {
        0
    } else {
        match fields.last().value {
            ValueView::Number(v) => if fields.last().tag == tag {
                v
            } else {
                last_number(fields.drop_last(), tag)
            },
            _ => last_number(fields.drop_last(), tag),
        }
    }
}

/// All the bytes that a message says a field holds, one item for each time that it says so.
pub open spec fn all_bytes(fields: Seq<FieldView>, tag: u32) -> Seq<Seq<u8>>
    decreases fields.len(),
{
    if fields.len() == 0 {
        seq![]
    } else {
        let before = all_bytes(fields.drop_last(), tag);
        match fields.last().value {
            ValueView::Bytes(b) => if fields.last().tag == tag {
                before.push(b)
            } else {
                before
            },
            _ => before,
        }
    }
}

/// Returns the number that a message says a field holds.
pub fn number_in(fields: &Vec<Field>, tag: u32) -> (r: u64)
    ensures
        r == last_number(fields_view(fields@), tag),
{
    let ghost all = fields_view(fields@);
    let mut i: usize = 0;
    let mut value: u64 = 0;
    proof {
        assert(all.take(0) =~= seq![]);
    }
    while i < fields.len()
        invariant
            i <= fields.len(),
            all == fields_view(fields@),
            value == last_number(all.take(i as int), tag),
        decreases fields.len() - i,
    {
        proof {
            assert(all.take(i + 1).drop_last() =~= all.take(i as int));
            assert(all.take(i + 1).last() == fields@[i as int]@);
        }
        let field = &fields[i];
        if let Value::Number(v) = &field.value {
            if field.tag == tag {
                value = *v;
            }
        }
        i += 1;
    }
    proof {
        assert(all.take(i as int) =~= all);
    }
    value
}

/// The values of several byte strings.
pub open spec fn chunks_view(chunks: Seq<Vec<u8>>) -> Seq<Seq<u8>> {
    chunks.map_values(|c: Vec<u8>| c@)
}

/// Returns all the bytes that a message says a field holds.
pub fn bytes_in(fields: &Vec<Field>, tag: u32) -> (r: Vec<Vec<u8>>)
    ensures
        chunks_view(r@) == all_bytes(fields_view(fields@), tag),
{
    let ghost all = fields_view(fields@);
    let mut i: usize = 0;
    let mut chunks: Vec<Vec<u8>> = Vec::new();
    proof {
        assert(all.take(0) =~= seq![]);
        assert(chunks_view(chunks@) =~= seq![]);
    }
    while i < fields.len()
        invariant
            i <= fields.len(),
            all == fields_view(fields@),
            chunks_view(chunks@) == all_bytes(all.take(i as int), tag),
        decreases fields.len() - i,
    {
        let ghost before = chunks@;
        proof {
            assert(all.take(i + 1).drop_last() =~= all.take(i as int));
            assert(all.take(i + 1).last() == fields@[i as int]@);
        }
        let field = &fields[i];
        if let Value::Bytes(b) = &field.value {
            if field.tag == tag {
                let copy = b.clone();
                proof {
                    assert(copy@ =~= b@);
                    assert(chunks_view(before.push(copy)) =~= chunks_view(before).push(b@));
                }
                chunks.push(copy);
            }
        }
        i += 1;
    }
    proof {
        assert(all.take(i as int) =~= all);
    }
    chunks
}

/// A number in a message, which says nothing of a field that holds 0.
pub open spec fn uint(tag: u32, value: u64) -> Seq<u8> {
    if value == 0 {
        seq![]
    } else {
        number_field(tag, value)
    }
}

/// A number takes few bytes in a message.
pub proof fn lemma_uint_len(tag: u32, value: u64)
    requires
        1 <= tag < 0x2000_0000,
    ensures
        uint(tag, value).len() <= 20,
{
    lemma_varint_round_trip((8 * tag + VARINT) as u64, seq![]);
    lemma_varint_round_trip(value, seq![]);
}

/// Returns how many bytes a number takes in a message.
pub fn uint_len(tag: u32, value: u64) -> (n: usize)
    requires
        1 <= tag < 0x2000_0000,
    ensures
        n == uint(tag, value).len(),
        n <= 20,
{
    proof {
        lemma_varint_round_trip((8 * tag + VARINT) as u64, seq![]);
        lemma_varint_round_trip(value, seq![]);
        lemma_uint_len(tag, value);
    }
    if value == 0 {
        0
    } else {
        prost::encoding::encoded_len_varint(8 * (tag as u64)) + prost::encoding::encoded_len_varint(
            value,
        )
    }
}

/// Appends a number to a message.
pub fn put_uint(tag: u32, value: u64, buf: &mut Vec<u8>)
    requires
        1 <= tag < 0x2000_0000,
        old(buf)@.len() + uint(tag, value).len() <= isize::MAX,
    ensures
        final(buf)@ == old(buf)@ + uint(tag, value),
{
    if value != 0 {
        put_number(tag, value, buf);
    } else {
        assert(buf@ + seq![] =~= buf@);
    }
}

/// Reading a message gives back the number that was written, or nothing where it was 0.
pub proof fn lemma_uint_round_trip(shape: ShapeView, tag: u32, value: u64, rest: Seq<u8>)
    requires
        1 <= tag < 0x2000_0000,
        shape.field(tag) matches Some(f) && f.kind == FieldKind::Number,
    ensures
        read_fields(shape, uint(tag, value) + rest) == after(
            if value == 0 {
                seq![]
            } else {
                seq![FieldView { tag, value: ValueView::Number(value) }]
            },
            read_fields(shape, rest),
        ),
{
    if value == 0 {
        assert(uint(tag, value) + rest =~= rest);
        if let Ok(fields) = read_fields(shape, rest) {
            assert(seq![] + fields =~= fields);
        }
    } else {
        lemma_number_round_trip(shape, tag, value, rest);
    }
}

/// Returns how many bytes a field takes that holds bytes behind their length.
pub fn bytes_field_len(tag: u32, value: &Vec<u8>) -> (n: usize)
    requires
        1 <= tag < 0x2000_0000,
        value@.len() + 20 <= usize::MAX,
    ensures
        n == bytes_field(tag, value@).len(),
        n <= value@.len() + 20,
{
    let len = value.len();
    proof {
        lemma_varint_round_trip((8 * tag + LENGTH_DELIMITED) as u64, seq![]);
        lemma_varint_round_trip(len as u64, seq![]);
    }
    prost::encoding::encoded_len_varint(8 * (tag as u64) + LENGTH_DELIMITED)
        + prost::encoding::encoded_len_varint(len as u64) + len
}

/// The number that a message says a field holds is the last one that it gives the field, at
/// place `i`, and 0 if it gives none, where `i` is -1.
pub proof fn lemma_last_number_counts(fields: Seq<FieldView>, tag: u32, i: int)
    requires
        -1 <= i < fields.len(),
        i >= 0 ==> fields[i].tag == tag && fields[i].value is Number,
        forall|j: int|
            i < j < fields.len() ==> !((#[trigger] fields[j]).tag == tag
                && fields[j].value is Number),
    ensures
        last_number(fields, tag) == if i < 0 {
            0
        } else {
            fields[i].value->Number_0
        },
    decreases fields.len(),
{
    if i < fields.len() - 1 {
        let front = fields.drop_last();
        assert(forall|j: int| 0 <= j < front.len() ==> #[trigger] front[j] == fields[j]);
        assert(fields.last() == fields[fields.len() - 1]);
        lemma_last_number_counts(front, tag, i);
    }
}

/// The bytes that a message says a field holds are all that it gives the field, in order.
pub proof fn lemma_all_bytes_in_order(before: Seq<FieldView>, field: FieldView, tag: u32)
    ensures
        all_bytes(Seq::empty(), tag) == Seq::<Seq<u8>>::empty(),
        all_bytes(before.push(field), tag) == match field.value {
            ValueView::Bytes(b) => if field.tag == tag {
                all_bytes(before, tag).push(b)
            } else {
                all_bytes(before, tag)
            },
            _ => all_bytes(before, tag),
        },
{
    assert(before.push(field).drop_last() =~= before);
}

/// A field that a message does not have is skipped, whatever it holds: what comes behind it is
/// read as if it were not there.
pub proof fn lemma_unknown_fields_are_skipped(
    shape: ShapeView,
    tag: u32,
    number: u64,
    value: Seq<u8>,
    rest: Seq<u8>,
)
    requires
        shape.fields.len() < tag < 0x2000_0000,
        value.len() <= u64::MAX,
    ensures
        read_fields(shape, number_field(tag, number) + rest) == after(
            seq![FieldView { tag, value: ValueView::Skipped }],
            read_fields(shape, rest),
        ),
        read_fields(shape, bytes_field(tag, value) + rest) == after(
            seq![FieldView { tag, value: ValueView::Skipped }],
            read_fields(shape, rest),
        ),
{
    let body = varint(number as nat);
    let key = varint((8 * tag + VARINT) as nat);
    let s = number_field(tag, number) + rest;
    lemma_key_round_trip(tag, VARINT, body + rest);
    lemma_varint_round_trip(number, rest);
    assert(s =~= key + (body + rest));
    assert(s.skip(key.len() as int) =~= body + rest);
    lemma_field_within(shape, s);
    assert(s.skip((key.len() + body.len()) as int) =~= rest);
    assert(s.len() > 0);

    let key = varint((8 * tag + LENGTH_DELIMITED) as nat);
    let len = varint(value.len());
    let s = bytes_field(tag, value) + rest;
    lemma_key_round_trip(tag, LENGTH_DELIMITED, len + value + rest);
    lemma_varint_round_trip(value.len() as u64, value + rest);
    assert(s =~= key + (len + value + rest));
    assert(s.skip(key.len() as int) =~= len + (value + rest));
    lemma_field_within(shape, s);
    assert(s.skip((key.len() + len.len() + value.len()) as int) =~= rest);
    assert(s.len() > 0);
}

} // verus!
