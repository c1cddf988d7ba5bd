//! The display of a message: every field on a line of its own, with the
//! value shown by the handler of its type.

use crate::codec::{
    decode_value, decode_varint, lemma_decode_bounds, read_identifier, read_value,
    split_identifier, Error,
};
use crate::cursor::DataReader;
use crate::formatter::{
    bold_text, decimal, default_indent, foreground_bold, foreground_text, indent, indent_text,
    push_decimal,
};
use crate::text::{
    contains_text, count_lines, first_word, first_word_of, has_substring, line_count, same_text,
};
use crate::types::{
    formats_floats, Bit32Handler, Bit64Handler, BoolHandler, BytesHandler, ChunkHandler,
    DoubleHandler, Fixed32Handler, Fixed64Handler, FloatHandler, Int32Handler, Int64Handler,
    SFixed32Handler, SFixed64Handler, SInt32Handler, SInt64Handler, StringHandler, TypeHandler,
    UInt32Handler, UInt64Handler, VarintHandler, WireType,
};
use std::collections::HashMap;
use vstd::prelude::*;
use vstd::string::{StrSliceExecFns, StringExecFns};

verus! {

/// What is known of one field of a message type: its number, the name
/// of its type and its own name.
pub struct FieldInfo {
    pub key: u32,
    pub type_str: String,
    pub field_str: String,
}

/// What is known of one message type: its name and its fields.
pub struct TypeInfo {
    pub name: String,
    pub fields: Vec<FieldInfo>,
}

/// The handlers that a parser can hold. Those that show floating-point
/// numbers hold the function that writes such a number out.
pub enum Native<F> {
    Varint,
    Int32,
    Int64,
    UInt32,
    UInt64,
    SInt32,
    SInt64,
    Bool,
    Chunk,
    Bytes,
    Text,
    Fixed32,
    SFixed32,
    Fixed64,
    SFixed64,
    Bit32(Bit32Handler<F>),
    Bit64(Bit64Handler<F>),
    Float(FloatHandler<F>),
    Double(DoubleHandler<F>),
}

impl<F: Fn(u64, bool) -> String> TypeHandler for Native<F> {
    open spec fn parsed(&self, data: Seq<u8>) -> Result<Seq<char>, Error> {
        match self {
            Native::Varint => VarintHandler.parsed(data),
            Native::Int32 => Int32Handler.parsed(data),
            Native::Int64 => Int64Handler.parsed(data),
            Native::UInt32 => UInt32Handler.parsed(data),
            Native::UInt64 => UInt64Handler.parsed(data),
            Native::SInt32 => SInt32Handler.parsed(data),
            Native::SInt64 => SInt64Handler.parsed(data),
            Native::Bool => BoolHandler.parsed(data),
            Native::Chunk => ChunkHandler.parsed(data),
            Native::Bytes => BytesHandler.parsed(data),
            Native::Text => StringHandler.parsed(data),
            Native::Fixed32 => Fixed32Handler.parsed(data),
            Native::SFixed32 => SFixed32Handler.parsed(data),
            Native::Fixed64 => Fixed64Handler.parsed(data),
            Native::SFixed64 => SFixed64Handler.parsed(data),
            Native::Bit32(handler) => handler.parsed(data),
            Native::Bit64(handler) => handler.parsed(data),
            Native::Float(handler) => handler.parsed(data),
            Native::Double(handler) => handler.parsed(data),
        }
    }

    open spec fn kind(&self) -> WireType {
        match self {
            Native::Varint => VarintHandler.kind(),
            Native::Int32 => Int32Handler.kind(),
            Native::Int64 => Int64Handler.kind(),
            Native::UInt32 => UInt32Handler.kind(),
            Native::UInt64 => UInt64Handler.kind(),
            Native::SInt32 => SInt32Handler.kind(),
            Native::SInt64 => SInt64Handler.kind(),
            Native::Bool => BoolHandler.kind(),
            Native::Chunk => ChunkHandler.kind(),
            Native::Bytes => BytesHandler.kind(),
            Native::Text => StringHandler.kind(),
            Native::Fixed32 => Fixed32Handler.kind(),
            Native::SFixed32 => SFixed32Handler.kind(),
            Native::Fixed64 => Fixed64Handler.kind(),
            Native::SFixed64 => SFixed64Handler.kind(),
            Native::Bit32(handler) => handler.kind(),
            Native::Bit64(handler) => handler.kind(),
            Native::Float(handler) => handler.kind(),
            Native::Double(handler) => handler.kind(),
        }
    }

    open spec fn usable(&self) -> bool {
        match self {
            Native::Bit32(handler) => handler.usable(),
            Native::Bit64(handler) => handler.usable(),
            Native::Float(handler) => handler.usable(),
            Native::Double(handler) => handler.usable(),
            _ => true,
        }
    }

    fn parse(&self, data: &[u8], name: &str) -> (r: Result<String, Error>) {
        match self {
            Native::Varint => VarintHandler.parse(data, name),
            Native::Int32 => Int32Handler.parse(data, name),
            Native::Int64 => Int64Handler.parse(data, name),
            Native::UInt32 => UInt32Handler.parse(data, name),
            Native::UInt64 => UInt64Handler.parse(data, name),
            Native::SInt32 => SInt32Handler.parse(data, name),
            Native::SInt64 => SInt64Handler.parse(data, name),
            Native::Bool => BoolHandler.parse(data, name),
            Native::Chunk => ChunkHandler.parse(data, name),
            Native::Bytes => BytesHandler.parse(data, name),
            Native::Text => StringHandler.parse(data, name),
            Native::Fixed32 => Fixed32Handler.parse(data, name),
            Native::SFixed32 => SFixed32Handler.parse(data, name),
            Native::Fixed64 => Fixed64Handler.parse(data, name),
            Native::SFixed64 => SFixed64Handler.parse(data, name),
            Native::Bit32(handler) => handler.parse(data, name),
            Native::Bit64(handler) => handler.parse(data, name),
            Native::Float(handler) => handler.parse(data, name),
            Native::Double(handler) => handler.parse(data, name),
        }
    }

    fn wire_type(&self) -> (w: WireType) {
        match self {
            Native::Varint => VarintHandler.wire_type(),
            Native::Int32 => Int32Handler.wire_type(),
            Native::Int64 => Int64Handler.wire_type(),
            Native::UInt32 => UInt32Handler.wire_type(),
            Native::UInt64 => UInt64Handler.wire_type(),
            Native::SInt32 => SInt32Handler.wire_type(),
            Native::SInt64 => SInt64Handler.wire_type(),
            Native::Bool => BoolHandler.wire_type(),
            Native::Chunk => ChunkHandler.wire_type(),
            Native::Bytes => BytesHandler.wire_type(),
            Native::Text => StringHandler.wire_type(),
            Native::Fixed32 => Fixed32Handler.wire_type(),
            Native::SFixed32 => SFixed32Handler.wire_type(),
            Native::Fixed64 => Fixed64Handler.wire_type(),
            Native::SFixed64 => SFixed64Handler.wire_type(),
            Native::Bit32(handler) => handler.wire_type(),
            Native::Bit64(handler) => handler.wire_type(),
            Native::Float(handler) => handler.wire_type(),
            Native::Double(handler) => handler.wire_type(),
        }
    }
}

/// A handler under the name of the type that it shows.
pub struct NativeType<F> {
    pub name: String,
    pub handler: Native<F>,
}

/// Shows messages, with the help of what is known of their types.
///
/// In `types` and in `native_types` the first entry of a name counts.
pub struct Parser<F> {
    pub types: Vec<TypeInfo>,
    pub native_types: Vec<NativeType<F>>,
    /// Whether a field came with a wire type that it should not have.
    pub wire_types_not_matching: bool,
}

/// The offset of the first item that equals `key`; the number of items
/// where none does.
pub open spec fn position<K>(keys: Seq<K>, key: K) -> int
    decreases keys.len(),
{
    if keys.len() == 0 || keys[0] == key {
        0
    } else {
        1 + position(keys.drop_first(), key)
    }
}

/// An item that equals `key`, with none in front of it that does, is
/// the first; and so is the end, where no item does.
pub proof fn lemma_position<K>(keys: Seq<K>, key: K, k: int)
    requires
        0 <= k <= keys.len(),
        forall|i: int| 0 <= i < k ==> keys[i] != key,
        k == keys.len() || keys[k] == key,
    ensures
        position(keys, key) == k,
    decreases k,
{
    if k > 0 {
        let tail = keys.drop_first();
        assert forall|i: int| 0 <= i < k - 1 implies tail[i] != key by {
            assert(tail[i] == keys[i + 1]);
        }
        if k < keys.len() {
            assert(tail[k - 1] == keys[k]);
        }
        lemma_position(tail, key, k - 1);
    }
}

/// Nothing in front of the first item that equals `key` does.
pub proof fn lemma_position_front<K>(keys: Seq<K>, key: K)
    ensures
        0 <= position(keys, key) <= keys.len(),
        forall|i: int| 0 <= i < position(keys, key) ==> keys[i] != key,
        position(keys, key) < keys.len() ==> keys[position(keys, key)] == key,
    decreases keys.len(),
{
    if keys.len() == 0 || keys[0] == key {
    } else {
        let tail = keys.drop_first();
        lemma_position_front(tail, key);
        let k = position(keys, key);
        assert forall|i: int| 0 <= i < k implies keys[i] != key by {
            if i > 0 {
                assert(keys[i] == tail[i - 1]);
            }
        }
        if k < keys.len() {
            assert(keys[k] == tail[k - 1]);
        }
    }
}

/// The names under which the handlers are registered.
pub open spec fn native_names<F>(natives: Seq<NativeType<F>>) -> Seq<Seq<char>> {
    Seq::new(natives.len(), |i: int| natives[i].name@)
}

/// The names of the message types.
pub open spec fn type_names(types: Seq<TypeInfo>) -> Seq<Seq<char>> {
    Seq::new(types.len(), |i: int| types[i].name@)
}

/// The numbers of the fields.
pub open spec fn field_keys(fields: Seq<FieldInfo>) -> Seq<u32> {
    Seq::new(fields.len(), |i: int| fields[i].key)
}

/// The offset of the handler that is registered as `name`.
pub open spec fn native_index<F>(natives: Seq<NativeType<F>>, name: Seq<char>) -> int {
    position(native_names(natives), name)
}

/// The offset of the handler that shows values of the type `kind_name`:
/// the one registered under the first word of that name, and else the
/// one registered as `message`.
pub open spec fn handler_index<F>(natives: Seq<NativeType<F>>, kind_name: Seq<char>) -> int {
    let named = native_index(natives, first_word_of(kind_name));
    if named < natives.len() {
        named
    } else {
        native_index(natives, "message"@)
    }
}

/// Whether a handler is registered as `message`, to fall back on.
pub open spec fn has_fallback<F>(natives: Seq<NativeType<F>>) -> bool {
    native_index(natives, "message"@) < natives.len()
}

/// Whether the handlers can be used: one of them is registered as
/// `message`, and each of them can be asked.
pub open spec fn ready<F: Fn(u64, bool) -> String>(natives: Seq<NativeType<F>>) -> bool {
    &&& has_fallback(natives)
    &&& forall|i: int| 0 <= i < natives.len() ==> (#[trigger] natives[i]).handler.usable()
}

/// What is known of the field `key` of the type `kind_name`: the name of
/// its type and its own name. Of an unknown field, that it is a
/// `message` without a name.
pub open spec fn field_info(types: Seq<TypeInfo>, kind_name: Seq<char>, key: u32) -> (
    Seq<char>,
    Seq<char>,
) {
    let t = position(type_names(types), kind_name);
    if t < types.len() {
        let fields = types[t].fields@;
        let f = position(field_keys(fields), key);
        if f < fields.len() {
            (fields[f].type_str@, fields[f].field_str@)
        } else {
            ("message"@, Seq::empty())
        }
    } else {
        ("message"@, Seq::empty())
    }
}

/// The name under which the values of a wire type are shown.
pub open spec fn wire_name(wire_type: u8) -> Seq<char> {
    if wire_type == 0 {
        "varint"@
    } else if wire_type == 1 {
        "64bit"@
    } else if wire_type == 2 {
        "chunk"@
    } else if wire_type == 3 {
        "startgroup"@
    } else if wire_type == 4 {
        "endgroup"@
    } else if wire_type == 5 {
        "32bit"@
    } else {
        "message"@
    }
}

/// A field number as it is shown: in bold blue.
pub open spec fn key_text(key: u32) -> Seq<char> {
    bold_text(foreground_text(4, decimal(key as nat)))
}

/// The line that shows a group marker.
pub open spec fn group_line(key: u32, wire_type: u8) -> Seq<char> {
    key_text(key) + " <"@ + (if wire_type == 3 {
        "startgroup"@
    } else {
        "endgroup"@
    }) + "> = group (end "@ + key_text(key) + ")"@
}

/// Shows a field number in bold blue.
fn show_key(key: u32) -> (out: String)
    ensures
        out@ == key_text(key),
{
    let mut digits = String::new();
    push_decimal(&mut digits, key as u64);
    assert(digits@ =~= decimal(key as nat));
    foreground_bold(4, digits.as_str())
}

/// The handlers that a new parser holds, each with the name under which
/// it holds it, in their order. `float_text` is the function that the
/// handlers for floating-point numbers are given.
pub open spec fn builtin_natives<F>(float_text: F) -> Seq<(Seq<char>, Native<F>)> {
    seq![
        ("varint"@, Native::Varint),
        ("int32"@, Native::Int32),
        ("int64"@, Native::Int64),
        ("uint32"@, Native::UInt32),
        ("uint64"@, Native::UInt64),
        ("sint32"@, Native::SInt32),
        ("sint64"@, Native::SInt64),
        ("bool"@, Native::Bool),
        ("enum"@, Native::Varint),
        ("32bit"@, Native::Bit32(Bit32Handler { float_text })),
        ("64bit"@, Native::Bit64(Bit64Handler { float_text })),
        ("chunk"@, Native::Chunk),
        ("bytes"@, Native::Bytes),
        ("string"@, Native::Text),
        ("message"@, Native::Chunk),
        ("packed"@, Native::Chunk),
        ("float"@, Native::Float(FloatHandler { float_text })),
        ("double"@, Native::Double(DoubleHandler { float_text })),
        ("fixed32"@, Native::Fixed32),
        ("sfixed32"@, Native::SFixed32),
        ("fixed64"@, Native::Fixed64),
        ("sfixed64"@, Native::SFixed64),
    ]
}

fn native<F>(name: &str, handler: Native<F>) -> (entry: NativeType<F>)
    ensures
        entry.name@ == name@,
        entry.handler == handler,
{
    NativeType { name: String::from_str(name), handler }
}

impl<F: Fn(u64, bool) -> String> Parser<F> {
    /// A parser that knows the message types `message` and `root`, both
    /// without fields, and holds the handlers of this library.
    /// `float_text` writes out the number of 32 bits (second argument
    /// false) or of 64 bits (true) read as a floating-point number.
    pub fn new(float_text: F) -> (parser: Parser<F>) where F: Copy
        requires
            formats_floats(float_text),
        ensures
            !parser.wire_types_not_matching,
            parser.types@.len() == 2,
            parser.types@[0].name@ == "message"@ && parser.types@[0].fields@.len() == 0,
            parser.types@[1].name@ == "root"@ && parser.types@[1].fields@.len() == 0,
            parser.native_types@.len() == builtin_natives(float_text).len(),
            forall|i: int|
                0 <= i < parser.native_types@.len() ==> (
                #[trigger] parser.native_types@[i].name@,
                parser.native_types@[i].handler,
            ) == builtin_natives(float_text)[i],
            ready(parser.native_types@),
    {
        let mut types: Vec<TypeInfo> = Vec::new();
        types.push(TypeInfo { name: String::from_str("message"), fields: Vec::new() });
        types.push(TypeInfo { name: String::from_str("root"), fields: Vec::new() });
        let mut natives: Vec<NativeType<F>> = Vec::new();
        natives.push(native("varint", Native::Varint));
        natives.push(native("int32", Native::Int32));
        natives.push(native("int64", Native::Int64));
        natives.push(native("uint32", Native::UInt32));
        natives.push(native("uint64", Native::UInt64));
        natives.push(native("sint32", Native::SInt32));
        natives.push(native("sint64", Native::SInt64));
        natives.push(native("bool", Native::Bool));
        natives.push(native("enum", Native::Varint));
        natives.push(native("32bit", Native::Bit32(Bit32Handler { float_text })));
        natives.push(native("64bit", Native::Bit64(Bit64Handler { float_text })));
        natives.push(native("chunk", Native::Chunk));
        natives.push(native("bytes", Native::Bytes));
        natives.push(native("string", Native::Text));
        natives.push(native("message", Native::Chunk));
        natives.push(native("packed", Native::Chunk));
        natives.push(native("float", Native::Float(FloatHandler { float_text })));
        natives.push(native("double", Native::Double(DoubleHandler { float_text })));
        natives.push(native("fixed32", Native::Fixed32));
        natives.push(native("sfixed32", Native::SFixed32));
        natives.push(native("fixed64", Native::Fixed64));
        natives.push(native("sfixed64", Native::SFixed64));
        proof {
            let names = native_names(natives@);
            assert(names[14] == "message"@);
            lemma_position_front(names, "message"@);
        }
        Parser { types, native_types: natives, wire_types_not_matching: false }
    }

    /// The offset of the handler registered as `name`; the number of
    /// handlers where none is.
    fn find_native(&self, name: &str) -> (i: usize)
        ensures
            i == native_index(self.native_types@, name@),
            i <= self.native_types@.len(),
    {
        let n = self.native_types.len();
        let ghost names = native_names(self.native_types@);
        let mut i: usize = 0;
        while i < n
            invariant
                n == self.native_types@.len(),
                i <= n,
                names == native_names(self.native_types@),
                forall|j: int| 0 <= j < i ==> names[j] != name@,
            decreases n - i,
        {
            if same_text(self.native_types[i].name.as_str(), name) {
                proof {
                    lemma_position(names, name@, i as int);
                }
                return i;
            }
            i = i + 1;
        }
        proof {
            lemma_position(names, name@, n as int);
        }
        n
    }

    /// Registers `handler` as `name`, in place of the handler that was
    /// registered as `name` before, if one was.
    pub fn register_native_type(&mut self, name: &str, handler: Native<F>)
        requires
            handler.usable(),
        ensures
            ready(old(self).native_types@) ==> ready(final(self).native_types@),
            final(self).types == old(self).types,
            final(self).wire_types_not_matching == old(self).wire_types_not_matching,
            ({
                let i = native_index(old(self).native_types@, name@);
                &&& final(self).native_types@.len() == if i < old(self).native_types@.len() {
                    old(self).native_types@.len()
                } else {
                    old(self).native_types@.len() + 1
                }
                &&& final(self).native_types@[i].name@ == name@
                &&& final(self).native_types@[i].handler == handler
                &&& forall|j: int|
                    0 <= j < old(self).native_types@.len() && j != i
                        ==> final(self).native_types@[j] == old(self).native_types@[j]
                &&& native_index(final(self).native_types@, name@) == i
            }),
    {
        let i = self.find_native(name);
        let entry = native(name, handler);
        if i < self.native_types.len() {
            self.native_types.set(i, entry);
        } else {
            self.native_types.push(entry);
        }
        proof {
            lemma_position_front(native_names(old(self).native_types@), name@);
            let names = native_names(self.native_types@);
            assert forall|j: int| 0 <= j < i implies names[j] != name@ by {
                assert(self.native_types@[j] == old(self).native_types@[j]);
                assert(native_names(old(self).native_types@)[j] != name@);
            }
            lemma_position(names, name@, i as int);
            if ready(old(self).native_types@) {
                let before = native_names(old(self).native_types@);
                let m = position(before, "message"@);
                lemma_position_front(before, "message"@);
                lemma_position_front(names, "message"@);
                if name@ != "message"@ {
                    assert(self.native_types@[m] == old(self).native_types@[m]);
                    assert(names[m] == "message"@);
                }
                assert forall|j: int| 0 <= j < self.native_types@.len() implies (
                #[trigger] self.native_types@[j]).handler.usable() by {
                    if j != i {
                        assert(self.native_types@[j] == old(self).native_types@[j]);
                    }
                }
            }
        }
    }

    /// The handler for values of the type `kind_name`: the one registered
    /// under the first word of the name, and else the one registered as
    /// `message`.
    pub fn match_native_type<'a>(&'a self, kind_name: &str) -> (handler: &'a Native<F>)
        requires
            ready(self.native_types@),
        ensures
            *handler == self.native_types@[handler_index(self.native_types@, kind_name@)].handler,
            handler.usable(),
    {
        let type_primary = first_word(kind_name);
        let named = self.find_native(type_primary);
        if named < self.native_types.len() {
            &self.native_types[named].handler
        } else {
            let fallback = self.find_native("message");
            &self.native_types[fallback].handler
        }
    }

    /// The name under which the values of a wire type are shown.
    pub fn get_wire_type_name(&self, wire_type: u8) -> (name: &'static str)
        ensures
            name@ == wire_name(wire_type),
    {
        match wire_type {
            0 => "varint",
            1 => "64bit",
            2 => "chunk",
            3 => "startgroup",
            4 => "endgroup",
            5 => "32bit",
            _ => "message",
        }
    }

    /// What is known of the field `key` of the type `kind_name`.
    pub fn get_field_type_info(&self, kind_name: &str, key: u32) -> (info: (String, String))
        ensures
            (info.0@, info.1@) == field_info(self.types@, kind_name@, key),
    {
        let ghost names = type_names(self.types@);
        let n = self.types.len();
        let mut t: usize = 0;
        while t < n
            invariant
                n == self.types@.len(),
                t <= n,
                names == type_names(self.types@),
                forall|j: int| 0 <= j < t ==> names[j] != kind_name@,
            decreases n - t,
        {
            if same_text(self.types[t].name.as_str(), kind_name) {
                proof {
                    lemma_position(names, kind_name@, t as int);
                }
                return field_of(&self.types[t].fields, key);
            }
            t = t + 1;
        }
        proof {
            lemma_position(names, kind_name@, n as int);
        }
        (String::from_str("message"), String::new())
    }

    /// Reads the tag of the next field, if the bytes hold one more.
    pub fn read_next_identifier(&self, cursor: &mut DataReader) -> (r: Result<
        Option<(u32, u8)>,
        Error,
    >)
        ensures
            final(cursor).data() == old(cursor).data(),
            final(cursor).pos() == old(cursor).pos() + decode_varint(old(cursor).rest()).1,
            match decode_varint(old(cursor).rest()).0 {
                Ok(Some(id)) => r == Ok::<Option<(u32, u8)>, Error>(Some(split_identifier(id))),
                Ok(None) => r == Ok::<Option<(u32, u8)>, Error>(None),
                Err(e) => r == Err::<Option<(u32, u8)>, Error>(e),
            },
    {
        match read_identifier(cursor) {
            Ok(Some((key, wire_type))) => Ok(Some((key, wire_type))),
            Ok(None) => Ok(None),
            Err(e) => Err(e),
        }
    }

    /// The line that shows a group marker.
    pub fn handle_group_type(&self, key: u32, wire_type: u8) -> (r: Result<Option<String>, Error>)
        ensures
            r is Ok && r->Ok_0 is Some && r->Ok_0->Some_0@ == group_line(key, wire_type),
    {
        let group_type = if wire_type == 3 {
            "startgroup"
        } else {
            "endgroup"
        };
        let mut line = show_key(key);
        line.append(" <");
        line.append(group_type);
        line.append("> = group (end ");
        line.append(show_key(key).as_str());
        line.append(")");
        assert(line@ =~= group_line(key, wire_type));
        Ok(Some(line))
    }

    /// Reads the value of a field; bytes that end before the value does
    /// are an early end.
    pub fn read_field_value(&self, cursor: &mut DataReader, wire_type: u8) -> (r: Result<
        Vec<u8>,
        Error,
    >)
        ensures
            final(cursor).data() == old(cursor).data(),
            final(cursor).pos() == old(cursor).pos() + decode_value(
                old(cursor).rest(),
                wire_type,
            ).1,
            match decode_value(old(cursor).rest(), wire_type).0 {
                Ok(Some(bytes)) => r is Ok && r->Ok_0@ == bytes,
                Ok(None) => r == Err::<Vec<u8>, Error>(Error::Eof),
                Err(e) => r == Err::<Vec<u8>, Error>(e),
            },
    {
        match read_value(cursor, wire_type) {
            Ok(Some(data)) => Ok(data),
            Ok(None) => Err(Error::Eof),
            Err(e) => Err(e),
        }
    }

    /// Notes the wire type of the field `key`, and whether the field came
    /// with another wire type before.
    pub fn check_wire_type_consistency(
        &mut self,
        key: u32,
        wire_type: u8,
        keys_types: &mut HashMap<u32, u8>,
    )
        ensures
            final(self).types == old(self).types,
            final(self).native_types == old(self).native_types,
            final(self).wire_types_not_matching == (old(self).wire_types_not_matching
                || seen_otherwise(old(keys_types)@, key, wire_type)),
            final(keys_types)@ == old(keys_types)@.insert(key, wire_type),
    {
        if let Some(existing_type) = keys_types.get(&key) {
            if *existing_type != wire_type {
                self.wire_types_not_matching = true;
            }
        }
        keys_types.insert(key, wire_type);
    }

    /// Notes a mismatch where the handler of `actual_type` reads another
    /// wire type than `wire_type`, unless the field is of unknown type.
    pub fn check_handler_wire_type_match(
        &mut self,
        actual_type: &str,
        wire_type: u8,
        field_type: &str,
    )
        requires
            ready(old(self).native_types@),
        ensures
            final(self).types == old(self).types,
            final(self).native_types == old(self).native_types,
            final(self).wire_types_not_matching == (old(self).wire_types_not_matching
                || match WireType::of_code(wire_type as int) {
                None => false,
                Some(w) => old(self).native_types@[handler_index(
                    old(self).native_types@,
                    actual_type@,
                )].handler.kind() != w && field_type@ != "message"@,
            }),
    {
        let wire_type_enum = match WireType::from_u8(wire_type) {
            Some(wt) => wt,
            None => {
                return ;
            },
        };
        let handler_wire_type = self.match_native_type(actual_type).wire_type();
        if handler_wire_type != wire_type_enum && !same_text(field_type, "message") {
            self.wire_types_not_matching = true;
        }
    }

    /// Shows a value with the handler of `actual_type`; whatever the
    /// handler fails on counts as an invalid number.
    pub fn parse_value_with_type(&self, actual_type: &str, value_data: &[u8]) -> (r: Result<
        String,
        Error,
    >)
        requires
            ready(self.native_types@),
        ensures
            match self.native_types@[handler_index(
                self.native_types@,
                actual_type@,
            )].handler.parsed(value_data@) {
                Ok(text) => r is Ok && r->Ok_0@ == text,
                Err(_) => r == Err::<String, Error>(Error::InvalidVarint),
            },
    {
        match self.match_native_type(actual_type).parse(value_data, actual_type) {
            Ok(text) => Ok(text),
            Err(_) => Err(Error::InvalidVarint),
        }
    }

    /// Shows `data` as a message of the type `kind_name`.
    pub fn parse_message(&mut self, data: &[u8], kind_name: &str) -> (r: Result<String, Error>)
        requires
            ready(old(self).native_types@),
        ensures
            shows(
                old(self),
                final(self),
                r,
                message_shown(old(self).native_types@, old(self).types@, data@, kind_name@, 0),
            ),
    {
        self.parse_message_with_depth(data, kind_name, 0)
    }

    /// Shows `data` as a message of the type `kind_name`, `depth`
    /// messages deep.
    pub fn parse_message_with_depth(&mut self, data: &[u8], kind_name: &str, depth: usize) -> (r:
        Result<String, Error>)
        requires
            ready(old(self).native_types@),
        ensures
            shows(
                old(self),
                final(self),
                r,
                message_shown(
                    old(self).native_types@,
                    old(self).types@,
                    data@,
                    kind_name@,
                    depth as nat,
                ),
            ),
        decreases 11 - depth, data@.len() + 1, 0int,
    {
        if depth > 10 {
            return Ok(String::from_str("recursion depth exceeded"));
        }
        let mut cursor = DataReader::new(data);
        let mut lines: Vec<String> = Vec::new();
        let mut keys_types: HashMap<u32, u8> = HashMap::new();
        let ghost natives = self.native_types@;
        let ghost types = self.types@;
        let ghost mut acc = false;
        let ghost total = fields_shown(natives, types, data@, kind_name@, depth as nat, Map::empty());
        proof {
            assert(cursor.rest() =~= data@);
            assert(texts(lines@) =~= Seq::<Seq<char>>::empty());
            assert(keys_types@ =~= Map::<u32, u8>::empty());
            let tail = fields_shown(
                natives,
                types,
                cursor.rest(),
                kind_name@,
                depth as nat,
                keys_types@,
            );
            if let Ok(more) = tail.result {
                assert(texts(lines@) + more =~= more);
            }
        }
        loop
            invariant
                self.native_types == old(self).native_types,
                self.types == old(self).types,
                natives == old(self).native_types@,
                types == old(self).types@,
                ready(natives),
                cursor.data() == data@,
                depth <= 10,
                total == fields_shown(
                    natives,
                    types,
                    data@,
                    kind_name@,
                    depth as nat,
                    Map::empty(),
                ),
                self.wire_types_not_matching == (old(self).wire_types_not_matching || acc),
                ({
                    let tail = fields_shown(
                        natives,
                        types,
                        cursor.rest(),
                        kind_name@,
                        depth as nat,
                        keys_types@,
                    );
                    &&& total.mismatch == (acc || tail.mismatch)
                    &&& total.result == match tail.result {
                        Ok(more) => Ok::<Seq<Seq<char>>, Error>(texts(lines@) + more),
                        Err(e) => Err(e),
                    }
                }),
            ensures
                self.native_types == old(self).native_types,
                self.types == old(self).types,
                self.wire_types_not_matching == (old(self).wire_types_not_matching
                    || total.mismatch),
                total.result == Ok::<Seq<Seq<char>>, Error>(texts(lines@)),
            decreases cursor.left(),
        {
            let ghost rest = cursor.rest();
            let ghost seen = keys_types@;
            let ghost shown_lines = texts(lines@);
            proof {
                use_type_invariant(&cursor);
            }
            let (key, wire_type) = match self.read_next_identifier(&mut cursor) {
                Ok(Some(identifier)) => identifier,
                Ok(None) => {
                    proof {
                        assert(shown_lines + Seq::<Seq<char>>::empty() =~= shown_lines);
                    }
                    break ;
                },
                Err(e) => {
                    return Err(e);
                },
            };
            proof {
                use_type_invariant(&cursor);
                lemma_decode_bounds(rest, wire_type);
                assert(cursor.rest() =~= rest.skip(decode_varint(rest).1 as int));
            }
            let ghost after = cursor.rest();
            let ghost step = field_step(
                natives,
                types,
                after,
                key,
                wire_type,
                kind_name@,
                depth as nat,
                seen,
            );
            let line = match self.process_field(
                &mut cursor,
                key,
                wire_type,
                kind_name,
                depth,
                &mut keys_types,
            ) {
                Ok(line) => line,
                Err(e) => {
                    return Err(e);
                },
            };
            if let Some(line) = line {
                lines.push(line);
            }
            proof {
                use_type_invariant(&cursor);
                lemma_decode_bounds(after, wire_type);
                assert(cursor.rest() =~= after.skip(value_len(after, wire_type) as int));
                acc = acc || step.mismatch;
                let more = fields_shown(
                    natives,
                    types,
                    cursor.rest(),
                    kind_name@,
                    depth as nat,
                    keys_types@,
                );
                assert(texts(lines@) =~= shown_lines.push(step.result->Ok_0));
                if let Ok(further) = more.result {
                    assert(texts(lines@) + further =~= shown_lines + (seq![step.result->Ok_0]
                        + further));
                }
            }
        }
        if lines.len() == 0 {
            lines.push(String::from_str("empty"));
            assert(texts(lines@) =~= seq!["empty"@]);
        }
        let joined = join_lines(&lines);
        let body = indent(joined.as_str(), None);
        let mut out = String::from_str(kind_name);
        out.append(":\n");
        out.append(body.as_str());
        proof {
            let shown = total.result->Ok_0;
            assert(out@ =~= message_text(kind_name@, shown));
        }
        Ok(out)
    }

    /// Shows the field that follows the tag `(key, wire_type)`.
    pub fn process_field(
        &mut self,
        cursor: &mut DataReader,
        key: u32,
        wire_type: u8,
        kind_name: &str,
        depth: usize,
        keys_types: &mut HashMap<u32, u8>,
    ) -> (r: Result<Option<String>, Error>)
        requires
            ready(old(self).native_types@),
            depth <= 10,
        ensures
            final(self).types == old(self).types,
            final(self).native_types == old(self).native_types,
            final(cursor).data() == old(cursor).data(),
            ({
                let step = field_step(
                    old(self).native_types@,
                    old(self).types@,
                    old(cursor).rest(),
                    key,
                    wire_type,
                    kind_name@,
                    depth as nat,
                    old(keys_types)@,
                );
                &&& final(self).wire_types_not_matching == (old(self).wire_types_not_matching
                    || step.mismatch)
                &&& match step.result {
                    Ok(line) => r is Ok && r->Ok_0 is Some && r->Ok_0->Some_0@ == line
                        && final(keys_types)@ == step.seen
                        && final(cursor).pos() == old(cursor).pos() + value_len(
                        old(cursor).rest(),
                        wire_type,
                    ),
                    Err(e) => r == Err::<Option<String>, Error>(e),
                }
            }),
        decreases 11 - depth, 0int, 2int,
    {
        if wire_type == 3 || wire_type == 4 {
            return self.handle_group_type(key, wire_type);
        }
        let value_data = match self.read_field_value(cursor, wire_type) {
            Ok(value_data) => value_data,
            Err(e) => {
                return Err(e);
            },
        };
        self.check_wire_type_consistency(key, wire_type, keys_types);
        match self.parse_field_value(key, wire_type, kind_name, value_data.as_slice(), depth) {
            Ok(parsed_line) => Ok(Some(parsed_line)),
            Err(e) => Err(e),
        }
    }

    /// Shows the value of the field `key` as a line.
    pub fn parse_field_value(
        &mut self,
        key: u32,
        wire_type: u8,
        kind_name: &str,
        value_data: &[u8],
        depth: usize,
    ) -> (r: Result<String, Error>)
        requires
            ready(old(self).native_types@),
            depth <= 10,
        ensures
            shows(
                old(self),
                final(self),
                r,
                field_value_shown(
                    old(self).native_types@,
                    old(self).types@,
                    key,
                    wire_type,
                    kind_name@,
                    value_data@,
                    depth as nat,
                ),
            ),
        decreases 11 - depth, 0int, 1int,
    {
        let (field_type, field_name) = self.get_field_type_info(kind_name, key);
        let actual_type: &str = if same_text(field_type.as_str(), "message") {
            self.get_wire_type_name(wire_type)
        } else {
            field_type.as_str()
        };
        self.check_handler_wire_type_match(actual_type, wire_type, field_type.as_str());
        let mut parsed_value = match self.parse_value_with_type(actual_type, value_data) {
            Ok(text) => text,
            Err(e) => {
                return Err(e);
            },
        };
        if same_text(actual_type, "chunk") && self.should_try_nested_parse(value_data) {
            if let Ok(nested_msg) = self.try_parse_nested_message(value_data, depth) {
                parsed_value = nested_msg;
            }
        }
        let mut line = show_key(key);
        line.append(" ");
        if field_name.as_str().unicode_len() == 0 {
            line.append("<");
            line.append(actual_type);
            line.append(">");
        } else {
            line.append(field_name.as_str());
        }
        line.append(" = ");
        line.append(parsed_value.as_str());
        proof {
            assert(line@ =~= field_line(key, field_name@, actual_type@, parsed_value@));
        }
        Ok(line)
    }

    /// Shows a chunk as a message, if it begins like one and the result
    /// is acceptable.
    pub fn try_parse_nested_message(&mut self, value_data: &[u8], depth: usize) -> (r: Result<
        String,
        Error,
    >)
        requires
            ready(old(self).native_types@),
            depth <= 10,
        ensures
            shows(
                old(self),
                final(self),
                r,
                nested_shown(
                    old(self).native_types@,
                    old(self).types@,
                    value_data@,
                    depth as nat,
                ),
            ),
        decreases 11 - depth, 0int, 0int,
    {
        let mut test_cursor = DataReader::new(value_data);
        assert(test_cursor.rest() =~= value_data@);
        if let Ok(Some((_, wire))) = read_identifier(&mut test_cursor) {
            if wire == 0 || wire == 1 || wire == 2 || wire == 5 {
                let msg = match self.parse_message_with_depth(value_data, "message", depth + 1) {
                    Ok(msg) => msg,
                    Err(e) => {
                        return Err(e);
                    },
                };
                if !contains_text(msg.as_str(), "ERROR") && !contains_text(msg.as_str(), "empty")
                    && count_lines(msg.as_str()) <= 3 && contains_text(msg.as_str(), ":") {
                    return Ok(msg);
                }
            }
        }
        Err(Error::InvalidVarint)
    }

    /// Whether a chunk is of a size that may hold a short message.
    pub fn should_try_nested_parse(&self, value_data: &[u8]) -> (b: bool)
        ensures
            b == (2 < value_data@.len() < 100),
    {
        value_data.len() > 2 && value_data.len() < 100
    }
}

/// Shows `data` as a message of the type `root`, with a new parser.
/// `float_text` writes out the number of 32 bits (second argument
/// false) or of 64 bits (true) read as a floating-point number.
pub fn parse_main<F: Fn(u64, bool) -> String + Copy>(data: &[u8], float_text: F) -> (r: Result<
    String,
    Error,
>)
    requires
        formats_floats(float_text),
    ensures
        exists|natives: Seq<NativeType<F>>, types: Seq<TypeInfo>|
            is_new_parser(natives, types, float_text) && crate::types::is_text(
                r,
                #[trigger] message_shown(natives, types, data@, "root"@, 0).result,
            ),
{
    let mut parser = Parser::new(float_text);
    parser.parse_message(data, "root")
}

/// Whether `natives` and `types` are what a new parser holds.
pub open spec fn is_new_parser<F>(
    natives: Seq<NativeType<F>>,
    types: Seq<TypeInfo>,
    float_text: F,
) -> bool {
    &&& types.len() == 2
    &&& types[0].name@ == "message"@ && types[0].fields@.len() == 0
    &&& types[1].name@ == "root"@ && types[1].fields@.len() == 0
    &&& natives.len() == builtin_natives(float_text).len()
    &&& forall|i: int|
        0 <= i < natives.len() ==> (#[trigger] natives[i].name@, natives[i].handler)
            == builtin_natives(float_text)[i]
}

/// Whether `after` is `before` but for the note of a mismatch, and `r`
/// is what `shown` names.
pub open spec fn shows<F>(
    before: &Parser<F>,
    after: &Parser<F>,
    r: Result<String, Error>,
    shown: Shown,
) -> bool {
    &&& after.types == before.types
    &&& after.native_types == before.native_types
    &&& after.wire_types_not_matching == (before.wire_types_not_matching || shown.mismatch)
    &&& match shown.result {
        Ok(text) => r is Ok && r->Ok_0@ == text,
        Err(e) => r is Err && r->Err_0 == e,
    }
}

/// Joins `lines` with line feeds.
fn join_lines(lines: &Vec<String>) -> (out: String)
    ensures
        out@ == join_text(texts(lines@)),
{
    let mut out = String::new();
    let mut i: usize = 0;
    assert(texts(lines@).take(0) =~= Seq::<Seq<char>>::empty());
    while i < lines.len()
        invariant
            i <= lines@.len(),
            out@ == join_text(texts(lines@).take(i as int)),
        decreases lines@.len() - i,
    {
        let ghost before = out@;
        if i > 0 {
            out.append("\n");
        }
        out.append(lines[i].as_str());
        proof {
            let seen = texts(lines@).take(i + 1);
            assert(seen.drop_last() =~= texts(lines@).take(i as int));
            assert(seen.last() == lines@[i as int]@);
            if i > 0 {
                assert(out@ =~= before + "\n"@ + lines@[i as int]@);
            } else {
                assert(out@ =~= lines@[i as int]@);
            }
        }
        i = i + 1;
    }
    assert(texts(lines@).take(lines@.len() as int) =~= texts(lines@));
    out
}

/// Whether the field `key` was seen with a wire type other than
/// `wire_type`.
pub open spec fn seen_otherwise(seen: Map<u32, u8>, key: u32, wire_type: u8) -> bool {
    seen.contains_key(key) && seen[key] != wire_type
}

/// What `fields` tell of the field `key`: the name of its type and its
/// own name.
fn field_of(fields: &Vec<FieldInfo>, key: u32) -> (info: (String, String))
    ensures
        ({
            let f = position(field_keys(fields@), key);
            (info.0@, info.1@) == if f < fields@.len() {
                (fields@[f].type_str@, fields@[f].field_str@)
            } else {
                ("message"@, Seq::<char>::empty())
            }
        }),
{
    let ghost keys = field_keys(fields@);
    let m = fields.len();
    let mut f: usize = 0;
    while f < m
        invariant
            m == fields@.len(),
            f <= m,
            keys == field_keys(fields@),
            forall|j: int| 0 <= j < f ==> keys[j] != key,
        decreases m - f,
    {
        if fields[f].key == key {
            proof {
                lemma_position(keys, key, f as int);
            }
            return (fields[f].type_str.clone(), fields[f].field_str.clone());
        }
        f = f + 1;
    }
    proof {
        lemma_position(keys, key, m as int);
    }
    (String::from_str("message"), String::new())
}

/// What showing a value or a message comes to: the text, or why there
/// is none, and whether a wire type did not match on the way.
pub struct Shown {
    pub result: Result<Seq<char>, Error>,
    pub mismatch: bool,
}

/// What showing the fields of a message comes to: one line for each
/// field, or why there are none, and whether a wire type did not match
/// on the way.
pub struct Lines {
    pub result: Result<Seq<Seq<char>>, Error>,
    pub mismatch: bool,
}

/// What showing one field comes to: its line, or why there is none,
/// whether a wire type did not match on the way, and the wire types of
/// the fields seen so far.
pub struct Step {
    pub result: Result<Seq<char>, Error>,
    pub mismatch: bool,
    pub seen: Map<u32, u8>,
}

/// How many bytes the value of a field with the wire-type code
/// `wire_type` takes at the front of `rest`; a group marker has none.
pub open spec fn value_len(rest: Seq<u8>, wire_type: u8) -> nat {
    if wire_type == 3 || wire_type == 4 {
        0
    } else {
        decode_value(rest, wire_type).1
    }
}

/// The texts of `lines`.
pub open spec fn texts(lines: Seq<String>) -> Seq<Seq<char>> {
    Seq::new(lines.len(), |i: int| lines[i]@)
}

/// `lines` with a line feed between every two of them.
pub open spec fn join_text(lines: Seq<Seq<char>>) -> Seq<char>
    decreases lines.len(),
{
    if lines.len() == 0 {
        Seq::empty()
    } else if lines.len() == 1 {
        lines[0]
    } else {
        join_text(lines.drop_last()) + "\n"@ + lines.last()
    }
}

/// A message as it is shown: the name of its type, a colon, and below it
/// its lines, indented; `empty` stands for a message without fields.
pub open spec fn message_text(kind_name: Seq<char>, lines: Seq<Seq<char>>) -> Seq<char> {
    kind_name + ":\n"@ + indent_text(
        join_text(
            if lines.len() == 0 {
                seq!["empty"@]
            } else {
                lines
            },
        ),
        default_indent(),
    )
}

/// Whether a chunk shown as a message is taken for one: it shows no
/// error and no empty message, has three lines at most, and a colon.
pub open spec fn acceptable(shown: Seq<char>) -> bool {
    !has_substring(shown, "ERROR"@) && !has_substring(shown, "empty"@) && line_count(shown) <= 3
        && has_substring(shown, ":"@)
}

/// The name of the type as which the field `key` of `kind_name` with
/// the wire type `wire_type` is shown: what is known of the field, and
/// for an unknown field the name of its wire type.
pub open spec fn actual_type(
    types: Seq<TypeInfo>,
    kind_name: Seq<char>,
    key: u32,
    wire_type: u8,
) -> Seq<char> {
    let field_type = field_info(types, kind_name, key).0;
    if field_type == "message"@ {
        wire_name(wire_type)
    } else {
        field_type
    }
}

/// Whether the field `key` of `kind_name` is known as a type whose
/// handler reads another wire type than the one it came with.
pub open spec fn handler_mismatch<F: Fn(u64, bool) -> String>(
    natives: Seq<NativeType<F>>,
    types: Seq<TypeInfo>,
    kind_name: Seq<char>,
    key: u32,
    wire_type: u8,
) -> bool {
    let actual = actual_type(types, kind_name, key, wire_type);
    match WireType::of_code(wire_type as int) {
        None => false,
        Some(w) => natives[handler_index(natives, actual)].handler.kind() != w && field_info(
            types,
            kind_name,
            key,
        ).0 != "message"@,
    }
}

/// The line of a field: its number, its name (or the name of its type
/// in angle brackets), and its value.
pub open spec fn field_line(
    key: u32,
    field_name: Seq<char>,
    actual: Seq<char>,
    value: Seq<char>,
) -> Seq<char> {
    key_text(key) + " "@ + (if field_name.len() == 0 {
        "<"@ + actual + ">"@
    } else {
        field_name
    }) + " = "@ + value
}

/// What showing the value of the field `key` comes to.
///
/// The handler of the field's type shows the value; whatever it fails
/// on counts as an invalid number. A chunk of 3 to 99 bytes is also
/// shown as a message, and where that is acceptable, it is shown so.
pub open spec fn field_value_shown<F: Fn(u64, bool) -> String>(
    natives: Seq<NativeType<F>>,
    types: Seq<TypeInfo>,
    key: u32,
    wire_type: u8,
    kind_name: Seq<char>,
    value: Seq<u8>,
    depth: nat,
) -> Shown
    decreases 11 - depth, 0int, 1int,
{
    let actual = actual_type(types, kind_name, key, wire_type);
    let field_name = field_info(types, kind_name, key).1;
    let mismatch = handler_mismatch(natives, types, kind_name, key, wire_type);
    match natives[handler_index(natives, actual)].handler.parsed(value) {
        Err(_) => Shown { result: Err(Error::InvalidVarint), mismatch },
        Ok(plain) => {
            if depth <= 10 && actual == "chunk"@ && 2 < value.len() < 100 {
                let nested = nested_shown(natives, types, value, depth);
                Shown {
                    result: Ok(
                        field_line(
                            key,
                            field_name,
                            actual,
                            match nested.result {
                                Ok(text) => text,
                                Err(_) => plain,
                            },
                        ),
                    ),
                    mismatch: mismatch || nested.mismatch,
                }
            } else {
                Shown { result: Ok(field_line(key, field_name, actual, plain)), mismatch }
            }
        },
    }
}

/// What showing a chunk as a message comes to: the message as it is
/// shown, where it begins with the tag of a number, a fixed value or a
/// chunk and is acceptable; an invalid number else.
pub open spec fn nested_shown<F: Fn(u64, bool) -> String>(
    natives: Seq<NativeType<F>>,
    types: Seq<TypeInfo>,
    value: Seq<u8>,
    depth: nat,
) -> Shown
    decreases 11 - depth, 0int, 0int,
{
    if depth > 10 {
        Shown { result: Err(Error::InvalidVarint), mismatch: false }
    } else {
        match decode_varint(value).0 {
            Ok(Some(id)) => {
                let wire = split_identifier(id).1;
                if wire == 0 || wire == 1 || wire == 2 || wire == 5 {
                    let inner = message_shown(natives, types, value, "message"@, depth + 1);
                    match inner.result {
                        Ok(text) if acceptable(text) => inner,
                        Ok(_) => Shown {
                            result: Err(Error::InvalidVarint),
                            mismatch: inner.mismatch,
                        },
                        Err(_) => inner,
                    }
                } else {
                    Shown { result: Err(Error::InvalidVarint), mismatch: false }
                }
            },
            _ => Shown { result: Err(Error::InvalidVarint), mismatch: false },
        }
    }
}

/// What showing the field that follows the tag `(key, wire_type)` at
/// the front of `rest` comes to.
///
/// A group marker has a line of its own and no value. Any other field
/// has its value read, its wire type held against the one that the same
/// field had before, and its value shown.
pub open spec fn field_step<F: Fn(u64, bool) -> String>(
    natives: Seq<NativeType<F>>,
    types: Seq<TypeInfo>,
    rest: Seq<u8>,
    key: u32,
    wire_type: u8,
    kind_name: Seq<char>,
    depth: nat,
    seen: Map<u32, u8>,
) -> Step
    decreases 11 - depth, 0int, 2int,
{
    if wire_type == 3 || wire_type == 4 {
        Step { result: Ok(group_line(key, wire_type)), mismatch: false, seen }
    } else {
        match decode_value(rest, wire_type) {
            (Err(e), _) => Step { result: Err(e), mismatch: false, seen },
            (Ok(None), _) => Step { result: Err(Error::Eof), mismatch: false, seen },
            (Ok(Some(value)), _) => {
                let shown = field_value_shown(
                    natives,
                    types,
                    key,
                    wire_type,
                    kind_name,
                    value,
                    depth,
                );
                Step {
                    result: shown.result,
                    mismatch: seen_otherwise(seen, key, wire_type) || shown.mismatch,
                    seen: seen.insert(key, wire_type),
                }
            },
        }
    }
}

/// What showing the fields at the front of `rest` comes to, field by
/// field up to the end of the bytes or to the first failure.
pub open spec fn fields_shown<F: Fn(u64, bool) -> String>(
    natives: Seq<NativeType<F>>,
    types: Seq<TypeInfo>,
    rest: Seq<u8>,
    kind_name: Seq<char>,
    depth: nat,
    seen: Map<u32, u8>,
) -> Lines
    decreases 11 - depth, rest.len(), 3int,
{
    match decode_varint(rest) {
        (Err(e), _) => Lines { result: Err(e), mismatch: false },
        (Ok(None), _) => Lines { result: Ok(Seq::empty()), mismatch: false },
        (Ok(Some(id)), used) => {
            let (key, wire_type) = split_identifier(id);
            let after = rest.skip(used as int);
            let step = field_step(natives, types, after, key, wire_type, kind_name, depth, seen);
            match step.result {
                Err(e) => Lines { result: Err(e), mismatch: step.mismatch },
                Ok(line) => {
                    proof {
                        lemma_decode_bounds(rest, wire_type);
                        lemma_decode_bounds(after, wire_type);
                    }
                    let more = fields_shown(
                        natives,
                        types,
                        after.skip(value_len(after, wire_type) as int),
                        kind_name,
                        depth,
                        step.seen,
                    );
                    Lines {
                        result: match more.result {
                            Ok(lines) => Ok(seq![line] + lines),
                            Err(e) => Err(e),
                        },
                        mismatch: step.mismatch || more.mismatch,
                    }
                },
            }
        },
    }
}

/// What showing `data` as a message of the type `kind_name` comes to,
/// `depth` messages deep. Below ten messages nothing more is shown.
pub open spec fn message_shown<F: Fn(u64, bool) -> String>(
    natives: Seq<NativeType<F>>,
    types: Seq<TypeInfo>,
    data: Seq<u8>,
    kind_name: Seq<char>,
    depth: nat,
) -> Shown
    decreases 11 - depth, data.len() + 1, 0int,
{
    if depth > 10 {
        Shown { result: Ok("recursion depth exceeded"@), mismatch: false }
    } else {
        let lines = fields_shown(natives, types, data, kind_name, depth, Map::empty());
        Shown {
            result: match lines.result {
                Ok(lines) => Ok(message_text(kind_name, lines)),
                Err(e) => Err(e),
            },
            mismatch: lines.mismatch,
        }
    }
}

} // verus!
