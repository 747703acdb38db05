use vstd::prelude::*;
use vstd::string::*;
use vstd::utf8::*;

use crate::codec::{
    decimal, is_digit, text_view, json_opt_number, json_of_str, lemma_decimal, lemma_parse_decimal,
    opt_u32_of_json, parsed_u32, str_of_json, u32_of_json,
};
use crate::error::{MqttSerializeError, SchemaError, SchemaErrorView};
use crate::pattern::{parse_pattern, part_wf, Part, Pattern, Segment};
use crate::topic::{pushed_all, Topic};

verus! {

/// The type of a field of a message shape.
#[derive(Clone, Copy, PartialEq, Eq, Structural, Debug)]
pub enum FieldType {
    U32,
    Text,
    OptionalU32,
}

/// How the payload field is turned into bytes and back.
#[derive(Clone, Copy, PartialEq, Eq, Structural, Debug)]
pub enum PayloadHook {
    /// JSON text in UTF-8.
    Json,
    /// For an optional field: absent is an empty payload, present is the
    /// JSON text of the value. Other field types use JSON.
    EmptyAsAbsent,
}

/// A field declaration: its name (a decimal index for positional shapes)
/// and its type.
#[derive(Clone, Debug)]
pub struct FieldDecl {
    pub name: String,
    pub ty: FieldType,
}

/// The value of one field.
#[derive(Clone, PartialEq, Debug)]
pub enum FieldValue {
    U32(u32),
    Text(String),
    OptionalU32(Option<u32>),
}

/// The mathematical form of a [`FieldValue`].
pub enum Value {
    U32(u32),
    Text(Seq<char>),
    OptionalU32(Option<u32>),
}

impl View for FieldValue {
    type V = Value;

    open spec fn view(&self) -> Value {
        match self {
            FieldValue::U32(n) => Value::U32(*n),
            FieldValue::Text(t) => Value::Text(t@),
            FieldValue::OptionalU32(o) => Value::OptionalU32(*o),
        }
    }
}

/// The values of a sequence of fields.
pub open spec fn values_view(v: Seq<FieldValue>) -> Seq<Value> {
    v.map_values(|x: FieldValue| x@)
}

/// A message: the tag of its shape and the values of its fields, in
/// declaration order.
#[derive(Clone, PartialEq, Debug)]
pub struct Message {
    pub tag: String,
    pub values: Vec<FieldValue>,
}

/// Where a field's value travels.
#[derive(Clone, Copy, PartialEq, Eq, Structural, Debug)]
pub enum Source {
    /// In the topic layer at this position.
    Segment(usize),
    /// In the payload.
    Payload,
}

/// The mathematical form of a [`Schema`].
pub struct SchemaView {
    pub tag: Seq<char>,
    pub names: Seq<Seq<char>>,
    pub types: Seq<FieldType>,
    pub pattern: Seq<Part>,
    /// For each field, where it travels.
    pub sources: Seq<Source>,
    /// For each segment, the field that a parameter carries.
    pub slots: Seq<Option<usize>>,
    pub payload: Option<usize>,
    pub hook: PayloadHook,
}

// ---------------------------------------------------------------------------
// Binding fields to the pattern and the payload
/// The position of the first field named `n`, or -1.
pub open spec fn first_index(names: Seq<Seq<char>>, n: Seq<char>) -> int
    decreases names.len(),
{
    if names.len() == 0 {
        -1
    } else {
        let k = first_index(names.drop_last(), n);
        if k >= 0 {
            k
        } else if names.last() == n {
            names.len() - 1
        } else {
            -1
        }
    }
}

/// A positional shape: its fields are named by their indices `0`, `1`, ...
pub open spec fn positional(names: Seq<Seq<char>>) -> bool {
    forall|k: int| 0 <= k < names.len() ==> #[trigger] names[k] == decimal(k as nat)
}

/// The field that a reference `n` names, or -1. In a positional shape the
/// reference is read as a number (`<00>` and `<+0>` name field `0`); in
/// others it is the name of the first field so named.
pub open spec fn resolve(names: Seq<Seq<char>>, n: Seq<char>) -> int {
    if positional(names) {
        match parsed_u32(n) {
            Some(i) => if (i as int) < names.len() {
                i as int
            } else {
                -1
            },
            None => -1,
        }
    } else {
        first_index(names, n)
    }
}

/// Binding the field named `n` to `src`, given the bindings `b` made so far.
pub open spec fn bind_one(
    names: Seq<Seq<char>>,
    types: Seq<FieldType>,
    b: Seq<Option<Source>>,
    n: Seq<char>,
    src: Source,
) -> Result<Seq<Option<Source>>, SchemaErrorView> {
    let k = resolve(names, n);
    if k < 0 {
        Err(SchemaErrorView::UnknownField(n))
    } else if b[k] is Some {
        Err(SchemaErrorView::DuplicateFieldUse(n))
    } else if src is Segment && types[k] == FieldType::OptionalU32 {
        Err(SchemaErrorView::UnsupportedParameterType(n))
    } else {
        Ok(b.update(k, Some(src)))
    }
}

/// Binding the parameters of `p`, in order.
pub open spec fn bind_segments(
    names: Seq<Seq<char>>,
    types: Seq<FieldType>,
    p: Seq<Part>,
) -> Result<Seq<Option<Source>>, SchemaErrorView>
    decreases p.len(),
{
    if p.len() == 0 {
        Ok(Seq::new(names.len(), |k: int| None))
    } else {
        match bind_segments(names, types, p.drop_last()) {
            Err(e) => Err(e),
            Ok(b) => match p.last() {
                Part::Lit(_) => Ok(b),
                Part::Param(n) => bind_one(names, types, b, n, Source::Segment((p.len() - 1) as usize)),
            },
        }
    }
}

/// Binding the parameters of `p`, then the payload field `payload`.
pub open spec fn bind_all(
    names: Seq<Seq<char>>,
    types: Seq<FieldType>,
    p: Seq<Part>,
    payload: Option<Seq<char>>,
) -> Result<Seq<Option<Source>>, SchemaErrorView> {
    match bind_segments(names, types, p) {
        Err(e) => Err(e),
        Ok(b) => match payload {
            None => Ok(b),
            Some(n) => bind_one(names, types, b, n, Source::Payload),
        },
    }
}

/// The names of the fields that `b` leaves unbound, in declaration order.
pub open spec fn unbound(names: Seq<Seq<char>>, b: Seq<Option<Source>>) -> Seq<Seq<char>>
    decreases names.len(),
{
    if names.len() == 0 {
        Seq::empty()
    } else {
        let r = unbound(names.drop_last(), b);
        if b[names.len() - 1] is None {
            r.push(names.last())
        } else {
            r
        }
    }
}

/// The field name in a payload reference `<name>`, or `None` when the text
/// is not written so.
pub open spec fn payload_ref(t: Seq<char>) -> Option<Seq<char>> {
    if t.len() >= 2 && t[0] == '<' && t.last() == '>' {
        Some(t.subrange(1, t.len() - 1))
    } else {
        None
    }
}

/// The error, if any, of registering a shape with these fields, pattern
/// text and payload reference.
pub open spec fn schema_error(
    names: Seq<Seq<char>>,
    types: Seq<FieldType>,
    text: Seq<char>,
    payload: Option<Seq<char>>,
) -> Option<SchemaErrorView> {
    match parse_pattern(text) {
        None => Some(SchemaErrorView::MalformedPattern),
        Some(p) => {
            if payload is Some && payload_ref(payload->Some_0) is None {
                Some(SchemaErrorView::MalformedPattern)
            } else {
                let pn = match payload {
                    Some(t) => payload_ref(t),
                    None => None,
                };
                match bind_all(names, types, p, pn) {
                    Err(e) => Some(e),
                    Ok(b) => if unbound(names, b).len() > 0 {
                        Some(SchemaErrorView::UnusedFields(unbound(names, b)))
                    } else {
                        None
                    },
                }
            }
        },
    }
}

/// After binding the parameters of `p`, each parameter's field is bound to
/// that parameter's position.
pub proof fn lemma_bind_segments_sources(names: Seq<Seq<char>>, types: Seq<FieldType>, p: Seq<Part>)
    requires
        bind_segments(names, types, p) is Ok,
    ensures
        ({
            let b = bind_segments(names, types, p)->Ok_0;
            &&& b.len() == names.len()
            &&& forall|i: int|
                0 <= i < p.len() && (#[trigger] p[i]) is Param ==> {
                    let k = resolve(names, p[i]->Param_0);
                    0 <= k < names.len() && b[k] == Some(Source::Segment(i as usize))
                }
        }),
    decreases p.len(),
{
    if p.len() > 0 {
        let d = p.drop_last();
        lemma_bind_segments_sources(names, types, d);
        assert(bind_segments(names, types, d) is Ok);
        let b0 = bind_segments(names, types, d)->Ok_0;
        let b = bind_segments(names, types, p)->Ok_0;
        assert(p.last() == p[p.len() - 1]);
        assert forall|i: int| 0 <= i < p.len() && (#[trigger] p[i]) is Param implies ({
            let k = resolve(names, p[i]->Param_0);
            0 <= k < names.len() && b[k] == Some(Source::Segment(i as usize))
        }) by {
            lemma_resolve_range(names, p[i]->Param_0);
            if i < d.len() {
                assert(p[i] == d[i]);
                let k = resolve(names, p[i]->Param_0);
                assert(b0[k] == Some(Source::Segment(i as usize)));
                if p.last() is Param {
                    let kl = resolve(names, p.last()->Param_0);
                    lemma_resolve_range(names, p.last()->Param_0);
                    assert(kl >= 0);
                    assert(b0[kl] is None);
                    assert(kl != k);
                    let x = Some(Source::Segment((p.len() - 1) as usize));
                    assert(b == b0.update(kl, x));
                    assert(b0.len() == names.len());
                    assert(0 <= k < b0.len());
                    assert(0 <= kl < b0.len());
                    assert(b0.update(kl, x)[k] == b0[k]);
                } else {
                    assert(b == b0);
                }
                assert(b[k] == Some(Source::Segment(i as usize)));
            } else {
                assert(i == p.len() - 1);
                let k = resolve(names, p[i]->Param_0);
                assert(p.last() == p[i]);
                assert(k >= 0);
                assert(b0[k] is None);
                assert(b == b0.update(k, Some(Source::Segment((p.len() - 1) as usize))));
                assert(b[k] == Some(Source::Segment(i as usize)));
            }
        }
    }
}

proof fn lemma_first_index_range(names: Seq<Seq<char>>, n: Seq<char>)
    ensures
        -1 <= first_index(names, n) < names.len(),
    decreases names.len(),
{
    if names.len() > 0 {
        lemma_first_index_range(names.drop_last(), n);
    }
}

proof fn lemma_resolve_range(names: Seq<Seq<char>>, n: Seq<char>)
    ensures
        -1 <= resolve(names, n) < names.len(),
{
    lemma_first_index_range(names, n);
}

/// A shape whose pattern names one field in two parameters is refused.
pub proof fn lemma_field_bound_twice_refused(
    names: Seq<Seq<char>>,
    types: Seq<FieldType>,
    text: Seq<char>,
    payload: Option<Seq<char>>,
    i: int,
    j: int,
)
    requires
        parse_pattern(text) is Some,
        0 <= i < j < parse_pattern(text)->Some_0.len(),
        j <= usize::MAX,
        parse_pattern(text)->Some_0[i] is Param,
        parse_pattern(text)->Some_0[i] == parse_pattern(text)->Some_0[j],
    ensures
        schema_error(names, types, text, payload) is Some,
{
    let p = parse_pattern(text)->Some_0;
    if bind_segments(names, types, p) is Ok {
        lemma_bind_segments_sources(names, types, p);
    }
}

// ---------------------------------------------------------------------------
// Well-formed schemas
/// The shape of a schema: every field bound exactly once, each parameter to
/// the field it names, and the per-segment slots agree with the sources.
pub open spec fn schema_wf(s: SchemaView) -> bool {
    &&& s.names.len() == s.types.len()
    &&& s.names.len() <= usize::MAX
    &&& s.sources.len() == s.names.len()
    &&& s.slots.len() == s.pattern.len()
    &&& forall|i: int| 0 <= i < s.pattern.len() ==> part_wf(#[trigger] s.pattern[i])
    &&& forall|i: int|
        0 <= i < s.pattern.len() ==> (s.pattern[i] is Param <==> (#[trigger] s.slots[i]) is Some)
    &&& forall|i: int|
        #![trigger s.slots[i]]
        0 <= i < s.pattern.len() && s.slots[i] is Some ==> {
            let k = s.slots[i]->Some_0 as int;
            &&& 0 <= k < s.names.len()
            &&& s.sources[k] == Source::Segment(i as usize)
        }
    &&& forall|k: int|
        #![trigger s.sources[k]]
        0 <= k < s.names.len() && s.sources[k] is Segment ==> {
            let i = s.sources[k]->Segment_0 as int;
            &&& 0 <= i < s.pattern.len()
            &&& s.slots[i] == Some(k as usize)
            &&& s.types[k] != FieldType::OptionalU32
        }
    &&& forall|k: int|
        0 <= k < s.names.len() ==> ((#[trigger] s.sources[k]) == Source::Payload <==> s.payload
            == Some(k as usize))
    &&& s.payload matches Some(k) ==> k < s.names.len()
}

/// A value of the shape: one value per field, each of the declared type.
pub open spec fn conforms(s: SchemaView, v: Seq<Value>) -> bool {
    &&& v.len() == s.names.len()
    &&& forall|k: int| 0 <= k < v.len() ==> has_type(#[trigger] v[k], s.types[k])
}

pub open spec fn has_type(v: Value, t: FieldType) -> bool {
    match v {
        Value::U32(_) => t == FieldType::U32,
        Value::Text(_) => t == FieldType::Text,
        Value::OptionalU32(_) => t == FieldType::OptionalU32,
    }
}

// ---------------------------------------------------------------------------
// Encoding
/// The topic text of a field value.
pub open spec fn render(v: Value) -> Seq<char> {
    match v {
        Value::U32(n) => decimal(n as nat),
        Value::Text(t) => t,
        Value::OptionalU32(_) => Seq::empty(),
    }
}

/// The topic layers of a value: literals as they are, parameters as the text
/// of the field they carry.
pub open spec fn topic_layers(s: SchemaView, v: Seq<Value>) -> Seq<Seq<char>> {
    Seq::new(
        s.pattern.len(),
        |i: int|
            match s.pattern[i] {
                Part::Lit(t) => t,
                Part::Param(_) => render(v[s.slots[i]->Some_0 as int]),
            },
    )
}

/// The UTF-8 bytes of an optional text.
pub open spec fn utf8_of(t: Option<Seq<char>>) -> Option<Seq<u8>> {
    match t {
        Some(t) => Some(encode_utf8(t)),
        None => None,
    }
}

/// The payload bytes of a field value, or `None` where the codec fails.
pub open spec fn encode_payload(hook: PayloadHook, v: Value) -> Option<Seq<u8>> {
    match v {
        Value::U32(n) => Some(encode_utf8(decimal(n as nat))),
        Value::Text(t) => utf8_of(json_of_str(t)),
        Value::OptionalU32(o) => if hook == PayloadHook::EmptyAsAbsent {
            match o {
                None => Some(Seq::empty()),
                Some(n) => Some(encode_utf8(decimal(n as nat))),
            }
        } else {
            Some(encode_utf8(json_opt_number(o)))
        },
    }
}

/// The payload of a value: empty where no field is bound to it.
pub open spec fn payload_bytes(s: SchemaView, v: Seq<Value>) -> Option<Seq<u8>> {
    match s.payload {
        None => Some(Seq::empty()),
        Some(k) => encode_payload(s.hook, v[k as int]),
    }
}

// ---------------------------------------------------------------------------
// Decoding
/// The value of a field of type `t` read from a topic layer.
pub open spec fn parse_layer(t: FieldType, l: Seq<char>) -> Option<Value> {
    match t {
        FieldType::U32 => match parsed_u32(l) {
            Some(n) => Some(Value::U32(n)),
            None => None,
        },
        FieldType::Text => Some(Value::Text(l)),
        FieldType::OptionalU32 => None,
    }
}

/// The value of a field of type `t` read from JSON text.
pub open spec fn from_json(t: FieldType, j: Seq<char>) -> Option<Value> {
    match t {
        FieldType::U32 => match u32_of_json(j) {
            Some(n) => Some(Value::U32(n)),
            None => None,
        },
        FieldType::Text => match str_of_json(j) {
            Some(x) => Some(Value::Text(x)),
            None => None,
        },
        FieldType::OptionalU32 => match opt_u32_of_json(j) {
            Some(o) => Some(Value::OptionalU32(o)),
            None => None,
        },
    }
}

/// The value of a field of type `t` read from the payload bytes `b`.
pub open spec fn decode_payload(hook: PayloadHook, t: FieldType, b: Seq<u8>) -> Option<Value> {
    if hook == PayloadHook::EmptyAsAbsent && t == FieldType::OptionalU32 {
        if b.len() == 0 {
            Some(Value::OptionalU32(None))
        } else if !valid_utf8(b) {
            None
        } else {
            match u32_of_json(decode_utf8(b)) {
                Some(n) => Some(Value::OptionalU32(Some(n))),
                None => None,
            }
        }
    } else if !valid_utf8(b) {
        None
    } else {
        from_json(t, decode_utf8(b))
    }
}

/// The value of field `k` read from the topic layers or the payload.
pub open spec fn field_value(s: SchemaView, k: int, layers: Seq<Seq<char>>, b: Seq<u8>) -> Option<
    Value,
> {
    match s.sources[k] {
        Source::Segment(i) => parse_layer(s.types[k], layers[i as int]),
        Source::Payload => decode_payload(s.hook, s.types[k], b),
    }
}

/// Whether the literals of the pattern stand at their positions in `layers`.
pub open spec fn literals_match(p: Seq<Part>, layers: Seq<Seq<char>>) -> bool {
    &&& layers.len() >= p.len()
    &&& forall|i: int| 0 <= i < p.len() && (#[trigger] p[i]) is Lit ==> layers[i] == p[i]->Lit_0
}

/// The field values that this shape reads from the topic layers and the
/// payload, or `None` where a literal differs, a layer is missing, or a
/// field cannot be read.
pub open spec fn candidate(s: SchemaView, layers: Seq<Seq<char>>, b: Seq<u8>) -> Option<
    Seq<Value>,
> {
    if literals_match(s.pattern, layers) && forall|k: int|
        0 <= k < s.names.len() ==> (#[trigger] field_value(s, k, layers, b)) is Some {
        Some(Seq::new(s.names.len(), |k: int| field_value(s, k, layers, b)->Some_0))
    } else {
        None
    }
}

// ---------------------------------------------------------------------------
// Round trip of one shape
/// A field value that comes back unchanged from its topic text.
pub open spec fn layer_round_trips(v: Value) -> bool {
    match v {
        Value::Text(t) => crate::topic::is_layer(t),
        _ => true,
    }
}

/// A payload value that the JSON codec reads back as it wrote it.
pub open spec fn json_round_trips(hook: PayloadHook, v: Value) -> bool {
    match v {
        Value::U32(n) => u32_of_json(decimal(n as nat)) == Some(n),
        Value::Text(t) => json_of_str(t) matches Some(j) ==> str_of_json(j) == Some(t),
        Value::OptionalU32(o) => if hook == PayloadHook::EmptyAsAbsent {
            o matches Some(n) ==> u32_of_json(decimal(n as nat)) == Some(n)
        } else {
            opt_u32_of_json(json_opt_number(o)) == Some(o)
        },
    }
}

proof fn lemma_decimal_layer(n: u32)
    ensures
        crate::topic::is_layer(decimal(n as nat)),
{
    lemma_decimal(n as nat);
    let d = decimal(n as nat);
    if d.contains('/') {
        let i = choose|i: int| 0 <= i < d.len() && d[i] == '/';
        assert(is_digit(d[i]));
    }
}

/// Reading a payload back gives the value that was encoded, when the JSON
/// codec does.
pub proof fn lemma_payload_round_trip(hook: PayloadHook, t: FieldType, v: Value)
    requires
        has_type(v, t),
        json_round_trips(hook, v),
        encode_payload(hook, v) is Some,
    ensures
        decode_payload(hook, t, encode_payload(hook, v)->Some_0) == Some(v),
{
    broadcast use encode_utf8_valid_utf8, encode_utf8_decode_utf8;

    let b = encode_payload(hook, v)->Some_0;
    match v {
        Value::OptionalU32(o) => {
            if hook == PayloadHook::EmptyAsAbsent {
                match o {
                    None => {},
                    Some(n) => {
                        let j = decimal(n as nat);
                        lemma_decimal(n as nat);
                        assert(encode_utf8(j).len() > 0) by {
                            assert(decode_utf8(encode_utf8(j)) == j);
                            if encode_utf8(j).len() == 0 {
                                assert(encode_utf8(j) =~= Seq::<u8>::empty());
                                assert(decode_utf8(Seq::<u8>::empty()) =~= Seq::<char>::empty());
                            }
                        }
                    },
                }
            }
        },
        _ => {},
    }
}

/// Decoding the topic layers and payload that a shape encodes a value into
/// gives that value back, where each text field carried in the topic is a
/// single layer and the JSON codec reads the payload back as it wrote it.
pub proof fn lemma_candidate_round_trip(s: SchemaView, v: Seq<Value>)
    requires
        schema_wf(s),
        conforms(s, v),
        forall|k: int| 0 <= k < v.len() && s.sources[k] is Segment ==> layer_round_trips(#[trigger] v[k]),
        s.payload matches Some(k) ==> json_round_trips(s.hook, v[k as int]),
        payload_bytes(s, v) is Some,
    ensures
        candidate(s, topic_layers(s, v), payload_bytes(s, v)->Some_0) == Some(v),
{
    let layers = topic_layers(s, v);
    let b = payload_bytes(s, v)->Some_0;
    assert(literals_match(s.pattern, layers));
    assert forall|k: int| 0 <= k < s.names.len() implies #[trigger] field_value(s, k, layers, b)
        == Some(v[k]) by {
        match s.sources[k] {
            Source::Segment(i) => {
                assert(s.slots[i as int] == Some(k as usize));
                assert(s.pattern[i as int] is Param);
                assert(layers[i as int] == render(v[k]));
                match v[k] {
                    Value::U32(n) => {
                        lemma_parse_decimal(n);
                    },
                    _ => {},
                }
            },
            Source::Payload => {
                assert(s.payload == Some(k as usize));
                assert((k as usize) as int == k);
                assert(encode_payload(s.hook, v[k]) is Some);
                lemma_payload_round_trip(s.hook, s.types[k], v[k]);
            },
        }
    }
    assert(Seq::new(s.names.len(), |k: int| field_value(s, k, layers, b)->Some_0) =~= v);
}

/// Topic layers that a value encodes to are each a single layer.
pub proof fn lemma_topic_layers_plain(s: SchemaView, v: Seq<Value>)
    requires
        schema_wf(s),
        conforms(s, v),
        forall|k: int| 0 <= k < v.len() && s.sources[k] is Segment ==> layer_round_trips(#[trigger] v[k]),
    ensures
        forall|i: int|
            0 <= i < topic_layers(s, v).len() ==> crate::topic::is_layer(
                #[trigger] topic_layers(s, v)[i],
            ),
{
    assert forall|i: int| 0 <= i < topic_layers(s, v).len() implies crate::topic::is_layer(
        #[trigger] topic_layers(s, v)[i],
    ) by {
        assert(part_wf(s.pattern[i]));
        if s.pattern[i] is Param {
            assert(s.slots[i] is Some);
            let k = s.slots[i]->Some_0 as int;
            assert(s.sources[k] == Source::Segment(i as usize));
            match v[k] {
                Value::U32(n) => lemma_decimal_layer(n),
                Value::Text(_) => {},
                Value::OptionalU32(_) => {
                    assert(has_type(v[k], s.types[k]));
                },
            }
        }
    }
}

/// The names of declared fields.
pub open spec fn names_of(f: Seq<FieldDecl>) -> Seq<Seq<char>> {
    f.map_values(|d: FieldDecl| d.name@)
}

/// The types of declared fields.
pub open spec fn types_of(f: Seq<FieldDecl>) -> Seq<FieldType> {
    f.map_values(|d: FieldDecl| d.ty)
}

/// The text of an optional string slice.
pub open spec fn opt_str_view(o: Option<&str>) -> Option<Seq<char>> {
    match o {
        Some(t) => Some(t@),
        None => None,
    }
}

/// The value held by an optional field value.
pub open spec fn opt_value_view(o: Option<FieldValue>) -> Option<Value> {
    match o {
        Some(v) => Some(v@),
        None => None,
    }
}

proof fn lemma_first_index_prefix(names: Seq<Seq<char>>, n: Seq<char>, m: int)
    requires
        0 <= m <= names.len(),
        first_index(names.subrange(0, m), n) >= 0,
    ensures
        first_index(names, n) == first_index(names.subrange(0, m), n),
    decreases names.len() - m,
{
    if m < names.len() {
        let w = names.subrange(0, m + 1);
        assert(w.drop_last() =~= names.subrange(0, m));
        lemma_first_index_prefix(names, n, m + 1);
    } else {
        assert(names.subrange(0, m) =~= names);
    }
}

proof fn lemma_bind_err_prefix(
    names: Seq<Seq<char>>,
    types: Seq<FieldType>,
    p: Seq<Part>,
    m: int,
)
    requires
        0 <= m <= p.len(),
        bind_segments(names, types, p.subrange(0, m)) is Err,
    ensures
        bind_segments(names, types, p) == bind_segments(names, types, p.subrange(0, m)),
    decreases p.len() - m,
{
    if m < p.len() {
        let w = p.subrange(0, m + 1);
        assert(w.drop_last() =~= p.subrange(0, m));
        lemma_bind_err_prefix(names, types, p, m + 1);
    } else {
        assert(p.subrange(0, m) =~= p);
    }
}

/// Whether the fields are named by their indices.
fn is_positional(fields: &Vec<FieldDecl>) -> (r: bool)
    ensures
        r == positional(names_of(fields@)),
{
    let ghost names = names_of(fields@);
    let mut k: usize = 0;
    while k < fields.len()
        invariant
            names == names_of(fields@),
            k <= fields@.len(),
            forall|j: int| 0 <= j < k ==> #[trigger] names[j] == decimal(j as nat),
        decreases fields@.len() - k,
    {
        assert(names[k as int] == fields@[k as int].name@);
        if fields[k].name != crate::codec::decimal_text(k as u64) {
            return false;
        }
        k = k + 1;
    }
    true
}

/// The field that the reference `n` names, if any.
fn find_field(fields: &Vec<FieldDecl>, n: &String) -> (r: Option<usize>)
    ensures
        r matches Some(k) ==> k < fields@.len() && resolve(names_of(fields@), n@) == k,
        r is None ==> resolve(names_of(fields@), n@) == -1,
{
    if is_positional(fields) {
        match crate::codec::parse_u32(n.as_str()) {
            Some(i) => {
                if (i as usize) < fields.len() {
                    Some(i as usize)
                } else {
                    None
                }
            },
            None => None,
        }
    } else {
        find_name(fields, n)
    }
}

/// The position of the first field named `n`, if any.
fn find_name(fields: &Vec<FieldDecl>, n: &String) -> (r: Option<usize>)
    ensures
        r matches Some(k) ==> k < fields@.len() && first_index(names_of(fields@), n@) == k,
        r is None ==> first_index(names_of(fields@), n@) == -1,
{
    let ghost names = names_of(fields@);
    let mut i: usize = 0;
    assert(names.subrange(0, 0) =~= Seq::<Seq<char>>::empty());
    while i < fields.len()
        invariant
            names == names_of(fields@),
            i <= fields@.len(),
            first_index(names.subrange(0, i as int), n@) == -1,
        decreases fields@.len() - i,
    {
        assert(names.subrange(0, i + 1).drop_last() =~= names.subrange(0, i as int));
        assert(names.subrange(0, i + 1).last() == fields@[i as int].name@);
        if fields[i].name == *n {
            proof {
                lemma_first_index_prefix(names, n@, i + 1);
            }
            return Some(i);
        }
        i = i + 1;
    }
    assert(names.subrange(0, i as int) =~= names);
    None
}

/// The field name in a payload reference `<name>`.
fn payload_name(t: &str) -> (r: Option<String>)
    ensures
        text_view(r) == payload_ref(t@),
{
    let n = t.unicode_len();
    if n >= 2 && t.get_char(0) == '<' && t.get_char(n - 1) == '>' {
        Some(t.substring_char(1, n - 1).to_owned())
    } else {
        None
    }
}

/// The value of a field of type `ty` read from a topic layer.
fn parse_field(ty: FieldType, l: &str) -> (r: Option<FieldValue>)
    ensures
        opt_value_view(r) == parse_layer(ty, l@),
{
    match ty {
        FieldType::U32 => match crate::codec::parse_u32(l) {
            Some(n) => Some(FieldValue::U32(n)),
            None => None,
        },
        FieldType::Text => Some(FieldValue::Text(l.to_owned())),
        FieldType::OptionalU32 => None,
    }
}

/// One message shape: its tag, its fields, its topic pattern, where each
/// field travels, and how the payload is coded.
#[derive(Debug)]
pub struct Schema {
    tag: String,
    fields: Vec<FieldDecl>,
    pattern: Pattern,
    sources: Vec<Source>,
    slots: Vec<Option<usize>>,
    payload: Option<usize>,
    hook: PayloadHook,
}

impl View for Schema {
    type V = SchemaView;

    closed spec fn view(&self) -> SchemaView {
        SchemaView {
            tag: self.tag@,
            names: names_of(self.fields@),
            types: types_of(self.fields@),
            pattern: self.pattern@,
            sources: self.sources@,
            slots: self.slots@,
            payload: self.payload,
            hook: self.hook,
        }
    }
}

impl Schema {
    pub open spec fn wf(&self) -> bool {
        schema_wf(self@)
    }

    /// Build a shape from its tag, its fields, its topic pattern text, its
    /// payload reference `<name>` (if any) and its payload codec. Parameters
    /// are bound in pattern order, then the payload; every field must be
    /// bound exactly once.
    pub fn new(
        tag: String,
        fields: Vec<FieldDecl>,
        topic: &str,
        payload: Option<&str>,
        hook: PayloadHook,
    ) -> (r: Result<Schema, SchemaError>)
        ensures
            r is Err <==> schema_error(
                names_of(fields@),
                types_of(fields@),
                topic@,
                opt_str_view(payload),
            ) is Some,
            r matches Err(e) ==> Some(e@) == schema_error(
                names_of(fields@),
                types_of(fields@),
                topic@,
                opt_str_view(payload),
            ),
            r matches Ok(s) ==> {
                &&& s.wf()
                &&& s@.tag == tag@
                &&& s@.names == names_of(fields@)
                &&& s@.types == types_of(fields@)
                &&& Some(s@.pattern) == parse_pattern(topic@)
                &&& s@.hook == hook
                &&& (s@.payload is None <==> payload is None)
                &&& bind_all(
                    s@.names,
                    s@.types,
                    s@.pattern,
                    match payload {
                        Some(t) => payload_ref(t@),
                        None => None,
                    },
                ) == Ok::<Seq<Option<Source>>, SchemaErrorView>(
                    s@.sources.map_values(|x: Source| Some(x)),
                )
            },
    {
        let ghost names = names_of(fields@);
        let ghost types = types_of(fields@);
        let pattern = match Pattern::from_string(topic) {
            Ok(p) => p,
            Err(e) => {
                return Err(e);
            },
        };
        let pname: Option<String> = match payload {
            None => None,
            Some(t) => match payload_name(t) {
                Some(n) => Some(n),
                None => {
                    return Err(SchemaError::MalformedPattern);
                },
            },
        };
        let ghost pn = match payload {
            Some(t) => payload_ref(t@),
            None => None,
        };
        assert(text_view(pname) == pn);
        assert(!(opt_str_view(payload) is Some && payload_ref(opt_str_view(payload)->Some_0) is None));
        let nf = fields.len();
        let mut b: Vec<Option<Source>> = Vec::new();
        while b.len() < nf
            invariant
                b@.len() <= nf,
                forall|k: int| 0 <= k < b@.len() ==> (#[trigger] b@[k]) is None,
            decreases nf - b@.len(),
        {
            b.push(None);
        }
        assert(b@ =~= Seq::new(names.len(), |k: int| None::<Source>));
        let parts = pattern.parts();
        let ghost p = pattern@;
        let mut slots: Vec<Option<usize>> = Vec::new();
        let mut i: usize = 0;
        assert(p.subrange(0, 0) =~= Seq::<Part>::empty());
        while i < parts.len()
            invariant
                names == names_of(fields@),
                types == types_of(fields@),
                nf == fields@.len(),
                p == pattern@,
                Some(p) == parse_pattern(topic@),
                text_view(pname) == pn,
                pn == match payload {
                    Some(t) => payload_ref(t@),
                    None => None::<Seq<char>>,
                },
                !(opt_str_view(payload) is Some && payload_ref(opt_str_view(payload)->Some_0) is None),
                parts@.map_values(|s: Segment| s@) == p,
                i <= parts@.len(),
                b@.len() == nf,
                slots@.len() == i,
                bind_segments(names, types, p.subrange(0, i as int)) == Ok::<
                    Seq<Option<Source>>,
                    SchemaErrorView,
                >(b@),
                forall|j: int| 0 <= j < i ==> (p[j] is Param <==> (#[trigger] slots@[j]) is Some),
                forall|j: int|
                    #![trigger slots@[j]]
                    0 <= j < i && slots@[j] is Some ==> {
                        let k = slots@[j]->Some_0 as int;
                        &&& 0 <= k < nf
                        &&& b@[k] == Some(Source::Segment(j as usize))
                    },
                forall|k: int|
                    #![trigger b@[k]]
                    0 <= k < nf && b@[k] is Some ==> {
                        &&& b@[k]->Some_0 is Segment
                        &&& {
                            let j = b@[k]->Some_0->Segment_0 as int;
                            &&& 0 <= j < i
                            &&& slots@[j] == Some(k as usize)
                            &&& types[k] != FieldType::OptionalU32
                        }
                    },
            decreases parts@.len() - i,
        {
            let seg = &parts[i];
            assert(p[i as int] == seg@);
            assert(p.subrange(0, i + 1).drop_last() =~= p.subrange(0, i as int));
            assert(p.subrange(0, i + 1).last() == p[i as int]);
            match seg {
                Segment::Literal(_) => {
                    slots.push(None);
                },
                Segment::Parameter(n) => {
                    let k = match find_field(&fields, n) {
                        Some(k) => k,
                        None => {
                            proof {
                                lemma_bind_err_prefix(names, types, p, i + 1);
                            }
                            return Err(SchemaError::UnknownField(n.clone()));
                        },
                    };
                    if b[k].is_some() {
                        proof {
                            lemma_bind_err_prefix(names, types, p, i + 1);
                        }
                        return Err(SchemaError::DuplicateFieldUse(n.clone()));
                    }
                    assert(types[k as int] == fields@[k as int].ty);
                    if fields[k].ty == FieldType::OptionalU32 {
                        proof {
                            lemma_bind_err_prefix(names, types, p, i + 1);
                        }
                        return Err(SchemaError::UnsupportedParameterType(n.clone()));
                    }
                    b.set(k, Some(Source::Segment(i)));
                    slots.push(Some(k));
                },
            }
            i = i + 1;
        }
        assert(p.subrange(0, i as int) =~= p);
        let mut payload_index: Option<usize> = None;
        match &pname {
            None => {},
            Some(n) => {
                let k = match find_field(&fields, n) {
                    Some(k) => k,
                    None => {
                        return Err(SchemaError::UnknownField(n.clone()));
                    },
                };
                if b[k].is_some() {
                    return Err(SchemaError::DuplicateFieldUse(n.clone()));
                }
                b.set(k, Some(Source::Payload));
                payload_index = Some(k);
            },
        }
        let ghost bound = b@;
        let mut unused: Vec<String> = Vec::new();
        let mut k: usize = 0;
        assert(names.subrange(0, 0) =~= Seq::<Seq<char>>::empty());
        while k < nf
            invariant
                names == names_of(fields@),
                nf == fields@.len(),
                b@ == bound,
                b@.len() == nf,
                k <= nf,
                unbound(names.subrange(0, k as int), bound) == unused.deep_view(),
                unused@.len() == 0 ==> forall|j: int| 0 <= j < k ==> (#[trigger] bound[j]) is Some,
            decreases nf - k,
        {
            assert(names.subrange(0, k + 1).drop_last() =~= names.subrange(0, k as int));
            assert(names.subrange(0, k + 1).last() == fields@[k as int].name@);
            if b[k].is_none() {
                unused.push(fields[k].name.clone());
                assert(unused.deep_view() =~= unbound(names.subrange(0, k + 1), bound));
            }
            k = k + 1;
        }
        assert(names.subrange(0, nf as int) =~= names);
        if unused.len() > 0 {
            return Err(SchemaError::UnusedFields(unused));
        }
        let mut sources: Vec<Source> = Vec::new();
        let mut k: usize = 0;
        while k < nf
            invariant
                nf == b@.len(),
                k <= nf,
                sources@.len() == k,
                forall|j: int| 0 <= j < nf ==> (#[trigger] b@[j]) is Some,
                forall|j: int| 0 <= j < k ==> Some(#[trigger] sources@[j]) == b@[j],
            decreases nf - k,
        {
            let src = b[k].unwrap();
            sources.push(src);
            k = k + 1;
        }
        assert(sources@.map_values(|x: Source| Some(x)) =~= b@);
        let s = Schema { tag, fields, pattern, sources, slots, payload: payload_index, hook };
        assert(s@.names == names);
        assert(s@.pattern == p);
        Ok(s)
    }

    /// The tag of this shape.
    pub fn tag(&self) -> (r: &String)
        ensures
            r@ == self@.tag,
    {
        &self.tag
    }

    /// The topic pattern of this shape.
    pub fn pattern(&self) -> (r: &Pattern)
        ensures
            r@ == self@.pattern,
    {
        &self.pattern
    }

    /// Turn the field values of a message of this shape into its topic and
    /// payload. The codec failing is the only error.
    pub fn encode(&self, values: &Vec<FieldValue>) -> (r: Result<(Topic, Vec<u8>), MqttSerializeError>)
        requires
            self.wf(),
            conforms(self@, values_view(values@)),
        ensures
            r is Ok <==> payload_bytes(self@, values_view(values@)) is Some,
            r matches Err(e) ==> e == MqttSerializeError::Codec,
            r matches Ok((t, b)) ==> {
                &&& t@ == pushed_all(topic_layers(self@, values_view(values@)))
                &&& Some(b@) == payload_bytes(self@, values_view(values@))
            },
    {
        let ghost v = values_view(values@);
        let ghost layers = topic_layers(self@, v);
        let mut t = Topic::new();
        let mut i: usize = 0;
        assert(layers.subrange(0, 0) =~= Seq::<Seq<char>>::empty());
        while i < self.pattern.len()
            invariant
                self.wf(),
                v == values_view(values@),
                conforms(self@, v),
                layers == topic_layers(self@, v),
                i <= self@.pattern.len(),
                t@ == pushed_all(layers.subrange(0, i as int)),
            decreases self@.pattern.len() - i,
        {
            let seg = &self.pattern.parts()[i];
            assert(self@.pattern[i as int] == seg@);
            assert(layers.subrange(0, i + 1).drop_last() =~= layers.subrange(0, i as int));
            assert(layers.subrange(0, i + 1).last() == layers[i as int]);
            match seg {
                Segment::Literal(l) => {
                    t.push(l.as_str());
                },
                Segment::Parameter(_) => {
                    assert(self@.slots[i as int] is Some);
                    let k = self.slots[i].unwrap();
                    assert(values@[k as int]@ == v[k as int]);
                    let text = match &values[k] {
                        FieldValue::U32(n) => crate::codec::decimal_text(*n as u64),
                        FieldValue::Text(x) => x.clone(),
                        FieldValue::OptionalU32(_) => String::new(),
                    };
                    t.push(text.as_str());
                },
            }
            i = i + 1;
        }
        assert(layers.subrange(0, i as int) =~= layers);
        let bytes = match self.payload {
            None => Vec::new(),
            Some(k) => {
                assert(values@[k as int]@ == v[k as int]);
                match crate::payload::encode_value(self.hook, &values[k]) {
                    Some(b) => b,
                    None => {
                        return Err(MqttSerializeError::Codec);
                    },
                }
            },
        };
        Ok((t, bytes))
    }

    /// Read a message of this shape from topic layers and a payload: the
    /// field values, or `None` where a literal differs, a layer is missing,
    /// or a field cannot be read.
    pub fn try_decode(&self, layers: &Vec<String>, payload: &[u8]) -> (r: Option<Vec<FieldValue>>)
        requires
            self.wf(),
        ensures
            match r {
                None => candidate(self@, layers.deep_view(), payload@) is None,
                Some(v) => candidate(self@, layers.deep_view(), payload@) == Some(values_view(v@)),
            },
    {
        let ghost ls = layers.deep_view();
        let plen = self.pattern.len();
        if layers.len() < plen {
            return None;
        }
        let mut i: usize = 0;
        while i < plen
            invariant
                self.wf(),
                plen == self@.pattern.len(),
                ls == layers.deep_view(),
                layers@.len() >= plen,
                i <= plen,
                forall|j: int|
                    0 <= j < i && (#[trigger] self@.pattern[j]) is Lit ==> ls[j]
                        == self@.pattern[j]->Lit_0,
            decreases plen - i,
        {
            let seg = &self.pattern.parts()[i];
            assert(self@.pattern[i as int] == seg@);
            match seg {
                Segment::Literal(l) => {
                    if layers[i] != *l {
                        assert(!literals_match(self@.pattern, ls));
                        return None;
                    }
                },
                Segment::Parameter(_) => {},
            }
            i = i + 1;
        }
        assert(literals_match(self@.pattern, ls));
        let nf = self.fields.len();
        let mut out: Vec<FieldValue> = Vec::new();
        let mut k: usize = 0;
        while k < nf
            invariant
                self.wf(),
                plen == self@.pattern.len(),
                nf == self@.names.len(),
                ls == layers.deep_view(),
                layers@.len() >= plen,
                k <= nf,
                out@.len() == k,
                forall|j: int|
                    0 <= j < k ==> (#[trigger] field_value(self@, j, ls, payload@)) == Some(
                        out@[j]@,
                    ),
            decreases nf - k,
        {
            assert(self@.types[k as int] == self.fields@[k as int].ty);
            let val = match self.sources[k] {
                Source::Segment(i) => {
                    assert(self@.sources[k as int] == Source::Segment(i));
                    parse_field(self.fields[k].ty, layers[i].as_str())
                },
                Source::Payload => crate::payload::decode_value(self.hook, self.fields[k].ty, payload),
            };
            match val {
                Some(x) => {
                    out.push(x);
                },
                None => {
                    assert(field_value(self@, k as int, ls, payload@) is None);
                    return None;
                },
            }
            k = k + 1;
        }
        assert(Seq::new(self@.names.len(), |j: int| field_value(self@, j, ls, payload@)->Some_0)
            =~= values_view(out@));
        Some(out)
    }

    /// Whether `values` are values of this shape: one per field, each of the
    /// field's type.
    pub fn accepts(&self, values: &Vec<FieldValue>) -> (r: bool)
        requires
            self.wf(),
        ensures
            r == conforms(self@, values_view(values@)),
    {
        if values.len() != self.fields.len() {
            return false;
        }
        let mut k: usize = 0;
        while k < values.len()
            invariant
                self.wf(),
                values@.len() == self@.types.len(),
                k <= values@.len(),
                forall|j: int| 0 <= j < k ==> has_type(#[trigger] values@[j]@, self@.types[j]),
            decreases values@.len() - k,
        {
            assert(self@.types[k as int] == self.fields@[k as int].ty);
            let ok = match &values[k] {
                FieldValue::U32(_) => self.fields[k].ty == FieldType::U32,
                FieldValue::Text(_) => self.fields[k].ty == FieldType::Text,
                FieldValue::OptionalU32(_) => self.fields[k].ty == FieldType::OptionalU32,
            };
            if !ok {
                assert(!has_type(values_view(values@)[k as int], self@.types[k as int]));
                return false;
            }
            k = k + 1;
        }
        assert forall|j: int| 0 <= j < values_view(values@).len() implies has_type(
            #[trigger] values_view(values@)[j],
            self@.types[j],
        ) by {
            assert(values_view(values@)[j] == values@[j]@);
        }
        true
    }
}

} // verus!
