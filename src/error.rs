use vstd::prelude::*;

verus! {

/// Why a message shape could not be registered.
#[derive(Debug)]
pub enum SchemaError {
    /// The topic pattern has an empty layer, or the payload field is not
    /// written as `<name>`.
    MalformedPattern,
    /// A pattern parameter or the payload names a field that the shape lacks.
    UnknownField(String),
    /// A field is bound twice.
    DuplicateFieldUse(String),
    /// These fields are bound neither to the topic nor to the payload.
    UnusedFields(Vec<String>),
    /// A topic parameter is bound to a field whose type has no topic text.
    UnsupportedParameterType(String),
    /// The new shape's pattern (first tag) collides with that of a shape
    /// already registered (second tag).
    AmbiguousTopic(String, String),
    /// A shape with this tag is already registered.
    DuplicateTag(String),
}

/// The mathematical form of a [`SchemaError`].
pub enum SchemaErrorView {
    MalformedPattern,
    UnknownField(Seq<char>),
    DuplicateFieldUse(Seq<char>),
    UnusedFields(Seq<Seq<char>>),
    UnsupportedParameterType(Seq<char>),
    AmbiguousTopic(Seq<char>, Seq<char>),
    DuplicateTag(Seq<char>),
}

impl View for SchemaError {
    type V = SchemaErrorView;

    open spec fn view(&self) -> SchemaErrorView {
        match self {
            SchemaError::MalformedPattern => SchemaErrorView::MalformedPattern,
            SchemaError::UnknownField(n) => SchemaErrorView::UnknownField(n@),
            SchemaError::DuplicateFieldUse(n) => SchemaErrorView::DuplicateFieldUse(n@),
            SchemaError::UnusedFields(v) => SchemaErrorView::UnusedFields(v.deep_view()),
            SchemaError::UnsupportedParameterType(n) => SchemaErrorView::UnsupportedParameterType(
                n@,
            ),
            SchemaError::AmbiguousTopic(a, b) => SchemaErrorView::AmbiguousTopic(a@, b@),
            SchemaError::DuplicateTag(t) => SchemaErrorView::DuplicateTag(t@),
        }
    }
}

/// Why a message could not be encoded.
#[derive(Debug, PartialEq, Eq, Structural)]
pub enum MqttSerializeError {
    /// No registered shape has the message's tag, or its values do not fit
    /// that shape's fields.
    UnknownShape,
    /// The payload codec failed.
    Codec,
}

/// Why a message or a payload could not be decoded.
#[derive(Debug, PartialEq, Eq, Structural)]
pub enum MqttDeserializeError {
    /// The payload is not valid UTF-8.
    NotUtf8,
    /// No registered shape accepted the topic and payload.
    Invalid,
    /// The payload text is not JSON of the field's type.
    Serde,
}

} // verus!
