use vstd::prelude::*;
use vstd::string::*;
use vstd::utf8::*;

use crate::codec::{text_view, u32_of_json};
use crate::error::{MqttDeserializeError, MqttSerializeError};
use crate::schema::{
    decode_payload, encode_payload, from_json, opt_value_view, utf8_of, FieldType, FieldValue,
    PayloadHook, Value,
};

verus! {

/// The UTF-8 bytes of an optional JSON text.
fn json_bytes(j: Option<String>) -> (r: Option<Vec<u8>>)
    ensures
        match r {
            Some(b) => utf8_of(text_view(j)) == Some(b@),
            None => utf8_of(text_view(j)) is None,
        },
{
    match j {
        Some(t) => Some(t.as_str().as_bytes_vec()),
        None => None,
    }
}

/// Append `bytes`, when there are any, to `payload`.
fn append_bytes(payload: &mut Vec<u8>, bytes: Option<Vec<u8>>) -> (r: Result<(), MqttSerializeError>)
    ensures
        match bytes {
            Some(b) => r is Ok && final(payload)@ == old(payload)@ + b@,
            None => r == Err::<(), MqttSerializeError>(MqttSerializeError::Codec) && final(payload)@ == old(payload)@,
        },
{
    match bytes {
        Some(b) => {
            let mut b = b;
            payload.append(&mut b);
            Ok(())
        },
        None => Err(MqttSerializeError::Codec),
    }
}

/// Append the JSON text of `value`, in UTF-8, to `payload`. When the codec
/// fails, `payload` is left as it was.
pub fn serde_json_serialize(payload: &mut Vec<u8>, value: &FieldValue) -> (r: Result<
    (),
    MqttSerializeError,
>)
    ensures
        match encode_payload(PayloadHook::Json, value@) {
            Some(b) => r is Ok && final(payload)@ == old(payload)@ + b,
            None => r == Err::<(), MqttSerializeError>(MqttSerializeError::Codec) && final(payload)@ == old(payload)@,
        },
{
    let bytes = match value {
        FieldValue::U32(n) => json_bytes(crate::codec::u32_to_json(*n)),
        FieldValue::Text(t) => json_bytes(crate::codec::str_to_json(t.as_str())),
        FieldValue::OptionalU32(o) => json_bytes(crate::codec::opt_u32_to_json(*o)),
    };
    append_bytes(payload, bytes)
}

/// Append an optional number to `payload`: nothing when it is absent, else
/// the JSON text of the number in UTF-8. When the codec fails, `payload` is
/// left as it was.
pub fn zero_bytes_option_ser(payload: &mut Vec<u8>, value: Option<u32>) -> (r: Result<
    (),
    MqttSerializeError,
>)
    ensures
        match encode_payload(PayloadHook::EmptyAsAbsent, Value::OptionalU32(value)) {
            Some(b) => r is Ok && final(payload)@ == old(payload)@ + b,
            None => r == Err::<(), MqttSerializeError>(MqttSerializeError::Codec) && final(payload)@ == old(payload)@,
        },
{
    match value {
        None => {
            assert(old(payload)@ + Seq::<u8>::empty() =~= old(payload)@);
            Ok(())
        },
        Some(n) => append_bytes(payload, json_bytes(crate::codec::u32_to_json(n))),
    }
}

/// Read a value of type `ty` from a UTF-8 JSON payload.
pub fn serde_json_deserialize(ty: FieldType, payload: &[u8]) -> (r: Result<
    FieldValue,
    MqttDeserializeError,
>)
    ensures
        !valid_utf8(payload@) ==> r == Err::<FieldValue, MqttDeserializeError>(
            MqttDeserializeError::NotUtf8,
        ),
        valid_utf8(payload@) ==> match from_json(ty, decode_utf8(payload@)) {
            Some(v) => r matches Ok(x) && x@ == v,
            None => r == Err::<FieldValue, MqttDeserializeError>(MqttDeserializeError::Serde),
        },
{
    let t = match crate::codec::utf8_text(payload) {
        Some(t) => t,
        None => {
            return Err(MqttDeserializeError::NotUtf8);
        },
    };
    let v = match ty {
        FieldType::U32 => match crate::codec::u32_from_json(t.as_str()) {
            Some(n) => Some(FieldValue::U32(n)),
            None => None,
        },
        FieldType::Text => match crate::codec::str_from_json(t.as_str()) {
            Some(x) => Some(FieldValue::Text(x)),
            None => None,
        },
        FieldType::OptionalU32 => match crate::codec::opt_u32_from_json(t.as_str()) {
            Some(o) => Some(FieldValue::OptionalU32(o)),
            None => None,
        },
    };
    match v {
        Some(v) => Ok(v),
        None => Err(MqttDeserializeError::Serde),
    }
}

/// Read an optional number from a payload: an empty payload is absent,
/// anything else must be the UTF-8 JSON text of a number.
pub fn zero_bytes_option_deser(payload: &[u8]) -> (r: Result<Option<u32>, MqttDeserializeError>)
    ensures
        payload@.len() == 0 ==> r == Ok::<Option<u32>, MqttDeserializeError>(None),
        payload@.len() > 0 && !valid_utf8(payload@) ==> r == Err::<
            Option<u32>,
            MqttDeserializeError,
        >(MqttDeserializeError::NotUtf8),
        payload@.len() > 0 && valid_utf8(payload@) ==> match u32_of_json(decode_utf8(payload@)) {
            Some(n) => r == Ok::<Option<u32>, MqttDeserializeError>(Some(n)),
            None => r == Err::<Option<u32>, MqttDeserializeError>(MqttDeserializeError::Serde),
        },
{
    if payload.len() == 0 {
        return Ok(None);
    }
    let t = match crate::codec::utf8_text(payload) {
        Some(t) => t,
        None => {
            return Err(MqttDeserializeError::NotUtf8);
        },
    };
    match crate::codec::u32_from_json(t.as_str()) {
        Some(n) => Ok(Some(n)),
        None => Err(MqttDeserializeError::Serde),
    }
}

/// The value of a field of type `ty` read from the payload bytes `b`.
pub(crate) fn decode_value(hook: PayloadHook, ty: FieldType, b: &[u8]) -> (r: Option<FieldValue>)
    ensures
        opt_value_view(r) == decode_payload(hook, ty, b@),
{
    if hook == PayloadHook::EmptyAsAbsent && ty == FieldType::OptionalU32 {
        match zero_bytes_option_deser(b) {
            Ok(o) => Some(FieldValue::OptionalU32(o)),
            Err(_) => None,
        }
    } else {
        match serde_json_deserialize(ty, b) {
            Ok(v) => Some(v),
            Err(_) => None,
        }
    }
}

/// The payload bytes of a field value.
pub(crate) fn encode_value(hook: PayloadHook, v: &FieldValue) -> (r: Option<Vec<u8>>)
    ensures
        match r {
            Some(b) => encode_payload(hook, v@) == Some(b@),
            None => encode_payload(hook, v@) is None,
        },
{
    let mut out: Vec<u8> = Vec::new();
    let res = match v {
        FieldValue::OptionalU32(o) => {
            if hook == PayloadHook::EmptyAsAbsent {
                zero_bytes_option_ser(&mut out, *o)
            } else {
                serde_json_serialize(&mut out, v)
            }
        },
        _ => serde_json_serialize(&mut out, v),
    };
    match res {
        Ok(()) => {
            assert(Seq::<u8>::empty() + out@ =~= out@);
            Some(out)
        },
        Err(_) => None,
    }
}

} // verus!
