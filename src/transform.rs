use vstd::prelude::*;
use crate::types::{Message, RouterError};

verus! {

/// The transformations a rule can name.
#[derive(Debug, Clone, Copy, PartialEq, Eq, Structural)]
pub enum Transformation {
    /// Wrap the payload, base64-encoded, in a JSON object.
    ToJson,
    /// Record when the message was processed in a header.
    AddTimestamp,
    /// Pass the payload through the compression hook, announcing gzip only
    /// where it encoded.
    Compress,
}

/// The transformation that an identifier names, if any.
pub open spec fn transformation_named(id: Seq<char>) -> Option<Transformation> {
    if id == "to_json"@ {
        Some(Transformation::ToJson)
    } else if id == "add_timestamp"@ {
        Some(Transformation::AddTimestamp)
    } else if id == "compress"@ {
        Some(Transformation::Compress)
    } else {
        None
    }
}

/// The standard base64 encoding (with padding) of `bytes`, as ASCII bytes.
pub uninterp spec fn base64_standard(bytes: Seq<u8>) -> Seq<u8>;

/// Relies on base64::encode (the STANDARD engine, padded): the result depends
/// on the input bytes alone, and every started group of three bytes gives four
/// characters (base64's `encoded_len` with padding).
#[verifier::external_body]
fn base64_encode(bytes: &[u8]) -> (r: Vec<u8>)
    ensures
        r@ == base64_standard(bytes@),
        r@.len() == 4 * ((bytes@.len() + 2) / 3),
{
    #[allow(deprecated)]
    base64::encode(bytes).into_bytes()
}

/// A non-empty decimal numeral, with an optional leading minus sign.
pub open spec fn is_decimal_numeral(s: Seq<char>) -> bool {
    let digits = if s.len() > 0 && s[0] == '-' { s.skip(1) } else { s };
    &&& digits.len() > 0
    &&& forall|i: int| 0 <= i < digits.len() ==> '0' <= #[trigger] digits[i] <= '9'
}

/// Relies on std's SystemTime::now, turned into a chrono DateTime<Utc> by its
/// From impl and read with DateTime::timestamp, written out by i64's
/// to_string: the current time as a decimal count of seconds since the Unix
/// epoch, negative before 1970. Which value comes back is not known.
#[verifier::external_body]
pub(crate) fn epoch_seconds_now() -> (r: String)
    ensures
        is_decimal_numeral(r@),
{
    chrono::DateTime::<chrono::Utc>::from(std::time::SystemTime::now()).timestamp().to_string()
}

/// The header list as pairs of character sequences.
pub open spec fn header_pairs(h: Seq<(String, String)>) -> Seq<(Seq<char>, Seq<char>)> {
    h.map_values(|e: (String, String)| (e.0@, e.1@))
}

/// Whether some header is named `key`.
pub open spec fn has_header(h: Seq<(Seq<char>, Seq<char>)>, key: Seq<char>) -> bool {
    exists|i: int| 0 <= i < h.len() && #[trigger] h[i].0 == key
}

/// The headers after setting `key` to `value`: every header of that name takes
/// the new value; where there is none, the pair is added at the end.
pub open spec fn with_header(h: Seq<(Seq<char>, Seq<char>)>, key: Seq<char>, value: Seq<char>) -> Seq<
    (Seq<char>, Seq<char>),
> {
    if has_header(h, key) {
        Seq::new(h.len(), |i: int| if h[i].0 == key { (key, value) } else { h[i] })
    } else {
        h.push((key, value))
    }
}

/// No two headers share a name, so the list reads as a mapping.
pub open spec fn headers_unique(h: Seq<(Seq<char>, Seq<char>)>) -> bool {
    forall|i: int, j: int| 0 <= i < j < h.len() ==> h[i].0 != h[j].0
}

/// Setting a header keeps the names unique.
pub proof fn lemma_with_header_unique(h: Seq<(Seq<char>, Seq<char>)>, key: Seq<char>, value: Seq<char>)
    requires
        headers_unique(h),
    ensures
        headers_unique(with_header(h, key, value)),
{
    let w = with_header(h, key, value);
    if has_header(h, key) {
        assert forall|i: int, j: int| 0 <= i < j < w.len() implies w[i].0 != w[j].0 by {
            assert(w[i].0 == h[i].0 && w[j].0 == h[j].0);
        }
    } else {
        assert forall|i: int, j: int| 0 <= i < j < w.len() implies w[i].0 != w[j].0 by {
            if j == h.len() {
                assert(w[i] == h[i]);
            }
        }
    }
}

/// Sets header `key` to `value`.
pub fn set_header(headers: &mut Vec<(String, String)>, key: &str, value: &str)
    ensures
        header_pairs(final(headers)@) == with_header(header_pairs(old(headers)@), key@, value@),
        headers_unique(header_pairs(old(headers)@)) ==> headers_unique(header_pairs(final(headers)@)),
{
    proof {
        if headers_unique(header_pairs(headers@)) {
            lemma_with_header_unique(header_pairs(headers@), key@, value@);
        }
    }
    let ghost h0 = header_pairs(headers@);
    let name = String::from_str(key);
    let mut found = false;
    let mut i: usize = 0;
    while i < headers.len()
        invariant
            i <= headers@.len(),
            name@ == key@,
            headers@.len() == old(headers)@.len(),
            found == exists|j: int| 0 <= j < i && #[trigger] old(headers)@[j].0@ == key@,
            forall|j: int|
                0 <= j < i ==> if (#[trigger] old(headers)@[j]).0@ == key@ {
                    headers@[j].0@ == key@ && headers@[j].1@ == value@
                } else {
                    headers@[j] == old(headers)@[j]
                },
            forall|j: int| i <= j < headers@.len() ==> #[trigger] headers@[j] == old(headers)@[j],
        decreases headers@.len() - i,
    {
        let same = headers[i].0 == name;
        if same {
            headers[i] = (String::from_str(key), String::from_str(value));
            found = true;
        }
        i = i + 1;
    }
    proof {
        if found {
            let j = choose|j: int| 0 <= j < i && #[trigger] old(headers)@[j].0@ == key@;
            assert(h0[j].0 == key@);
        } else {
            assert forall|j: int| 0 <= j < h0.len() implies #[trigger] h0[j].0 != key@ by {
                assert(old(headers)@[j].0@ != key@);
            }
        }
    }
    if !found {
        headers.push((String::from_str(key), String::from_str(value)));
        assert(header_pairs(headers@) =~= h0.push((key@, value@)));
    } else {
        assert(header_pairs(headers@) =~= with_header(h0, key@, value@)) by {
            assert forall|j: int| 0 <= j < h0.len() implies header_pairs(headers@)[j] == with_header(h0, key@, value@)[j] by {
                assert(old(headers)@[j].0@ == h0[j].0);
            }
        }
    }
}

/// The bytes `{"data": "` that open the JSON envelope.
pub open spec fn json_open() -> Seq<u8> {
    seq![123u8, 34u8, 100u8, 97u8, 116u8, 97u8, 34u8, 58u8, 32u8, 34u8]
}

/// The bytes `"}` that close the JSON envelope.
pub open spec fn json_close() -> Seq<u8> {
    seq![34u8, 125u8]
}

/// The JSON object whose `data` field holds `encoded`.
pub open spec fn json_envelope(encoded: Seq<u8>) -> Seq<u8> {
    json_open() + encoded + json_close()
}

/// Builds `json_envelope(encoded)`.
pub fn json_envelope_of(encoded: &Vec<u8>) -> (r: Vec<u8>)
    ensures
        r@ == json_envelope(encoded@),
{
    let mut r: Vec<u8> = vec![123u8, 34u8, 100u8, 97u8, 116u8, 97u8, 34u8, 58u8, 32u8, 34u8];
    assert(r@ =~= json_open());
    let mut i: usize = 0;
    while i < encoded.len()
        invariant
            i <= encoded@.len(),
            r@ == json_open() + encoded@.subrange(0, i as int),
        decreases encoded@.len() - i,
    {
        r.push(encoded[i]);
        i = i + 1;
        assert(r@ =~= json_open() + encoded@.subrange(0, i as int));
    }
    r.push(34u8);
    r.push(125u8);
    assert(encoded@.subrange(0, encoded@.len() as int) =~= encoded@);
    assert(r@ =~= json_envelope(encoded@));
    r
}

/// The compression hook: `Some` with the encoded bytes where a gzip codec
/// was applied, `None` where the payload was left as it is. No codec is
/// plugged in, so the payload is never encoded, and the hook never fails.
pub fn compress_data(data: &[u8]) -> (r: Result<Option<Vec<u8>>, RouterError>)
    ensures
        r matches Ok(None),
{
    Ok(None)
}

/// `message` after the compression hook answered `compressed`: the encoded
/// payload with `content-encoding: gzip` where it encoded, `message` as it is
/// where it did not.
pub fn apply_compression(message: Message, compressed: Option<Vec<u8>>) -> (r: Message)
    ensures
        same_fields(r, message),
        match compressed {
            Some(c) => r.payload@ == c@ && header_pairs(r.headers@) == with_header(
                header_pairs(message.headers@),
                "content-encoding"@,
                "gzip"@,
            ),
            None => r.payload@ == message.payload@ && header_pairs(r.headers@) == header_pairs(
                message.headers@,
            ),
        },
{
    let mut m = message;
    match compressed {
        Some(c) => {
            m.payload = c;
            set_header(&mut m.headers, "content-encoding", "gzip");
        },
        None => {},
    }
    m
}

/// Finds the transformation that `id` names.
pub fn parse_transformation(id: &String) -> (r: Option<Transformation>)
    ensures
        r == transformation_named(id@),
{
    if *id == String::from_str("to_json") {
        Some(Transformation::ToJson)
    } else if *id == String::from_str("add_timestamp") {
        Some(Transformation::AddTimestamp)
    } else if *id == String::from_str("compress") {
        Some(Transformation::Compress)
    } else {
        None
    }
}

/// The payload after `kind` is applied.
pub open spec fn transformed_payload(kind: Transformation, payload: Seq<u8>) -> Seq<u8> {
    match kind {
        Transformation::ToJson => json_envelope(base64_standard(payload)),
        Transformation::AddTimestamp => payload,
        Transformation::Compress => payload,
    }
}

/// The headers after `kind` is applied, `processed_at` being the time stamp
/// that `AddTimestamp` records.
pub open spec fn transformed_headers(
    kind: Transformation,
    h: Seq<(Seq<char>, Seq<char>)>,
    processed_at: Seq<char>,
) -> Seq<(Seq<char>, Seq<char>)> {
    match kind {
        Transformation::ToJson => with_header(h, "content-type"@, "application/json"@),
        Transformation::AddTimestamp => with_header(h, "processed_at"@, processed_at),
        Transformation::Compress => h,
    }
}

/// `r` has the identifier, protocol, topic, timestamp, qos and retain flag of `m`.
pub open spec fn same_fields(r: Message, m: Message) -> bool {
    &&& r.id@ == m.id@
    &&& r.protocol == m.protocol
    &&& r.topic@ == m.topic@
    &&& r.timestamp == m.timestamp
    &&& r.qos == m.qos
    &&& r.retain == m.retain
}

/// `r` holds what `m` holds: same fields, payload and headers.
pub open spec fn same_message(r: Message, m: Message) -> bool {
    &&& same_fields(r, m)
    &&& r.payload@ == m.payload@
    &&& header_pairs(r.headers@) == header_pairs(m.headers@)
}

/// A copy of `m`.
pub fn copy_message(m: &Message) -> (r: Message)
    ensures
        same_message(r, *m),
{
    let mut headers: Vec<(String, String)> = Vec::new();
    let mut i: usize = 0;
    while i < m.headers.len()
        invariant
            i <= m.headers@.len(),
            headers@ == m.headers@.subrange(0, i as int),
        decreases m.headers@.len() - i,
    {
        let k = m.headers[i].0.clone();
        let v = m.headers[i].1.clone();
        assert(k == m.headers@[i as int].0 && v == m.headers@[i as int].1);
        let ghost before = headers@;
        headers.push((k, v));
        assert(headers@ == before.push(m.headers@[i as int]));
        i = i + 1;
        assert(headers@ =~= m.headers@.subrange(0, i as int));
    }
    assert(headers@ =~= m.headers@);
    Message {
        id: m.id.clone(),
        protocol: m.protocol,
        topic: m.topic.clone(),
        payload: vstd::slice::slice_to_vec(m.payload.as_slice()),
        headers,
        timestamp: m.timestamp,
        qos: m.qos,
        retain: m.retain,
    }
}

/// `r` is `m` with `kind` applied: payload and headers rewritten, every other
/// field kept.
pub open spec fn transformed_from(
    m: Message,
    kind: Transformation,
    processed_at: Seq<char>,
    r: Message,
) -> bool {
    &&& same_fields(r, m)
    &&& r.payload@ == transformed_payload(kind, m.payload@)
    &&& header_pairs(r.headers@) == transformed_headers(kind, header_pairs(m.headers@), processed_at)
}

/// Applies `kind` to `message`; `processed_at` is the stamp that
/// `AddTimestamp` records (the other transformations ignore it).
pub fn transform_with(message: Message, kind: Transformation, processed_at: &str) -> (r: Result<
    Message,
    RouterError,
>)
    ensures
        r matches Ok(m) && transformed_from(message, kind, processed_at@, m),
{
    let mut m = message;
    match kind {
        Transformation::ToJson => {
            let encoded = base64_encode(m.payload.as_slice());
            m.payload = json_envelope_of(&encoded);
            set_header(&mut m.headers, "content-type", "application/json");
        },
        Transformation::AddTimestamp => {
            set_header(&mut m.headers, "processed_at", processed_at);
        },
        Transformation::Compress => {
            match compress_data(m.payload.as_slice()) {
                Ok(c) => {
                    m = apply_compression(m, c);
                },
                Err(e) => {
                    return Err(e);
                },
            }
        },
    }
    Ok(m)
}

/// `r` is what reaches a target for `m` under a rule with transformation `t`,
/// `processed_at` being the time stamp of the routing call: `m` itself without
/// a transformation, `m` transformed with one. An unknown transformation
/// delivers nothing.
pub open spec fn delivered_with(m: Message, t: Option<String>, processed_at: Seq<char>, r: Message) -> bool {
    match t {
        None => same_message(r, m),
        Some(id) => match transformation_named(id@) {
            Some(kind) => transformed_from(m, kind, processed_at, r),
            None => false,
        },
    }
}

/// A delivery depends on what the message holds, not on which copy it is.
pub proof fn lemma_delivered_with_copy(
    a: Message,
    b: Message,
    t: Option<String>,
    processed_at: Seq<char>,
    r: Message,
)
    requires
        same_message(a, b),
        delivered_with(a, t, processed_at, r),
    ensures
        delivered_with(b, t, processed_at, r),
{
}

/// Two deliveries of one message under one transformation and one time stamp
/// hold the same message: all targets of a rule receive identical copies.
pub proof fn lemma_same_rule_same_copy(
    m: Message,
    t: Option<String>,
    processed_at: Seq<char>,
    a: Message,
    b: Message,
)
    requires
        delivered_with(m, t, processed_at, a),
        delivered_with(m, t, processed_at, b),
    ensures
        same_message(a, b),
{
}

/// Applies the transformation that `transformation` names to `message`, with
/// `processed_at` as the stamp that `add_timestamp` records. An identifier
/// that names none is rejected with `InvalidTransformation` carrying it.
pub fn apply_transformation_at(message: Message, transformation: &String, processed_at: &str) -> (r:
    Result<Message, RouterError>)
    ensures
        match transformation_named(transformation@) {
            None => r matches Err(RouterError::InvalidTransformation(s)) && s@ == transformation@,
            Some(kind) => r matches Ok(m) && delivered_with(
                message,
                Some(*transformation),
                processed_at@,
                m,
            ),
        },
{
    match parse_transformation(transformation) {
        None => Err(RouterError::InvalidTransformation(transformation.clone())),
        Some(kind) => transform_with(message, kind, processed_at),
    }
}

/// Applies the transformation that `transformation` names to `message`,
/// reading the clock for the stamp of `add_timestamp`. An identifier that
/// names none is rejected with `InvalidTransformation` carrying it.
pub fn apply_transformation(message: Message, transformation: &String) -> (r: Result<
    Message,
    RouterError,
>)
    ensures
        match transformation_named(transformation@) {
            None => r matches Err(RouterError::InvalidTransformation(s)) && s@ == transformation@,
            Some(kind) => r matches Ok(m) && exists|stamp: Seq<char>|
                is_decimal_numeral(stamp) && #[trigger] delivered_with(
                    message,
                    Some(*transformation),
                    stamp,
                    m,
                ),
        },
{
    let stamp = epoch_seconds_now();
    apply_transformation_at(message, transformation, stamp.as_str())
}

} // verus!
