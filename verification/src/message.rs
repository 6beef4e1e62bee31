//! Messages of the wire protocol: a header (request id, service, endpoint,
//! response flag) and a JSON object body, carried as a JSON payload
//! `{"header":{...},"body":{...}}`.

use vstd::prelude::*;
use crate::json::{
    JVal, JsonValue, jval_of, jpairs_of, lemma_jpairs_of, ser_val, ser_string, ser_members,
    parse_doc, write_string, write_members, json_parse, lemma_parse_doc_ser_val,
};
use crate::VSPError;

verus! {

/// Mathematical model of a message: the view of [`VSPMessage`].
pub struct MsgV {
    pub request_id: Seq<char>,
    pub service: Seq<char>,
    pub endpoint: Seq<char>,
    pub is_response: bool,
    pub body: Seq<(Seq<char>, JVal)>,
}

/// The JSON document a message is carried as.
pub open spec fn msg_jval(m: MsgV) -> JVal {
    JVal::Obj(
        seq![
            (
                "header"@,
                JVal::Obj(
                    seq![
                        ("request_id"@, JVal::Str(m.request_id)),
                        ("service"@, JVal::Str(m.service)),
                        ("endpoint"@, JVal::Str(m.endpoint)),
                        ("is_response"@, JVal::Bool(m.is_response)),
                    ],
                ),
            ),
            ("body"@, JVal::Obj(m.body)),
        ],
    )
}

/// The canonical payload bytes of a message. Opaque: proofs that need
/// the serialization itself reveal it.
#[verifier::opaque]
pub open spec fn msg_payload(m: MsgV) -> Seq<u8> {
    ser_val(msg_jval(m))
}

/// The value of the first member of `o` named `k`, if any.
pub open spec fn jlookup(o: Seq<(Seq<char>, JVal)>, k: Seq<char>) -> Option<JVal>
    decreases o.len(),
{
    if o.len() == 0 {
        None
    } else if o[0].0 == k {
        Some(o[0].1)
    } else {
        jlookup(o.drop_first(), k)
    }
}

/// How a parsed JSON document is read back as a message: the document must
/// be an object with `header` and `body` members, the header an object
/// holding the four header fields with their proper types; a `body` member
/// that is not an object stands for an empty body.
pub open spec fn payload_to_msg(v: JVal) -> Option<MsgV> {
    match v {
        JVal::Obj(o) => match jlookup(o, "header"@) {
            Some(JVal::Obj(h)) => match (
                jlookup(h, "request_id"@),
                jlookup(h, "service"@),
                jlookup(h, "endpoint"@),
                jlookup(h, "is_response"@),
            ) {
                (
                    Some(JVal::Str(r)),
                    Some(JVal::Str(s)),
                    Some(JVal::Str(e)),
                    Some(JVal::Bool(ir)),
                ) => match jlookup(o, "body"@) {
                    Some(JVal::Obj(bo)) => Some(
                        MsgV {
                            request_id: r,
                            service: s,
                            endpoint: e,
                            is_response: ir,
                            body: bo,
                        },
                    ),
                    Some(_) => Some(
                        MsgV {
                            request_id: r,
                            service: s,
                            endpoint: e,
                            is_response: ir,
                            body: Seq::empty(),
                        },
                    ),
                    None => None,
                },
                _ => None,
            },
            _ => None,
        },
        _ => None,
    }
}

/// What decoding a payload yields: `None` on malformed JSON, a missing or
/// ill-typed header, or a missing body member. Opaque: proofs that step
/// through the decoding reveal it.
#[verifier::opaque]
pub open spec fn decode_payload(b: Seq<u8>) -> Option<MsgV> {
    match parse_doc(b) {
        Some(v) => payload_to_msg(v),
        None => None,
    }
}

/// Decoding inverts encoding: every message read back from its own
/// canonical payload is itself, header and body exactly.
pub proof fn lemma_msg_round_trip(m: MsgV)
    ensures
        decode_payload(msg_payload(m)) == Some(m),
{
    reveal_strlit("header");
    reveal_strlit("body");
    reveal_strlit("request_id");
    reveal_strlit("service");
    reveal_strlit("endpoint");
    reveal_strlit("is_response");
    reveal(msg_payload);
    reveal(decode_payload);
    lemma_parse_doc_ser_val(msg_jval(m));
    let o = msg_jval(m)->Obj_0;
    let h = seq![
        ("request_id"@, JVal::Str(m.request_id)),
        ("service"@, JVal::Str(m.service)),
        ("endpoint"@, JVal::Str(m.endpoint)),
        ("is_response"@, JVal::Bool(m.is_response)),
    ];
    assert(jlookup(o, "header"@) == Some(JVal::Obj(h)));
    assert("header"@ != "body"@) by {
        assert("header"@.len() == 6);
        assert("body"@.len() == 4);
    }
    assert(o.drop_first() =~= seq![("body"@, JVal::Obj(m.body))]);
    assert(jlookup(o.drop_first(), "body"@) == Some(JVal::Obj(m.body)));
    assert(jlookup(o, "body"@) == Some(JVal::Obj(m.body)));
    assert(jlookup(h, "request_id"@) == Some(JVal::Str(m.request_id)));
    assert("request_id"@.len() == 10 && "service"@.len() == 7 && "endpoint"@.len() == 8
        && "is_response"@.len() == 11);
    let h1 = h.drop_first();
    let h2 = h1.drop_first();
    let h3 = h2.drop_first();
    assert(h1 =~= seq![
        ("service"@, JVal::Str(m.service)),
        ("endpoint"@, JVal::Str(m.endpoint)),
        ("is_response"@, JVal::Bool(m.is_response)),
    ]);
    assert(h2 =~= seq![
        ("endpoint"@, JVal::Str(m.endpoint)),
        ("is_response"@, JVal::Bool(m.is_response)),
    ]);
    assert(h3 =~= seq![("is_response"@, JVal::Bool(m.is_response))]);
    assert(jlookup(h1, "service"@) == Some(JVal::Str(m.service)));
    assert(jlookup(h, "service"@) == Some(JVal::Str(m.service)));
    assert(jlookup(h2, "endpoint"@) == Some(JVal::Str(m.endpoint)));
    assert(jlookup(h1, "endpoint"@) == Some(JVal::Str(m.endpoint)));
    assert(jlookup(h, "endpoint"@) == Some(JVal::Str(m.endpoint)));
    assert(jlookup(h3, "is_response"@) == Some(JVal::Bool(m.is_response)));
    assert(jlookup(h2, "is_response"@) == Some(JVal::Bool(m.is_response)));
    assert(jlookup(h1, "is_response"@) == Some(JVal::Bool(m.is_response)));
    assert(jlookup(h, "is_response"@) == Some(JVal::Bool(m.is_response)));
    assert(payload_to_msg(msg_jval(m)) == Some(
        MsgV {
            request_id: m.request_id,
            service: m.service,
            endpoint: m.endpoint,
            is_response: m.is_response,
            body: m.body,
        },
    ));
    assert(MsgV {
        request_id: m.request_id,
        service: m.service,
        endpoint: m.endpoint,
        is_response: m.is_response,
        body: m.body,
    } == m);
}

/// Whether `c` is a lower-case hexadecimal digit.
pub open spec fn lower_hex_char(c: char) -> bool {
    0x30 <= c as int <= 0x39 || 0x61 <= c as int <= 0x66
}

/// A byte-for-byte copy of `v`.
pub fn copy_bytes(v: &Vec<u8>) -> (r: Vec<u8>)
    ensures
        r@ == v@,
{
    let mut out: Vec<u8> = Vec::new();
    let mut i: usize = 0;
    while i < v.len()
        invariant
            i <= v@.len(),
            out@ == v@.take(i as int),
        decreases v@.len() - i,
    {
        out.push(v[i]);
        proof {
            assert(out@ =~= v@.take(i + 1));
        }
        i = i + 1;
    }
    proof {
        assert(v@.take(v@.len() as int) =~= v@);
    }
    out
}

/// A message of the wire protocol. The header fields and the body are
/// immutable once constructed; a private cache may hold the canonical
/// payload bytes of small messages, and well-formedness
/// ([`VSPMessage::wf`]) says the cache, when present, is exactly that.
pub struct VSPMessage {
    request_id: String,
    service: String,
    endpoint: String,
    is_response: bool,
    body: Vec<(String, JsonValue)>,
    serialized_cache: Option<Vec<u8>>,
}

impl View for VSPMessage {
    type V = MsgV;

    closed spec fn view(&self) -> MsgV {
        MsgV {
            request_id: self.request_id@,
            service: self.service@,
            endpoint: self.endpoint@,
            is_response: self.is_response,
            body: jpairs_of(self.body@, 0),
        }
    }
}

impl VSPMessage {
    /// The serialization cache holds nothing but the message's own
    /// canonical payload.
    pub closed spec fn wf(&self) -> bool {
        match self.serialized_cache {
            Some(c) => c@ == msg_payload(self@),
            None => true,
        }
    }

    pub fn new(
        request_id: String,
        service: String,
        endpoint: String,
        body: Vec<(String, JsonValue)>,
        is_response: bool,
    ) -> (m: VSPMessage)
        ensures
            m@ == (MsgV {
                request_id: request_id@,
                service: service@,
                endpoint: endpoint@,
                is_response: is_response,
                body: jpairs_of(body@, 0),
            }),
            m.wf(),
    {
        VSPMessage {
            request_id,
            service,
            endpoint,
            is_response,
            body,
            serialized_cache: None,
        }
    }

    pub fn request_id(&self) -> (r: &String)
        ensures
            r@ == self@.request_id,
    {
        &self.request_id
    }

    pub fn service(&self) -> (r: &String)
        ensures
            r@ == self@.service,
    {
        &self.service
    }

    pub fn endpoint(&self) -> (r: &String)
        ensures
            r@ == self@.endpoint,
    {
        &self.endpoint
    }

    pub fn is_response(&self) -> (r: bool)
        ensures
            r == self@.is_response,
    {
        self.is_response
    }

    pub fn get_body(&self) -> (r: &Vec<(String, JsonValue)>)
        ensures
            jpairs_of(r@, 0) == self@.body,
    {
        &self.body
    }

    /// A fresh request id for an outbound call.
    ///
    /// Relies on `uuid::Uuid::new_v4` and its `Display` form: a random
    /// version-4 UUID printed hyphenated, 36 characters with `-` at
    /// positions 8, 13, 18 and 23 and lower-case hex digits everywhere
    /// else. Which id comes out is the generator's choice.
    #[verifier::external_body]
    pub fn generate_request_id() -> (r: String)
        ensures
            r@.len() == 36,
            r@[8] == '-' && r@[13] == '-' && r@[18] == '-' && r@[23] == '-',
            forall|i: int|
                0 <= i < 36 && i != 8 && i != 13 && i != 18 && i != 23 ==> lower_hex_char(
                    #[trigger] r@[i],
                ),
    {
        uuid::Uuid::new_v4().to_string()
    }

    /// Drops the cached payload bytes.
    pub fn clear_cache(&mut self)
        ensures
            final(self)@ == old(self)@,
            final(self).wf(),
    {
        self.serialized_cache = None;
    }

    /// The canonical payload bytes of this message, memoized for small
    /// messages.
    pub fn to_bytes(&mut self) -> (r: Vec<u8>)
        requires
            old(self).wf(),
        ensures
            final(self)@ == old(self)@,
            final(self).wf(),
            r@ == msg_payload(old(self)@),
    {
        match &self.serialized_cache {
            Some(c) => {
                return copy_bytes(c);
            },
            None => {},
        }
        let out = self.build_payload();
        if out.len() < 1024 {
            self.serialized_cache = Some(copy_bytes(&out));
        }
        out
    }

    /// Serializes the canonical payload without touching the cache.
    #[verifier::rlimit(60)]
    fn build_payload(&self) -> (r: Vec<u8>)
        ensures
            r@ == msg_payload(self@),
    {
        let ghost mv = self@;
        let ghost p = msg_jval(mv)->Obj_0;
        let mut out: Vec<u8> = Vec::new();
        out.push(0x7b);
        write_string(&mut out, "header");
        out.push(0x3a);
        self.write_header_obj(&mut out);
        out.push(0x2c);
        write_string(&mut out, "body");
        out.push(0x3a);
        write_json_obj(&mut out, &self.body);
        out.push(0x7d);
        proof {
            assert(p[0].1 == JVal::Obj(
                seq![
                    ("request_id"@, JVal::Str(mv.request_id)),
                    ("service"@, JVal::Str(mv.service)),
                    ("endpoint"@, JVal::Str(mv.endpoint)),
                    ("is_response"@, JVal::Bool(mv.is_response)),
                ],
            ));
            assert(ser_members(p, 1) == ser_string("body"@) + seq![0x3au8] + ser_val(
                JVal::Obj(mv.body),
            ));
            assert(ser_members(p, 0) == ser_string("header"@) + seq![0x3au8] + ser_val(
                p[0].1,
            ) + (seq![0x2cu8] + ser_members(p, 1)));
            reveal(msg_payload);
            assert(out@ =~= seq![0x7bu8] + ser_members(p, 0) + seq![0x7du8]);
        }
        out
    }

    /// Appends the canonical serialization of this message's header object.
    #[verifier::rlimit(60)]
    fn write_header_obj(&self, out: &mut Vec<u8>)
        ensures
            final(out)@ == old(out)@ + ser_val(
                JVal::Obj(
                    seq![
                        ("request_id"@, JVal::Str(self@.request_id)),
                        ("service"@, JVal::Str(self@.service)),
                        ("endpoint"@, JVal::Str(self@.endpoint)),
                        ("is_response"@, JVal::Bool(self@.is_response)),
                    ],
                ),
            ),
    {
        let ghost mv = self@;
        let ghost h = seq![
            ("request_id"@, JVal::Str(mv.request_id)),
            ("service"@, JVal::Str(mv.service)),
            ("endpoint"@, JVal::Str(mv.endpoint)),
            ("is_response"@, JVal::Bool(mv.is_response)),
        ];
        out.push(0x7b);
        write_string(out, "request_id");
        out.push(0x3a);
        write_string(out, self.request_id.as_str());
        out.push(0x2c);
        write_string(out, "service");
        out.push(0x3a);
        write_string(out, self.service.as_str());
        out.push(0x2c);
        write_string(out, "endpoint");
        out.push(0x3a);
        write_string(out, self.endpoint.as_str());
        out.push(0x2c);
        write_string(out, "is_response");
        out.push(0x3a);
        if self.is_response {
            out.push(0x74);
            out.push(0x72);
            out.push(0x75);
            out.push(0x65);
        } else {
            out.push(0x66);
            out.push(0x61);
            out.push(0x6c);
            out.push(0x73);
            out.push(0x65);
        }
        out.push(0x7d);
        proof {
            assert(ser_members(h, 3) == ser_string("is_response"@) + seq![0x3au8] + ser_val(
                JVal::Bool(mv.is_response),
            ));
            assert(ser_members(h, 2) == ser_string("endpoint"@) + seq![0x3au8] + ser_val(
                JVal::Str(mv.endpoint),
            ) + (seq![0x2cu8] + ser_members(h, 3)));
            assert(ser_members(h, 1) == ser_string("service"@) + seq![0x3au8] + ser_val(
                JVal::Str(mv.service),
            ) + (seq![0x2cu8] + ser_members(h, 2)));
            assert(ser_members(h, 0) == ser_string("request_id"@) + seq![0x3au8] + ser_val(
                JVal::Str(mv.request_id),
            ) + (seq![0x2cu8] + ser_members(h, 1)));
            assert(out@ =~= old(out)@ + (seq![0x7bu8] + ser_members(h, 0) + seq![0x7du8]));
        }
    }

    /// Reads a message back from payload bytes; malformed JSON, a missing
    /// or ill-typed header, or a missing body member is a protocol error.
    pub fn from_bytes(data: &Vec<u8>) -> (r: Result<VSPMessage, VSPError>)
        ensures
            match r {
                Ok(m) => decode_payload(data@) == Some(m@) && m.wf(),
                Err(e) => decode_payload(data@) is None && e == VSPError::ProtocolError,
            },
    {
        proof {
            reveal(decode_payload);
        }
        let parsed = match json_parse(data) {
            Some(v) => v,
            None => {
                return Err(VSPError::ProtocolError);
            },
        };
        match parsed {
            JsonValue::Obj(o) => {
                let hkey = String::from_str("header");
                let bkey = String::from_str("body");
                let header = match obj_get(&o, &hkey) {
                    Some(h) => h,
                    None => {
                        return Err(VSPError::ProtocolError);
                    },
                };
                let hfields = match header {
                    JsonValue::Obj(hf) => hf,
                    _ => {
                        return Err(VSPError::ProtocolError);
                    },
                };
                let rkey = String::from_str("request_id");
                let skey = String::from_str("service");
                let ekey = String::from_str("endpoint");
                let ikey = String::from_str("is_response");
                let request_id = match obj_get(hfields, &rkey) {
                    Some(JsonValue::Str(s)) => s.clone(),
                    _ => {
                        return Err(VSPError::ProtocolError);
                    },
                };
                let service = match obj_get(hfields, &skey) {
                    Some(JsonValue::Str(s)) => s.clone(),
                    _ => {
                        return Err(VSPError::ProtocolError);
                    },
                };
                let endpoint = match obj_get(hfields, &ekey) {
                    Some(JsonValue::Str(s)) => s.clone(),
                    _ => {
                        return Err(VSPError::ProtocolError);
                    },
                };
                let is_response = match obj_get(hfields, &ikey) {
                    Some(JsonValue::Bool(t)) => *t,
                    _ => {
                        return Err(VSPError::ProtocolError);
                    },
                };
                let body: Vec<(String, JsonValue)> = match obj_get(&o, &bkey) {
                    Some(JsonValue::Obj(bo)) => copy_pairs(bo),
                    Some(_) => Vec::new(),
                    None => {
                        return Err(VSPError::ProtocolError);
                    },
                };
                proof {
                    assert(jpairs_of(Seq::<(String, JsonValue)>::empty(), 0) =~= Seq::<
                        (Seq<char>, JVal),
                    >::empty());
                }
                Ok(
                    VSPMessage {
                        request_id,
                        service,
                        endpoint,
                        is_response,
                        body,
                        serialized_cache: None,
                    },
                )
            },
            _ => Err(VSPError::ProtocolError),
        }
    }
}

/// Appends the canonical serialization of the JSON object with members `o`.
fn write_json_obj(out: &mut Vec<u8>, o: &Vec<(String, JsonValue)>)
    ensures
        final(out)@ == old(out)@ + ser_val(JVal::Obj(jpairs_of(o@, 0))),
{
    proof {
        lemma_jpairs_of(o@, 0);
    }
    if o.len() == 0 {
        out.push(0x7b);
        out.push(0x7d);
        proof {
            assert(out@ =~= old(out)@ + ser_val(JVal::Obj(jpairs_of(o@, 0))));
        }
    } else {
        out.push(0x7b);
        write_members(out, o, 0);
        out.push(0x7d);
        proof {
            assert(out@ =~= old(out)@ + ser_val(JVal::Obj(jpairs_of(o@, 0))));
        }
    }
}

/// The first member of `o` named `key`, per [`jlookup`] on the views.
pub fn obj_get<'a>(o: &'a Vec<(String, JsonValue)>, key: &String) -> (r: Option<&'a JsonValue>)
    ensures
        match r {
            Some(v) => jlookup(jpairs_of(o@, 0), key@) == Some(v@),
            None => jlookup(jpairs_of(o@, 0), key@) is None,
        },
{
    let mut i: usize = 0;
    while i < o.len()
        invariant
            i <= o@.len(),
            jlookup(jpairs_of(o@, 0), key@) == jlookup(jpairs_of(o@, i as int), key@),
        decreases o@.len() - i,
    {
        proof {
            lemma_jpairs_of(o@, i as int);
            assert(jpairs_of(o@, i as int)[0] == (o@[i as int].0@, jval_of(o@[i as int].1)));
            assert(jpairs_of(o@, i as int).drop_first() =~= jpairs_of(o@, i + 1));
        }
        if o[i].0.eq(key) {
            return Some(&o[i].1);
        }
        i = i + 1;
    }
    proof {
        lemma_jpairs_of(o@, o@.len() as int);
    }
    None
}

/// A copy of a JSON object's members whose model is the original's.
fn copy_pairs(o: &Vec<(String, JsonValue)>) -> (r: Vec<(String, JsonValue)>)
    ensures
        jpairs_of(r@, 0) == jpairs_of(o@, 0),
{
    let mut out: Vec<(String, JsonValue)> = Vec::new();
    let mut i: usize = 0;
    while i < o.len()
        invariant
            i <= o@.len(),
            out@.len() == i,
            forall|m: int|
                0 <= m < i ==> #[trigger] out@[m].0@ == o@[m].0@ && jval_of(out@[m].1) == jval_of(
                    o@[m].1,
                ),
        decreases o@.len() - i,
    {
        let k = o[i].0.clone();
        let v = crate::json::json_clone(&o[i].1);
        out.push((k, v));
        i = i + 1;
    }
    proof {
        lemma_jpairs_of(out@, 0);
        lemma_jpairs_of(o@, 0);
        assert(jpairs_of(out@, 0) =~= jpairs_of(o@, 0)) by {
            assert forall|j: int| 0 <= j < o@.len() implies jpairs_of(out@, 0)[j] == jpairs_of(
                o@,
                0,
            )[j] by {
                assert(jpairs_of(out@, 0)[j - 0] == (out@[j].0@, jval_of(out@[j].1)));
                assert(jpairs_of(o@, 0)[j - 0] == (o@[j].0@, jval_of(o@[j].1)));
            }
        }
    }
    out
}

} // verus!
