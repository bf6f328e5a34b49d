//! Communication messages and their Protocol Buffers encoding.
//!
//! A message is a record of length-delimited fields. Each field that is not
//! empty goes on the wire as a key, the length of the value and the value; the
//! key and the length are base-128 varints. The bytes are produced and taken
//! apart by `prost`; what they are is stated here in ghost code, and the
//! messages' encoders and decoders are proved against it.

use vstd::prelude::*;

verus! {

/// The error that `prost` reports for a payload that it cannot decode.
#[verifier::external_type_specification]
#[verifier::external_body]
pub struct ExDecodeError(prost::DecodeError);

/// The largest field number that a key can carry.
pub const MAX_TAG: u32 = 536870911;

/// The wire type of a length-delimited field.
pub const LENGTH_DELIMITED: u8 = 2;

/// The base-128 varint of `v`: seven bits to a byte, the low bits first, the
/// high bit set on every byte but the last.
pub open spec fn varint(v: nat) -> Seq<u8>
    decreases v,
{
    if v < 128 {
        seq![v as u8]
    } else {
        seq![(v % 128 + 128) as u8] + varint(v / 128)
    }
}

/// The value of the varint at the start of `buf` and the number of bytes it
/// takes, reading at most `limit` bytes; `None` where `buf` ends, or `limit`
/// bytes pass, before a byte without the high bit.
pub open spec fn leb128(buf: Seq<u8>, limit: nat) -> Option<(nat, nat)>
    decreases limit,
{
    if limit == 0 || buf.len() == 0 {
        None
    } else if buf[0] < 128 {
        Some((buf[0] as nat, 1nat))
    } else {
        match leb128(buf.skip(1), (limit - 1) as nat) {
            Some((v, n)) => Some(((buf[0] - 128 + 128 * v) as nat, n + 1)),
            None => None,
        }
    }
}

/// The 64-bit varint at the start of `buf` with the number of bytes it takes:
/// at most ten bytes, and a value that fits 64 bits.
pub open spec fn varint_at(buf: Seq<u8>) -> Option<(u64, nat)> {
    match leb128(buf, 10) {
        Some((v, n)) => if v <= u64::MAX {
            Some((v as u64, n))
        } else {
            None
        },
        None => None,
    }
}

/// The key of a field: its number and its wire type in one varint.
pub open spec fn key(tag: u32, wire_type: u8) -> Seq<u8> {
    varint((tag * 8 + wire_type) as nat)
}

/// The field number, the wire type and the length of the key at the start of
/// `buf`. A key fits 32 bits, its wire type is one of the six that exist, and
/// its field number is not zero.
pub open spec fn key_at(buf: Seq<u8>) -> Option<(u32, u8, nat)> {
    match varint_at(buf) {
        Some((k, n)) => if k <= u32::MAX && k % 8 <= 5 && k / 8 >= 1 {
            Some(((k / 8) as u32, (k % 8) as u8, n))
        } else {
            None
        },
        None => None,
    }
}

/// A length-delimited field on the wire: key, length, value.
pub open spec fn bytes_field(tag: u32, value: Seq<u8>) -> Seq<u8> {
    key(tag, LENGTH_DELIMITED) + varint(value.len()) + value
}

/// The value of the length-delimited field whose length starts `buf`, with the
/// number of bytes that length and value take together. The field's key has
/// been read and gave `wire_type`.
pub open spec fn bytes_at(wire_type: u8, buf: Seq<u8>) -> Option<(Seq<u8>, nat)> {
    if wire_type != LENGTH_DELIMITED {
        None
    } else {
        match varint_at(buf) {
            Some((len, n)) => if len <= buf.len() - n {
                Some((buf.subrange(n as int, n + len), (n + len) as nat))
            } else {
                None
            },
            None => None,
        }
    }
}

/// The number of bytes that a field of a number the message does not know
/// takes behind its key, as `prost::encoding::skip_field` finds it; `None`
/// where it reports an error.
pub uninterp spec fn skipped(wire_type: u8, tag: u32, buf: Seq<u8>) -> Option<nat>;

/// A field as a message writes it: nothing where the value is empty.
pub open spec fn field_wire(tag: u32, value: Seq<u8>) -> Seq<u8> {
    if value.len() == 0 {
        Seq::empty()
    } else {
        bytes_field(tag, value)
    }
}

/// `n` as a `usize`, where it is one.
pub open spec fn fits(n: nat) -> Option<usize> {
    if n <= usize::MAX {
        Some(n as usize)
    } else {
        None
    }
}

/// A varint of a 64-bit value takes one to ten bytes.
pub proof fn lemma_varint_len(v: nat)
    requires
        v <= u64::MAX,
    ensures
        1 <= varint(v).len() <= 10,
{
    reveal_with_fuel(varint, 11);
}

/// What `leb128` reads lies within the buffer and within the limit.
pub proof fn lemma_leb128_within(buf: Seq<u8>, limit: nat)
    ensures
        leb128(buf, limit) matches Some(r) ==> 1 <= r.1 <= limit && r.1 <= buf.len(),
    decreases limit,
{
    if limit != 0 && buf.len() != 0 && buf[0] >= 128 {
        lemma_leb128_within(buf.skip(1), (limit - 1) as nat);
    }
}

/// Reading the varint of `v` gives `v` back, whatever follows it.
pub proof fn lemma_leb128_varint(v: nat, rest: Seq<u8>, limit: nat)
    requires
        varint(v).len() <= limit,
    ensures
        leb128(varint(v) + rest, limit) == Some((v, varint(v).len())),
    decreases v,
{
    let buf = varint(v) + rest;
    if v < 128 {
        assert(buf[0] == v as u8);
    } else {
        let tail = varint(v / 128);
        assert(buf[0] == (v % 128 + 128) as u8);
        assert(buf.skip(1) =~= tail + rest);
        lemma_leb128_varint(v / 128, rest, (limit - 1) as nat);
    }
}

/// Reading the varint of a 64-bit value gives it back, whatever follows it.
pub proof fn lemma_varint_at(v: u64, rest: Seq<u8>)
    ensures
        varint_at(varint(v as nat) + rest) == Some((v, varint(v as nat).len())),
{
    lemma_varint_len(v as nat);
    lemma_leb128_varint(v as nat, rest, 10);
}

/// Reading a key gives its field number and wire type back.
pub proof fn lemma_key_at(tag: u32, wire_type: u8, rest: Seq<u8>)
    requires
        1 <= tag <= MAX_TAG,
        wire_type <= 5,
    ensures
        key_at(key(tag, wire_type) + rest) == Some((tag, wire_type, key(tag, wire_type).len())),
{
    let k = (tag * 8 + wire_type) as u64;
    lemma_varint_at(k, rest);
}

/// Reading a length-delimited field behind its key gives its value back.
pub proof fn lemma_bytes_at(value: Seq<u8>, rest: Seq<u8>)
    requires
        value.len() <= u64::MAX,
    ensures
        bytes_at(LENGTH_DELIMITED, varint(value.len()) + value + rest) == Some(
            (value, (varint(value.len()) + value).len()),
        ),
{
    let head = varint(value.len());
    let buf = head + value + rest;
    assert(buf =~= head + (value + rest));
    lemma_varint_at(value.len() as u64, value + rest);
    assert(buf.subrange(head.len() as int, (head.len() + value.len()) as int) =~= value);
}

/// Appends the field `tag` with `value` to `buf`, by
/// `prost::encoding::bytes::encode`: the key with the length-delimited wire
/// type, the length of `value` as a varint, then `value`.
#[verifier::external_body]
fn put_bytes(tag: u32, value: &Vec<u8>, buf: &mut Vec<u8>)
    requires
        1 <= tag <= MAX_TAG,
    ensures
        final(buf)@ == old(buf)@ + bytes_field(tag, value@),
{
    prost::encoding::bytes::encode(tag, value, buf)
}

/// The number of bytes that the varint of `value` takes, by
/// `prost::encoding::encoded_len_varint`.
#[verifier::external_body]
fn varint_len(value: u64) -> (n: usize)
    ensures
        n == varint(value as nat).len(),
{
    prost::encoding::encoded_len_varint(value)
}

/// Reads the key at the start of `buf`, by `prost::encoding::decode_key`, and
/// hands out the field number, the wire type as its number, and what follows
/// the key. It fails where the varint is cut short, takes more than ten bytes
/// or more than 64 bits, where the key takes more than 32 bits, names a wire
/// type above five, or the field number zero.
#[verifier::external_body]
fn read_key<'a>(buf: &'a [u8]) -> (r: (Result<(u32, u8), prost::DecodeError>, &'a [u8]))
    ensures
        r.0 is Ok <==> key_at(buf@) is Some,
        r.0 matches Ok(k) ==> (key_at(buf@) matches Some(s) && k.0 == s.0 && k.1 == s.1 && r.1@
            == buf@.skip(s.2 as int)),
{
    let mut rest = buf;
    let key = prost::encoding::decode_key(&mut rest);
    (key.map(|(tag, wire_type)| (tag, wire_type as u8)), rest)
}

/// Reads the value of a length-delimited field whose key gave `wire_type`, by
/// `prost::encoding::bytes::merge`, and hands out the value and what follows
/// it. It fails where the wire type is another, where the length is no
/// varint, or where fewer bytes are left than the length says.
#[verifier::external_body]
fn read_bytes<'a>(wire_type: u8, buf: &'a [u8]) -> (r: (
    Result<Vec<u8>, prost::DecodeError>,
    &'a [u8],
))
    requires
        wire_type <= 5,
    ensures
        r.0 is Ok <==> bytes_at(wire_type, buf@) is Some,
        r.0 matches Ok(value) ==> (bytes_at(wire_type, buf@) matches Some(s) && value@ == s.0
            && r.1@ == buf@.skip(s.1 as int)),
{
    let mut rest = buf;
    let mut value = Vec::new();
    match prost::encoding::WireType::try_from(u64::from(wire_type)) {
        Ok(wire_type) => {
            let context = prost::encoding::DecodeContext::default();
            match prost::encoding::bytes::merge(wire_type, &mut value, &mut rest, context) {
                Ok(()) => (Ok(value), rest),
                Err(error) => (Err(error), rest),
            }
        },
        Err(error) => (Err(error), rest),
    }
}

/// Passes over a field of the number `tag` whose key gave `wire_type`, by
/// `prost::encoding::skip_field`, and hands out what follows the field.
#[verifier::external_body]
fn skip<'a>(wire_type: u8, tag: u32, buf: &'a [u8]) -> (r: (
    Result<(), prost::DecodeError>,
    &'a [u8],
))
    requires
        wire_type <= 5,
    ensures
        r.0 is Ok <==> skipped(wire_type, tag, buf@) is Some,
        r.0 is Ok ==> (skipped(wire_type, tag, buf@) matches Some(n) && n <= buf@.len() && r.1@
            == buf@.skip(n as int)),
{
    let mut rest = buf;
    match prost::encoding::WireType::try_from(u64::from(wire_type)) {
        Ok(wire_type) => {
            let context = prost::encoding::DecodeContext::default();
            (prost::encoding::skip_field(wire_type, tag, &mut rest, context), rest)
        },
        Err(error) => (Err(error), rest),
    }
}

/// The number of bytes that `field_wire(tag, value)` takes, where a `usize`
/// holds it.
fn field_len(tag: u32, value: &Vec<u8>) -> (n: Option<usize>)
    requires
        1 <= tag <= MAX_TAG,
    ensures
        n == fits(field_wire(tag, value@).len()),
{
    if value.len() == 0 {
        return Some(0);
    }
    let k: u64 = (tag as u64) * 8 + 2;
    let key_len = varint_len(k);
    let len_len = varint_len(value.len() as u64);
    proof {
        lemma_varint_len(k as nat);
        lemma_varint_len(value@.len());
    }
    let head: usize = key_len + len_len;
    value.len().checked_add(head)
}

/// Appends `field_wire(tag, value)` to `buf`.
fn put_field(tag: u32, value: &Vec<u8>, buf: &mut Vec<u8>)
    requires
        1 <= tag <= MAX_TAG,
    ensures
        final(buf)@ == old(buf)@ + field_wire(tag, value@),
{
    if value.len() != 0 {
        put_bytes(tag, value, buf);
    }
}

/// How a message goes on the wire and comes back from it.
pub trait Message: View + Sized {
    /// The bytes of a message.
    spec fn wire(value: Self::V) -> Seq<u8>;

    /// The message that a payload holds; `None` where it holds none.
    spec fn parse(payload: Seq<u8>) -> Option<Self::V>;

    /// Decoding what was encoded gives the message back, for every message
    /// that a frame can carry.
    proof fn lemma_round_trip(value: Self::V)
        requires
            Self::wire(value).len() <= u32::MAX,
        ensures
            Self::parse(Self::wire(value)) == Some(value),
    ;

    /// The number of bytes of the encoded message, where a `usize` holds it.
    fn encoded_len(&self) -> (n: Option<usize>)
        ensures
            n == fits(Self::wire(self@).len()),
    ;

    /// Appends the encoded message to `buf`.
    fn encode_raw(&self, buf: &mut Vec<u8>)
        ensures
            final(buf)@ == old(buf)@ + Self::wire(self@),
    ;

    /// Decodes a message from the whole of `payload`.
    fn decode(payload: &[u8]) -> (r: Result<Self, prost::DecodeError>)
        ensures
            r is Ok <==> Self::parse(payload@) is Some,
            r matches Ok(message) ==> Some(message@) == Self::parse(payload@),
    ;
}

/// A request from one node to another.
#[derive(Clone, Debug, PartialEq, Eq)]
pub struct NodeRequest {
    /// The correlator: the response carries the same bytes.
    pub request_id: Vec<u8>,
    /// The application's payload.
    pub distance_list: Vec<u8>,
}

/// What a [`NodeRequest`] holds.
pub struct NodeRequestView {
    pub request_id: Seq<u8>,
    pub distance_list: Seq<u8>,
}

/// The response to a [`NodeRequest`].
#[derive(Clone, Debug, PartialEq, Eq)]
pub struct NodeResponse {
    /// The correlator of the request that this answers.
    pub request_id: Vec<u8>,
}

/// What a [`NodeResponse`] holds.
pub struct NodeResponseView {
    pub request_id: Seq<u8>,
}

impl View for NodeRequest {
    type V = NodeRequestView;

    open spec fn view(&self) -> NodeRequestView {
        NodeRequestView { request_id: self.request_id@, distance_list: self.distance_list@ }
    }
}

impl View for NodeResponse {
    type V = NodeResponseView;

    open spec fn view(&self) -> NodeResponseView {
        NodeResponseView { request_id: self.request_id@ }
    }
}

/// The field number of `request_id`, in both messages.
pub const REQUEST_ID: u32 = 1;

/// The field number of `distance_list`.
pub const DISTANCE_LIST: u32 = 2;

/// The request that `buf` adds to `acc`, field by field: a field that comes
/// again replaces the earlier value, and a field of another number is passed
/// over.
pub open spec fn parse_request(buf: Seq<u8>, acc: NodeRequestView) -> Option<NodeRequestView>
    decreases buf.len(),
{
    if buf.len() == 0 {
        Some(acc)
    } else {
        match key_at(buf) {
            None => None,
            Some((tag, wire_type, n)) => {
                let rest = buf.skip(n as int);
                if n < 1 || n > buf.len() {
                    None
                } else if tag == REQUEST_ID {
                    match bytes_at(wire_type, rest) {
                        Some((value, m)) => if m <= rest.len() {
                            parse_request(
                                rest.skip(m as int),
                                NodeRequestView { request_id: value, ..acc },
                            )
                        } else {
                            None
                        },
                        None => None,
                    }
                } else if tag == DISTANCE_LIST {
                    match bytes_at(wire_type, rest) {
                        Some((value, m)) => if m <= rest.len() {
                            parse_request(
                                rest.skip(m as int),
                                NodeRequestView { distance_list: value, ..acc },
                            )
                        } else {
                            None
                        },
                        None => None,
                    }
                } else {
                    match skipped(wire_type, tag, rest) {
                        Some(m) => if m <= rest.len() {
                            parse_request(rest.skip(m as int), acc)
                        } else {
                            None
                        },
                        None => None,
                    }
                }
            },
        }
    }
}

/// The response that `buf` adds to `acc`, field by field.
pub open spec fn parse_response(buf: Seq<u8>, acc: NodeResponseView) -> Option<NodeResponseView>
    decreases buf.len(),
{
    if buf.len() == 0 {
        Some(acc)
    } else {
        match key_at(buf) {
            None => None,
            Some((tag, wire_type, n)) => {
                let rest = buf.skip(n as int);
                if n < 1 || n > buf.len() {
                    None
                } else if tag == REQUEST_ID {
                    match bytes_at(wire_type, rest) {
                        Some((value, m)) => if m <= rest.len() {
                            parse_response(rest.skip(m as int), NodeResponseView { request_id: value })
                        } else {
                            None
                        },
                        None => None,
                    }
                } else {
                    match skipped(wire_type, tag, rest) {
                        Some(m) => if m <= rest.len() {
                            parse_response(rest.skip(m as int), acc)
                        } else {
                            None
                        },
                        None => None,
                    }
                }
            },
        }
    }
}

/// A key that was read takes at least one byte and no more than there are.
pub proof fn lemma_key_at_within(buf: Seq<u8>)
    ensures
        key_at(buf) matches Some(k) ==> 1 <= k.2 <= buf.len() && 1 <= k.0 && k.1 <= 5,
{
    lemma_leb128_within(buf, 10);
}

/// A value that was read lies within the buffer.
pub proof fn lemma_bytes_at_within(wire_type: u8, buf: Seq<u8>)
    ensures
        bytes_at(wire_type, buf) matches Some(s) ==> 1 <= s.1 <= buf.len(),
{
    lemma_leb128_within(buf, 10);
}

/// One field in front of a buffer is read as that field, and parsing goes on
/// behind it.
proof fn lemma_field_first(tag: u32, value: Seq<u8>, rest: Seq<u8>)
    requires
        1 <= tag <= MAX_TAG,
        value.len() <= u64::MAX,
    ensures
        ({
            let buf = bytes_field(tag, value) + rest;
            let n = key(tag, LENGTH_DELIMITED).len();
            let m = (varint(value.len()) + value).len();
            &&& buf.len() > 0
            &&& key_at(buf) == Some((tag, LENGTH_DELIMITED, n))
            &&& 1 <= n <= buf.len()
            &&& bytes_at(LENGTH_DELIMITED, buf.skip(n as int)) == Some((value, m))
            &&& m <= buf.skip(n as int).len()
            &&& buf.skip(n as int).skip(m as int) == rest
        }),
{
    let head = key(tag, LENGTH_DELIMITED);
    let body = varint(value.len()) + value;
    let buf = bytes_field(tag, value) + rest;
    lemma_varint_len((tag * 8 + 2) as nat);
    assert(buf =~= head + (body + rest));
    lemma_key_at(tag, LENGTH_DELIMITED, body + rest);
    assert(buf.skip(head.len() as int) =~= body + rest);
    lemma_bytes_at(value, rest);
    assert((body + rest).skip(body.len() as int) =~= rest);
}

impl Default for NodeRequest {
    fn default() -> (message: NodeRequest)
        ensures
            message@ == (NodeRequestView { request_id: Seq::empty(), distance_list: Seq::empty() }),
    {
        NodeRequest { request_id: Vec::new(), distance_list: Vec::new() }
    }
}

impl Default for NodeResponse {
    fn default() -> (message: NodeResponse)
        ensures
            message@ == (NodeResponseView { request_id: Seq::empty() }),
    {
        NodeResponse { request_id: Vec::new() }
    }
}

impl Message for NodeRequest {
    open spec fn wire(value: NodeRequestView) -> Seq<u8> {
        field_wire(REQUEST_ID, value.request_id) + field_wire(DISTANCE_LIST, value.distance_list)
    }

    open spec fn parse(payload: Seq<u8>) -> Option<NodeRequestView> {
        parse_request(
            payload,
            NodeRequestView { request_id: Seq::empty(), distance_list: Seq::empty() },
        )
    }

    proof fn lemma_round_trip(value: NodeRequestView) {
        let empty = NodeRequestView { request_id: Seq::empty(), distance_list: Seq::empty() };
        let first = field_wire(REQUEST_ID, value.request_id);
        let second = field_wire(DISTANCE_LIST, value.distance_list);
        let mid = NodeRequestView { request_id: value.request_id, distance_list: Seq::empty() };
        assert(first.len() + second.len() == (first + second).len());
        // The second field, read into a request that holds the first.
        assert(parse_request(second, mid) == Some(value)) by {
            if value.distance_list.len() == 0 {
                assert(mid.distance_list =~= value.distance_list);
            } else {
                lemma_field_first(DISTANCE_LIST, value.distance_list, Seq::empty());
                assert(second =~= second + Seq::<u8>::empty());
                assert(parse_request(Seq::<u8>::empty(), value) == Some(value));
            }
        }
        // The first field, read into an empty request.
        if value.request_id.len() == 0 {
            assert(first + second =~= second);
            assert(mid.request_id =~= empty.request_id);
        } else {
            lemma_field_first(REQUEST_ID, value.request_id, second);
        }
    }

    fn encoded_len(&self) -> (n: Option<usize>) {
        let first = field_len(REQUEST_ID, &self.request_id);
        let second = field_len(DISTANCE_LIST, &self.distance_list);
        match (first, second) {
            (Some(a), Some(b)) => a.checked_add(b),
            _ => None,
        }
    }

    fn encode_raw(&self, buf: &mut Vec<u8>) {
        put_field(REQUEST_ID, &self.request_id, buf);
        put_field(DISTANCE_LIST, &self.distance_list, buf);
        assert(buf@ =~= old(buf)@ + Self::wire(self@));
    }

    fn decode(payload: &[u8]) -> (r: Result<NodeRequest, prost::DecodeError>) {
        let mut message = NodeRequest::default();
        let mut rest = payload;
        while rest.len() > 0
            invariant
                Self::parse(payload@) == parse_request(rest@, message@),
            decreases rest@.len(),
        {
            proof {
                lemma_key_at_within(rest@);
            }
            let (key, after) = read_key(rest);
            let (tag, wire_type) = match key {
                Ok(k) => k,
                Err(error) => {
                    return Err(error);
                },
            };
            proof {
                lemma_bytes_at_within(wire_type, after@);
            }
            if tag == REQUEST_ID {
                let (value, behind) = read_bytes(wire_type, after);
                match value {
                    Ok(value) => {
                        message.request_id = value;
                        rest = behind;
                    },
                    Err(error) => {
                        return Err(error);
                    },
                }
            } else if tag == DISTANCE_LIST {
                let (value, behind) = read_bytes(wire_type, after);
                match value {
                    Ok(value) => {
                        message.distance_list = value;
                        rest = behind;
                    },
                    Err(error) => {
                        return Err(error);
                    },
                }
            } else {
                let (skipped, behind) = skip(wire_type, tag, after);
                match skipped {
                    Ok(()) => {
                        rest = behind;
                    },
                    Err(error) => {
                        return Err(error);
                    },
                }
            }
        }
        Ok(message)
    }
}

impl Message for NodeResponse {
    open spec fn wire(value: NodeResponseView) -> Seq<u8> {
        field_wire(REQUEST_ID, value.request_id)
    }

    open spec fn parse(payload: Seq<u8>) -> Option<NodeResponseView> {
        parse_response(payload, NodeResponseView { request_id: Seq::empty() })
    }

    proof fn lemma_round_trip(value: NodeResponseView) {
        let empty = NodeResponseView { request_id: Seq::empty() };
        if value.request_id.len() == 0 {
            assert(value.request_id =~= empty.request_id);
        } else {
            lemma_field_first(REQUEST_ID, value.request_id, Seq::empty());
            assert(Self::wire(value) =~= Self::wire(value) + Seq::<u8>::empty());
            assert(parse_response(Seq::<u8>::empty(), value) == Some(value));
        }
    }

    fn encoded_len(&self) -> (n: Option<usize>) {
        field_len(REQUEST_ID, &self.request_id)
    }

    fn encode_raw(&self, buf: &mut Vec<u8>) {
        put_field(REQUEST_ID, &self.request_id, buf);
    }

    fn decode(payload: &[u8]) -> (r: Result<NodeResponse, prost::DecodeError>) {
        let mut message = NodeResponse::default();
        let mut rest = payload;
        while rest.len() > 0
            invariant
                Self::parse(payload@) == parse_response(rest@, message@),
            decreases rest@.len(),
        {
            proof {
                lemma_key_at_within(rest@);
            }
            let (key, after) = read_key(rest);
            let (tag, wire_type) = match key {
                Ok(k) => k,
                Err(error) => {
                    return Err(error);
                },
            };
            proof {
                lemma_bytes_at_within(wire_type, after@);
            }
            if tag == REQUEST_ID {
                let (value, behind) = read_bytes(wire_type, after);
                match value {
                    Ok(value) => {
                        message.request_id = value;
                        rest = behind;
                    },
                    Err(error) => {
                        return Err(error);
                    },
                }
            } else {
                let (skipped, behind) = skip(wire_type, tag, after);
                match skipped {
                    Ok(()) => {
                        rest = behind;
                    },
                    Err(error) => {
                        return Err(error);
                    },
                }
            }
        }
        Ok(message)
    }
}

} // verus!
