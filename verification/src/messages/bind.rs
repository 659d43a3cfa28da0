//! The binding handshake between a phone and a watch.
//!
//! Each request is a sequence of MessagePack items written in a fixed order; each
//! response is read in a fixed order, and some responses end with items that older
//! watches leave out. The contracts speak of a message as the sequence of its field
//! values ([`Value`]) and of its layout as the sequence of their kinds ([`Kind`]).

use vstd::prelude::*;
use vstd::utf8::encode_utf8;

use crate::error::{MsgpackError, Result};
use crate::format::{
    enc_bin, encode_values, int_of, lemma_encode_values_take, lemma_optionals_at_take, lemma_values_at_take,
    enc_bool, enc_int, enc_str, fits, i64_at, optionals_at, starts_with_at, value_at, values_at, Kind,
    Value,
};
use crate::roundtrip::{
    lemma_int_roundtrip, lemma_starts_with_split, lemma_value_roundtrip, lemma_values_roundtrip,
    lemma_values_truncated,
};
use crate::msgpack::{write_bin, write_bool, write_i32, write_i64, write_str, MsgpackReader};

verus! {

/// The business id of the binding messages.
pub const BID_BIND: u8 = 15;
/// The command id of the authentication exchange.
pub const CID_AUTH: u8 = 1;
/// The command id of the initialisation exchange.
pub const CID_INIT: u8 = 2;
/// The command id of the bind confirmation.
pub const CID_BIND: u8 = 3;
/// The command id of a reset.
pub const CID_RESET: u8 = 5;
/// The command id of the connection confirmation.
pub const CID_CONNECT_CONFIRM: u8 = 6;
/// The command id of the hands-free profile connection.
pub const CID_HFP_CONNECT: u8 = 18;
/// The protocol version a phone announces when it authenticates.
pub const DEFAULT_BID_VERSION: i32 = 11;
/// The phone number sent when none is known.
pub const MAGIC_PHONE_PLACEHOLDER: &'static str = "***********";

/// The phone number that goes on the wire: the given one, or the placeholder when it
/// is empty.
pub open spec fn phone_or_placeholder(phone: Seq<char>) -> Seq<char> {
    if phone.len() > 0 {
        phone
    } else {
        MAGIC_PHONE_PLACEHOLDER@
    }
}

/// The authentication request a phone sends first.
#[derive(Debug, Clone, PartialEq, Eq)]
pub struct BindAuthRequest {
    pub open_id: String,
    pub random: u16,
    pub aes_sign: Vec<u8>,
    pub bid_version: i32,
    pub magic_phone: String,
}

impl BindAuthRequest {
    /// The layout of the payload.
    pub open spec fn layout() -> Seq<Kind> {
        seq![Kind::Str, Kind::I32, Kind::Bin, Kind::I32, Kind::Str]
    }

    /// The values the payload carries, in order; an empty phone number goes out as
    /// the placeholder.
    pub open spec fn fields(&self) -> Seq<Value> {
        seq![
            Value::Str(self.open_id@),
            Value::Int(self.random as int),
            Value::Bin(self.aes_sign@),
            Value::Int(self.bid_version as int),
            Value::Str(phone_or_placeholder(self.magic_phone@)),
        ]
    }

    /// A request with the default protocol version; a missing or empty phone number
    /// becomes the placeholder.
    pub fn new(open_id: String, random: u16, aes_sign: Vec<u8>, magic_phone: Option<String>) -> (r:
        Self)
        ensures
            r.open_id@ == open_id@,
            r.random == random,
            r.aes_sign@ == aes_sign@,
            r.bid_version == DEFAULT_BID_VERSION,
            r.magic_phone@ == phone_or_placeholder(
                match magic_phone {
                    Some(p) => p@,
                    None => Seq::empty(),
                },
            ),
    {
        let magic_phone = match magic_phone {
            Some(p) => {
                if p.as_str().is_empty() {
                    MAGIC_PHONE_PLACEHOLDER.to_owned()
                } else {
                    p
                }
            },
            None => MAGIC_PHONE_PLACEHOLDER.to_owned(),
        };
        BindAuthRequest { open_id, random, aes_sign, bid_version: DEFAULT_BID_VERSION, magic_phone }
    }

    /// The payload: open id, random, signature, protocol version, phone number.
    /// It fails when a string or the signature is longer than `u32::MAX` bytes.
    pub fn payload(&self) -> (r: Result<Vec<u8>>)
        ensures
            r is Ok <==> encode_utf8(self.open_id@).len() <= u32::MAX && self.aes_sign@.len()
                <= u32::MAX && encode_utf8(phone_or_placeholder(self.magic_phone@)).len() <= u32::MAX,
            r matches Ok(bytes) ==> bytes@ == encode_values(self.fields()),
            r matches Ok(bytes) ==> bytes@ == enc_str(self.open_id@) + enc_int(self.random as int)
                + enc_bin(self.aes_sign@) + enc_int(self.bid_version as int) + enc_str(
                phone_or_placeholder(self.magic_phone@),
            ),
            r matches Err(e) ==> e is IntConversion,
    {
        let phone: &str = if self.magic_phone.as_str().is_empty() {
            MAGIC_PHONE_PLACEHOLDER
        } else {
            self.magic_phone.as_str()
        };
        let mut out = Vec::new();
        write_str(&mut out, self.open_id.as_str())?;
        write_i32(&mut out, self.random as i32);
        write_bin(&mut out, self.aes_sign.as_slice())?;
        write_i32(&mut out, self.bid_version);
        write_str(&mut out, phone)?;
        proof {
            let f = self.fields();
            lemma_encode_values_take(f, 1);
            lemma_encode_values_take(f, 2);
            lemma_encode_values_take(f, 3);
            lemma_encode_values_take(f, 4);
            lemma_encode_values_take(f, 5);
            assert(out@ =~= encode_values(f.take(5)));
        }
        Ok(out)
    }
}

/// The watch's answer to [`BindAuthRequest`].
#[derive(Debug, Clone, PartialEq, Eq)]
pub struct BindAuthResponse {
    pub code: i32,
    pub sn: String,
    pub random: i32,
    pub aes_sign: Vec<u8>,
    pub bid_version: i64,
    pub seq: i64,
}

impl BindAuthResponse {
    /// The command id of this response.
    pub const CID: u8 = CID_AUTH | 0x80;

    /// The layout of the payload.
    pub open spec fn layout() -> Seq<Kind> {
        seq![Kind::I32, Kind::Str, Kind::I32, Kind::Bin, Kind::I64, Kind::I64]
    }

    /// The values the payload carries, in order.
    pub open spec fn fields(&self) -> Seq<Value> {
        seq![
            Value::Int(self.code as int),
            Value::Str(self.sn@),
            Value::Int(self.random as int),
            Value::Bin(self.aes_sign@),
            Value::Int(self.bid_version as int),
            Value::Int(self.seq as int),
        ]
    }

    /// Reads code, serial number, random, signature, protocol version and sequence
    /// number; bytes after them are ignored.
    pub fn decode(payload: &[u8]) -> (r: Result<Self>)
        ensures
            match values_at(payload@, 0, Self::layout()).1 {
                Ok(vs) => r matches Ok(x) && x.fields() == vs,
                Err(f) => r matches Err(e) && e.reports(f),
            },
    {
        proof {
            let (b, l) = (payload@, Self::layout());
            lemma_values_at_take(b, 0, l, 1);
            lemma_values_at_take(b, 0, l, 2);
            lemma_values_at_take(b, 0, l, 3);
            lemma_values_at_take(b, 0, l, 4);
            lemma_values_at_take(b, 0, l, 5);
            lemma_values_at_take(b, 0, l, 6);
        }
        let mut reader = MsgpackReader::new(payload);
        let code = reader.read_i32()?;
        let sn = reader.read_str()?;
        let random = reader.read_i32()?;
        let aes_sign = reader.read_bin()?;
        let bid_version = reader.read_i64()?;
        let seq = reader.read_i64()?;
        Ok(BindAuthResponse { code, sn, random, aes_sign, bid_version, seq })
    }
}

/// The initialisation request.
#[derive(Debug, Clone, PartialEq, Eq)]
pub struct BindInitRequest {
    pub os: i32,
    pub is_bind: bool,
    pub version: String,
    pub module: String,
    pub phone_device_id: String,
    pub seq: i64,
}

impl BindInitRequest {
    /// The layout of the payload.
    pub open spec fn layout() -> Seq<Kind> {
        seq![Kind::I32, Kind::Bool, Kind::Str, Kind::Str, Kind::Str, Kind::I64]
    }

    /// The values the payload carries, in order.
    pub open spec fn fields(&self) -> Seq<Value> {
        seq![
            Value::Int(self.os as int),
            Value::Bool(self.is_bind),
            Value::Str(self.version@),
            Value::Str(self.module@),
            Value::Str(self.phone_device_id@),
            Value::Int(self.seq as int),
        ]
    }

    /// The payload: os, bind flag, version, module, phone device id, sequence number.
    /// It fails when a string is longer than `u32::MAX` bytes.
    pub fn payload(&self) -> (r: Result<Vec<u8>>)
        ensures
            r is Ok <==> encode_utf8(self.version@).len() <= u32::MAX && encode_utf8(
                self.module@,
            ).len() <= u32::MAX && encode_utf8(self.phone_device_id@).len() <= u32::MAX,
            r matches Ok(bytes) ==> bytes@ == encode_values(self.fields()),
            r matches Err(e) ==> e is IntConversion,
    {
        let mut out = Vec::new();
        write_i32(&mut out, self.os);
        write_bool(&mut out, self.is_bind);
        write_str(&mut out, self.version.as_str())?;
        write_str(&mut out, self.module.as_str())?;
        write_str(&mut out, self.phone_device_id.as_str())?;
        write_i64(&mut out, self.seq);
        proof {
            let f = self.fields();
            lemma_encode_values_take(f, 1);
            lemma_encode_values_take(f, 2);
            lemma_encode_values_take(f, 3);
            lemma_encode_values_take(f, 4);
            lemma_encode_values_take(f, 5);
            lemma_encode_values_take(f, 6);
            assert(out@ =~= encode_values(f.take(6)));
        }
        Ok(out)
    }
}

/// The binding state a watch reports.
#[derive(Debug, Clone, Copy, PartialEq, Eq)]
pub enum WatchBindState {
    Init,
    Bind,
    Mid,
    Unknown,
}

impl WatchBindState {
    /// The state a wire code stands for: `0`, `1`, `2`, and anything else unknown.
    pub open spec fn from_code(value: i32) -> Self {
        if value == 0 {
            WatchBindState::Init
        } else if value == 1 {
            WatchBindState::Bind
        } else if value == 2 {
            WatchBindState::Mid
        } else {
            WatchBindState::Unknown
        }
    }

    /// The wire code of a state; `-1` for the unknown one.
    pub open spec fn code_of(self) -> i32 {
        match self {
            WatchBindState::Init => 0,
            WatchBindState::Bind => 1,
            WatchBindState::Mid => 2,
            WatchBindState::Unknown => -1i32,
        }
    }

    /// The wire code of this state; `-1` for the unknown one.
    pub fn code(&self) -> (r: i32)
        ensures
            r == self.code_of(),
    {
        match self {
            WatchBindState::Init => 0,
            WatchBindState::Bind => 1,
            WatchBindState::Mid => 2,
            WatchBindState::Unknown => -1,
        }
    }
}

impl From<i32> for WatchBindState {
    fn from(value: i32) -> (r: Self) {
        match value {
            0 => WatchBindState::Init,
            1 => WatchBindState::Bind,
            2 => WatchBindState::Mid,
            _ => WatchBindState::Unknown,
        }
    }
}

impl vstd::std_specs::convert::FromSpecImpl<i32> for WatchBindState {
    open spec fn obeys_from_spec() -> bool {
        true
    }

    open spec fn from_spec(value: i32) -> Self {
        WatchBindState::from_code(value)
    }
}

/// Law: every state is the state of its own wire code, and every known code is the
/// code of its state.
pub proof fn lemma_bind_state_code(s: WatchBindState, value: i32)
    ensures
        WatchBindState::from_code(s.code_of()) == s,
        -1 <= value <= 2 ==> WatchBindState::from_code(value).code_of() == value,
{
}

/// The watch's answer to [`BindInitRequest`].
#[derive(Debug, Clone, PartialEq, Eq)]
pub struct BindInitResponse {
    pub code: i32,
    pub open_id: String,
    pub version: String,
    pub pack_size: i32,
    pub state: WatchBindState,
    pub phone_device_id: String,
    pub last_app_version: String,
    pub unused: i32,
    pub seq: i64,
    pub is_phone_bt_mac_empty: Option<bool>,
    pub max_data_length: Option<i32>,
    pub magic_phone: Option<String>,
}

impl BindInitResponse {
    /// The command id of this response.
    pub const CID: u8 = CID_INIT | 0x80;

    /// The layout of the items every watch sends.
    pub open spec fn layout() -> Seq<Kind> {
        seq![
            Kind::I32,
            Kind::Str,
            Kind::Str,
            Kind::I32,
            Kind::I32,
            Kind::Str,
            Kind::Str,
            Kind::I32,
            Kind::I64,
        ]
    }

    /// The layout of the trailing items that newer watches add.
    pub open spec fn trailer() -> Seq<Kind> {
        seq![Kind::Bool, Kind::I32, Kind::Str]
    }

    /// The values every watch sends, with `state_code` as the wire code of the state.
    pub open spec fn fields(&self, state_code: int) -> Seq<Value> {
        seq![
            Value::Int(self.code as int),
            Value::Str(self.open_id@),
            Value::Str(self.version@),
            Value::Int(self.pack_size as int),
            Value::Int(state_code),
            Value::Str(self.phone_device_id@),
            Value::Str(self.last_app_version@),
            Value::Int(self.unused as int),
            Value::Int(self.seq as int),
        ]
    }

    /// The trailing values, `None` where the watch sent none.
    pub open spec fn extras(&self) -> Seq<Option<Value>> {
        seq![
            match self.is_phone_bt_mac_empty {
                Some(x) => Some(Value::Bool(x)),
                None => None,
            },
            match self.max_data_length {
                Some(x) => Some(Value::Int(x as int)),
                None => None,
            },
            match self.magic_phone {
                Some(x) => Some(Value::Str(x@)),
                None => None,
            },
        ]
    }

    /// Reads the nine items every watch sends, then each trailing item for as long
    /// as bytes remain. The state is the one its wire code stands for.
    pub fn decode(payload: &[u8]) -> (r: Result<Self>)
        ensures
            ({
                let (q, base) = values_at(payload@, 0, Self::layout());
                match base {
                    Err(f) => r matches Err(e) && e.reports(f),
                    Ok(vs) => match optionals_at(payload@, q, Self::trailer()).1 {
                        Err(f) => r matches Err(e) && e.reports(f),
                        Ok(os) => r matches Ok(x) && x.fields(int_of(vs[4])) == vs && x.state
                            == WatchBindState::from_code(int_of(vs[4]) as i32) && x.extras() == os,
                    },
                }
            }),
    {
        proof {
            let (b, l, t) = (payload@, Self::layout(), Self::trailer());
            lemma_values_at_take(b, 0, l, 1);
            lemma_values_at_take(b, 0, l, 2);
            lemma_values_at_take(b, 0, l, 3);
            lemma_values_at_take(b, 0, l, 4);
            lemma_values_at_take(b, 0, l, 5);
            lemma_values_at_take(b, 0, l, 6);
            lemma_values_at_take(b, 0, l, 7);
            lemma_values_at_take(b, 0, l, 8);
            lemma_values_at_take(b, 0, l, 9);
            let q = values_at(b, 0, l).0;
            lemma_optionals_at_take(b, q, t, 1);
            lemma_optionals_at_take(b, q, t, 2);
            lemma_optionals_at_take(b, q, t, 3);
        }
        let mut reader = MsgpackReader::new(payload);
        let code = reader.read_i32()?;
        let open_id = reader.read_str()?;
        let version = reader.read_str()?;
        let pack_size = reader.read_i32()?;
        let state_code = reader.read_i32()?;
        let state = WatchBindState::from(state_code);
        let phone_device_id = reader.read_str()?;
        let last_app_version = reader.read_str()?;
        let unused = reader.read_i32()?;
        let seq = reader.read_i64()?;
        let is_phone_bt_mac_empty = if reader.has_next() {
            Some(reader.read_bool()?)
        } else {
            None
        };
        let max_data_length = if reader.has_next() {
            Some(reader.read_i32()?)
        } else {
            None
        };
        let magic_phone = if reader.has_next() {
            Some(reader.read_str()?)
        } else {
            None
        };
        Ok(BindInitResponse {
            code,
            open_id,
            version,
            pack_size,
            state,
            phone_device_id,
            last_app_version,
            unused,
            seq,
            is_phone_bt_mac_empty,
            max_data_length,
            magic_phone,
        })
    }
}

/// The request that confirms or declines the binding.
#[derive(Debug, Clone, Copy, PartialEq, Eq)]
pub struct BindBindRequest {
    pub confirm: bool,
}

impl BindBindRequest {
    /// The values the payload carries.
    pub open spec fn fields(&self) -> Seq<Value> {
        seq![Value::Bool(self.confirm)]
    }

    /// The payload: the confirmation flag.
    pub fn payload(&self) -> (r: Vec<u8>)
        ensures
            r@ == encode_values(self.fields()),
    {
        let mut out = Vec::new();
        write_bool(&mut out, self.confirm);
        proof {
            lemma_encode_values_take(self.fields(), 1);
            assert(out@ =~= encode_values(self.fields().take(1)));
        }
        out
    }
}

/// The payload of a request that carries nothing.
pub fn empty_payload() -> (r: Vec<u8>)
    ensures
        r@ == Seq::<u8>::empty(),
{
    Vec::new()
}

/// The request that confirms the connection.
#[derive(Debug, Clone, Copy, PartialEq, Eq)]
pub struct BindConnectConfirmRequest {
    pub seq: i64,
    pub has_backup_list: bool,
}

impl BindConnectConfirmRequest {
    /// The values the payload carries, in order.
    pub open spec fn fields(&self) -> Seq<Value> {
        seq![Value::Int(self.seq as int), Value::Bool(self.has_backup_list)]
    }

    /// The payload: sequence number, then whether a backup list exists.
    pub fn payload(&self) -> (r: Vec<u8>)
        ensures
            r@ == encode_values(self.fields()),
    {
        let mut out = Vec::new();
        write_i64(&mut out, self.seq);
        write_bool(&mut out, self.has_backup_list);
        proof {
            let f = self.fields();
            lemma_encode_values_take(f, 1);
            lemma_encode_values_take(f, 2);
            assert(out@ =~= encode_values(f.take(2)));
        }
        out
    }
}

/// A response that carries only a status code.
#[derive(Debug, Clone, Copy, PartialEq, Eq)]
pub struct ResponseCode {
    pub code: i32,
}

impl ResponseCode {
    /// The layout of the payload.
    pub open spec fn layout() -> Seq<Kind> {
        seq![Kind::I32]
    }

    /// The values the payload carries.
    pub open spec fn fields(&self) -> Seq<Value> {
        seq![Value::Int(self.code as int)]
    }

    /// Reads the status code; bytes after it are ignored.
    pub fn decode(payload: &[u8]) -> (r: Result<Self>)
        ensures
            match values_at(payload@, 0, Self::layout()).1 {
                Ok(vs) => r matches Ok(x) && x.fields() == vs,
                Err(f) => r matches Err(e) && e.reports(f),
            },
    {
        proof {
            lemma_values_at_take(payload@, 0, Self::layout(), 1);
        }
        let mut reader = MsgpackReader::new(payload);
        let code = reader.read_i32()?;
        Ok(ResponseCode { code })
    }
}

/// The watch's answer to [`BindConnectConfirmRequest`].
#[derive(Debug, Clone, Copy, PartialEq, Eq)]
pub struct BindConnectConfirmResponse {
    pub code: i32,
    pub seq: Option<i64>,
}

impl BindConnectConfirmResponse {
    /// The command id of this response.
    pub const CID: u8 = CID_CONNECT_CONFIRM | 0x80;

    /// The layout of the item every watch sends.
    pub open spec fn layout() -> Seq<Kind> {
        seq![Kind::I32]
    }

    /// The layout of the trailing item that newer watches add.
    pub open spec fn trailer() -> Seq<Kind> {
        seq![Kind::I64]
    }

    /// The value every watch sends.
    pub open spec fn fields(&self) -> Seq<Value> {
        seq![Value::Int(self.code as int)]
    }

    /// The trailing value, `None` where the watch sent none.
    pub open spec fn extras(&self) -> Seq<Option<Value>> {
        seq![
            match self.seq {
                Some(x) => Some(Value::Int(x as int)),
                None => None,
            },
        ]
    }

    /// Reads the status code, then the sequence number if bytes remain.
    pub fn decode(payload: &[u8]) -> (r: Result<Self>)
        ensures
            ({
                let (q, base) = values_at(payload@, 0, Self::layout());
                match base {
                    Err(f) => r matches Err(e) && e.reports(f),
                    Ok(vs) => match optionals_at(payload@, q, Self::trailer()).1 {
                        Err(f) => r matches Err(e) && e.reports(f),
                        Ok(os) => r matches Ok(x) && x.fields() == vs && x.extras() == os,
                    },
                }
            }),
    {
        proof {
            let (b, l, t) = (payload@, Self::layout(), Self::trailer());
            lemma_values_at_take(b, 0, l, 1);
            lemma_optionals_at_take(b, values_at(b, 0, l).0, t, 1);
        }
        let mut reader = MsgpackReader::new(payload);
        let code = reader.read_i32()?;
        let seq = if reader.has_next() {
            Some(reader.read_i64()?)
        } else {
            None
        };
        Ok(BindConnectConfirmResponse { code, seq })
    }
}

/// `Ok` for the success code `0`; any other code is an error that carries it.
pub fn require_success(code: i32) -> (r: Result<()>)
    ensures
        r is Ok <==> code == 0,
        r matches Err(e) ==> e == MsgpackError::ResponseCode(code),
{
    if code == 0 {
        Ok(())
    } else {
        Err(MsgpackError::ResponseCode(code))
    }
}

/// Law: the payload of an authentication request, read with the readers of its
/// layout, gives back its values (the placeholder for an empty phone number), and
/// the reading ends where the payload ends, whatever follows it.
pub proof fn lemma_bind_auth_request_read_back(x: BindAuthRequest, rest: Seq<u8>)
    requires
        encode_utf8(x.open_id@).len() <= u32::MAX,
        x.aes_sign@.len() <= u32::MAX,
        encode_utf8(phone_or_placeholder(x.magic_phone@)).len() <= u32::MAX,
        encode_values(x.fields()).len() + rest.len() <= usize::MAX,
    ensures
        values_at(encode_values(x.fields()) + rest, 0, BindAuthRequest::layout()) == (
            encode_values(x.fields()).len() as int,
            Ok::<Seq<Value>, crate::error::Fault>(x.fields()),
        ),
{
    let (vs, ks) = (x.fields(), BindAuthRequest::layout());
    let b = encode_values(vs) + rest;
    assert forall|i: int| 0 <= i < vs.len() implies fits(#[trigger] vs[i], ks[i]) by {
        if i == 0 {
        } else if i == 1 {
        } else if i == 2 {
        } else if i == 3 {
        } else {
        }
    }
    assert(b.subrange(0, encode_values(vs).len() as int) =~= encode_values(vs));
    lemma_values_roundtrip(b, 0, vs, ks);
}

/// Law: the payload of an authentication request is the open id as a string, the
/// random as a non-negative integer (its value from 0 to 65535, unchanged), the
/// signature as a blob, the protocol version as an integer and the phone number
/// (the placeholder when empty) as a string, in that order; read back in its
/// layout, it gives exactly those five values.
pub proof fn lemma_bind_auth_request_items(x: BindAuthRequest, rest: Seq<u8>)
    requires
        encode_utf8(x.open_id@).len() <= u32::MAX,
        x.aes_sign@.len() <= u32::MAX,
        encode_utf8(phone_or_placeholder(x.magic_phone@)).len() <= u32::MAX,
        encode_values(x.fields()).len() + rest.len() <= usize::MAX,
    ensures
        ({
            let b = enc_str(x.open_id@) + enc_int(x.random as int) + enc_bin(x.aes_sign@) + enc_int(
                x.bid_version as int,
            ) + enc_str(phone_or_placeholder(x.magic_phone@));
            &&& encode_values(x.fields()) == b
            &&& values_at(b + rest, 0, BindAuthRequest::layout()) == (
                b.len() as int,
                Ok::<Seq<Value>, crate::error::Fault>(
                    seq![
                        Value::Str(x.open_id@),
                        Value::Int(x.random as int),
                        Value::Bin(x.aes_sign@),
                        Value::Int(x.bid_version as int),
                        Value::Str(phone_or_placeholder(x.magic_phone@)),
                    ],
                ),
            )
            &&& 0 <= x.random as int <= 65535
        }),
{
    let vs = seq![
        Value::Str(x.open_id@),
        Value::Int(x.random as int),
        Value::Bin(x.aes_sign@),
        Value::Int(x.bid_version as int),
        Value::Str(phone_or_placeholder(x.magic_phone@)),
    ];
    let b = enc_str(x.open_id@) + enc_int(x.random as int) + enc_bin(x.aes_sign@) + enc_int(
        x.bid_version as int,
    ) + enc_str(phone_or_placeholder(x.magic_phone@));
    lemma_encode_values_take(vs, 1);
    lemma_encode_values_take(vs, 2);
    lemma_encode_values_take(vs, 3);
    lemma_encode_values_take(vs, 4);
    lemma_encode_values_take(vs, 5);
    assert(encode_values(vs.take(1)) =~= enc_str(x.open_id@));
    assert(encode_values(vs) =~= b);
    assert(x.fields() == vs);
    lemma_bind_auth_request_read_back(x, rest);
}

/// Law: an authentication response written in its layout decodes to itself: the
/// values read are its values, and the reading ends where they end, whatever
/// follows them.
pub proof fn lemma_bind_auth_response_roundtrip(x: BindAuthResponse, rest: Seq<u8>)
    requires
        encode_utf8(x.sn@).len() <= u32::MAX,
        x.aes_sign@.len() <= u32::MAX,
        encode_values(x.fields()).len() + rest.len() <= usize::MAX,
    ensures
        values_at(encode_values(x.fields()) + rest, 0, BindAuthResponse::layout()) == (
            encode_values(x.fields()).len() as int,
            Ok::<Seq<Value>, crate::error::Fault>(x.fields()),
        ),
{
    let (vs, ks) = (x.fields(), BindAuthResponse::layout());
    let b = encode_values(vs) + rest;
    assert forall|i: int| 0 <= i < vs.len() implies fits(#[trigger] vs[i], ks[i]) by {
        if i == 0 {
        } else if i == 1 {
        } else if i == 2 {
        } else if i == 3 {
        } else if i == 4 {
        } else {
        }
    }
    assert(b.subrange(0, encode_values(vs).len() as int) =~= encode_values(vs));
    lemma_values_roundtrip(b, 0, vs, ks);
}

/// Law: an authentication response cut short is refused: reading a strict prefix of
/// its encoding in its layout fails, so `BindAuthResponse::decode` returns an error.
pub proof fn lemma_bind_auth_response_prefix_refused(x: BindAuthResponse, b: Seq<u8>)
    requires
        encode_utf8(x.sn@).len() <= u32::MAX,
        x.aes_sign@.len() <= u32::MAX,
        encode_values(x.fields()).len() <= usize::MAX,
        b.len() < encode_values(x.fields()).len(),
        b == encode_values(x.fields()).subrange(0, b.len() as int),
    ensures
        values_at(b, 0, BindAuthResponse::layout()).1 is Err,
{
    let (vs, ks) = (x.fields(), BindAuthResponse::layout());
    assert forall|i: int| 0 <= i < vs.len() implies fits(#[trigger] vs[i], ks[i]) by {
        if i == 0 {
        } else if i == 1 {
        } else if i == 2 {
        } else if i == 3 {
        } else if i == 4 {
        } else {
        }
    }
    lemma_values_truncated(b, vs, ks);
}

/// Law: a connection confirmation whose code is followed by nothing decodes with no
/// sequence number; followed by an encoded integer, with that sequence number; and
/// followed by bytes that are not a complete integer, it is refused.
pub proof fn lemma_bind_connect_confirm_response_roundtrip(code: i32, rest: Seq<u8>, seq: i64)
    requires
        enc_int(code as int).len() + rest.len() <= usize::MAX,
    ensures
        ({
            let b = enc_int(code as int) + rest;
            let n = enc_int(code as int).len() as int;
            &&& values_at(b, 0, BindConnectConfirmResponse::layout()) == (
                n,
                Ok::<Seq<Value>, crate::error::Fault>(seq![Value::Int(code as int)]),
            )
            &&& rest.len() == 0 ==> optionals_at(b, n, BindConnectConfirmResponse::trailer()) == (
                n,
                Ok::<Seq<Option<Value>>, crate::error::Fault>(seq![None]),
            )
            &&& starts_with_at(b, n, enc_int(seq as int)) ==> optionals_at(
                b,
                n,
                BindConnectConfirmResponse::trailer(),
            ) == (
                n + enc_int(seq as int).len(),
                Ok::<Seq<Option<Value>>, crate::error::Fault>(seq![Some(Value::Int(seq as int))]),
            )
            &&& rest.len() > 0 && i64_at(b, n).1 is Err ==> optionals_at(
                b,
                n,
                BindConnectConfirmResponse::trailer(),
            ).1 is Err
        }),
{
    let b = enc_int(code as int) + rest;
    let n = enc_int(code as int).len() as int;
    let vs = seq![Value::Int(code as int)];
    lemma_encode_values_take(vs, 1);
    assert(encode_values(vs) =~= enc_int(code as int));
    assert(b.subrange(0, n) =~= encode_values(vs));
    lemma_values_roundtrip(b, 0, vs, BindConnectConfirmResponse::layout());
    let t = BindConnectConfirmResponse::trailer();
    lemma_optionals_at_take(b, n, t, 1);
    if starts_with_at(b, n, enc_int(seq as int)) {
        lemma_int_roundtrip(b, n, seq as int);
    }
}

/// The bytes of the first `k` trailing items of an initialisation response: the
/// Bluetooth flag, the maximum data length, the phone number.
pub open spec fn init_trailer_bytes(k: nat, flag: bool, max_len: i32, phone: Seq<char>) -> Seq<u8> {
    (if k >= 1 {
        enc_bool(flag)
    } else {
        Seq::empty()
    }) + (if k >= 2 {
        enc_int(max_len as int)
    } else {
        Seq::empty()
    }) + (if k >= 3 {
        enc_str(phone)
    } else {
        Seq::empty()
    })
}

/// The trailing values read when the first `k` trailing items were sent.
pub open spec fn init_trailer_values(k: nat, flag: bool, max_len: i32, phone: Seq<char>) -> Seq<Option<Value>> {
    seq![
        if k >= 1 { Some(Value::Bool(flag)) } else { None },
        if k >= 2 { Some(Value::Int(max_len as int)) } else { None },
        if k >= 3 { Some(Value::Str(phone)) } else { None },
    ]
}

/// Law: an initialisation response written in its layout, followed by the first `k`
/// of its trailing items, decodes to its nine values (the state being the one of
/// `state_code`) and to those `k` trailing values, the others absent.
pub proof fn lemma_bind_init_response_roundtrip(
    x: BindInitResponse,
    state_code: i32,
    k: nat,
    flag: bool,
    max_len: i32,
    phone: Seq<char>,
)
    requires
        k <= 3,
        encode_utf8(x.open_id@).len() <= u32::MAX,
        encode_utf8(x.version@).len() <= u32::MAX,
        encode_utf8(x.phone_device_id@).len() <= u32::MAX,
        encode_utf8(x.last_app_version@).len() <= u32::MAX,
        encode_utf8(phone).len() <= u32::MAX,
        encode_values(x.fields(state_code as int)).len() + init_trailer_bytes(k, flag, max_len, phone).len()
            <= usize::MAX,
    ensures
        ({
            let base = encode_values(x.fields(state_code as int));
            let b = base + init_trailer_bytes(k, flag, max_len, phone);
            &&& values_at(b, 0, BindInitResponse::layout()) == (
                base.len() as int,
                Ok::<Seq<Value>, crate::error::Fault>(x.fields(state_code as int)),
            )
            &&& optionals_at(b, base.len() as int, BindInitResponse::trailer()) == (
                b.len() as int,
                Ok::<Seq<Option<Value>>, crate::error::Fault>(
                    init_trailer_values(k, flag, max_len, phone),
                ),
            )
        }),
{
    let (vs, ks) = (x.fields(state_code as int), BindInitResponse::layout());
    let base = encode_values(vs);
    let e1: Seq<u8> = if k >= 1 { enc_bool(flag) } else { Seq::empty() };
    let e2: Seq<u8> = if k >= 2 { enc_int(max_len as int) } else { Seq::empty() };
    let e3: Seq<u8> = if k >= 3 { enc_str(phone) } else { Seq::empty() };
    let tail = init_trailer_bytes(k, flag, max_len, phone);
    let b = base + tail;
    assert forall|i: int| 0 <= i < vs.len() implies fits(#[trigger] vs[i], ks[i]) by {
        if i == 0 {
        } else if i == 1 {
        } else if i == 2 {
        } else if i == 3 {
        } else if i == 4 {
        } else if i == 5 {
        } else if i == 6 {
        } else if i == 7 {
        } else {
        }
    }
    assert(b.subrange(0, base.len() as int) =~= base);
    lemma_values_roundtrip(b, 0, vs, ks);
    let n = base.len() as int;
    assert(b.subrange(n, n + tail.len()) =~= tail);
    lemma_starts_with_split(b, n, e1 + e2, e3);
    lemma_starts_with_split(b, n, e1, e2);
    let t = BindInitResponse::trailer();
    lemma_optionals_at_take(b, n, t, 1);
    lemma_optionals_at_take(b, n, t, 2);
    lemma_optionals_at_take(b, n, t, 3);
    assert(t[0] == Kind::Bool && t[1] == Kind::I32 && t[2] == Kind::Str);
    let o1: Option<Value> = if k >= 1 { Some(Value::Bool(flag)) } else { None };
    let o2: Option<Value> = if k >= 2 { Some(Value::Int(max_len as int)) } else { None };
    let o3: Option<Value> = if k >= 3 { Some(Value::Str(phone)) } else { None };
    let p1 = n + e1.len();
    let p2 = p1 + e2.len();
    if k >= 1 {
        lemma_value_roundtrip(b, n, Value::Bool(flag), Kind::Bool);
    }
    assert(optionals_at(b, n, t.take(1)) == (
        p1,
        Ok::<Seq<Option<Value>>, crate::error::Fault>(seq![o1]),
    ));
    if k >= 2 {
        lemma_value_roundtrip(b, p1, Value::Int(max_len as int), Kind::I32);
    }
    if k >= 2 {
        assert(value_at(b, p1, t[1]) == (p2, Ok::<Value, crate::error::Fault>(Value::Int(max_len as int))));
        assert(seq![o1].push(o2) == seq![o1, o2]);
        assert(optionals_at(b, n, t.take(2)) == (
            p2,
            Ok::<Seq<Option<Value>>, crate::error::Fault>(seq![o1, o2]),
        ));
    } else {
        assert(p1 == b.len());
        assert(seq![o1].push(None) == seq![o1, o2]);
        assert(optionals_at(b, n, t.take(2)) == (
            p2,
            Ok::<Seq<Option<Value>>, crate::error::Fault>(seq![o1, o2]),
        ));
    }
    assert(optionals_at(b, n, t.take(2)) == (
        p2,
        Ok::<Seq<Option<Value>>, crate::error::Fault>(seq![o1, o2]),
    ));
    if k >= 3 {
        lemma_value_roundtrip(b, p2, Value::Str(phone), Kind::Str);
        assert(value_at(b, p2, t[2]) == (b.len() as int, Ok::<Value, crate::error::Fault>(Value::Str(phone))));
    } else {
        assert(p2 == b.len());
    }
    assert(seq![o1, o2].push(o3) == seq![o1, o2, o3]);
    assert(optionals_at(b, n, t.take(3)) == (
        b.len() as int,
        Ok::<Seq<Option<Value>>, crate::error::Fault>(seq![o1, o2, o3]),
    ));
}


/// Law: the items of an initialisation response are, in order, the status code,
/// the open id, the version, the packet size, the state's wire code, the phone
/// device id, the last app version, an unused integer and the sequence number.
/// Written so, whatever follows, they are read back as exactly those values, and
/// a response whose values are those has each of them in its own field: the
/// status code is the first item, the unused integer the eighth.
pub proof fn lemma_bind_init_response_items(
    code: i32,
    open_id: Seq<char>,
    version: Seq<char>,
    pack_size: i32,
    state_code: i32,
    phone_device_id: Seq<char>,
    last_app_version: Seq<char>,
    unused: i32,
    seq: i64,
    rest: Seq<u8>,
    x: BindInitResponse,
)
    requires
        encode_utf8(open_id).len() <= u32::MAX,
        encode_utf8(version).len() <= u32::MAX,
        encode_utf8(phone_device_id).len() <= u32::MAX,
        encode_utf8(last_app_version).len() <= u32::MAX,
        (enc_int(code as int) + enc_str(open_id) + enc_str(version) + enc_int(pack_size as int) + enc_int(
            state_code as int,
        ) + enc_str(phone_device_id) + enc_str(last_app_version) + enc_int(unused as int) + enc_int(
            seq as int,
        )).len() + rest.len() <= usize::MAX,
    ensures
        ({
            let b = enc_int(code as int) + enc_str(open_id) + enc_str(version) + enc_int(pack_size as int)
                + enc_int(state_code as int) + enc_str(phone_device_id) + enc_str(last_app_version)
                + enc_int(unused as int) + enc_int(seq as int);
            let vs = seq![
                Value::Int(code as int),
                Value::Str(open_id),
                Value::Str(version),
                Value::Int(pack_size as int),
                Value::Int(state_code as int),
                Value::Str(phone_device_id),
                Value::Str(last_app_version),
                Value::Int(unused as int),
                Value::Int(seq as int),
            ];
            &&& values_at(b + rest, 0, BindInitResponse::layout()) == (
                b.len() as int,
                Ok::<Seq<Value>, crate::error::Fault>(vs),
            )
            &&& int_of(vs[4]) == state_code
            &&& x.fields(state_code as int) == vs ==> {
                &&& x.code == code
                &&& x.open_id@ == open_id
                &&& x.version@ == version
                &&& x.pack_size == pack_size
                &&& x.phone_device_id@ == phone_device_id
                &&& x.last_app_version@ == last_app_version
                &&& x.unused == unused
                &&& x.seq == seq
            }
        }),
{
    let ks = BindInitResponse::layout();
    let b = enc_int(code as int) + enc_str(open_id) + enc_str(version) + enc_int(pack_size as int)
        + enc_int(state_code as int) + enc_str(phone_device_id) + enc_str(last_app_version) + enc_int(
        unused as int,
    ) + enc_int(seq as int);
    let vs = seq![
        Value::Int(code as int),
        Value::Str(open_id),
        Value::Str(version),
        Value::Int(pack_size as int),
        Value::Int(state_code as int),
        Value::Str(phone_device_id),
        Value::Str(last_app_version),
        Value::Int(unused as int),
        Value::Int(seq as int),
    ];
    lemma_encode_values_take(vs, 1);
    lemma_encode_values_take(vs, 2);
    lemma_encode_values_take(vs, 3);
    lemma_encode_values_take(vs, 4);
    lemma_encode_values_take(vs, 5);
    lemma_encode_values_take(vs, 6);
    lemma_encode_values_take(vs, 7);
    lemma_encode_values_take(vs, 8);
    lemma_encode_values_take(vs, 9);
    assert(encode_values(vs.take(1)) =~= enc_int(code as int));
    assert(encode_values(vs) =~= b);
    assert forall|i: int| 0 <= i < vs.len() implies fits(#[trigger] vs[i], ks[i]) by {
        if i == 0 {
        } else if i == 1 {
        } else if i == 2 {
        } else if i == 3 {
        } else if i == 4 {
        } else if i == 5 {
        } else if i == 6 {
        } else if i == 7 {
        } else {
        }
    }
    let whole = b + rest;
    assert(whole.subrange(0, b.len() as int) =~= b);
    lemma_values_roundtrip(whole, 0, vs, ks);
    if x.fields(state_code as int) == vs {
        let f = x.fields(state_code as int);
        assert(f[0] == vs[0] && f[1] == vs[1] && f[2] == vs[2] && f[3] == vs[3]);
        assert(f[5] == vs[5] && f[6] == vs[6] && f[7] == vs[7] && f[8] == vs[8]);
    }
}


/// Law: an authentication response is read as, in order, the status code, the
/// serial number, the random, the signature, the protocol version and the sequence
/// number. Written so, whatever follows, they are read back as exactly those
/// values, and a response whose values are those has each of them in its own field.
pub proof fn lemma_bind_auth_response_items(
    code: i32,
    sn: Seq<char>,
    random: i32,
    aes_sign: Seq<u8>,
    bid_version: i64,
    seq: i64,
    rest: Seq<u8>,
    x: BindAuthResponse,
)
    requires
        encode_utf8(sn).len() <= u32::MAX,
        aes_sign.len() <= u32::MAX,
        (enc_int(code as int) + enc_str(sn) + enc_int(random as int) + enc_bin(aes_sign) + enc_int(
            bid_version as int,
        ) + enc_int(seq as int)).len() + rest.len() <= usize::MAX,
    ensures
        ({
            let b = enc_int(code as int) + enc_str(sn) + enc_int(random as int) + enc_bin(aes_sign)
                + enc_int(bid_version as int) + enc_int(seq as int);
            let vs = seq![
                Value::Int(code as int),
                Value::Str(sn),
                Value::Int(random as int),
                Value::Bin(aes_sign),
                Value::Int(bid_version as int),
                Value::Int(seq as int),
            ];
            &&& values_at(b + rest, 0, BindAuthResponse::layout()) == (
                b.len() as int,
                Ok::<Seq<Value>, crate::error::Fault>(vs),
            )
            &&& x.fields() == vs ==> {
                &&& x.code == code
                &&& x.sn@ == sn
                &&& x.random == random
                &&& x.aes_sign@ == aes_sign
                &&& x.bid_version == bid_version
                &&& x.seq == seq
            }
        }),
{
    let ks = BindAuthResponse::layout();
    let b = enc_int(code as int) + enc_str(sn) + enc_int(random as int) + enc_bin(aes_sign) + enc_int(
        bid_version as int,
    ) + enc_int(seq as int);
    let vs = seq![
        Value::Int(code as int),
        Value::Str(sn),
        Value::Int(random as int),
        Value::Bin(aes_sign),
        Value::Int(bid_version as int),
        Value::Int(seq as int),
    ];
    lemma_encode_values_take(vs, 1);
    lemma_encode_values_take(vs, 2);
    lemma_encode_values_take(vs, 3);
    lemma_encode_values_take(vs, 4);
    lemma_encode_values_take(vs, 5);
    lemma_encode_values_take(vs, 6);
    assert(encode_values(vs.take(1)) =~= enc_int(code as int));
    assert(encode_values(vs) =~= b);
    assert forall|i: int| 0 <= i < vs.len() implies fits(#[trigger] vs[i], ks[i]) by {
        if i == 0 {
        } else if i == 1 {
        } else if i == 2 {
        } else if i == 3 {
        } else if i == 4 {
        } else {
        }
    }
    let whole = b + rest;
    assert(whole.subrange(0, b.len() as int) =~= b);
    lemma_values_roundtrip(whole, 0, vs, ks);
    if x.fields() == vs {
        let f = x.fields();
        assert(f[0] == vs[0] && f[1] == vs[1] && f[2] == vs[2] && f[3] == vs[3]);
        assert(f[4] == vs[4] && f[5] == vs[5]);
    }
}

/// Law: the trailing items of an initialisation response are, in order, whether
/// the phone's Bluetooth address is empty, the maximum data length and the phone
/// number: a response whose trailing values are the first `k` of those has them in
/// those fields, and the others absent.
pub proof fn lemma_bind_init_response_trailer_items(
    k: nat,
    flag: bool,
    max_len: i32,
    phone: Seq<char>,
    x: BindInitResponse,
)
    requires
        x.extras() == init_trailer_values(k, flag, max_len, phone),
    ensures
        x.is_phone_bt_mac_empty == if k >= 1 { Some(flag) } else { None::<bool> },
        x.max_data_length == if k >= 2 { Some(max_len) } else { None::<i32> },
        (x.magic_phone is Some) == (k >= 3),
        k >= 3 ==> x.magic_phone.unwrap()@ == phone,
{
    let (e, t) = (x.extras(), init_trailer_values(k, flag, max_len, phone));
    assert(e[0] == t[0] && e[1] == t[1] && e[2] == t[2]);
}

/// Law: the payload of an initialisation request is the os, the bind flag, the
/// version, the module, the phone device id and the sequence number, in that order.
pub proof fn lemma_bind_init_request_items(x: BindInitRequest)
    ensures
        encode_values(x.fields()) == enc_int(x.os as int) + enc_bool(x.is_bind) + enc_str(x.version@)
            + enc_str(x.module@) + enc_str(x.phone_device_id@) + enc_int(x.seq as int),
{
    let vs = seq![
        Value::Int(x.os as int),
        Value::Bool(x.is_bind),
        Value::Str(x.version@),
        Value::Str(x.module@),
        Value::Str(x.phone_device_id@),
        Value::Int(x.seq as int),
    ];
    lemma_encode_values_take(vs, 1);
    lemma_encode_values_take(vs, 2);
    lemma_encode_values_take(vs, 3);
    lemma_encode_values_take(vs, 4);
    lemma_encode_values_take(vs, 5);
    lemma_encode_values_take(vs, 6);
    assert(encode_values(vs.take(1)) =~= enc_int(x.os as int));
    assert(x.fields() == vs);
}

/// Law: the payload of a bind request is its confirmation flag, `0xc3` for yes and
/// `0xc2` for no; that of a connection confirmation is the sequence number, then
/// whether a backup list exists.
pub proof fn lemma_bind_and_confirm_request_items(x: BindBindRequest, y: BindConnectConfirmRequest)
    ensures
        encode_values(x.fields()) == seq![if x.confirm { 0xc3u8 } else { 0xc2u8 }],
        encode_values(y.fields()) == enc_int(y.seq as int) + enc_bool(y.has_backup_list),
{
    lemma_encode_values_take(x.fields(), 1);
    assert(encode_values(x.fields().take(0)) + enc_bool(x.confirm) =~= enc_bool(x.confirm));
    let f = y.fields();
    lemma_encode_values_take(f, 1);
    lemma_encode_values_take(f, 2);
    assert(encode_values(f.take(1)) =~= enc_int(y.seq as int));
}

/// Law: a response that carries only a status code, and a connection
/// confirmation, are read as their code, then (for the confirmation) the sequence
/// number when one follows: a response whose values are those has them in its
/// fields.
pub proof fn lemma_code_responses_items(
    code: i32,
    seq: Option<i64>,
    x: ResponseCode,
    y: BindConnectConfirmResponse,
)
    ensures
        x.fields() == seq![Value::Int(code as int)] ==> x.code == code,
        y.fields() == seq![Value::Int(code as int)] ==> y.code == code,
        y.extras() == seq![
            match seq {
                Some(s) => Some(Value::Int(s as int)),
                None => None,
            },
        ] ==> y.seq == seq,
{
    if x.fields() == seq![Value::Int(code as int)] {
        assert(x.fields()[0] == Value::Int(code as int));
    }
    if y.fields() == seq![Value::Int(code as int)] {
        assert(y.fields()[0] == Value::Int(code as int));
    }
    let o: Option<Value> = match seq {
        Some(s) => Some(Value::Int(s as int)),
        None => None,
    };
    if y.extras() == seq![o] {
        assert(y.extras()[0] == o);
    }
}

/// Law: the wire codes of the binding states: `0` is the initial state, `1` the
/// bound one, `2` the intermediate one, and every other code the unknown state,
/// whose own code is `-1`.
pub proof fn lemma_bind_state_table(value: i32)
    ensures
        (WatchBindState::from_code(value) == WatchBindState::Init) == (value == 0),
        (WatchBindState::from_code(value) == WatchBindState::Bind) == (value == 1),
        (WatchBindState::from_code(value) == WatchBindState::Mid) == (value == 2),
        (WatchBindState::from_code(value) == WatchBindState::Unknown) == (value < 0 || value > 2),
        WatchBindState::Init.code_of() == 0,
        WatchBindState::Bind.code_of() == 1,
        WatchBindState::Mid.code_of() == 2,
        WatchBindState::Unknown.code_of() == -1,
{
}

/// Law: the phone number sent is the given one when it is not empty, and eleven
/// asterisks when it is.
pub proof fn lemma_phone_on_wire(phone: Seq<char>)
    ensures
        phone.len() > 0 ==> phone_or_placeholder(phone) == phone,
        phone.len() == 0 ==> phone_or_placeholder(phone) == seq!['*', '*', '*', '*', '*', '*', '*', '*', '*', '*', '*'],
{
    reveal_strlit("***********");
    if phone.len() == 0 {
        assert(phone_or_placeholder(phone) =~= seq!['*', '*', '*', '*', '*', '*', '*', '*', '*', '*', '*']);
    }
}

} // verus!
