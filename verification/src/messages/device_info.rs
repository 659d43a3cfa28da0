//! Device information: protocol versions, feature lists, the clock, and the first
//! synchronisation.

use vstd::prelude::*;
use vstd::utf8::encode_utf8;

use crate::error::Result;
use crate::format::{
    array_len_at, blobs, enc_array_len, enc_bool, enc_int, enc_str, encode_values, entries_at,
    lemma_blobs_push, lemma_enc_int_len, lemma_encode_values_take, lemma_entries_err_stays,
    fits, lemma_values_at_take, value_at, values_at, Kind, Value,
};
use crate::roundtrip::{
    lemma_array_len_roundtrip, lemma_entries_roundtrip, lemma_starts_with_split, lemma_values_roundtrip,
    lemma_values_truncated,
};
use crate::msgpack::{write_array_len, write_bin, write_bool, write_i32, write_str, MsgpackReader};

verus! {

/// The business id of the device information messages.
pub const BID_DEVICE_INFO: u8 = 25;
/// The command id of the first synchronisation.
pub const CID_FIRST_SYNC: u8 = 1;
/// The command id of the device information exchange.
pub const CID_DEVICE_INFO: u8 = 2;
/// The command id of the protocol version exchange.
pub const CID_WATCH_BID_VERSION: u8 = 6;

/// The protocol version spoken for one business id.
#[derive(Debug, Clone, Copy, PartialEq, Eq)]
pub struct BidVersion {
    pub bid: i32,
    pub version: i32,
}

impl BidVersion {
    /// The layout of the payload.
    pub open spec fn layout() -> Seq<Kind> {
        seq![Kind::I32, Kind::I32]
    }

    /// The values the payload carries, in order.
    pub open spec fn fields(&self) -> Seq<Value> {
        seq![Value::Int(self.bid as int), Value::Int(self.version as int)]
    }

    /// The payload: business id, then version.
    pub fn payload(&self) -> (r: Vec<u8>)
        ensures
            r@ == encode_values(self.fields()),
    {
        let mut out = Vec::new();
        write_i32(&mut out, self.bid);
        write_i32(&mut out, self.version);
        proof {
            let f = self.fields();
            lemma_encode_values_take(f, 1);
            lemma_encode_values_take(f, 2);
            assert(out@ =~= encode_values(f.take(2)));
        }
        out
    }

    /// Reads a business id and a version; bytes after them are ignored.
    fn read(nested: &[u8]) -> (r: Result<Self>)
        ensures
            match values_at(nested@, 0, Self::layout()).1 {
                Ok(vs) => r matches Ok(x) && x.fields() == vs,
                Err(f) => r matches Err(e) && e.reports(f),
            },
    {
        proof {
            lemma_values_at_take(nested@, 0, Self::layout(), 1);
            lemma_values_at_take(nested@, 0, Self::layout(), 2);
        }
        let mut reader = MsgpackReader::new(nested);
        let bid = reader.read_i32()?;
        let version = reader.read_i32()?;
        Ok(BidVersion { bid, version })
    }
}

/// A feature the phone announces: a key and its value.
#[derive(Debug, Clone, PartialEq, Eq)]
pub struct FeatureItem {
    pub key: i32,
    pub value: String,
}

impl FeatureItem {
    /// The layout of the payload.
    pub open spec fn layout() -> Seq<Kind> {
        seq![Kind::I32, Kind::Str]
    }

    /// The values the payload carries, in order.
    pub open spec fn fields(&self) -> Seq<Value> {
        seq![Value::Int(self.key as int), Value::Str(self.value@)]
    }

    /// Whether the item can be written as a blob: its value and its whole payload
    /// are at most `u32::MAX` bytes long.
    pub open spec fn writable(&self) -> bool {
        &&& encode_utf8(self.value@).len() <= u32::MAX
        &&& encode_values(self.fields()).len() <= u32::MAX
    }

    /// The payload: key, then value. It fails when the value is longer than
    /// `u32::MAX` bytes.
    pub fn payload(&self) -> (r: Result<Vec<u8>>)
        ensures
            r is Ok <==> encode_utf8(self.value@).len() <= u32::MAX,
            r matches Ok(bytes) ==> bytes@ == encode_values(self.fields()),
            r matches Err(e) ==> e is IntConversion,
    {
        let mut out = Vec::new();
        write_i32(&mut out, self.key);
        write_str(&mut out, self.value.as_str())?;
        proof {
            let f = self.fields();
            lemma_encode_values_take(f, 1);
            lemma_encode_values_take(f, 2);
            assert(out@ =~= encode_values(f.take(2)));
        }
        Ok(out)
    }

    /// Reads a key and a value; bytes after them are ignored.
    fn read(nested: &[u8]) -> (r: Result<Self>)
        ensures
            match values_at(nested@, 0, Self::layout()).1 {
                Ok(vs) => r matches Ok(x) && x.fields() == vs,
                Err(f) => r matches Err(e) && e.reports(f),
            },
    {
        proof {
            lemma_values_at_take(nested@, 0, Self::layout(), 1);
            lemma_values_at_take(nested@, 0, Self::layout(), 2);
        }
        let mut reader = MsgpackReader::new(nested);
        let key = reader.read_i32()?;
        let value = reader.read_str()?;
        Ok(FeatureItem { key, value })
    }
}

/// The values of each of some protocol versions.
pub open spec fn bid_version_entries(items: Seq<BidVersion>) -> Seq<Seq<Value>> {
    items.map_values(|x: BidVersion| x.fields())
}

/// The values of each of some features.
pub open spec fn feature_entries(items: Seq<FeatureItem>) -> Seq<Seq<Value>> {
    items.map_values(|x: FeatureItem| x.fields())
}

/// The phone's protocol versions and features, sent to the watch.
#[derive(Debug, Clone, PartialEq, Eq)]
pub struct WatchBidVersionRequest {
    pub sync_bid_versions: bool,
    pub sync_features: bool,
    pub phone_bid_version: i32,
    pub bid_versions: Vec<BidVersion>,
    pub features: Vec<FeatureItem>,
}

impl WatchBidVersionRequest {
    /// The values before the two lists, in order.
    pub open spec fn fields(&self) -> Seq<Value> {
        seq![
            Value::Bool(self.sync_bid_versions),
            Value::Bool(self.sync_features),
            Value::Int(self.phone_bid_version as int),
        ]
    }

    /// Whether every feature can be written.
    pub open spec fn features_writable(&self) -> bool {
        forall|j: int| 0 <= j < self.features@.len() ==> #[trigger] self.features@[j].writable()
    }

    /// The payload: the two flags and the phone's version, then the array of
    /// protocol versions and the array of features, each item a blob that holds its
    /// own payload. It fails when a list has more than `u32::MAX` items or a feature
    /// cannot be written.
    pub fn payload(&self) -> (r: Result<Vec<u8>>)
        ensures
            r is Ok <==> self.bid_versions@.len() <= u32::MAX && self.features@.len() <= u32::MAX
                && self.features_writable(),
            r matches Ok(bytes) ==> bytes@ == encode_values(self.fields()) + enc_array_len(
                self.bid_versions@.len(),
            ) + blobs(bid_version_entries(self.bid_versions@)) + enc_array_len(
                self.features@.len(),
            ) + blobs(feature_entries(self.features@)),
            r matches Err(e) ==> e is IntConversion,
    {
        let mut out = Vec::new();
        write_bool(&mut out, self.sync_bid_versions);
        write_bool(&mut out, self.sync_features);
        write_i32(&mut out, self.phone_bid_version);
        proof {
            let f = self.fields();
            lemma_encode_values_take(f, 1);
            lemma_encode_values_take(f, 2);
            lemma_encode_values_take(f, 3);
            assert(out@ =~= encode_values(f.take(3)));
        }
        write_array_len(&mut out, self.bid_versions.len())?;
        let ghost head = out@;
        let mut i: usize = 0;
        while i < self.bid_versions.len()
            invariant
                i <= self.bid_versions@.len(),
                out@ == head + blobs(bid_version_entries(self.bid_versions@.take(i as int))),
            decreases self.bid_versions@.len() - i,
        {
            let item = self.bid_versions[i].payload();
            proof {
                let v = self.bid_versions@[i as int];
                lemma_enc_int_len(v.bid as int);
                lemma_enc_int_len(v.version as int);
                lemma_encode_values_take(v.fields(), 1);
                lemma_encode_values_take(v.fields(), 2);
            }
            let ghost before = out@;
            match write_bin(&mut out, item.as_slice()) {
                Ok(()) => {},
                Err(e) => {
                    return Err(e);
                },
            }
            proof {
                let items = self.bid_versions@;
                assert(items.take(i + 1) =~= items.take(i as int).push(items[i as int]));
                assert(bid_version_entries(items.take(i + 1)) =~= bid_version_entries(
                    items.take(i as int),
                ).push(items[i as int].fields()));
                lemma_blobs_push(
                    bid_version_entries(items.take(i as int)),
                    items[i as int].fields(),
                );
                assert(out@ =~= head + blobs(bid_version_entries(items.take(i + 1))));
            }
            i = i + 1;
        }
        proof {
            assert(self.bid_versions@.take(i as int) =~= self.bid_versions@);
        }
        let ghost middle = out@;
        match write_array_len(&mut out, self.features.len()) {
            Ok(()) => {},
            Err(e) => {
                return Err(e);
            },
        }
        let ghost tail_head = out@;
        let mut j: usize = 0;
        while j < self.features.len()
            invariant
                j <= self.features@.len(),
                self.features@.len() <= u32::MAX,
                self.bid_versions@.len() <= u32::MAX,
                forall|k: int| 0 <= k < j ==> #[trigger] self.features@[k].writable(),
                out@ == tail_head + blobs(feature_entries(self.features@.take(j as int))),
            decreases self.features@.len() - j,
        {
            let item = match self.features[j].payload() {
                Ok(item) => item,
                Err(e) => {
                    assert(!self.features@[j as int].writable());
                    return Err(e);
                },
            };
            match write_bin(&mut out, item.as_slice()) {
                Ok(()) => {},
                Err(e) => {
                    assert(!self.features@[j as int].writable());
                    return Err(e);
                },
            }
            proof {
                let items = self.features@;
                assert(items[j as int].writable());
                assert(items.take(j + 1) =~= items.take(j as int).push(items[j as int]));
                assert(feature_entries(items.take(j + 1)) =~= feature_entries(
                    items.take(j as int),
                ).push(items[j as int].fields()));
                lemma_blobs_push(feature_entries(items.take(j as int)), items[j as int].fields());
                assert(out@ =~= tail_head + blobs(feature_entries(items.take(j + 1))));
            }
            j = j + 1;
        }
        proof {
            assert(self.features@.take(j as int) =~= self.features@);
        }
        Ok(out)
    }
}

/// The watch's protocol versions and features.
#[derive(Debug, Clone, PartialEq, Eq)]
pub struct WatchBidVersionResponse {
    pub code: i32,
    pub phone_bid_version: i32,
    pub bid_versions: Vec<BidVersion>,
    pub features: Vec<FeatureItem>,
}

impl WatchBidVersionResponse {
    /// The command id of this response.
    pub const CID: u8 = CID_WATCH_BID_VERSION | 0x80;

    /// The layout of the items before the lists.
    pub open spec fn layout() -> Seq<Kind> {
        seq![Kind::I32, Kind::I32]
    }

    /// The values before the lists, in order.
    pub open spec fn fields(&self) -> Seq<Value> {
        seq![Value::Int(self.code as int), Value::Int(self.phone_bid_version as int)]
    }

    /// What decoding `b` gives: the values before the lists, the entries of the
    /// protocol versions, and the entries of the features (none when the stream ends
    /// after the protocol versions); or the first fault.
    pub open spec fn decoded(b: Seq<u8>) -> core::result::Result<(Seq<Value>, Seq<Seq<Value>>, Seq<Seq<Value>>), crate::error::Fault> {
        let (q, base) = values_at(b, 0, Self::layout());
        match base {
            Err(f) => Err(f),
            Ok(vs) => {
                let (q1, n) = array_len_at(b, q);
                match n {
                    Err(f) => Err(f),
                    Ok(n) => {
                        let (q2, es) = entries_at(b, q1, n as nat, BidVersion::layout());
                        match es {
                            Err(f) => Err(f),
                            Ok(es) => if q2 < b.len() {
                                let (q3, m) = array_len_at(b, q2);
                                match m {
                                    Err(f) => Err(f),
                                    Ok(m) => match entries_at(b, q3, m as nat, FeatureItem::layout()).1 {
                                        Err(f) => Err(f),
                                        Ok(fs) => Ok((vs, es, fs)),
                                    },
                                }
                            } else {
                                Ok((vs, es, Seq::empty()))
                            },
                        }
                    },
                }
            },
        }
    }

    /// Reads code and phone version, the array of protocol versions, and, if bytes
    /// remain, the array of features; each item is a blob read as its own payload.
    pub fn decode(payload: &[u8]) -> (r: Result<Self>)
        ensures
            match Self::decoded(payload@) {
                Ok((vs, es, fs)) => r matches Ok(x) && x.fields() == vs && bid_version_entries(
                    x.bid_versions@,
                ) == es && feature_entries(x.features@) == fs,
                Err(f) => r matches Err(e) && e.reports(f),
            },
    {
        let ghost b = payload@;
        proof {
            lemma_values_at_take(b, 0, Self::layout(), 1);
            lemma_values_at_take(b, 0, Self::layout(), 2);
        }
        let mut reader = MsgpackReader::new(payload);
        let code = reader.read_i32()?;
        let ghost p1 = reader.cursor();
        let phone_bid_version = reader.read_i32()?;
        let ghost q0 = reader.cursor();
        proof {
            let l = Self::layout();
            assert(values_at(b, 0, l.take(1)) == (
                p1,
                Ok::<Seq<Value>, crate::error::Fault>(seq![Value::Int(code as int)]),
            ));
            assert(value_at(b, p1, Kind::I32) == (
                q0,
                Ok::<Value, crate::error::Fault>(Value::Int(phone_bid_version as int)),
            ));
            assert(l[1] == Kind::I32);
            assert(seq![Value::Int(code as int)].push(Value::Int(phone_bid_version as int))
                == seq![Value::Int(code as int), Value::Int(phone_bid_version as int)]);
            assert(values_at(b, 0, l.take(2)) == (
                q0,
                Ok::<Seq<Value>, crate::error::Fault>(
                    seq![Value::Int(code as int), Value::Int(phone_bid_version as int)],
                ),
            ));
        }
        let bid_count = reader.read_array_len()?;
        let ghost q1 = reader.cursor();
        let mut bid_versions: Vec<BidVersion> = Vec::new();
        assert(bid_version_entries(bid_versions@) =~= Seq::<Seq<Value>>::empty());
        let mut i: usize = 0;
        while i < bid_count
            invariant
                i <= bid_count,
                b == payload@,
                reader.bytes() == b,
                values_at(b, 0, Self::layout()) == (
                    q0,
                    Ok::<Seq<Value>, crate::error::Fault>(seq![Value::Int(code as int), Value::Int(phone_bid_version as int)]),
                ),
                array_len_at(b, q0) == (q1, Ok::<usize, crate::error::Fault>(bid_count)),
                entries_at(b, q1, i as nat, BidVersion::layout()) == (
                    reader.cursor(),
                    Ok::<Seq<Seq<Value>>, crate::error::Fault>(bid_version_entries(bid_versions@)),
                ),
            decreases bid_count - i,
        {
            let nested = match reader.read_bin() {
                Ok(nested) => nested,
                Err(e) => {
                    proof {
                        lemma_entries_err_stays(b, q1, (i + 1) as nat, bid_count as nat, BidVersion::layout());
                    }
                    return Err(e);
                },
            };
            let item = match BidVersion::read(nested.as_slice()) {
                Ok(item) => item,
                Err(e) => {
                    proof {
                        lemma_entries_err_stays(b, q1, (i + 1) as nat, bid_count as nat, BidVersion::layout());
                    }
                    return Err(e);
                },
            };
            let ghost old_items = bid_versions@;
            bid_versions.push(item);
            proof {
                assert(bid_version_entries(bid_versions@) =~= bid_version_entries(old_items).push(
                    item.fields(),
                ));
            }
            i = i + 1;
        }
        let ghost q2 = reader.cursor();
        let mut features: Vec<FeatureItem> = Vec::new();
        assert(feature_entries(features@) =~= Seq::<Seq<Value>>::empty());
        if reader.has_next() {
            let feature_count = reader.read_array_len()?;
            let ghost q3 = reader.cursor();
            let mut j: usize = 0;
            while j < feature_count
                invariant
                    j <= feature_count,
                    b == payload@,
                    reader.bytes() == b,
                    values_at(b, 0, Self::layout()) == (
                        q0,
                        Ok::<Seq<Value>, crate::error::Fault>(seq![Value::Int(code as int), Value::Int(phone_bid_version as int)]),
                    ),
                    array_len_at(b, q0) == (q1, Ok::<usize, crate::error::Fault>(bid_count)),
                    entries_at(b, q1, bid_count as nat, BidVersion::layout()) == (
                        q2,
                        Ok::<Seq<Seq<Value>>, crate::error::Fault>(bid_version_entries(bid_versions@)),
                    ),
                    q2 < b.len(),
                    array_len_at(b, q2) == (q3, Ok::<usize, crate::error::Fault>(feature_count)),
                    entries_at(b, q3, j as nat, FeatureItem::layout()) == (
                        reader.cursor(),
                        Ok::<Seq<Seq<Value>>, crate::error::Fault>(feature_entries(features@)),
                    ),
                decreases feature_count - j,
            {
                let nested = match reader.read_bin() {
                    Ok(nested) => nested,
                    Err(e) => {
                        proof {
                            lemma_entries_err_stays(b, q3, (j + 1) as nat, feature_count as nat, FeatureItem::layout());
                        }
                        return Err(e);
                    },
                };
                let item = match FeatureItem::read(nested.as_slice()) {
                    Ok(item) => item,
                    Err(e) => {
                        proof {
                            lemma_entries_err_stays(b, q3, (j + 1) as nat, feature_count as nat, FeatureItem::layout());
                        }
                        return Err(e);
                    },
                };
                let ghost old_items = features@;
                features.push(item);
                proof {
                    assert(feature_entries(features@) =~= feature_entries(old_items).push(
                        item.fields(),
                    ));
                }
                j = j + 1;
            }
        }
        Ok(WatchBidVersionResponse { code, phone_bid_version, bid_versions, features })
    }
}

/// The phone's clock, sent to the watch.
#[derive(Debug, Clone, Copy, PartialEq, Eq)]
pub struct DeviceInfoRequest {
    pub unix_time_sec: i32,
    pub gmt_timezone: i32,
    pub os_type: i32,
    pub millis: i32,
    pub timezone_offset_sec: Option<i32>,
}

impl DeviceInfoRequest {
    /// The values the payload carries, in order; the time zone offset only when it
    /// is known.
    pub open spec fn fields(&self) -> Seq<Value> {
        seq![
            Value::Int(self.unix_time_sec as int),
            Value::Int(self.gmt_timezone as int),
            Value::Int(self.os_type as int),
            Value::Int(self.millis as int),
        ] + match self.timezone_offset_sec {
            Some(x) => seq![Value::Int(x as int)],
            None => Seq::empty(),
        }
    }

    /// The payload: time, time zone, os type, milliseconds, then the time zone offset
    /// if it is known.
    pub fn payload(&self) -> (r: Vec<u8>)
        ensures
            r@ == encode_values(self.fields()),
    {
        let mut out = Vec::new();
        write_i32(&mut out, self.unix_time_sec);
        write_i32(&mut out, self.gmt_timezone);
        write_i32(&mut out, self.os_type);
        write_i32(&mut out, self.millis);
        let ghost f = self.fields();
        proof {
            lemma_encode_values_take(f, 1);
            lemma_encode_values_take(f, 2);
            lemma_encode_values_take(f, 3);
            lemma_encode_values_take(f, 4);
            assert(out@ =~= encode_values(f.take(4)));
        }
        if let Some(offset) = self.timezone_offset_sec {
            write_i32(&mut out, offset);
            proof {
                lemma_encode_values_take(f, 5);
                assert(out@ =~= encode_values(f.take(5)));
            }
        } else {
            assert(f.take(4) =~= f);
        }
        out
    }
}

/// The watch's answer to the first synchronisation: its state and identity. Newer
/// watches send more items after these, which are not read.
#[derive(Debug, Clone, PartialEq, Eq)]
pub struct WatchFirstSyncResp {
    pub code: i32,
    pub battery: i32,
    pub total_storage: i64,
    pub free_storage: i64,
    pub device_name: String,
    pub version: String,
    pub sn: String,
    pub mac: String,
    pub model: String,
    pub version_type: i32,
    pub ble_mac: String,
    pub product_id: i32,
}

impl WatchFirstSyncResp {
    /// The command id of this response.
    pub const CID: u8 = CID_FIRST_SYNC | 0x80;

    /// The layout of the items read.
    pub open spec fn layout() -> Seq<Kind> {
        seq![
            Kind::I32,
            Kind::I32,
            Kind::I64,
            Kind::I64,
            Kind::Str,
            Kind::Str,
            Kind::Str,
            Kind::Str,
            Kind::Str,
            Kind::I32,
            Kind::Str,
            Kind::I32,
        ]
    }

    /// The values read, in order.
    pub open spec fn fields(&self) -> Seq<Value> {
        seq![
            Value::Int(self.code as int),
            Value::Int(self.battery as int),
            Value::Int(self.total_storage as int),
            Value::Int(self.free_storage as int),
            Value::Str(self.device_name@),
            Value::Str(self.version@),
            Value::Str(self.sn@),
            Value::Str(self.mac@),
            Value::Str(self.model@),
            Value::Int(self.version_type as int),
            Value::Str(self.ble_mac@),
            Value::Int(self.product_id as int),
        ]
    }

    /// Reads the twelve leading items; bytes after them are ignored.
    pub fn decode_prefix(payload: &[u8]) -> (r: Result<Self>)
        ensures
            match values_at(payload@, 0, Self::layout()).1 {
                Ok(vs) => r matches Ok(x) && x.fields() == vs,
                Err(f) => r matches Err(e) && e.reports(f),
            },
    {
        proof {
            let (b, l) = (payload@, Self::layout());
            lemma_values_at_take(b, 0, l, 1);
            lemma_values_at_take(b, 0, l, 2);
            lemma_values_at_take(b, 0, l, 3);
            lemma_values_at_take(b, 0, l, 4);
            lemma_values_at_take(b, 0, l, 5);
            lemma_values_at_take(b, 0, l, 6);
            lemma_values_at_take(b, 0, l, 7);
            lemma_values_at_take(b, 0, l, 8);
            lemma_values_at_take(b, 0, l, 9);
            lemma_values_at_take(b, 0, l, 10);
            lemma_values_at_take(b, 0, l, 11);
            lemma_values_at_take(b, 0, l, 12);
        }
        let mut reader = MsgpackReader::new(payload);
        let code = reader.read_i32()?;
        let battery = reader.read_i32()?;
        let total_storage = reader.read_i64()?;
        let free_storage = reader.read_i64()?;
        let device_name = reader.read_str()?;
        let version = reader.read_str()?;
        let sn = reader.read_str()?;
        let mac = reader.read_str()?;
        let model = reader.read_str()?;
        let version_type = reader.read_i32()?;
        let ble_mac = reader.read_str()?;
        let product_id = reader.read_i32()?;
        Ok(WatchFirstSyncResp {
            code,
            battery,
            total_storage,
            free_storage,
            device_name,
            version,
            sn,
            mac,
            model,
            version_type,
            ble_mac,
            product_id,
        })
    }
}

/// Law: a first-synchronisation response written in its layout decodes to itself,
/// whatever follows it; cut short anywhere, it is refused.
pub proof fn lemma_first_sync_roundtrip(x: WatchFirstSyncResp, rest: Seq<u8>, b: Seq<u8>)
    requires
        encode_utf8(x.device_name@).len() <= u32::MAX,
        encode_utf8(x.version@).len() <= u32::MAX,
        encode_utf8(x.sn@).len() <= u32::MAX,
        encode_utf8(x.mac@).len() <= u32::MAX,
        encode_utf8(x.model@).len() <= u32::MAX,
        encode_utf8(x.ble_mac@).len() <= u32::MAX,
        encode_values(x.fields()).len() + rest.len() <= usize::MAX,
    ensures
        values_at(encode_values(x.fields()) + rest, 0, WatchFirstSyncResp::layout()) == (
            encode_values(x.fields()).len() as int,
            Ok::<Seq<Value>, crate::error::Fault>(x.fields()),
        ),
        b.len() < encode_values(x.fields()).len() && b == encode_values(x.fields()).subrange(
            0,
            b.len() as int,
        ) ==> values_at(b, 0, WatchFirstSyncResp::layout()).1 is Err,
{
    let (vs, ks) = (x.fields(), WatchFirstSyncResp::layout());
    assert forall|i: int| 0 <= i < vs.len() implies fits(#[trigger] vs[i], ks[i]) by {
        if i == 0 {
        } else if i == 1 {
        } else if i == 2 {
        } else if i == 3 {
        } else if i == 4 {
        } else if i == 5 {
        } else if i == 6 {
        } else if i == 7 {
        } else if i == 8 {
        } else if i == 9 {
        } else if i == 10 {
        } else {
        }
    }
    let whole = encode_values(vs) + rest;
    assert(whole.subrange(0, encode_values(vs).len() as int) =~= encode_values(vs));
    lemma_values_roundtrip(whole, 0, vs, ks);
    if b.len() < encode_values(vs).len() && b == encode_values(vs).subrange(0, b.len() as int) {
        lemma_values_truncated(b, vs, ks);
    }
}

/// The bytes of a protocol-versions response: code and phone version, the array of
/// protocol versions, and, when `with_features`, the array of features, each item
/// a blob holding its own payload.
pub open spec fn bid_version_response_bytes(
    code: i32,
    phone_bid_version: i32,
    bid_versions: Seq<BidVersion>,
    features: Seq<FeatureItem>,
    with_features: bool,
) -> Seq<u8> {
    encode_values(seq![Value::Int(code as int), Value::Int(phone_bid_version as int)]) + enc_array_len(
        bid_versions.len(),
    ) + blobs(bid_version_entries(bid_versions)) + if with_features {
        enc_array_len(features.len()) + blobs(feature_entries(features))
    } else {
        Seq::empty()
    }
}

/// Law: a protocol-versions response written as its sender writes it decodes to its
/// code, phone version and protocol versions, in order, and to its features when
/// they were sent, none otherwise.
pub proof fn lemma_bid_version_response_roundtrip(
    code: i32,
    phone_bid_version: i32,
    bid_versions: Seq<BidVersion>,
    features: Seq<FeatureItem>,
    with_features: bool,
)
    requires
        bid_versions.len() <= u32::MAX,
        features.len() <= u32::MAX,
        forall|j: int| 0 <= j < features.len() ==> #[trigger] features[j].writable(),
        bid_version_response_bytes(code, phone_bid_version, bid_versions, features, with_features).len()
            <= usize::MAX,
    ensures
        WatchBidVersionResponse::decoded(
            bid_version_response_bytes(code, phone_bid_version, bid_versions, features, with_features),
        ) == Ok::<(Seq<Value>, Seq<Seq<Value>>, Seq<Seq<Value>>), crate::error::Fault>(
            (
                seq![Value::Int(code as int), Value::Int(phone_bid_version as int)],
                bid_version_entries(bid_versions),
                if with_features {
                    feature_entries(features)
                } else {
                    Seq::empty()
                },
            ),
        ),
{
    let b = bid_version_response_bytes(code, phone_bid_version, bid_versions, features, with_features);
    let vs = seq![Value::Int(code as int), Value::Int(phone_bid_version as int)];
    let e0 = encode_values(vs);
    let h1 = enc_array_len(bid_versions.len());
    let es = bid_version_entries(bid_versions);
    let b1 = blobs(es);
    let fe = feature_entries(features);
    let tail: Seq<u8> = if with_features {
        enc_array_len(features.len()) + blobs(fe)
    } else {
        Seq::empty()
    };
    assert(b == e0 + h1 + b1 + tail);
    assert(b.subrange(0, b.len() as int) =~= b);
    lemma_starts_with_split(b, 0, e0 + h1 + b1, tail);
    lemma_starts_with_split(b, 0, e0 + h1, b1);
    lemma_starts_with_split(b, 0, e0, h1);
    assert(fits(vs[0], Kind::I32) && fits(vs[1], Kind::I32));
    assert forall|i: int| 0 <= i < vs.len() implies fits(#[trigger] vs[i], WatchBidVersionResponse::layout()[i]) by {
        if i == 0 {
        } else {
        }
    }
    lemma_values_roundtrip(b, 0, vs, WatchBidVersionResponse::layout());
    lemma_array_len_roundtrip(b, e0.len() as int, bid_versions.len());
    let q1: int = e0.len() as int + h1.len();
    assert forall|i: int|
        #![trigger es[i]]
        0 <= i < es.len() implies es[i].len() == BidVersion::layout().len() && encode_values(es[i]).len()
            <= u32::MAX && forall|j: int|
            0 <= j < BidVersion::layout().len() ==> fits(#[trigger] es[i][j], BidVersion::layout()[j]) by {
        let v = bid_versions[i];
        assert(es[i] == v.fields());
        lemma_enc_int_len(v.bid as int);
        lemma_enc_int_len(v.version as int);
        lemma_encode_values_take(v.fields(), 1);
        lemma_encode_values_take(v.fields(), 2);
    }
    lemma_entries_roundtrip(b, q1, es, BidVersion::layout());
    let q2: int = q1 + b1.len() as int;
    if with_features {
        let h2 = enc_array_len(features.len());
        lemma_starts_with_split(b, q2, h2, blobs(fe));
        lemma_array_len_roundtrip(b, q2, features.len());
        assert forall|i: int|
            #![trigger fe[i]]
            0 <= i < fe.len() implies fe[i].len() == FeatureItem::layout().len() && encode_values(fe[i]).len()
                <= u32::MAX && forall|j: int|
                0 <= j < FeatureItem::layout().len() ==> fits(#[trigger] fe[i][j], FeatureItem::layout()[j]) by {
            let f = features[i];
            assert(fe[i] == f.fields());
            assert(f.writable());
            assert forall|j: int| 0 <= j < FeatureItem::layout().len() implies fits(#[trigger] fe[i][j], FeatureItem::layout()[j]) by {
                if j == 0 {
                } else {
                }
            }
        }
        lemma_entries_roundtrip(b, q2 + h2.len() as int, fe, FeatureItem::layout());
    } else {
        assert(q2 == b.len());
    }
}


/// Law: the items of a first-synchronisation response are, in order, the status
/// code, the battery level, the total and the free storage, the device name, the
/// firmware version, the serial number, the MAC address, the model, the version
/// type, the BLE MAC address and the product id. Written so, whatever follows,
/// they are read back as exactly those values, and a response whose values are
/// those has each of them in its own field: the serial number is the seventh item
/// and the MAC address the eighth.
pub proof fn lemma_first_sync_items(
    code: i32,
    battery: i32,
    total_storage: i64,
    free_storage: i64,
    device_name: Seq<char>,
    version: Seq<char>,
    sn: Seq<char>,
    mac: Seq<char>,
    model: Seq<char>,
    version_type: i32,
    ble_mac: Seq<char>,
    product_id: i32,
    rest: Seq<u8>,
    x: WatchFirstSyncResp,
)
    requires
        encode_utf8(device_name).len() <= u32::MAX,
        encode_utf8(version).len() <= u32::MAX,
        encode_utf8(sn).len() <= u32::MAX,
        encode_utf8(mac).len() <= u32::MAX,
        encode_utf8(model).len() <= u32::MAX,
        encode_utf8(ble_mac).len() <= u32::MAX,
        (enc_int(code as int) + enc_int(battery as int) + enc_int(total_storage as int) + enc_int(
            free_storage as int,
        ) + enc_str(device_name) + enc_str(version) + enc_str(sn) + enc_str(mac) + enc_str(model)
            + enc_int(version_type as int) + enc_str(ble_mac) + enc_int(product_id as int)).len()
            + rest.len() <= usize::MAX,
    ensures
        ({
            let b = enc_int(code as int) + enc_int(battery as int) + enc_int(total_storage as int)
                + enc_int(free_storage as int) + enc_str(device_name) + enc_str(version) + enc_str(sn)
                + enc_str(mac) + enc_str(model) + enc_int(version_type as int) + enc_str(ble_mac)
                + enc_int(product_id as int);
            let vs = seq![
                Value::Int(code as int),
                Value::Int(battery as int),
                Value::Int(total_storage as int),
                Value::Int(free_storage as int),
                Value::Str(device_name),
                Value::Str(version),
                Value::Str(sn),
                Value::Str(mac),
                Value::Str(model),
                Value::Int(version_type as int),
                Value::Str(ble_mac),
                Value::Int(product_id as int),
            ];
            &&& values_at(b + rest, 0, WatchFirstSyncResp::layout()) == (
                b.len() as int,
                Ok::<Seq<Value>, crate::error::Fault>(vs),
            )
            &&& x.fields() == vs ==> {
                &&& x.code == code
                &&& x.battery == battery
                &&& x.total_storage == total_storage
                &&& x.free_storage == free_storage
                &&& x.device_name@ == device_name
                &&& x.version@ == version
                &&& x.sn@ == sn
                &&& x.mac@ == mac
                &&& x.model@ == model
                &&& x.version_type == version_type
                &&& x.ble_mac@ == ble_mac
                &&& x.product_id == product_id
            }
        }),
{
    let ks = WatchFirstSyncResp::layout();
    let b = enc_int(code as int) + enc_int(battery as int) + enc_int(total_storage as int) + enc_int(
        free_storage as int,
    ) + enc_str(device_name) + enc_str(version) + enc_str(sn) + enc_str(mac) + enc_str(model)
        + enc_int(version_type as int) + enc_str(ble_mac) + enc_int(product_id as int);
    let vs = seq![
        Value::Int(code as int),
        Value::Int(battery as int),
        Value::Int(total_storage as int),
        Value::Int(free_storage as int),
        Value::Str(device_name),
        Value::Str(version),
        Value::Str(sn),
        Value::Str(mac),
        Value::Str(model),
        Value::Int(version_type as int),
        Value::Str(ble_mac),
        Value::Int(product_id as int),
    ];
    lemma_encode_values_take(vs, 1);
    lemma_encode_values_take(vs, 2);
    lemma_encode_values_take(vs, 3);
    lemma_encode_values_take(vs, 4);
    lemma_encode_values_take(vs, 5);
    lemma_encode_values_take(vs, 6);
    lemma_encode_values_take(vs, 7);
    lemma_encode_values_take(vs, 8);
    lemma_encode_values_take(vs, 9);
    lemma_encode_values_take(vs, 10);
    lemma_encode_values_take(vs, 11);
    lemma_encode_values_take(vs, 12);
    assert(encode_values(vs.take(1)) =~= enc_int(code as int));
    assert(encode_values(vs) =~= b);
    assert forall|i: int| 0 <= i < vs.len() implies fits(#[trigger] vs[i], ks[i]) by {
        if i == 0 {
        } else if i == 1 {
        } else if i == 2 {
        } else if i == 3 {
        } else if i == 4 {
        } else if i == 5 {
        } else if i == 6 {
        } else if i == 7 {
        } else if i == 8 {
        } else if i == 9 {
        } else if i == 10 {
        } else {
        }
    }
    let whole = b + rest;
    assert(whole.subrange(0, b.len() as int) =~= b);
    lemma_values_roundtrip(whole, 0, vs, ks);
    if x.fields() == vs {
        let f = x.fields();
        assert(f[0] == vs[0] && f[1] == vs[1] && f[2] == vs[2] && f[3] == vs[3]);
        assert(f[4] == vs[4] && f[5] == vs[5] && f[6] == vs[6] && f[7] == vs[7]);
        assert(f[8] == vs[8] && f[9] == vs[9] && f[10] == vs[10] && f[11] == vs[11]);
    }
}


/// Law: a protocol version is written as its business id, then its version; a
/// feature as its key, then its value. Read back, values of that shape put each
/// item in its own field.
pub proof fn lemma_version_and_feature_items(
    x: BidVersion,
    y: FeatureItem,
    bid: i32,
    version: i32,
    key: i32,
    value: Seq<char>,
)
    ensures
        encode_values(x.fields()) == enc_int(x.bid as int) + enc_int(x.version as int),
        encode_values(y.fields()) == enc_int(y.key as int) + enc_str(y.value@),
        x.fields() == seq![Value::Int(bid as int), Value::Int(version as int)] ==> x.bid == bid
            && x.version == version,
        y.fields() == seq![Value::Int(key as int), Value::Str(value)] ==> y.key == key && y.value@
            == value,
{
    let (f, g) = (x.fields(), y.fields());
    lemma_encode_values_take(f, 1);
    lemma_encode_values_take(f, 2);
    assert(encode_values(f.take(1)) =~= enc_int(x.bid as int));
    lemma_encode_values_take(g, 1);
    lemma_encode_values_take(g, 2);
    assert(encode_values(g.take(1)) =~= enc_int(y.key as int));
    if f == seq![Value::Int(bid as int), Value::Int(version as int)] {
        assert(f[0] == Value::Int(bid as int) && f[1] == Value::Int(version as int));
    }
    if g == seq![Value::Int(key as int), Value::Str(value)] {
        assert(g[0] == Value::Int(key as int) && g[1] == Value::Str(value));
    }
}

/// Law: lists of protocol versions, or of features, with the same entries hold the
/// same items in the same order.
pub proof fn lemma_entries_determine_items(
    a: Seq<BidVersion>,
    b: Seq<BidVersion>,
    c: Seq<FeatureItem>,
    d: Seq<FeatureItem>,
)
    ensures
        bid_version_entries(a) == bid_version_entries(b) ==> a == b,
        feature_entries(c) == feature_entries(d) ==> c.len() == d.len() && forall|i: int|
            0 <= i < c.len() ==> (#[trigger] c[i]).key == d[i].key && c[i].value@ == d[i].value@,
{
    if bid_version_entries(a) == bid_version_entries(b) {
        assert(bid_version_entries(a).len() == a.len() && bid_version_entries(b).len() == b.len());
        assert forall|i: int| 0 <= i < a.len() implies #[trigger] a[i] == b[i] by {
            assert(bid_version_entries(a)[i] == a[i].fields());
            assert(bid_version_entries(b)[i] == b[i].fields());
            assert(a[i].fields()[0] == b[i].fields()[0]);
            assert(a[i].fields()[1] == b[i].fields()[1]);
        }
        assert(a =~= b);
    }
    if feature_entries(c) == feature_entries(d) {
        assert(feature_entries(c).len() == c.len() && feature_entries(d).len() == d.len());
        assert forall|i: int| 0 <= i < c.len() implies (#[trigger] c[i]).key == d[i].key && c[i].value@
            == d[i].value@ by {
            assert(feature_entries(c)[i] == c[i].fields());
            assert(feature_entries(d)[i] == d[i].fields());
            assert(c[i].fields()[0] == d[i].fields()[0]);
            assert(c[i].fields()[1] == d[i].fields()[1]);
        }
    }
}

/// Law: a protocol-versions request starts with whether protocol versions are
/// synchronised, whether features are, and the phone's version, in that order; a
/// response starts with its status code, then the phone's version, and a response
/// whose leading values are those has them in those fields.
pub proof fn lemma_bid_version_leading_items(
    x: WatchBidVersionRequest,
    y: WatchBidVersionResponse,
    code: i32,
    phone_bid_version: i32,
)
    ensures
        encode_values(x.fields()) == enc_bool(x.sync_bid_versions) + enc_bool(x.sync_features)
            + enc_int(x.phone_bid_version as int),
        y.fields() == seq![Value::Int(code as int), Value::Int(phone_bid_version as int)] ==> y.code
            == code && y.phone_bid_version == phone_bid_version,
{
    let f = x.fields();
    lemma_encode_values_take(f, 1);
    lemma_encode_values_take(f, 2);
    lemma_encode_values_take(f, 3);
    assert(encode_values(f.take(1)) =~= enc_bool(x.sync_bid_versions));
    let g = y.fields();
    if g == seq![Value::Int(code as int), Value::Int(phone_bid_version as int)] {
        assert(g[0] == Value::Int(code as int) && g[1] == Value::Int(phone_bid_version as int));
    }
}

/// Law: the clock request is the time, the time zone, the os type and the
/// milliseconds, in that order, followed by the time zone offset only when it is
/// known.
pub proof fn lemma_device_info_request_items(x: DeviceInfoRequest)
    ensures
        encode_values(x.fields()) == enc_int(x.unix_time_sec as int) + enc_int(x.gmt_timezone as int)
            + enc_int(x.os_type as int) + enc_int(x.millis as int) + match x.timezone_offset_sec {
            Some(t) => enc_int(t as int),
            None => Seq::<u8>::empty(),
        },
{
    let f = x.fields();
    lemma_encode_values_take(f, 1);
    lemma_encode_values_take(f, 2);
    lemma_encode_values_take(f, 3);
    lemma_encode_values_take(f, 4);
    assert(encode_values(f.take(1)) =~= enc_int(x.unix_time_sec as int));
    match x.timezone_offset_sec {
        Some(t) => {
            lemma_encode_values_take(f, 5);
        },
        None => {
            assert(f.take(4) =~= f);
        },
    }
}

} // verus!
