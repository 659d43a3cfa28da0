//! A catalogue of message schemas, and lookups in it.
//!
//! The schemas describe the messages of the protocol: their class, their business
//! and command ids and their MessagePack fields. Reading a catalogue from JSON is
//! done outside this library, which receives the schemas as values.

use vstd::prelude::*;
use vstd::utf8::{encode_utf8, encode_utf8_decode_utf8};

verus! {

/// The description of one message.
#[derive(Debug, Clone)]
pub struct MessageSchema {
    pub class: String,
    pub simple_name: String,
    pub package: Option<String>,
    pub source: Option<String>,
    pub message_kind: Option<String>,
    pub bid: Option<u16>,
    pub cid: Option<u16>,
    pub bid_expr: Option<String>,
    pub cid_expr: Option<String>,
    pub encoding: Option<String>,
    pub msgpack_fields_effective: Vec<MsgpackFieldSchema>,
}

/// The description of one MessagePack field of a message.
#[derive(Debug, Clone)]
pub struct MsgpackFieldSchema {
    pub name: String,
    pub ty: String,
    pub line: Option<u32>,
    pub msgpack: Option<MsgpackOrder>,
}

/// Where a field stands in the MessagePack order, and from which version on.
#[derive(Debug, Clone, Copy)]
pub struct MsgpackOrder {
    pub order: i32,
    pub since: i32,
}

/// Whether a schema has the business id `bid` and the command id `cid`.
pub open spec fn has_ids(m: MessageSchema, bid: u16, cid: u16) -> bool {
    m.bid == Some(bid) && m.cid == Some(cid)
}

/// The schemas a list of references points to.
pub open spec fn targets(refs: Seq<&MessageSchema>) -> Seq<MessageSchema> {
    refs.map_values(|m: &MessageSchema| *m)
}

/// A list of message schemas.
#[derive(Debug, Clone)]
pub struct SchemaCatalog {
    messages: Vec<MessageSchema>,
}

/// Whether two strings are the same text; strings with the same UTF-8 bytes are.
fn same_text(a: &str, b: &str) -> (r: bool)
    ensures
        r == (a@ == b@),
{
    let x = a.as_bytes();
    let y = b.as_bytes();
    proof {
        encode_utf8_decode_utf8(a@);
        encode_utf8_decode_utf8(b@);
    }
    if x.len() != y.len() {
        return false;
    }
    let mut i: usize = 0;
    while i < x.len()
        invariant
            i <= x@.len(),
            x@.len() == y@.len(),
            x@ == encode_utf8(a@),
            y@ == encode_utf8(b@),
            x@.subrange(0, i as int) == y@.subrange(0, i as int),
        decreases x@.len() - i,
    {
        if x[i] != y[i] {
            assert(x@[i as int] != y@[i as int]);
            assert(x@ != y@);
            return false;
        }
        assert(x@.subrange(0, i + 1) =~= x@.subrange(0, i as int).push(x@[i as int]));
        assert(y@.subrange(0, i + 1) =~= y@.subrange(0, i as int).push(y@[i as int]));
        i = i + 1;
    }
    assert(x@ =~= x@.subrange(0, i as int));
    assert(y@ =~= y@.subrange(0, i as int));
    true
}

impl SchemaCatalog {
    /// The schemas, in order.
    pub closed spec fn entries(&self) -> Seq<MessageSchema> {
        self.messages@
    }

    /// A catalogue of the given schemas, in the given order.
    pub fn new(messages: Vec<MessageSchema>) -> (r: Self)
        ensures
            r.entries() == messages@,
    {
        SchemaCatalog { messages }
    }

    /// The schemas, in order.
    pub fn messages(&self) -> (r: &[MessageSchema])
        ensures
            r@ == self.entries(),
    {
        self.messages.as_slice()
    }

    /// The schemas with business id `bid` and command id `cid`, in catalogue order.
    pub fn find_by_bid_cid(&self, bid: u16, cid: u16) -> (r: Vec<&MessageSchema>)
        ensures
            targets(r@) == self.entries().filter(|m: MessageSchema| has_ids(m, bid, cid)),
            forall|i: int|
                0 <= i < r@.len() ==> (#[trigger] r@[i]).bid == Some(bid) && r@[i].cid == Some(cid),
            forall|j: int|
                0 <= j < self.entries().len() && (#[trigger] self.entries()[j]).bid == Some(bid)
                    && self.entries()[j].cid == Some(cid) ==> targets(r@).contains(self.entries()[j]),
    {
        let ghost pred = |m: MessageSchema| has_ids(m, bid, cid);
        let mut out: Vec<&MessageSchema> = Vec::new();
        let mut i: usize = 0;
        proof {
            reveal(Seq::filter);
            assert(self.messages@.take(0) =~= Seq::<MessageSchema>::empty());
            assert(targets(out@) =~= Seq::<MessageSchema>::empty());
        }
        while i < self.messages.len()
            invariant
                i <= self.messages@.len(),
                pred == (|m: MessageSchema| has_ids(m, bid, cid)),
                targets(out@) == self.messages@.take(i as int).filter(pred),
            decreases self.messages@.len() - i,
        {
            let msg = &self.messages[i];
            let matches = match (msg.bid, msg.cid) {
                (Some(b), Some(c)) => b == bid && c == cid,
                _ => false,
            };
            let ghost before = out@;
            proof {
                reveal(Seq::filter);
                let t = self.messages@.take(i + 1);
                assert(t.drop_last() =~= self.messages@.take(i as int));
                assert(t.last() == *msg);
            }
            if matches {
                out.push(msg);
                assert(targets(out@) =~= targets(before).push(*msg));
            }
            i = i + 1;
        }
        proof {
            assert(self.messages@.take(i as int) =~= self.messages@);
            let e = self.messages@;
            assert forall|k: int| 0 <= k < out@.len() implies (#[trigger] out@[k]).bid == Some(bid)
                && out@[k].cid == Some(cid) by {
                assert(targets(out@)[k] == *out@[k]);
                e.lemma_filter_pred(pred, k);
            }
            assert forall|j: int|
                0 <= j < e.len() && (#[trigger] e[j]).bid == Some(bid) && e[j].cid == Some(cid) implies targets(
                out@,
            ).contains(e[j]) by {
                assert(pred(e[j]));
                e.lemma_filter_contains(pred, j);
            }
        }
        out
    }

    /// The first schema whose simple name is `simple_name`.
    pub fn find_by_simple_name(&self, simple_name: &str) -> (r: Option<&MessageSchema>)
        ensures
            match r {
                Some(m) => exists|i: int|
                    0 <= i < self.entries().len() && self.entries()[i] == *m
                        && m.simple_name@ == simple_name@ && forall|j: int|
                        0 <= j < i ==> (#[trigger] self.entries()[j]).simple_name@ != simple_name@,
                None => forall|i: int|
                    0 <= i < self.entries().len() ==> (#[trigger] self.entries()[i]).simple_name@
                        != simple_name@,
            },
    {
        let mut i: usize = 0;
        while i < self.messages.len()
            invariant
                i <= self.messages@.len(),
                forall|j: int|
                    0 <= j < i ==> (#[trigger] self.messages@[j]).simple_name@ != simple_name@,
            decreases self.messages@.len() - i,
        {
            let msg = &self.messages[i];
            if same_text(msg.simple_name.as_str(), simple_name) {
                return Some(msg);
            }
            i = i + 1;
        }
        None
    }
}


/// Law: the lookup by ids keeps, in catalogue order, exactly the schemas whose
/// business id is `bid` and whose command id is `cid`: among no schemas it finds
/// none, and a schema added at the end is found after the others when both of its
/// ids are those, and left out otherwise.
pub proof fn lemma_find_by_ids_steps(e: Seq<MessageSchema>, m: MessageSchema, bid: u16, cid: u16)
    ensures
        Seq::<MessageSchema>::empty().filter(|x: MessageSchema| has_ids(x, bid, cid))
            == Seq::<MessageSchema>::empty(),
        e.push(m).filter(|x: MessageSchema| has_ids(x, bid, cid)) == if m.bid == Some(bid) && m.cid
            == Some(cid) {
            e.filter(|x: MessageSchema| has_ids(x, bid, cid)).push(m)
        } else {
            e.filter(|x: MessageSchema| has_ids(x, bid, cid))
        },
{
    reveal(Seq::filter);
    e.lemma_filter_push(m, |x: MessageSchema| has_ids(x, bid, cid));
    assert(Seq::<MessageSchema>::empty().filter(|x: MessageSchema| has_ids(x, bid, cid))
        =~= Seq::<MessageSchema>::empty());
}

} // verus!
