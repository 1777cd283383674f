//! The DNS records this responder emits, and the wire form of a response
//! packet: header, then the answer records, uncompressed.
use vstd::prelude::*;

use crate::name::{encode_name, lemma_name_wire_len, name_wire, valid_dns_name};
use crate::push_bytes;

verus! {

/// Ceiling for one outgoing datagram; answers are truncated at a record
/// boundary beyond it.
pub const MAX_PACKET: usize = 9000;

/// Record data for the record types this responder emits.
pub enum RecordData {
    Ptr { target: String },
    Srv { priority: u16, weight: u16, port: u16, target: String },
    Txt { data: Vec<u8> },
    A { addr: [u8; 4] },
    Aaaa { addr: [u8; 16] },
}

/// Mathematical image of `RecordData`.
pub enum RecordDataView {
    Ptr { target: Seq<char> },
    Srv { priority: u16, weight: u16, port: u16, target: Seq<char> },
    Txt { data: Seq<u8> },
    A { addr: Seq<u8> },
    Aaaa { addr: Seq<u8> },
}

impl View for RecordData {
    type V = RecordDataView;

    open spec fn view(&self) -> RecordDataView {
        match self {
            RecordData::Ptr { target } => RecordDataView::Ptr { target: target@ },
            RecordData::Srv { priority, weight, port, target } => RecordDataView::Srv {
                priority: *priority,
                weight: *weight,
                port: *port,
                target: target@,
            },
            RecordData::Txt { data } => RecordDataView::Txt { data: data@ },
            RecordData::A { addr } => RecordDataView::A { addr: addr@ },
            RecordData::Aaaa { addr } => RecordDataView::Aaaa { addr: addr@ },
        }
    }
}

/// One answer record: owner name, time to live, and data.
pub struct DnsRecord {
    pub name: String,
    pub ttl: u32,
    pub data: RecordData,
}

/// Mathematical image of a `DnsRecord`.
pub struct DnsRecordView {
    pub name: Seq<char>,
    pub ttl: u32,
    pub data: RecordDataView,
}

impl View for DnsRecord {
    type V = DnsRecordView;

    open spec fn view(&self) -> DnsRecordView {
        DnsRecordView { name: self.name@, ttl: self.ttl, data: self.data@ }
    }
}

impl DeepView for DnsRecord {
    type V = DnsRecordView;

    open spec fn deep_view(&self) -> DnsRecordView {
        self.view()
    }
}

/// The TYPE code a record carries on the wire.
pub open spec fn rtype_code(d: RecordDataView) -> u16 {
    match d {
        RecordDataView::Ptr { .. } => 12,
        RecordDataView::Srv { .. } => 33,
        RecordDataView::Txt { .. } => 16,
        RecordDataView::A { .. } => 1,
        RecordDataView::Aaaa { .. } => 28,
    }
}

/// Big-endian bytes of a 16-bit value.
pub open spec fn u16_be(x: u16) -> Seq<u8> {
    seq![(x / 256) as u8, (x % 256) as u8]
}

/// Big-endian bytes of a 32-bit value.
pub open spec fn u32_be(x: u32) -> Seq<u8> {
    seq![
        (x / 0x1000000) as u8,
        ((x / 0x10000) % 256) as u8,
        ((x / 256) % 256) as u8,
        (x % 256) as u8,
    ]
}

/// RDATA bytes of a record.
pub open spec fn rdata_wire(d: RecordDataView) -> Seq<u8> {
    match d {
        RecordDataView::Ptr { target } => name_wire(target),
        RecordDataView::Srv { priority, weight, port, target } => u16_be(priority) + u16_be(weight)
            + u16_be(port) + name_wire(target),
        RecordDataView::Txt { data } => data,
        RecordDataView::A { addr } => addr,
        RecordDataView::Aaaa { addr } => addr,
    }
}

/// A record this responder may emit: valid names, rdata that fits a record.
pub open spec fn record_wf(r: DnsRecordView) -> bool {
    &&& valid_dns_name(r.name)
    &&& match r.data {
        RecordDataView::Ptr { target } => valid_dns_name(target),
        RecordDataView::Srv { target, .. } => valid_dns_name(target),
        RecordDataView::Txt { data } => 1 <= data.len() <= 0xffff,
        RecordDataView::A { addr } => addr.len() == 4,
        RecordDataView::Aaaa { addr } => addr.len() == 16,
    }
}

/// Wire form of one answer record: owner name, type, class IN, TTL,
/// RDLENGTH, RDATA.
pub open spec fn record_wire(r: DnsRecordView) -> Seq<u8> {
    name_wire(r.name) + u16_be(rtype_code(r.data)) + u16_be(1) + u32_be(r.ttl) + u16_be(
        rdata_wire(r.data).len() as u16,
    ) + rdata_wire(r.data)
}

/// Wire form of a list of answer records, in order.
pub open spec fn records_wire(rs: Seq<DnsRecordView>) -> Seq<u8>
    decreases rs.len(),
{
    if rs.len() == 0 {
        Seq::empty()
    } else {
        records_wire(rs.drop_last()) + record_wire(rs.last())
    }
}

/// The mDNS response header: id 0, response + authoritative-answer flags,
/// no questions, `ancount` answers, nothing else.
pub open spec fn header_wire(ancount: u16) -> Seq<u8> {
    seq![0u8, 0u8, 0x84u8, 0u8, 0u8, 0u8] + u16_be(ancount) + seq![0u8, 0u8, 0u8, 0u8]
}

/// The whole response packet for the given answers.
pub open spec fn response_wire(rs: Seq<DnsRecordView>) -> Seq<u8> {
    header_wire(rs.len() as u16) + records_wire(rs)
}

/// `bytes` is the response packet for the longest prefix of `rs` that fits
/// in `MAX_PACKET` bytes.
pub open spec fn response_bytes_for(rs: Seq<DnsRecordView>, bytes: Seq<u8>) -> bool {
    exists|k: int|
        {
            &&& 0 <= k <= rs.len()
            &&& 12 + records_wire(#[trigger] rs.take(k)).len() <= MAX_PACKET
            &&& (k < rs.len() ==> 12 + records_wire(rs.take(k + 1)).len() > MAX_PACKET)
            &&& bytes == header_wire(k as u16) + records_wire(rs.take(k))
        }
}

/// The rdata of a well-formed record fits its length field.
pub proof fn lemma_rdata_len(r: DnsRecordView)
    requires
        record_wf(r),
    ensures
        1 <= rdata_wire(r.data).len() <= 0xffff,
{
    match r.data {
        RecordDataView::Ptr { target } => lemma_name_wire_len(target),
        RecordDataView::Srv { target, .. } => lemma_name_wire_len(target),
        _ => (),
    }
}

/// Size of one encoded well-formed record: more than its name and rdata
/// alone, and bounded by a constant.
pub proof fn lemma_record_wire_len(r: DnsRecordView)
    requires
        record_wf(r),
    ensures
        13 <= record_wire(r).len() <= 66000,
{
    lemma_name_wire_len(r.name);
    lemma_rdata_len(r);
}

/// Each record contributes at least one byte.
proof fn lemma_records_wire_len_ge(rs: Seq<DnsRecordView>)
    requires
        forall|i: int| 0 <= i < rs.len() ==> record_wf(#[trigger] rs[i]),
    ensures
        records_wire(rs).len() >= rs.len(),
    decreases rs.len(),
{
    if rs.len() > 0 {
        assert forall|i: int| 0 <= i < rs.drop_last().len() implies record_wf(
            #[trigger] rs.drop_last()[i],
        ) by {
            assert(rs.drop_last()[i] == rs[i]);
        }
        lemma_records_wire_len_ge(rs.drop_last());
        lemma_record_wire_len(rs.last());
    }
}

/// Appends the big-endian bytes of `x` to `out`.
fn push_u16(out: &mut Vec<u8>, x: u16)
    ensures
        final(out)@ == old(out)@ + u16_be(x),
{
    out.push((x / 256) as u8);
    out.push((x % 256) as u8);
    proof {
        assert(out@ =~= old(out)@ + u16_be(x));
    }
}

/// Appends the big-endian bytes of `x` to `out`.
fn push_u32(out: &mut Vec<u8>, x: u32)
    ensures
        final(out)@ == old(out)@ + u32_be(x),
{
    out.push((x / 0x1000000) as u8);
    out.push(((x / 0x10000) % 256) as u8);
    out.push(((x / 256) % 256) as u8);
    out.push((x % 256) as u8);
    proof {
        assert(out@ =~= old(out)@ + u32_be(x));
    }
}

/// Appends the RDATA bytes of `d` to `out`.
fn encode_rdata(d: &RecordData, out: &mut Vec<u8>)
    requires
        match d@ {
            RecordDataView::Ptr { target } => valid_dns_name(target),
            RecordDataView::Srv { target, .. } => valid_dns_name(target),
            _ => true,
        },
    ensures
        final(out)@ == old(out)@ + rdata_wire(d@),
{
    match d {
        RecordData::Ptr { target } => {
            encode_name(target.as_str(), out);
        },
        RecordData::Srv { priority, weight, port, target } => {
            push_u16(out, *priority);
            push_u16(out, *weight);
            push_u16(out, *port);
            encode_name(target.as_str(), out);
            proof {
                assert(out@ =~= old(out)@ + rdata_wire(d@));
            }
        },
        RecordData::Txt { data } => {
            push_bytes(out, data);
        },
        RecordData::A { addr } => {
            let mut j: usize = 0;
            while j < 4
                invariant
                    j <= 4,
                    addr@.len() == 4,
                    out@ == old(out)@ + addr@.take(j as int),
                decreases 4 - j,
            {
                out.push(addr[j]);
                j = j + 1;
                proof {
                    assert(addr@.take(j as int) =~= addr@.take(j as int - 1).push(
                        addr@[j as int - 1],
                    ));
                    assert(out@ =~= old(out)@ + addr@.take(j as int));
                }
            }
            proof {
                assert(addr@.take(4) =~= addr@);
            }
        },
        RecordData::Aaaa { addr } => {
            let mut j: usize = 0;
            while j < 16
                invariant
                    j <= 16,
                    addr@.len() == 16,
                    out@ == old(out)@ + addr@.take(j as int),
                decreases 16 - j,
            {
                out.push(addr[j]);
                j = j + 1;
                proof {
                    assert(addr@.take(j as int) =~= addr@.take(j as int - 1).push(
                        addr@[j as int - 1],
                    ));
                    assert(out@ =~= old(out)@ + addr@.take(j as int));
                }
            }
            proof {
                assert(addr@.take(16) =~= addr@);
            }
        },
    }
}

/// Appends the wire form of one answer record to `out`.
fn encode_record(r: &DnsRecord, out: &mut Vec<u8>)
    requires
        record_wf(r@),
    ensures
        final(out)@ == old(out)@ + record_wire(r@),
{
    encode_name(r.name.as_str(), out);
    let code: u16 = match &r.data {
        RecordData::Ptr { .. } => 12,
        RecordData::Srv { .. } => 33,
        RecordData::Txt { .. } => 16,
        RecordData::A { .. } => 1,
        RecordData::Aaaa { .. } => 28,
    };
    push_u16(out, code);
    push_u16(out, 1);
    push_u32(out, r.ttl);
    let mut rdata: Vec<u8> = Vec::new();
    encode_rdata(&r.data, &mut rdata);
    proof {
        lemma_rdata_len(r@);
    }
    push_u16(out, rdata.len() as u16);
    push_bytes(out, &rdata);
    proof {
        assert(out@ =~= old(out)@ + record_wire(r@));
    }
}

/// Builds the response packet for the given answers, keeping the longest
/// prefix of records that fits in `MAX_PACKET` bytes; the header's answer
/// count matches what was kept.
pub fn build_response(records: &Vec<DnsRecord>) -> (r: Vec<u8>)
    requires
        forall|i: int| 0 <= i < records@.len() ==> record_wf(#[trigger] records.deep_view()[i]),
    ensures
        response_bytes_for(records.deep_view(), r@),
        12 + records_wire(records.deep_view()).len() <= MAX_PACKET ==> r@ == response_wire(
            records.deep_view(),
        ),
{
    let ghost dv = records.deep_view();
    let mut body: Vec<u8> = Vec::new();
    let mut i: usize = 0;
    let mut fits: bool = true;
    proof {
        assert(dv.len() == records@.len());
        assert(records_wire(dv.take(0)) =~= Seq::<u8>::empty());
        assert(body@ =~= records_wire(dv.take(0)));
    }
    while i < records.len() && fits
        invariant
            0 <= i <= dv.len(),
            dv == records.deep_view(),
            dv.len() == records@.len(),
            forall|k: int| 0 <= k < dv.len() ==> record_wf(#[trigger] dv[k]),
            body@ == records_wire(dv.take(i as int)),
            12 + body@.len() <= MAX_PACKET,
            !fits ==> i < dv.len() && 12 + records_wire(dv.take(i as int + 1)).len() > MAX_PACKET,
        decreases dv.len() - i, (if fits {
            1int
        } else {
            0int
        }),
    {
        let mut tmp: Vec<u8> = Vec::new();
        proof {
            assert(records.deep_view()[i as int] == records@[i as int]@);
        }
        encode_record(&records[i], &mut tmp);
        proof {
            lemma_record_wire_len(dv[i as int]);
            assert(dv.take(i as int + 1).drop_last() =~= dv.take(i as int));
            assert(dv.take(i as int + 1).last() == dv[i as int]);
            assert(records_wire(dv.take(i as int + 1)) == records_wire(dv.take(i as int))
                + record_wire(dv[i as int]));
        }
        if 12 + body.len() + tmp.len() <= MAX_PACKET {
            push_bytes(&mut body, &tmp);
            i = i + 1;
        } else {
            fits = false;
        }
    }
    proof {
        lemma_records_wire_len_ge(dv.take(i as int));
        assert(dv.take(i as int).len() == i as int);
        assert(i <= MAX_PACKET);
    }
    let mut out: Vec<u8> = Vec::new();
    out.push(0u8);
    out.push(0u8);
    out.push(0x84u8);
    out.push(0u8);
    out.push(0u8);
    out.push(0u8);
    push_u16(&mut out, i as u16);
    out.push(0u8);
    out.push(0u8);
    out.push(0u8);
    out.push(0u8);
    proof {
        assert(out@ =~= header_wire(i as u16));
    }
    push_bytes(&mut out, &body);
    proof {
        let k = i as int;
        assert(out@ == header_wire(k as u16) + records_wire(dv.take(k)));
        if 12 + records_wire(dv).len() <= MAX_PACKET {
            if (i as int) < dv.len() {
                assert(12 + records_wire(dv.take(k + 1)).len() > MAX_PACKET);
                lemma_records_wire_prefix(dv, k + 1);
            }
            assert(k == dv.len());
            assert(dv.take(k) =~= dv);
        }
    }
    out
}

/// A prefix of the records encodes to a prefix-bounded number of bytes.
proof fn lemma_records_wire_prefix(rs: Seq<DnsRecordView>, k: int)
    requires
        0 <= k <= rs.len(),
    ensures
        records_wire(rs.take(k)).len() <= records_wire(rs).len(),
    decreases rs.len() - k,
{
    if k < rs.len() {
        assert(rs.take(k + 1).drop_last() =~= rs.take(k));
        assert(rs.take(k + 1).last() == rs[k]);
        assert(records_wire(rs.take(k + 1)) == records_wire(rs.take(k)) + record_wire(rs[k]));
        lemma_records_wire_prefix(rs, k + 1);
    } else {
        assert(rs.take(k) =~= rs);
    }
}

} // verus!
