//! Per-event logic of the responder's finite-state machine: what a query
//! or a command makes the responder send, composed from the registry.
use vstd::prelude::*;

use crate::DEFAULT_TTL;
use crate::name::{label_ok, labels_ok, lemma_first_dot_is, lemma_skip_skip, valid_dns_name};
use crate::packet::{
    build_response, record_wf, records_wire, response_bytes_for, response_wire, DnsRecord,
    DnsRecordView, RecordData, RecordDataView, MAX_PACKET,
};
use crate::services::{
    bucket_of, index_invariant, nonempty_types, service_named, services_of_type, svc_wf,
    RegistryView, ServiceData, ServiceDataView, ServicesInner,
};

verus! {

/// QTYPE codes this responder dispatches on.
pub const QTYPE_A: u16 = 1;

pub const QTYPE_PTR: u16 = 12;

pub const QTYPE_TXT: u16 = 16;

pub const QTYPE_AAAA: u16 = 28;

pub const QTYPE_SRV: u16 = 33;

pub const QTYPE_ANY: u16 = 255;

/// One question of an inbound query: its QTYPE code and dotted name.
pub struct Question {
    pub qtype: u16,
    pub qname: String,
}

/// The QTYPE code and name view of each question, in order.
pub open spec fn question_pairs(qs: Seq<Question>) -> Seq<(u16, Seq<char>)> {
    qs.map_values(|q: Question| (q.qtype, q.qname@))
}

/// A command from the embedding application to a responder instance.
pub enum Command {
    SendUnsolicited { svc: ServiceData, ttl: u32, include_ip: bool },
    Shutdown,
}

/// The owner name of the DNS-SD meta-query.
pub open spec fn meta_query_name() -> Seq<char> {
    "_services._dns-sd._udp.local"@
}

/// The meta-query name is itself a well-formed DNS name.
pub proof fn lemma_meta_name_valid()
    ensures
        valid_dns_name(meta_query_name()),
{
    let s = meta_query_name();
    reveal_strlit("_services._dns-sd._udp.local");
    assert(s.len() == 28);
    assert(forall|j: int|
        0 <= j < 28 ==> (if j == 9 || j == 17 || j == 22 {
            s[j] == '.'
        } else {
            s[j] != '.' && crate::name::is_name_char(s[j])
        }));
    lemma_first_dot_is(s, 9);
    assert(label_ok(s.take(9))) by {
        assert forall|j: int| 0 <= j < 9 implies crate::name::is_name_char(
            #[trigger] s.take(9)[j],
        ) by {
            assert(s.take(9)[j] == s[j]);
        }
    }
    let t1 = s.skip(10);
    assert forall|j: int| 0 <= j < 7 implies t1[j] != '.' by {
        assert(t1[j] == s[10 + j]);
    }
    assert(t1[7] == s[17]);
    lemma_first_dot_is(t1, 7);
    assert(label_ok(t1.take(7))) by {
        assert forall|j: int| 0 <= j < 7 implies crate::name::is_name_char(
            #[trigger] t1.take(7)[j],
        ) by {
            assert(t1.take(7)[j] == s[10 + j]);
        }
    }
    let t2 = s.skip(18);
    lemma_skip_skip(s, 10, 8);
    assert(t1.skip(8) =~= t2);
    assert forall|j: int| 0 <= j < 4 implies t2[j] != '.' by {
        assert(t2[j] == s[18 + j]);
    }
    assert(t2[4] == s[22]);
    lemma_first_dot_is(t2, 4);
    assert(label_ok(t2.take(4))) by {
        assert forall|j: int| 0 <= j < 4 implies crate::name::is_name_char(
            #[trigger] t2.take(4)[j],
        ) by {
            assert(t2.take(4)[j] == s[18 + j]);
        }
    }
    let t3 = s.skip(23);
    lemma_skip_skip(s, 18, 5);
    assert(t2.skip(5) =~= t3);
    assert forall|j: int| 0 <= j < 5 implies t3[j] != '.' by {
        assert(t3[j] == s[23 + j]);
    }
    lemma_first_dot_is(t3, 5);
    assert(label_ok(t3)) by {
        assert forall|j: int| 0 <= j < 5 implies crate::name::is_name_char(#[trigger] t3[j]) by {
            assert(t3[j] == s[23 + j]);
        }
    }
    assert(labels_ok(t3));
    assert(labels_ok(t2));
    assert(labels_ok(t1));
    assert(labels_ok(s));
}

// ---- the records each event produces, as specification ---------------------

/// The PTR record announcing `svc` under its type.
pub open spec fn ptr_record(svc: ServiceDataView, ttl: u32) -> DnsRecordView {
    DnsRecordView { name: svc.typ, ttl, data: RecordDataView::Ptr { target: svc.name } }
}

/// The SRV record of `svc`, pointing at the local hostname.
pub open spec fn srv_record(svc: ServiceDataView, hostname: Seq<char>, ttl: u32) -> DnsRecordView {
    DnsRecordView {
        name: svc.name,
        ttl,
        data: RecordDataView::Srv { priority: 0, weight: 0, port: svc.port, target: hostname },
    }
}

/// The TXT record of `svc`.
pub open spec fn txt_record(svc: ServiceDataView, ttl: u32) -> DnsRecordView {
    DnsRecordView { name: svc.name, ttl, data: RecordDataView::Txt { data: svc.txt } }
}

/// One A record of the local host per IPv4 address, in order.
pub open spec fn a_records(hostname: Seq<char>, ttl: u32, v4: Seq<[u8; 4]>) -> Seq<DnsRecordView> {
    v4.map_values(
        |a: [u8; 4]| DnsRecordView { name: hostname, ttl, data: RecordDataView::A { addr: a@ } },
    )
}

/// One AAAA record of the local host per IPv6 address, in order.
pub open spec fn aaaa_records(hostname: Seq<char>, ttl: u32, v6: Seq<[u8; 16]>) -> Seq<
    DnsRecordView,
> {
    v6.map_values(
        |a: [u8; 16]| DnsRecordView {
            name: hostname,
            ttl,
            data: RecordDataView::Aaaa { addr: a@ },
        },
    )
}

/// The address records of the local host, both families.
pub open spec fn addr_records(
    hostname: Seq<char>,
    ttl: u32,
    v4: Seq<[u8; 4]>,
    v6: Seq<[u8; 16]>,
) -> Seq<DnsRecordView> {
    a_records(hostname, ttl, v4) + aaaa_records(hostname, ttl, v6)
}

/// Everything announced for one service of a queried type: its PTR answer
/// and the additional SRV, TXT and address records.
pub open spec fn per_service_answers(
    svc: ServiceDataView,
    hostname: Seq<char>,
    v4: Seq<[u8; 4]>,
    v6: Seq<[u8; 16]>,
) -> Seq<DnsRecordView> {
    seq![
        ptr_record(svc, DEFAULT_TTL),
        srv_record(svc, hostname, DEFAULT_TTL),
        txt_record(svc, DEFAULT_TTL),
    ] + addr_records(hostname, DEFAULT_TTL, v4, v6)
}

/// Answers for a PTR question on a service type: the block of
/// `per_service_answers` of every service of that type, in bucket order.
pub open spec fn type_answers(
    svcs: Seq<ServiceDataView>,
    hostname: Seq<char>,
    v4: Seq<[u8; 4]>,
    v6: Seq<[u8; 16]>,
) -> Seq<DnsRecordView>
    decreases svcs.len(),
{
    if svcs.len() == 0 {
        Seq::empty()
    } else {
        type_answers(svcs.drop_last(), hostname, v4, v6) + per_service_answers(
            svcs.last(),
            hostname,
            v4,
            v6,
        )
    }
}

/// Answers for the DNS-SD meta-query: one PTR per service type that has at
/// least one registered service, no additionals.
pub open spec fn meta_answers(v: RegistryView) -> Seq<DnsRecordView> {
    nonempty_types(v).map_values(
        |t: Seq<char>| DnsRecordView {
            name: meta_query_name(),
            ttl: DEFAULT_TTL,
            data: RecordDataView::Ptr { target: t },
        },
    )
}

/// Answers for a PTR question.
pub open spec fn ptr_answers(
    v: RegistryView,
    qn: Seq<char>,
    v4: Seq<[u8; 4]>,
    v6: Seq<[u8; 16]>,
) -> Seq<DnsRecordView> {
    if qn == meta_query_name() {
        meta_answers(v)
    } else {
        type_answers(services_of_type(v, qn), v.hostname, v4, v6)
    }
}

/// Answers for an SRV question on an instance name.
pub open spec fn srv_answers(
    v: RegistryView,
    qn: Seq<char>,
    v4: Seq<[u8; 4]>,
    v6: Seq<[u8; 16]>,
) -> Seq<DnsRecordView> {
    match service_named(v, qn) {
        Some(svc) => seq![srv_record(svc, v.hostname, DEFAULT_TTL)] + addr_records(
            v.hostname,
            DEFAULT_TTL,
            v4,
            v6,
        ),
        None => Seq::empty(),
    }
}

/// Answers for a TXT question on an instance name.
pub open spec fn txt_answers(v: RegistryView, qn: Seq<char>) -> Seq<DnsRecordView> {
    match service_named(v, qn) {
        Some(svc) => seq![txt_record(svc, DEFAULT_TTL)],
        None => Seq::empty(),
    }
}

/// Answers for an A question on the local hostname.
pub open spec fn a_answers(v: RegistryView, qn: Seq<char>, v4: Seq<[u8; 4]>) -> Seq<
    DnsRecordView,
> {
    if qn == v.hostname {
        a_records(v.hostname, DEFAULT_TTL, v4)
    } else {
        Seq::empty()
    }
}

/// Answers for an AAAA question on the local hostname.
pub open spec fn aaaa_answers(v: RegistryView, qn: Seq<char>, v6: Seq<[u8; 16]>) -> Seq<
    DnsRecordView,
> {
    if qn == v.hostname {
        aaaa_records(v.hostname, DEFAULT_TTL, v6)
    } else {
        Seq::empty()
    }
}

/// The answers one question produces, dispatched on its QTYPE.
pub open spec fn question_answers(
    v: RegistryView,
    qt: u16,
    qn: Seq<char>,
    v4: Seq<[u8; 4]>,
    v6: Seq<[u8; 16]>,
) -> Seq<DnsRecordView> {
    if qt == QTYPE_PTR {
        ptr_answers(v, qn, v4, v6)
    } else if qt == QTYPE_SRV {
        srv_answers(v, qn, v4, v6)
    } else if qt == QTYPE_TXT {
        txt_answers(v, qn)
    } else if qt == QTYPE_A {
        a_answers(v, qn, v4)
    } else if qt == QTYPE_AAAA {
        aaaa_answers(v, qn, v6)
    } else if qt == QTYPE_ANY {
        ptr_answers(v, qn, v4, v6) + srv_answers(v, qn, v4, v6) + txt_answers(v, qn) + a_answers(
            v,
            qn,
            v4,
        ) + aaaa_answers(v, qn, v6)
    } else {
        Seq::empty()
    }
}

/// The answers of all questions of a query, in question order.
pub open spec fn all_answers(
    v: RegistryView,
    qs: Seq<(u16, Seq<char>)>,
    v4: Seq<[u8; 4]>,
    v6: Seq<[u8; 16]>,
) -> Seq<DnsRecordView>
    decreases qs.len(),
{
    if qs.len() == 0 {
        Seq::empty()
    } else {
        all_answers(v, qs.drop_last(), v4, v6) + question_answers(
            v,
            qs.last().0,
            qs.last().1,
            v4,
            v6,
        )
    }
}

/// The records of an unsolicited announcement or goodbye for one service:
/// its PTR, SRV and TXT records, and the host's address records when asked
/// for, all carrying exactly the given TTL.
pub open spec fn unsolicited_view(
    svc: ServiceDataView,
    ttl: u32,
    include_ip: bool,
    hostname: Seq<char>,
    v4: Seq<[u8; 4]>,
    v6: Seq<[u8; 16]>,
) -> Seq<DnsRecordView> {
    seq![ptr_record(svc, ttl), srv_record(svc, hostname, ttl), txt_record(svc, ttl)] + (
    if include_ip {
        addr_records(hostname, ttl, v4, v6)
    } else {
        Seq::empty()
    })
}

// ---- building the records ---------------------------------------------------

/// Appends one record to `out`.
fn push_record(out: &mut Vec<DnsRecord>, r: DnsRecord)
    ensures
        final(out).deep_view() == old(out).deep_view().push(r@),
{
    let ghost rv = r@;
    let ghost prev = out.deep_view();
    out.push(r);
    proof {
        assert forall|k: int| 0 <= k < out@.len() implies #[trigger] out.deep_view()[k]
            == prev.push(rv)[k] by {
            if k < out@.len() - 1 {
                assert(out.deep_view()[k] == out@[k]@);
                assert(prev[k] == out@[k]@);
            } else {
                assert(out.deep_view()[k] == out@[k]@);
            }
        }
        assert(out.deep_view() =~= prev.push(rv));
    }
}

/// Appends the A records of the local host, one per IPv4 address.
fn push_a_records(hostname: &String, ttl: u32, v4: &Vec<[u8; 4]>, out: &mut Vec<DnsRecord>)
    requires
        valid_dns_name(hostname@),
    ensures
        final(out).deep_view() == old(out).deep_view() + a_records(hostname@, ttl, v4@),
        forall|k: int|
            old(out).deep_view().len() <= k < final(out).deep_view().len() ==> record_wf(
                #[trigger] final(out).deep_view()[k],
            ),
{
    let mut i: usize = 0;
    proof {
        assert(out.deep_view() =~= old(out).deep_view() + a_records(hostname@, ttl, v4@.take(0)));
    }
    while i < v4.len()
        invariant
            i <= v4@.len(),
            valid_dns_name(hostname@),
            out.deep_view() == old(out).deep_view() + a_records(hostname@, ttl, v4@.take(i as int)),
            forall|k: int|
                old(out).deep_view().len() <= k < out.deep_view().len() ==> record_wf(
                    #[trigger] out.deep_view()[k],
                ),
        decreases v4@.len() - i,
    {
        let r = DnsRecord { name: hostname.clone(), ttl, data: RecordData::A { addr: v4[i] } };
        proof {
            assert(r@.name == hostname@);
            assert(record_wf(r@));
        }
        push_record(out, r);
        i = i + 1;
        proof {
            assert(a_records(hostname@, ttl, v4@.take(i as int)) =~= a_records(
                hostname@,
                ttl,
                v4@.take(i as int - 1),
            ).push(
                DnsRecordView {
                    name: hostname@,
                    ttl,
                    data: RecordDataView::A { addr: v4@[i as int - 1]@ },
                },
            ));
            assert(out.deep_view() =~= old(out).deep_view() + a_records(
                hostname@,
                ttl,
                v4@.take(i as int),
            ));
        }
    }
    proof {
        assert(v4@.take(v4@.len() as int) =~= v4@);
    }
}

/// Appends the AAAA records of the local host, one per IPv6 address.
fn push_aaaa_records(hostname: &String, ttl: u32, v6: &Vec<[u8; 16]>, out: &mut Vec<DnsRecord>)
    requires
        valid_dns_name(hostname@),
    ensures
        final(out).deep_view() == old(out).deep_view() + aaaa_records(hostname@, ttl, v6@),
        forall|k: int|
            old(out).deep_view().len() <= k < final(out).deep_view().len() ==> record_wf(
                #[trigger] final(out).deep_view()[k],
            ),
{
    let mut i: usize = 0;
    proof {
        assert(out.deep_view() =~= old(out).deep_view() + aaaa_records(
            hostname@,
            ttl,
            v6@.take(0),
        ));
    }
    while i < v6.len()
        invariant
            i <= v6@.len(),
            valid_dns_name(hostname@),
            out.deep_view() == old(out).deep_view() + aaaa_records(
                hostname@,
                ttl,
                v6@.take(i as int),
            ),
            forall|k: int|
                old(out).deep_view().len() <= k < out.deep_view().len() ==> record_wf(
                    #[trigger] out.deep_view()[k],
                ),
        decreases v6@.len() - i,
    {
        let r = DnsRecord { name: hostname.clone(), ttl, data: RecordData::Aaaa { addr: v6[i] } };
        proof {
            assert(r@.name == hostname@);
            assert(record_wf(r@));
        }
        push_record(out, r);
        i = i + 1;
        proof {
            assert(aaaa_records(hostname@, ttl, v6@.take(i as int)) =~= aaaa_records(
                hostname@,
                ttl,
                v6@.take(i as int - 1),
            ).push(
                DnsRecordView {
                    name: hostname@,
                    ttl,
                    data: RecordDataView::Aaaa { addr: v6@[i as int - 1]@ },
                },
            ));
            assert(out.deep_view() =~= old(out).deep_view() + aaaa_records(
                hostname@,
                ttl,
                v6@.take(i as int),
            ));
        }
    }
    proof {
        assert(v6@.take(v6@.len() as int) =~= v6@);
    }
}

/// Appends the address records of the local host, both families.
fn push_addr_records(
    hostname: &String,
    ttl: u32,
    v4: &Vec<[u8; 4]>,
    v6: &Vec<[u8; 16]>,
    out: &mut Vec<DnsRecord>,
)
    requires
        valid_dns_name(hostname@),
    ensures
        final(out).deep_view() == old(out).deep_view() + addr_records(hostname@, ttl, v4@, v6@),
        forall|k: int|
            old(out).deep_view().len() <= k < final(out).deep_view().len() ==> record_wf(
                #[trigger] final(out).deep_view()[k],
            ),
{
    push_a_records(hostname, ttl, v4, out);
    push_aaaa_records(hostname, ttl, v6, out);
    proof {
        assert(out.deep_view() =~= old(out).deep_view() + addr_records(
            hostname@,
            ttl,
            v4@,
            v6@,
        ));
    }
}

/// Appends the PTR, SRV and TXT records of one service.
fn push_svc_records(svc: &ServiceData, hostname: &String, ttl: u32, out: &mut Vec<DnsRecord>)
    requires
        svc_wf(svc@),
        valid_dns_name(hostname@),
    ensures
        final(out).deep_view() == old(out).deep_view() + seq![
            ptr_record(svc@, ttl),
            srv_record(svc@, hostname@, ttl),
            txt_record(svc@, ttl),
        ],
        forall|k: int|
            old(out).deep_view().len() <= k < final(out).deep_view().len() ==> record_wf(
                #[trigger] final(out).deep_view()[k],
            ),
{
    push_record(
        out,
        DnsRecord {
            name: svc.typ.clone(),
            ttl,
            data: RecordData::Ptr { target: svc.name.clone() },
        },
    );
    push_record(
        out,
        DnsRecord {
            name: svc.name.clone(),
            ttl,
            data: RecordData::Srv {
                priority: 0,
                weight: 0,
                port: svc.port,
                target: hostname.clone(),
            },
        },
    );
    push_record(
        out,
        DnsRecord {
            name: svc.name.clone(),
            ttl,
            data: RecordData::Txt { data: crate::copy_bytes(&svc.txt) },
        },
    );
    proof {
        assert(out.deep_view() =~= old(out).deep_view() + seq![
            ptr_record(svc@, ttl),
            srv_record(svc@, hostname@, ttl),
            txt_record(svc@, ttl),
        ]);
    }
}

// ---- answering questions ----------------------------------------------------

/// Every service listed for a type is a well-formed record of that type.
proof fn lemma_services_of_type_wf(v: RegistryView, t: Seq<char>)
    requires
        index_invariant(v),
    ensures
        forall|j: int|
            0 <= j < services_of_type(v, t).len() ==> svc_wf(#[trigger] services_of_type(v, t)[j]),
{
    if v.by_type.contains_key(t) {
        assert forall|j: int| 0 <= j < services_of_type(v, t).len() implies svc_wf(
            #[trigger] services_of_type(v, t)[j],
        ) by {
            assert(v.by_id.contains_key(v.by_type[t][j]));
            assert(services_of_type(v, t)[j] == v.by_id[v.by_type[t][j]]);
        }
    }
}

/// Every type the meta-query lists is a well-formed name.
proof fn lemma_nonempty_types_valid(v: RegistryView)
    requires
        index_invariant(v),
    ensures
        forall|i: int|
            0 <= i < nonempty_types(v).len() ==> valid_dns_name(#[trigger] nonempty_types(v)[i]),
{
    v.types.filter_lemma(|t: Seq<char>| bucket_of(v, t).len() > 0);
    assert forall|i: int| 0 <= i < nonempty_types(v).len() implies valid_dns_name(
        #[trigger] nonempty_types(v)[i],
    ) by {
        let t = nonempty_types(v)[i];
        assert(bucket_of(v, t).len() > 0);
        assert(v.by_type.contains_key(t));
        let id = v.by_type[t][0];
        assert(v.by_id.contains_key(id));
        assert(v.by_id[id].typ == t);
        assert(svc_wf(v.by_id[id]));
    }
}

/// Appends the answers of a PTR question.
fn answer_ptr(
    reg: &ServicesInner,
    qname: &String,
    v4: &Vec<[u8; 4]>,
    v6: &Vec<[u8; 16]>,
    out: &mut Vec<DnsRecord>,
)
    requires
        reg.inv(),
    ensures
        final(out).deep_view() == old(out).deep_view() + ptr_answers(reg@, qname@, v4@, v6@),
        forall|k: int|
            old(out).deep_view().len() <= k < final(out).deep_view().len() ==> record_wf(
                #[trigger] final(out).deep_view()[k],
            ),
{
    proof {
        reg.lemma_three_way_invariant();
    }
    let meta: String = "_services._dns-sd._udp.local".to_owned();
    proof {
        assert(meta@ == meta_query_name());
    }
    if *qname == meta {
        proof {
            lemma_meta_name_valid();
            lemma_nonempty_types_valid(reg@);
        }
        let types = reg.occupied_types();
        let ghost nts = nonempty_types(reg@);
        let mut i: usize = 0;
        proof {
            assert(meta_answers(reg@).len() == nts.len());
            assert(out.deep_view() =~= old(out).deep_view() + meta_answers(reg@).take(0));
        }
        while i < types.len()
            invariant
                i <= nts.len(),
                types.deep_view() == nts,
                nts == nonempty_types(reg@),
                types@.len() == nts.len(),
                valid_dns_name(meta_query_name()),
                forall|j: int| 0 <= j < nts.len() ==> valid_dns_name(#[trigger] nts[j]),
                meta@ == meta_query_name(),
                out.deep_view() == old(out).deep_view() + meta_answers(reg@).take(i as int),
                forall|k: int|
                    old(out).deep_view().len() <= k < out.deep_view().len() ==> record_wf(
                        #[trigger] out.deep_view()[k],
                    ),
        decreases nts.len() - i,
        {
            let r = DnsRecord {
                name: meta.clone(),
                ttl: DEFAULT_TTL,
                data: RecordData::Ptr { target: types[i].clone() },
            };
            proof {
                assert(types.deep_view()[i as int] == types@[i as int]@);
                assert(r@ == meta_answers(reg@)[i as int]);
                assert(record_wf(r@));
            }
            push_record(out, r);
            i = i + 1;
            proof {
                assert(meta_answers(reg@).take(i as int) =~= meta_answers(reg@).take(
                    i as int - 1,
                ).push(meta_answers(reg@)[i as int - 1]));
                assert(out.deep_view() =~= old(out).deep_view() + meta_answers(reg@).take(
                    i as int,
                ));
            }
        }
        proof {
            assert(meta_answers(reg@).take(nts.len() as int) =~= meta_answers(reg@));
        }
    } else {
        proof {
            lemma_services_of_type_wf(reg@, qname@);
        }
        let hostname = reg.get_hostname().clone();
        let ft = reg.find_by_type(qname);
        let svcs = ft.into_vec();
        let ghost sv = services_of_type(reg@, qname@);
        proof {
            assert(ft.remaining() =~= sv);
            assert(svcs.deep_view() == sv);
        }
        let mut j: usize = 0;
        proof {
            assert(out.deep_view() =~= old(out).deep_view() + type_answers(
                sv.take(0),
                reg@.hostname,
                v4@,
                v6@,
            ));
        }
        while j < svcs.len()
            invariant
                j <= sv.len(),
                svcs.deep_view() == sv,
                svcs@.len() == sv.len(),
                sv == services_of_type(reg@, qname@),
                forall|k: int| 0 <= k < sv.len() ==> svc_wf(#[trigger] sv[k]),
                hostname@ == reg@.hostname,
                valid_dns_name(reg@.hostname),
                out.deep_view() == old(out).deep_view() + type_answers(
                    sv.take(j as int),
                    reg@.hostname,
                    v4@,
                    v6@,
                ),
                forall|k: int|
                    old(out).deep_view().len() <= k < out.deep_view().len() ==> record_wf(
                        #[trigger] out.deep_view()[k],
                    ),
            decreases sv.len() - j,
        {
            proof {
                assert(svcs.deep_view()[j as int] == svcs@[j as int]@);
                assert(svcs@[j as int]@ == sv[j as int]);
            }
            push_svc_records(&svcs[j], &hostname, DEFAULT_TTL, out);
            push_addr_records(&hostname, DEFAULT_TTL, v4, v6, out);
            j = j + 1;
            proof {
                assert(sv.take(j as int).drop_last() =~= sv.take(j as int - 1));
                assert(sv.take(j as int).last() == sv[j as int - 1]);
                assert(type_answers(sv.take(j as int), reg@.hostname, v4@, v6@) == type_answers(
                    sv.take(j as int - 1),
                    reg@.hostname,
                    v4@,
                    v6@,
                ) + per_service_answers(sv[j as int - 1], reg@.hostname, v4@, v6@));
                assert(out.deep_view() =~= old(out).deep_view() + type_answers(
                    sv.take(j as int),
                    reg@.hostname,
                    v4@,
                    v6@,
                ));
            }
        }
        proof {
            assert(sv.take(sv.len() as int) =~= sv);
        }
    }
}

/// Appends the answers of an SRV question.
fn answer_srv(
    reg: &ServicesInner,
    qname: &String,
    v4: &Vec<[u8; 4]>,
    v6: &Vec<[u8; 16]>,
    out: &mut Vec<DnsRecord>,
)
    requires
        reg.inv(),
    ensures
        final(out).deep_view() == old(out).deep_view() + srv_answers(reg@, qname@, v4@, v6@),
        forall|k: int|
            old(out).deep_view().len() <= k < final(out).deep_view().len() ==> record_wf(
                #[trigger] final(out).deep_view()[k],
            ),
{
    proof {
        reg.lemma_three_way_invariant();
    }
    let hostname = reg.get_hostname().clone();
    let found = match reg.find_by_name(qname) {
        Some(svc) => Some(svc.clone()),
        None => None,
    };
    match found {
        Some(svc) => {
            proof {
                assert(service_named(reg@, qname@) == Some(svc@));
                assert(reg@.by_name.contains_key(qname@));
                assert(reg@.by_id.contains_key(reg@.by_name[qname@]));
                assert(svc_wf(svc@));
            }
            push_record(
                out,
                DnsRecord {
                    name: svc.name.clone(),
                    ttl: DEFAULT_TTL,
                    data: RecordData::Srv {
                        priority: 0,
                        weight: 0,
                        port: svc.port,
                        target: hostname.clone(),
                    },
                },
            );
            push_addr_records(&hostname, DEFAULT_TTL, v4, v6, out);
            proof {
                assert(out.deep_view() =~= old(out).deep_view() + srv_answers(
                    reg@,
                    qname@,
                    v4@,
                    v6@,
                ));
            }
        },
        None => {
            proof {
                assert(srv_answers(reg@, qname@, v4@, v6@) =~= Seq::<DnsRecordView>::empty());
                assert(out.deep_view() =~= old(out).deep_view() + srv_answers(
                    reg@,
                    qname@,
                    v4@,
                    v6@,
                ));
            }
        },
    }
}

/// Appends the answer of a TXT question.
fn answer_txt(reg: &ServicesInner, qname: &String, out: &mut Vec<DnsRecord>)
    requires
        reg.inv(),
    ensures
        final(out).deep_view() == old(out).deep_view() + txt_answers(reg@, qname@),
        forall|k: int|
            old(out).deep_view().len() <= k < final(out).deep_view().len() ==> record_wf(
                #[trigger] final(out).deep_view()[k],
            ),
{
    proof {
        reg.lemma_three_way_invariant();
    }
    let found = match reg.find_by_name(qname) {
        Some(svc) => Some(svc.clone()),
        None => None,
    };
    match found {
        Some(svc) => {
            proof {
                assert(service_named(reg@, qname@) == Some(svc@));
                assert(reg@.by_name.contains_key(qname@));
                assert(reg@.by_id.contains_key(reg@.by_name[qname@]));
                assert(svc_wf(svc@));
            }
            push_record(
                out,
                DnsRecord {
                    name: svc.name.clone(),
                    ttl: DEFAULT_TTL,
                    data: RecordData::Txt { data: crate::copy_bytes(&svc.txt) },
                },
            );
            proof {
                assert(out.deep_view() =~= old(out).deep_view() + txt_answers(reg@, qname@));
            }
        },
        None => {
            proof {
                assert(txt_answers(reg@, qname@) =~= Seq::<DnsRecordView>::empty());
                assert(out.deep_view() =~= old(out).deep_view() + txt_answers(reg@, qname@));
            }
        },
    }
}

/// Appends the answers of an A question.
fn answer_a(reg: &ServicesInner, qname: &String, v4: &Vec<[u8; 4]>, out: &mut Vec<DnsRecord>)
    requires
        reg.inv(),
    ensures
        final(out).deep_view() == old(out).deep_view() + a_answers(reg@, qname@, v4@),
        forall|k: int|
            old(out).deep_view().len() <= k < final(out).deep_view().len() ==> record_wf(
                #[trigger] final(out).deep_view()[k],
            ),
{
    proof {
        reg.lemma_three_way_invariant();
    }
    let hostname = reg.get_hostname().clone();
    if *qname == hostname {
        push_a_records(&hostname, DEFAULT_TTL, v4, out);
        proof {
            assert(out.deep_view() =~= old(out).deep_view() + a_answers(reg@, qname@, v4@));
        }
    } else {
        proof {
            assert(a_answers(reg@, qname@, v4@) =~= Seq::<DnsRecordView>::empty());
            assert(out.deep_view() =~= old(out).deep_view() + a_answers(reg@, qname@, v4@));
        }
    }
}

/// Appends the answers of an AAAA question.
fn answer_aaaa(reg: &ServicesInner, qname: &String, v6: &Vec<[u8; 16]>, out: &mut Vec<DnsRecord>)
    requires
        reg.inv(),
    ensures
        final(out).deep_view() == old(out).deep_view() + aaaa_answers(reg@, qname@, v6@),
        forall|k: int|
            old(out).deep_view().len() <= k < final(out).deep_view().len() ==> record_wf(
                #[trigger] final(out).deep_view()[k],
            ),
{
    proof {
        reg.lemma_three_way_invariant();
    }
    let hostname = reg.get_hostname().clone();
    if *qname == hostname {
        push_aaaa_records(&hostname, DEFAULT_TTL, v6, out);
        proof {
            assert(out.deep_view() =~= old(out).deep_view() + aaaa_answers(reg@, qname@, v6@));
        }
    } else {
        proof {
            assert(aaaa_answers(reg@, qname@, v6@) =~= Seq::<DnsRecordView>::empty());
            assert(out.deep_view() =~= old(out).deep_view() + aaaa_answers(reg@, qname@, v6@));
        }
    }
}

/// Appends the answers of one question, dispatched on its QTYPE.
fn answer_question(
    reg: &ServicesInner,
    q: &Question,
    v4: &Vec<[u8; 4]>,
    v6: &Vec<[u8; 16]>,
    out: &mut Vec<DnsRecord>,
)
    requires
        reg.inv(),
    ensures
        final(out).deep_view() == old(out).deep_view() + question_answers(
            reg@,
            q.qtype,
            q.qname@,
            v4@,
            v6@,
        ),
        forall|k: int|
            old(out).deep_view().len() <= k < final(out).deep_view().len() ==> record_wf(
                #[trigger] final(out).deep_view()[k],
            ),
{
    if q.qtype == QTYPE_PTR {
        answer_ptr(reg, &q.qname, v4, v6, out);
    } else if q.qtype == QTYPE_SRV {
        answer_srv(reg, &q.qname, v4, v6, out);
    } else if q.qtype == QTYPE_TXT {
        answer_txt(reg, &q.qname, out);
    } else if q.qtype == QTYPE_A {
        answer_a(reg, &q.qname, v4, out);
    } else if q.qtype == QTYPE_AAAA {
        answer_aaaa(reg, &q.qname, v6, out);
    } else if q.qtype == QTYPE_ANY {
        answer_ptr(reg, &q.qname, v4, v6, out);
        answer_srv(reg, &q.qname, v4, v6, out);
        answer_txt(reg, &q.qname, out);
        answer_a(reg, &q.qname, v4, out);
        answer_aaaa(reg, &q.qname, v6, out);
        proof {
            assert(out.deep_view() =~= old(out).deep_view() + question_answers(
                reg@,
                q.qtype,
                q.qname@,
                v4@,
                v6@,
            ));
        }
    } else {
        proof {
            assert(question_answers(reg@, q.qtype, q.qname@, v4@, v6@) =~= Seq::<
                DnsRecordView,
            >::empty());
            assert(out.deep_view() =~= old(out).deep_view() + question_answers(
                reg@,
                q.qtype,
                q.qname@,
                v4@,
                v6@,
            ));
        }
    }
}

/// Composes the answer records for all questions of an inbound query.
pub fn respond(
    reg: &ServicesInner,
    questions: &Vec<Question>,
    v4: &Vec<[u8; 4]>,
    v6: &Vec<[u8; 16]>,
) -> (r: Vec<DnsRecord>)
    requires
        reg.inv(),
    ensures
        r.deep_view() == all_answers(reg@, question_pairs(questions@), v4@, v6@),
        forall|k: int|
            0 <= k < r.deep_view().len() ==> record_wf(#[trigger] r.deep_view()[k]),
{
    let ghost qp = question_pairs(questions@);
    let mut out: Vec<DnsRecord> = Vec::new();
    let mut i: usize = 0;
    proof {
        assert(out.deep_view() =~= all_answers(reg@, qp.take(0), v4@, v6@));
    }
    while i < questions.len()
        invariant
            i <= questions@.len(),
            reg.inv(),
            qp == question_pairs(questions@),
            qp.len() == questions@.len(),
            out.deep_view() == all_answers(reg@, qp.take(i as int), v4@, v6@),
            forall|k: int|
                0 <= k < out.deep_view().len() ==> record_wf(#[trigger] out.deep_view()[k]),
        decreases questions@.len() - i,
    {
        proof {
            assert(qp[i as int] == (questions@[i as int].qtype, questions@[i as int].qname@));
        }
        answer_question(reg, &questions[i], v4, v6, &mut out);
        i = i + 1;
        proof {
            assert(qp.take(i as int).drop_last() =~= qp.take(i as int - 1));
            assert(qp.take(i as int).last() == qp[i as int - 1]);
            assert(all_answers(reg@, qp.take(i as int), v4@, v6@) == all_answers(
                reg@,
                qp.take(i as int - 1),
                v4@,
                v6@,
            ) + question_answers(reg@, qp[i as int - 1].0, qp[i as int - 1].1, v4@, v6@));
            assert(out.deep_view() =~= all_answers(reg@, qp.take(i as int), v4@, v6@));
        }
    }
    proof {
        assert(qp.take(qp.len() as int) =~= qp);
    }
    out
}

/// Builds the records of an unsolicited announcement (or, with TTL zero,
/// a goodbye) for one service.
pub fn unsolicited_records(
    svc: &ServiceData,
    ttl: u32,
    include_ip: bool,
    hostname: &String,
    v4: &Vec<[u8; 4]>,
    v6: &Vec<[u8; 16]>,
) -> (r: Vec<DnsRecord>)
    requires
        svc_wf(svc@),
        valid_dns_name(hostname@),
    ensures
        r.deep_view() == unsolicited_view(svc@, ttl, include_ip, hostname@, v4@, v6@),
        forall|k: int|
            0 <= k < r.deep_view().len() ==> record_wf(#[trigger] r.deep_view()[k]),
{
    let mut out: Vec<DnsRecord> = Vec::new();
    push_svc_records(svc, hostname, ttl, &mut out);
    if include_ip {
        push_addr_records(hostname, ttl, v4, v6, &mut out);
    }
    proof {
        assert(out.deep_view() =~= unsolicited_view(svc@, ttl, include_ip, hostname@, v4@, v6@));
    }
    out
}

/// Handles one command from the application: an unsolicited announcement
/// produces a packet to multicast, a shutdown produces nothing.
pub fn handle_command(
    cmd: &Command,
    hostname: &String,
    v4: &Vec<[u8; 4]>,
    v6: &Vec<[u8; 16]>,
) -> (r: Option<Vec<u8>>)
    requires
        valid_dns_name(hostname@),
        cmd matches Command::SendUnsolicited { svc, .. } ==> svc_wf(svc@),
    ensures
        cmd matches Command::Shutdown ==> r is None,
        cmd matches Command::SendUnsolicited { svc, ttl, include_ip } ==> {
            &&& r matches Some(b)
            &&& response_bytes_for(
                unsolicited_view(svc@, *ttl, *include_ip, hostname@, v4@, v6@),
                b@,
            )
            &&& 12 + records_wire(
                unsolicited_view(svc@, *ttl, *include_ip, hostname@, v4@, v6@),
            ).len() <= MAX_PACKET ==> b@ == response_wire(
                unsolicited_view(svc@, *ttl, *include_ip, hostname@, v4@, v6@),
            )
        },
{
    match cmd {
        Command::Shutdown => None,
        Command::SendUnsolicited { svc, ttl, include_ip } => {
            let records = unsolicited_records(svc, *ttl, *include_ip, hostname, v4, v6);
            Some(build_response(&records))
        },
    }
}

/// Handles one inbound datagram: a parse failure or a query that no
/// registered name answers produces nothing; otherwise the response packet.
pub fn handle_datagram(
    reg: &ServicesInner,
    data: &[u8],
    v4: &Vec<[u8; 4]>,
    v6: &Vec<[u8; 16]>,
) -> (r: Option<Vec<u8>>)
    requires
        reg.inv(),
    ensures
        crate::codec::parsed_questions(data@) is None ==> r is None,
        crate::codec::parsed_questions(data@) matches Some(qs) ==> {
            &&& all_answers(reg@, qs, v4@, v6@).len() == 0 ==> r is None
            &&& all_answers(reg@, qs, v4@, v6@).len() > 0 ==> {
                &&& r matches Some(b)
                &&& response_bytes_for(all_answers(reg@, qs, v4@, v6@), b@)
                &&& 12 + records_wire(all_answers(reg@, qs, v4@, v6@)).len() <= MAX_PACKET
                    ==> b@ == response_wire(all_answers(reg@, qs, v4@, v6@))
            }
        },
{
    match crate::codec::parse_questions(data) {
        None => None,
        Some(questions) => {
            let answers = respond(reg, &questions, v4, v6);
            proof {
                assert(answers.deep_view().len() == answers@.len());
            }
            if answers.len() == 0 {
                None
            } else {
                Some(build_response(&answers))
            }
        },
    }
}

/// An answer section under construction, records in emission order.
pub type AnswerBuilder = Vec<DnsRecord>;

impl ServiceData {
    /// Adds this service's PTR record to the answer builder.
    pub fn add_ptr_rr(&self, builder: AnswerBuilder, ttl: u32) -> (r: AnswerBuilder)
        ensures
            r.deep_view() == builder.deep_view().push(ptr_record(self@, ttl)),
    {
        let mut b = builder;
        push_record(
            &mut b,
            DnsRecord {
                name: self.typ.clone(),
                ttl,
                data: RecordData::Ptr { target: self.name.clone() },
            },
        );
        b
    }

    /// Adds this service's SRV record, pointing at `hostname`, to the
    /// answer builder.
    pub fn add_srv_rr(&self, hostname: &String, builder: AnswerBuilder, ttl: u32) -> (r:
        AnswerBuilder)
        ensures
            r.deep_view() == builder.deep_view().push(srv_record(self@, hostname@, ttl)),
    {
        let mut b = builder;
        push_record(
            &mut b,
            DnsRecord {
                name: self.name.clone(),
                ttl,
                data: RecordData::Srv {
                    priority: 0,
                    weight: 0,
                    port: self.port,
                    target: hostname.clone(),
                },
            },
        );
        b
    }

    /// Adds this service's TXT record to the answer builder.
    pub fn add_txt_rr(&self, builder: AnswerBuilder, ttl: u32) -> (r: AnswerBuilder)
        ensures
            r.deep_view() == builder.deep_view().push(txt_record(self@, ttl)),
    {
        let mut b = builder;
        push_record(
            &mut b,
            DnsRecord {
                name: self.name.clone(),
                ttl,
                data: RecordData::Txt { data: crate::copy_bytes(&self.txt) },
            },
        );
        b
    }
}

// ---- stated laws ------------------------------------------------------------

/// A question's name matches the registry when it is the meta-query name,
/// a registered type, a registered instance name, or the local hostname.
pub open spec fn question_matches(v: RegistryView, qn: Seq<char>) -> bool {
    ||| qn == meta_query_name()
    ||| v.by_type.contains_key(qn)
    ||| v.by_name.contains_key(qn)
    ||| qn == v.hostname
}

/// Law: a query none of whose question names matches any registered name
/// or type, the hostname, or the meta-query, produces no answers at all.
pub proof fn lemma_unmatched_query_no_answers(
    v: RegistryView,
    qs: Seq<(u16, Seq<char>)>,
    v4: Seq<[u8; 4]>,
    v6: Seq<[u8; 16]>,
)
    requires
        forall|i: int| 0 <= i < qs.len() ==> !question_matches(v, (#[trigger] qs[i]).1),
    ensures
        all_answers(v, qs, v4, v6).len() == 0,
    decreases qs.len(),
{
    if qs.len() > 0 {
        assert forall|i: int|
            0 <= i < qs.drop_last().len() implies !question_matches(
            v,
            (#[trigger] qs.drop_last()[i]).1,
        ) by {
            assert(qs.drop_last()[i] == qs[i]);
        }
        lemma_unmatched_query_no_answers(v, qs.drop_last(), v4, v6);
        let qt = qs.last().0;
        let qn = qs.last().1;
        assert(qs.last() == qs[qs.len() - 1]);
        assert(!question_matches(v, qn));
        assert(services_of_type(v, qn) =~= Seq::<ServiceDataView>::empty());
        assert(ptr_answers(v, qn, v4, v6).len() == 0);
        assert(srv_answers(v, qn, v4, v6).len() == 0);
        assert(txt_answers(v, qn).len() == 0);
        assert(a_answers(v, qn, v4).len() == 0);
        assert(aaaa_answers(v, qn, v6).len() == 0);
        assert(question_answers(v, qt, qn, v4, v6).len() == 0);
    }
}

/// The records announced for the service at one position of a type's list
/// are among the answers for that type.
proof fn lemma_type_answers_block(
    svcs: Seq<ServiceDataView>,
    hostname: Seq<char>,
    v4: Seq<[u8; 4]>,
    v6: Seq<[u8; 16]>,
    k: int,
)
    requires
        0 <= k < svcs.len(),
    ensures
        type_answers(svcs, hostname, v4, v6).contains(ptr_record(svcs[k], DEFAULT_TTL)),
        type_answers(svcs, hostname, v4, v6).contains(srv_record(svcs[k], hostname, DEFAULT_TTL)),
        type_answers(svcs, hostname, v4, v6).contains(txt_record(svcs[k], DEFAULT_TTL)),
    decreases svcs.len(),
{
    let whole = type_answers(svcs, hostname, v4, v6);
    let prev = type_answers(svcs.drop_last(), hostname, v4, v6);
    let blk = per_service_answers(svcs.last(), hostname, v4, v6);
    if k == svcs.len() - 1 {
        assert(svcs.last() == svcs[k]);
        assert(whole[prev.len() as int + 0] == ptr_record(svcs[k], DEFAULT_TTL));
        assert(whole[prev.len() as int + 1] == srv_record(svcs[k], hostname, DEFAULT_TTL));
        assert(whole[prev.len() as int + 2] == txt_record(svcs[k], DEFAULT_TTL));
    } else {
        assert(svcs.drop_last()[k] == svcs[k]);
        lemma_type_answers_block(svcs.drop_last(), hostname, v4, v6, k);
        assert forall|x: DnsRecordView| prev.contains(x) implies #[trigger] whole.contains(x) by {
            let j = choose|j: int| 0 <= j < prev.len() && prev[j] == x;
            assert(whole[j] == x);
        }
    }
}

/// Law: for a registered service and a PTR question on its type, the
/// answers contain the service's PTR record (whose RDATA is its instance
/// name) and its SRV and TXT records. The one type name this cannot hold
/// for is the meta-query name itself, which asks for the type list instead.
pub proof fn lemma_ptr_query_lists_service(
    v: RegistryView,
    id: usize,
    v4: Seq<[u8; 4]>,
    v6: Seq<[u8; 16]>,
)
    requires
        index_invariant(v),
        v.by_id.contains_key(id),
        v.by_id[id].typ != meta_query_name(),
    ensures
        ({
            let svc = v.by_id[id];
            let ans = question_answers(v, QTYPE_PTR, svc.typ, v4, v6);
            &&& ans.contains(ptr_record(svc, DEFAULT_TTL))
            &&& ans.contains(srv_record(svc, v.hostname, DEFAULT_TTL))
            &&& ans.contains(txt_record(svc, DEFAULT_TTL))
        }),
{
    let svc = v.by_id[id];
    let t = svc.typ;
    let bucket = v.by_type[t];
    let svcs = services_of_type(v, t);
    assert(bucket.contains(id));
    let k = choose|k: int| 0 <= k < bucket.len() && bucket[k] == id;
    assert(svcs[k] == svc);
    lemma_type_answers_block(svcs, v.hostname, v4, v6, k);
}

/// Law: every record of an unsolicited packet carries exactly the TTL it
/// was built with; with TTL zero these are the goodbye records.
pub proof fn lemma_unsolicited_ttl(
    svc: ServiceDataView,
    ttl: u32,
    include_ip: bool,
    hostname: Seq<char>,
    v4: Seq<[u8; 4]>,
    v6: Seq<[u8; 16]>,
)
    ensures
        forall|k: int|
            0 <= k < unsolicited_view(svc, ttl, include_ip, hostname, v4, v6).len() ==> (
            #[trigger] unsolicited_view(svc, ttl, include_ip, hostname, v4, v6)[k]).ttl == ttl,
{
    let u = unsolicited_view(svc, ttl, include_ip, hostname, v4, v6);
    assert forall|k: int| 0 <= k < u.len() implies (#[trigger] u[k]).ttl == ttl by {
        if k >= 3 {
            if include_ip {
                let a = addr_records(hostname, ttl, v4, v6);
                assert(u[k] == a[k - 3]);
                if k - 3 < v4.len() {
                    assert(a[k - 3] == a_records(hostname, ttl, v4)[k - 3]);
                } else {
                    assert(a[k - 3] == aaaa_records(hostname, ttl, v6)[k - 3 - v4.len()]);
                }
            }
        }
    }
}

} // verus!
