//! Core of a multicast DNS (mDNS) responder: a service registry with
//! indexed lookup, DNS-SD answer composition for inbound queries, and
//! wire-format encoding of the response packets.
//!
//! Networking (sockets, multicast membership, the event loop) lives in the
//! embedding application; this crate holds the logic that decides what a
//! responder stores and what it sends.
use vstd::prelude::*;

pub mod name;
pub mod codec;
pub mod fsm;
pub mod packet;
pub mod services;

verus! {

/// Default time-to-live, in seconds, for records in answers and announcements.
pub const DEFAULT_TTL: u32 = 60;

/// The well-known mDNS port.
pub const MDNS_PORT: u16 = 5353;

/// The DNS TXT record encoding of a list of entries: each entry is prefixed
/// with its length as a single byte; an empty list is encoded as one zero byte.
pub open spec fn txt_encoding(entries: Seq<Seq<u8>>) -> Seq<u8> {
    if entries.len() == 0 {
        seq![0u8]
    } else {
        txt_chunks(entries)
    }
}

/// Concatenation of the length-prefixed entries.
pub open spec fn txt_chunks(entries: Seq<Seq<u8>>) -> Seq<u8>
    decreases entries.len(),
{
    if entries.len() == 0 {
        Seq::empty()
    } else {
        seq![entries[0].len() as u8] + entries[0] + txt_chunks(entries.skip(1))
    }
}

proof fn lemma_txt_chunks_push(entries: Seq<Seq<u8>>, e: Seq<u8>)
    ensures
        txt_chunks(entries.push(e)) == txt_chunks(entries) + seq![e.len() as u8] + e,
    decreases entries.len(),
{
    let p = entries.push(e);
    if entries.len() == 0 {
        assert(p[0] == e);
        assert(p.skip(1) =~= Seq::<Seq<u8>>::empty());
        assert(txt_chunks(p) == seq![p[0].len() as u8] + p[0] + txt_chunks(p.skip(1)));
        assert(txt_chunks(p) =~= txt_chunks(entries) + seq![e.len() as u8] + e);
    } else {
        assert(p[0] == entries[0]);
        assert(p.skip(1) =~= entries.skip(1).push(e));
        lemma_txt_chunks_push(entries.skip(1), e);
        assert(txt_chunks(p) == seq![p[0].len() as u8] + p[0] + txt_chunks(p.skip(1)));
        assert(txt_chunks(entries) == seq![entries[0].len() as u8] + entries[0] + txt_chunks(
            entries.skip(1),
        ));
        assert(txt_chunks(p) =~= txt_chunks(entries) + seq![e.len() as u8] + e);
    }
}

/// Appends all bytes of `src` to `dst`.
pub(crate) fn push_bytes(dst: &mut Vec<u8>, src: &Vec<u8>)
    ensures
        final(dst)@ == old(dst)@ + src@,
{
    let mut j: usize = 0;
    while j < src.len()
        invariant
            j <= src@.len(),
            dst@ == old(dst)@ + src@.take(j as int),
        decreases src@.len() - j,
    {
        dst.push(src[j]);
        j = j + 1;
        assert(src@.take(j as int) =~= src@.take(j as int - 1).push(src@[j as int - 1]));
        assert(dst@ =~= old(dst)@ + src@.take(j as int));
    }
    assert(src@.take(src@.len() as int) =~= src@);
}

/// Returns a copy of the bytes of `src`.
pub(crate) fn copy_bytes(src: &Vec<u8>) -> (r: Vec<u8>)
    ensures
        r@ == src@,
{
    let mut out: Vec<u8> = Vec::new();
    push_bytes(&mut out, src);
    proof {
        assert(out@ =~= src@);
    }
    out
}

/// Builds the TXT record bytes for the given entries.
///
/// Each entry is length-prefixed; an empty entry list yields the canonical
/// single zero byte. Entries longer than 255 bytes cannot be length-prefixed
/// and are a caller error, ruled out by the precondition.
pub fn build_txt_record(entries: &Vec<Vec<u8>>) -> (r: Vec<u8>)
    requires
        forall|i: int| 0 <= i < entries@.len() ==> (#[trigger] entries@[i])@.len() <= 255,
    ensures
        r@ == txt_encoding(entries.deep_view()),
{
    if entries.len() == 0 {
        let mut out: Vec<u8> = Vec::new();
        out.push(0u8);
        assert(out@ =~= txt_encoding(entries.deep_view()));
        return out;
    }
    let ghost dv = entries.deep_view();
    assert(dv.len() == entries@.len());
    let mut out: Vec<u8> = Vec::new();
    let mut i: usize = 0;
    assert(out@ =~= txt_chunks(dv.take(0)));
    while i < entries.len()
        invariant
            i <= entries@.len(),
            dv == entries.deep_view(),
            dv.len() == entries@.len(),
            forall|k: int| 0 <= k < entries@.len() ==> (#[trigger] entries@[k])@.len() <= 255,
            forall|k: int| 0 <= k < entries@.len() ==> dv[k] == (#[trigger] entries@[k])@,
            out@ == txt_chunks(dv.take(i as int)),
        decreases entries@.len() - i,
    {
        let n: usize = entries[i].len();
        out.push(n as u8);
        push_bytes(&mut out, &entries[i]);
        proof {
            lemma_txt_chunks_push(dv.take(i as int), dv[i as int]);
            assert(dv.take(i as int + 1) =~= dv.take(i as int).push(dv[i as int]));
            assert(out@ =~= txt_chunks(dv.take(i as int)) + seq![dv[i as int].len() as u8]
                + dv[i as int]);
        }
        i = i + 1;
    }
    assert(dv.take(dv.len() as int) =~= dv);
    out
}

/// The `.local` suffix of every name this responder owns.
pub open spec fn local_suffix() -> Seq<char> {
    ".local"@
}

/// Whether `s` already ends in `.local`.
pub open spec fn ends_with_local(s: Seq<char>) -> bool {
    s.len() >= 6 && s.skip(s.len() - 6) == local_suffix()
}

/// Appends `.local` to a hostname unless it already ends in it.
pub fn ensure_local_suffix(h: &String) -> (r: String)
    ensures
        r@ == if ends_with_local(h@) {
            h@
        } else {
            h@ + local_suffix()
        },
{
    proof {
        reveal_strlit(".local");
        assert(local_suffix().len() == 6);
    }
    let s = h.as_str();
    let n = s.unicode_len();
    let mut ends = false;
    if n >= 6 {
        ends = s.get_char(n - 6) == '.' && s.get_char(n - 5) == 'l' && s.get_char(n - 4) == 'o'
            && s.get_char(n - 3) == 'c' && s.get_char(n - 2) == 'a' && s.get_char(n - 1) == 'l';
        proof {
            let t = h@.skip(n as int - 6);
            assert(t.len() == 6);
            assert(t[0] == h@[n as int - 6]);
            assert(t[1] == h@[n as int - 5]);
            assert(t[2] == h@[n as int - 4]);
            assert(t[3] == h@[n as int - 3]);
            assert(t[4] == h@[n as int - 2]);
            assert(t[5] == h@[n as int - 1]);
            if ends {
                assert(t =~= local_suffix());
            } else {
                assert(t != local_suffix());
            }
        }
    }
    if ends {
        h.clone()
    } else {
        let r = h.clone().concat(".local");
        proof {
            assert(r@ == h@ + local_suffix());
        }
        r
    }
}

/// Builds the record for one service from its bare type, instance name,
/// port and TXT entries: the fully-qualified names gain the `.local`
/// suffix, and the entries are encoded into TXT record bytes.
pub fn make_service_data(
    svc_type: &String,
    svc_name: &String,
    port: u16,
    txt_entries: &Vec<Vec<u8>>,
) -> (r: crate::services::ServiceData)
    requires
        forall|i: int| 0 <= i < txt_entries@.len() ==> (#[trigger] txt_entries@[i])@.len() <= 255,
    ensures
        r@.typ == svc_type@ + ".local"@,
        r@.name == svc_name@ + "."@ + svc_type@ + ".local"@,
        r@.port == port,
        r@.txt == txt_encoding(txt_entries.deep_view()),
{
    let typ = svc_type.clone().concat(".local");
    let name = svc_name.clone().concat(".").concat(svc_type.as_str()).concat(".local");
    let txt = build_txt_record(txt_entries);
    crate::services::ServiceData { name, typ, port, txt }
}

} // verus!
