//! The boundary to the DNS wire-format parser of the dns_parser crate.
use vstd::prelude::*;

use crate::fsm::{question_pairs, Question};

verus! {

/// What the DNS parser extracts from a datagram: the QTYPE code and dotted
/// question name of each question, in order — or nothing, when the datagram
/// does not parse as a DNS message.
pub uninterp spec fn parsed_questions(data: Seq<u8>) -> Option<Seq<(u16, Seq<char>)>>;

/// Relies on dns_parser::Packet::parse: a pure function of the datagram
/// bytes. On success the questions' QTYPE codes and dotted names come back
/// in packet order; a malformed datagram yields None.
#[verifier::external_body]
pub fn parse_questions(data: &[u8]) -> (r: Option<Vec<Question>>)
    ensures
        match r {
            Some(qs) => parsed_questions(data@) == Some(question_pairs(qs@)),
            None => parsed_questions(data@) is None,
        },
{
    match dns_parser::Packet::parse(data) {
        Ok(p) => Some(
            p.questions.iter().map(
                |q| Question { qtype: q.qtype as u16, qname: q.qname.to_string() },
            ).collect(),
        ),
        Err(_) => None,
    }
}

} // verus!
