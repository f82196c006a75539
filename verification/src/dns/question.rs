//! The entries of a message's question section.

use crate::dns::buffer::DnsPacketBuffer;
use crate::dns::name::{
    ascii_chars, encode_name, join_dots, name_text, parse_name, string_to_bytes, valid_name,
    MAX_JUMPS,
};
use crate::dns::wire::{be16, push_u16, u16_bytes};
use crate::error::DnsError;
use crate::text::{eq_ignore_case, lower_bytes};
use vstd::prelude::*;
use vstd::std_specs::cmp::PartialEqSpecImpl;

verus! {

/// What is asked: a name, a record type and a class.
#[derive(Debug, Clone)]
pub struct Question {
    pub cname: String,
    pub rr_type: u16,
    pub class: u16,
}

/// A question as a mathematical value.
pub struct QuestionView {
    pub name: Seq<char>,
    pub rr_type: u16,
    pub class: u16,
}

impl View for Question {
    type V = QuestionView;

    open spec fn view(&self) -> QuestionView {
        QuestionView { name: self.cname@, rr_type: self.rr_type, class: self.class }
    }
}

/// A question that has a wire form: its name is valid.
pub open spec fn valid_question(q: QuestionView) -> bool {
    valid_name(name_text(q.name))
}

/// The wire form of a question: the name, then type and class.
pub open spec fn question_bytes(q: QuestionView) -> Seq<u8> {
    encode_name(name_text(q.name)) + u16_bytes(q.rr_type) + u16_bytes(q.class)
}

/// The question that starts at `pos` in the packet `buf`, and the offset
/// behind it.
pub open spec fn parse_question(buf: Seq<u8>, pos: int) -> Option<(QuestionView, int)> {
    match parse_name(buf, pos, MAX_JUMPS as nat) {
        Some((labels, p)) => if p + 4 <= buf.len() {
            Some(
                (
                    QuestionView {
                        name: ascii_chars(join_dots(labels)),
                        rr_type: be16(buf[p], buf[p + 1]),
                        class: be16(buf[p + 2], buf[p + 3]),
                    },
                    p + 4,
                ),
            )
        } else {
            None
        },
        None => None,
    }
}

/// What identifies a question: its name without regard to case, its type and
/// its class.
pub open spec fn question_key(q: QuestionView) -> (Seq<u8>, u16, u16) {
    (lower_bytes(name_text(q.name)), q.rr_type, q.class)
}

impl Question {
    /// A copy of the question.
    pub fn copy(&self) -> (r: Question)
        ensures
            r@ == self@,
    {
        Question { cname: self.cname.clone(), rr_type: self.rr_type, class: self.class }
    }

    /// Reads one question at the cursor. On failure the cursor stays.
    pub fn read(buffer: &mut DnsPacketBuffer) -> (r: Result<Question, DnsError>)
        ensures
            final(buffer).bytes() == old(buffer).bytes(),
            match parse_question(old(buffer).bytes(), old(buffer).cursor() as int) {
                Some((q, next)) => {
                    &&& r matches Ok(v)
                    &&& v@ == q
                    &&& final(buffer).cursor() == next
                },
                None => {
                    &&& r matches Err(e)
                    &&& e == DnsError::MalformedPacket
                    &&& final(buffer).cursor() == old(buffer).cursor()
                },
            },
    {
        let mut probe = *buffer;
        let cname = match probe.read_name() {
            Ok(s) => s,
            Err(e) => {
                return Err(e);
            },
        };
        let rr_type: u16 = match probe.read_u16() {
            Ok(v) => v,
            Err(e) => {
                return Err(e);
            },
        };
        let class: u16 = match probe.read_u16() {
            Ok(v) => v,
            Err(e) => {
                return Err(e);
            },
        };
        *buffer = probe;
        Ok(Question { cname, rr_type, class })
    }

    /// The wire form of the question, or `MalformedPacket` where its name
    /// has none.
    pub fn to_bytes(&self) -> (r: Result<Vec<u8>, DnsError>)
        ensures
            match r {
                Ok(v) => valid_question(self@) && v@ == question_bytes(self@),
                Err(e) => !valid_question(self@) && e == DnsError::MalformedPacket,
            },
    {
        let mut out = match string_to_bytes(&self.cname) {
            Ok(v) => v,
            Err(e) => {
                return Err(e);
            },
        };
        push_u16(&mut out, self.rr_type);
        push_u16(&mut out, self.class);
        Ok(out)
    }

    /// Whether two questions ask the same: equal type and class, and names
    /// that differ at most in the case of their letters.
    pub fn same_as(&self, other: &Question) -> (r: bool)
        ensures
            r == (question_key(self@) == question_key(other@)),
    {
        self.rr_type == other.rr_type && self.class == other.class && eq_ignore_case(
            self.cname.as_str().as_bytes(),
            other.cname.as_str().as_bytes(),
        )
    }
}

/// Questions are equal where they ask the same, whatever the case of their
/// names.
impl PartialEq for Question {
    fn eq(&self, other: &Question) -> (r: bool) {
        self.same_as(other)
    }
}

impl PartialEqSpecImpl for Question {
    open spec fn obeys_eq_spec() -> bool {
        true
    }

    open spec fn eq_spec(&self, other: &Question) -> bool {
        question_key(self@) == question_key(other@)
    }
}

} // verus!
