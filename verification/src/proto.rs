//! The parts of DNS messages that the engine's decisions read and write.

use vstd::prelude::*;

use crate::addr::IpAddr;

verus! {

/// A domain name that was parsed, in its fully qualified form.
#[derive(Clone, Debug, PartialEq, Eq)]
pub struct Name {
    pub fqdn: String,
}

/// The type of a resource record.
#[derive(Clone, Copy, Debug, PartialEq, Eq, Structural)]
pub enum RecordType {
    A,
    AAAA,
    Other(u16),
}

/// The class of a resource record.
#[derive(Clone, Copy, Debug, PartialEq, Eq, Structural)]
pub enum DNSClass {
    IN,
    Other(u16),
}

#[derive(Clone, Copy, Debug, PartialEq, Eq, Structural)]
pub enum MessageType {
    Query,
    Response,
}

#[derive(Clone, Copy, Debug, PartialEq, Eq, Structural)]
pub enum Opcode {
    Query,
    Other(u8),
}

/// What a message asks.
#[derive(Clone, Debug, PartialEq, Eq)]
pub struct Question {
    pub name: Name,
    pub qtype: RecordType,
    pub qclass: DNSClass,
}

/// The client subnet that an EDNS option carries.
#[derive(Clone, Copy, Debug, PartialEq, Eq)]
pub struct ClientSubnet {
    pub addr: IpAddr,
    pub source_prefix: u8,
    pub scope_prefix: u8,
}

/// One EDNS option.
#[derive(Clone, Debug, PartialEq, Eq)]
pub enum EdnsOption {
    Subnet(ClientSubnet),
    Other { code: u16, data: Vec<u8> },
}

/// The EDNS part of a message.
#[derive(Clone, Debug, PartialEq, Eq)]
pub struct Edns {
    pub options: Vec<EdnsOption>,
}

/// The first client subnet option among `options`.
pub open spec fn first_subnet(options: Seq<EdnsOption>) -> Option<ClientSubnet>
    decreases options.len(),
{
    if options.len() == 0 {
        None
    } else {
        match options[0] {
            EdnsOption::Subnet(subnet) => Some(subnet),
            EdnsOption::Other { .. } => first_subnet(options.drop_first()),
        }
    }
}

impl Edns {
    /// The client subnet option, if there is one. Of several the first counts.
    pub fn subnet(&self) -> (r: Option<ClientSubnet>)
        ensures
            r == first_subnet(self.options@),
    {
        assert(self.options@.skip(0) =~= self.options@);
        for i in 0..self.options.len()
            invariant
                first_subnet(self.options@) == first_subnet(self.options@.skip(i as int)),
        {
            let ghost rest = self.options@.skip(i as int);
            assert(rest.drop_first() =~= self.options@.skip(i + 1));
            match &self.options[i] {
                EdnsOption::Subnet(subnet) => return Some(*subnet),
                EdnsOption::Other { .. } => {},
            }
        }
        None
    }
}

/// A DNS message.
#[derive(Clone, Debug, PartialEq, Eq)]
pub struct Message {
    pub id: u16,
    pub message_type: MessageType,
    pub opcode: Opcode,
    pub recursion_desired: bool,
    pub questions: Vec<Question>,
    pub edns: Option<Edns>,
}

/// The two options are the same.
pub open spec fn same_option(a: EdnsOption, b: EdnsOption) -> bool {
    match (a, b) {
        (EdnsOption::Subnet(x), EdnsOption::Subnet(y)) => x == y,
        (
            EdnsOption::Other { code: c, data: d },
            EdnsOption::Other { code: e, data: f },
        ) => c == e && d@ == f@,
        _ => false,
    }
}

/// The two EDNS parts hold the same options in the same order, or there is neither.
pub open spec fn same_edns(a: Option<Edns>, b: Option<Edns>) -> bool {
    match (a, b) {
        (Some(x), Some(y)) => {
            &&& x.options@.len() == y.options@.len()
            &&& forall|i: int|
                0 <= i < x.options@.len() ==> same_option(#[trigger] x.options@[i], y.options@[i])
        },
        (None, None) => true,
        _ => false,
    }
}

fn copy_bytes(bytes: &Vec<u8>) -> (r: Vec<u8>)
    ensures
        r@ == bytes@,
{
    let mut copy: Vec<u8> = Vec::new();
    for i in 0..bytes.len()
        invariant
            copy@ == bytes@.take(i as int),
    {
        copy.push(bytes[i]);
        assert(copy@ =~= bytes@.take(i + 1));
    }
    assert(bytes@.take(bytes@.len() as int) =~= bytes@);
    copy
}

fn copy_edns(edns: &Edns) -> (r: Edns)
    ensures
        same_edns(Some(r), Some(*edns)),
{
    let mut options: Vec<EdnsOption> = Vec::new();
    for i in 0..edns.options.len()
        invariant
            options@.len() == i,
            forall|j: int|
                0 <= j < i ==> same_option(#[trigger] options@[j], edns.options@[j]),
    {
        let copy: EdnsOption = match &edns.options[i] {
            EdnsOption::Subnet(subnet) => EdnsOption::Subnet(*subnet),
            EdnsOption::Other { code, data } => EdnsOption::Other {
                code: *code,
                data: copy_bytes(data),
            },
        };
        options.push(copy);
    }
    Edns { options }
}

impl Message {
    /// The message is `other`, but for its number.
    pub open spec fn same_but_id(self, other: Message) -> bool {
        &&& self.message_type == other.message_type
        &&& self.opcode == other.opcode
        &&& self.recursion_desired == other.recursion_desired
        &&& self.questions@ == other.questions@
        &&& same_edns(self.edns, other.edns)
    }

    /// The same message under another number.
    pub fn with_id(&self, id: u16) -> (r: Message)
        ensures
            r.id == id,
            r.same_but_id(*self),
    {
        let mut questions: Vec<Question> = Vec::new();
        for i in 0..self.questions.len()
            invariant
                questions@ == self.questions@.take(i as int),
        {
            let q = &self.questions[i];
            let name = Name { fqdn: q.name.fqdn.clone() };
            questions.push(Question { name, qtype: q.qtype, qclass: q.qclass });
            assert(questions@ =~= self.questions@.take(i + 1));
        }
        assert(self.questions@.take(self.questions@.len() as int) =~= self.questions@);
        let edns: Option<Edns> = match &self.edns {
            Some(edns) => Some(copy_edns(edns)),
            None => None,
        };
        Message {
            id,
            message_type: self.message_type,
            opcode: self.opcode,
            recursion_desired: self.recursion_desired,
            questions,
            edns,
        }
    }
}

} // verus!
