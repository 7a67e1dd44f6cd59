//! The parts of a DNS message that routing and caching read or rewrite.
use vstd::prelude::*;

verus! {

/// Response code of a successful answer.
pub const RCODE_NOERROR: u16 = 0;

/// Response code of a server failure.
pub const RCODE_SERVFAIL: u16 = 2;

/// Operation code of a standard query.
pub const OPCODE_QUERY: u8 = 0;

/// A question: the name asked about and the record type wanted.
pub struct Question {
    pub name: String,
    pub qtype: u16,
    /// The class asked about (1 for the Internet).
    pub qclass: u16,
}

/// An answer record.
pub struct Record {
    pub name: String,
    pub rtype: u16,
    pub ttl: u32,
    pub data: Vec<u8>,
}

/// A DNS message, reduced to the header fields and sections that the router uses.
pub struct Message {
    pub id: u16,
    /// Set on responses.
    pub qr: bool,
    pub opcode: u8,
    /// Recursion desired.
    pub rd: bool,
    pub rcode: u16,
    pub queries: Vec<Question>,
    pub answers: Vec<Record>,
}

impl Question {
    pub open spec fn view(&self) -> (Seq<char>, u16, u16) {
        (self.name@, self.qtype, self.qclass)
    }

    pub fn clone_question(&self) -> (r: Question)
        ensures
            r@ == self@,
    {
        Question { name: self.name.clone(), qtype: self.qtype, qclass: self.qclass }
    }
}

impl Record {
    pub fn clone_record(&self) -> (r: Record)
        ensures
            r.name@ == self.name@,
            r.rtype == self.rtype,
            r.ttl == self.ttl,
            r.data@ == self.data@,
    {
        let mut data: Vec<u8> = Vec::new();
        let mut i: usize = 0;
        while i < self.data.len()
            invariant
                i <= self.data@.len(),
                data@ == self.data@.take(i as int),
            decreases self.data@.len() - i,
        {
            data.push(self.data[i]);
            i = i + 1;
            assert(data@ =~= self.data@.take(i as int));
        }
        assert(self.data@.take(i as int) =~= self.data@);
        Record { name: self.name.clone(), rtype: self.rtype, ttl: self.ttl, data }
    }
}

pub open spec fn questions_view(q: Seq<Question>) -> Seq<(Seq<char>, u16, u16)> {
    q.map_values(|x: Question| x@)
}

/// The records hold the same names, types, times to live and data, in order.
pub open spec fn same_answers(a: Seq<Record>, b: Seq<Record>) -> bool {
    &&& a.len() == b.len()
    &&& forall|i: int|
        0 <= i < a.len() ==> {
            &&& (#[trigger] a[i]).name@ == b[i].name@
            &&& a[i].rtype == b[i].rtype
            &&& a[i].ttl == b[i].ttl
            &&& a[i].data@ == b[i].data@
        }
}

impl Message {
    /// The message's contents: header, question views and answer TTLs.
    pub open spec fn same_content(&self, o: &Message) -> bool {
        &&& self.id == o.id
        &&& self.qr == o.qr
        &&& self.opcode == o.opcode
        &&& self.rd == o.rd
        &&& self.rcode == o.rcode
        &&& questions_view(self.queries@) == questions_view(o.queries@)
        &&& same_answers(self.answers@, o.answers@)
    }

    /// A copy with the same content.
    pub fn duplicate(&self) -> (r: Message)
        ensures
            r.same_content(self),
    {
        let mut queries: Vec<Question> = Vec::new();
        let mut i: usize = 0;
        while i < self.queries.len()
            invariant
                i <= self.queries@.len(),
                queries@.len() == i,
                forall|k: int| 0 <= k < i ==> (#[trigger] queries@[k])@ == self.queries@[k]@,
            decreases self.queries@.len() - i,
        {
            queries.push(self.queries[i].clone_question());
            i = i + 1;
        }
        assert(questions_view(queries@) =~= questions_view(self.queries@));
        let mut answers: Vec<Record> = Vec::new();
        let mut j: usize = 0;
        while j < self.answers.len()
            invariant
                j <= self.answers@.len(),
                answers@.len() == j,
                forall|k: int|
                    0 <= k < j ==> {
                        &&& (#[trigger] answers@[k]).name@ == self.answers@[k].name@
                        &&& answers@[k].rtype == self.answers@[k].rtype
                        &&& answers@[k].ttl == self.answers@[k].ttl
                        &&& answers@[k].data@ == self.answers@[k].data@
                    },
            decreases self.answers@.len() - j,
        {
            answers.push(self.answers[j].clone_record());
            j = j + 1;
        }
        Message {
            id: self.id,
            qr: self.qr,
            opcode: self.opcode,
            rd: self.rd,
            rcode: self.rcode,
            queries,
            answers,
        }
    }

    /// An error reply with code `rcode` to a query with identifier `id` and operation
    /// code `opcode`: no questions, no answers.
    pub fn error_msg(id: u16, opcode: u8, rcode: u16) -> (r: Message)
        ensures
            r.id == id,
            r.opcode == opcode,
            r.rcode == rcode,
            r.qr,
            !r.rd,
            r.queries@.len() == 0,
            r.answers@.len() == 0,
    {
        Message { id, qr: true, opcode, rd: false, rcode, queries: Vec::new(), answers: Vec::new() }
    }
}

} // verus!
