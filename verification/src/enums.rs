//! The two small code tables of the protocol: response codes and record
//! types.

use vstd::prelude::*;

verus! {

/// The outcome that a response reports in its header.
#[derive(Debug, Clone, Copy, PartialEq, Eq, Structural)]
pub enum ResultCode {
    NOERROR,
    FORMERR,
    SERVFAIL,
    NXDOMAIN,
    NOTIMP,
    REFUSED,
}

impl ResultCode {
    /// The code that the number `num` stands for. A number outside the table
    /// stands for `NOERROR`.
    pub open spec fn of_num(num: u8) -> ResultCode {
        if num == 1 {
            ResultCode::FORMERR
        } else if num == 2 {
            ResultCode::SERVFAIL
        } else if num == 3 {
            ResultCode::NXDOMAIN
        } else if num == 4 {
            ResultCode::NOTIMP
        } else if num == 5 {
            ResultCode::REFUSED
        } else {
            ResultCode::NOERROR
        }
    }

    /// The number that stands for this code on the wire.
    pub open spec fn num(self) -> u8 {
        match self {
            ResultCode::NOERROR => 0,
            ResultCode::FORMERR => 1,
            ResultCode::SERVFAIL => 2,
            ResultCode::NXDOMAIN => 3,
            ResultCode::NOTIMP => 4,
            ResultCode::REFUSED => 5,
        }
    }

    /// The code that `num` stands for.
    pub fn from_num(num: u8) -> (res: ResultCode)
        ensures
            res == ResultCode::of_num(num),
    {
        match num {
            1 => ResultCode::FORMERR,
            2 => ResultCode::SERVFAIL,
            3 => ResultCode::NXDOMAIN,
            4 => ResultCode::NOTIMP,
            5 => ResultCode::REFUSED,
            _ => ResultCode::NOERROR,
        }
    }

    /// The number of this code.
    pub fn to_num(self) -> (res: u8)
        ensures
            res == self.num(),
            res <= 5,
    {
        match self {
            ResultCode::NOERROR => 0,
            ResultCode::FORMERR => 1,
            ResultCode::SERVFAIL => 2,
            ResultCode::NXDOMAIN => 3,
            ResultCode::NOTIMP => 4,
            ResultCode::REFUSED => 5,
        }
    }

    /// Every code is found again from its number.
    pub proof fn lemma_num_round_trip(self)
        ensures
            ResultCode::of_num(self.num()) == self,
    {
    }
}

/// The type of a question or of a record: one of the types that the codec
/// understands, or the bare number of another.
#[derive(Debug, Clone, Copy, PartialEq, Eq, Structural)]
pub enum QueryType {
    UNKNOWN(u16),
    A,
    NS,
    CNAME,
    MX,
    AAAA,
}

impl QueryType {
    /// The type that the number `num` stands for.
    pub open spec fn of_num(num: u16) -> QueryType {
        if num == 1 {
            QueryType::A
        } else if num == 2 {
            QueryType::NS
        } else if num == 5 {
            QueryType::CNAME
        } else if num == 15 {
            QueryType::MX
        } else if num == 28 {
            QueryType::AAAA
        } else {
            QueryType::UNKNOWN(num)
        }
    }

    /// The number that stands for this type on the wire.
    pub open spec fn num(self) -> u16 {
        match self {
            QueryType::UNKNOWN(num) => num,
            QueryType::A => 1,
            QueryType::NS => 2,
            QueryType::CNAME => 5,
            QueryType::MX => 15,
            QueryType::AAAA => 28,
        }
    }

    /// This value is the one that decoding chooses for its number: it is
    /// not `UNKNOWN` of a number that has a name.
    pub open spec fn canonical(self) -> bool {
        QueryType::of_num(self.num()) == self
    }

    /// The type that `num` stands for.
    pub fn from_num(num: u16) -> (res: QueryType)
        ensures
            res == QueryType::of_num(num),
    {
        match num {
            1 => QueryType::A,
            2 => QueryType::NS,
            5 => QueryType::CNAME,
            15 => QueryType::MX,
            28 => QueryType::AAAA,
            _ => QueryType::UNKNOWN(num),
        }
    }

    /// The number of this type.
    pub fn to_num(&self) -> (res: u16)
        ensures
            res == self.num(),
    {
        match *self {
            QueryType::UNKNOWN(num) => num,
            QueryType::A => 1,
            QueryType::NS => 2,
            QueryType::CNAME => 5,
            QueryType::MX => 15,
            QueryType::AAAA => 28,
        }
    }

    /// Every number is found again from its type, and the type chosen for a
    /// number is canonical.
    pub proof fn lemma_num_round_trip(num: u16)
        ensures
            QueryType::of_num(num).num() == num,
            QueryType::of_num(num).canonical(),
    {
    }

    /// The named types are canonical; `UNKNOWN(n)` is canonical unless `n`
    /// is the number of a named type.
    pub proof fn lemma_canonical(self)
        ensures
            self.canonical() <==> !(self matches QueryType::UNKNOWN(n) && (n == 1 || n == 2 || n
                == 5 || n == 15 || n == 28)),
    {
    }
}

} // verus!
