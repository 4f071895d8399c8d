//! The request grammar and the batch-processing discipline.
//!
//! An operator names an interface (`any` or a dotted-quad IPv4 address) and
//! a list of mapping requests, each `PROTOCOL/INTERNAL/EXTERNAL`. The
//! grammar lives here as functions on bytes with exact contracts; the batch
//! driver hands the requests out one by one and records each outcome, so
//! that one failed request never silences the rest.

use vstd::prelude::*;

use crate::addr::Ipv4;
use crate::port_forwarder::Protocol;

verus! {

/// One validated mapping request: forward `external_port`/`proto` on the
/// gateway to `internal_port` on the local interface.
#[derive(Clone, Copy, PartialEq, Eq, Structural, Debug)]
pub struct MappingRequest {
    pub proto: Protocol,
    pub internal_port: u16,
    pub external_port: u16,
}

/// Why a request token was rejected.
#[derive(Clone, Copy, PartialEq, Eq, Structural, Debug)]
pub enum ParseError {
    /// Not of the shape `PROTOCOL/INTERNAL/EXTERNAL`.
    BadShape,
    /// The protocol field is neither `tcp` nor `udp` (case-insensitive).
    BadProtocol,
    /// The internal port is not a decimal number up to 65535.
    BadInternalPort,
    /// The external port is not a decimal number up to 65535.
    BadExternalPort,
}

/// ASCII decimal digit.
pub open spec fn is_digit(b: u8) -> bool {
    48 <= b <= 57
}

/// Value of a string of ASCII digits, most significant first.
pub open spec fn digits_value(s: Seq<u8>) -> int
    decreases s.len(),
{
    if s.len() == 0 {
        0
    } else {
        digits_value(s.drop_last()) * 10 + (s.last() - 48)
    }
}

/// A port field: one or more digits, value at most 65535.
pub open spec fn is_port_number(s: Seq<u8>) -> bool {
    &&& s.len() > 0
    &&& forall|j: int| 0 <= j < s.len() ==> is_digit(s[j])
    &&& digits_value(s) <= 65535
}

/// ASCII lower-casing of one byte.
pub open spec fn lower(b: u8) -> u8 {
    if 65 <= b <= 90 {
        (b + 32) as u8
    } else {
        b
    }
}

/// The protocol a field names: `tcp` or `udp`, case-insensitive.
pub open spec fn protocol_of(s: Seq<u8>) -> Option<Protocol> {
    if s.len() == 3 && lower(s[0]) == 116 && lower(s[1]) == 99 && lower(s[2]) == 112 {
        Some(Protocol::Tcp)
    } else if s.len() == 3 && lower(s[0]) == 117 && lower(s[1]) == 100 && lower(s[2]) == 112 {
        Some(Protocol::Udp)
    } else {
        None
    }
}

/// The fields of `s` between occurrences of the separator `sep`: always one
/// more field than there are separators, fields in order, possibly empty.
pub open spec fn split_on(s: Seq<u8>, sep: u8) -> Seq<Seq<u8>>
    decreases s.len(),
{
    if s.len() == 0 {
        seq![Seq::<u8>::empty()]
    } else {
        let rest = split_on(s.drop_last(), sep);
        if s.last() == sep {
            rest.push(Seq::<u8>::empty())
        } else {
            rest.update(rest.len() - 1, rest.last().push(s.last()))
        }
    }
}

/// What a request token means: exactly three `/`-separated fields, a
/// protocol and two port numbers — or the first error, checked in the order
/// shape, protocol, internal port, external port.
pub open spec fn mapping_of(s: Seq<u8>) -> Result<MappingRequest, ParseError> {
    let parts = split_on(s, 47);
    if parts.len() != 3 {
        Err(ParseError::BadShape)
    } else if protocol_of(parts[0]) is None {
        Err(ParseError::BadProtocol)
    } else if !is_port_number(parts[1]) {
        Err(ParseError::BadInternalPort)
    } else if !is_port_number(parts[2]) {
        Err(ParseError::BadExternalPort)
    } else {
        Ok(
            MappingRequest {
                proto: protocol_of(parts[0])->Some_0,
                internal_port: digits_value(parts[1]) as u16,
                external_port: digits_value(parts[2]) as u16,
            },
        )
    }
}

/// The value of a digit string is non-negative.
proof fn lemma_digits_value_nonneg(s: Seq<u8>)
    requires
        forall|j: int| 0 <= j < s.len() ==> is_digit(s[j]),
    ensures
        digits_value(s) >= 0,
    decreases s.len(),
{
    if s.len() > 0 {
        assert(forall|j: int| 0 <= j < s.drop_last().len() ==> s.drop_last()[j] == s[j]);
        lemma_digits_value_nonneg(s.drop_last());
        assert(is_digit(s.last()));
    }
}

/// A digit string is worth no less than any of its prefixes; in particular
/// its value is non-negative.
proof fn lemma_digits_value_mono(s: Seq<u8>, i: int)
    requires
        0 <= i <= s.len(),
        forall|j: int| 0 <= j < s.len() ==> is_digit(s[j]),
    ensures
        0 <= digits_value(s.take(i)),
        digits_value(s.take(i)) <= digits_value(s),
    decreases s.len(),
{
    if i == s.len() {
        assert(s.take(i) =~= s);
        lemma_digits_value_nonneg(s);
    } else {
        let dl = s.drop_last();
        assert(forall|j: int| 0 <= j < dl.len() ==> dl[j] == s[j]);
        assert(s.take(i) =~= dl.take(i));
        lemma_digits_value_mono(dl, i);
        lemma_digits_value_nonneg(dl);
        assert(is_digit(s.last()));
    }
}

/// Parses a decimal port number: `Some` exactly on one-or-more digits whose
/// value fits a port, and then the value itself.
pub fn parse_u16(s: &Vec<u8>) -> (r: Option<u16>)
    ensures
        is_port_number(s@) ==> r == Some((digits_value(s@) as u16)),
        !is_port_number(s@) ==> r is None,
{
    if s.len() == 0 {
        return None;
    }
    let mut acc: u32 = 0;
    let mut i: usize = 0;
    while i < s.len()
        invariant
            0 < s@.len(),
            i <= s@.len(),
            forall|j: int| 0 <= j < i ==> is_digit(s@[j]),
            acc as int == digits_value(s@.take(i as int)),
            acc <= 65535,
        decreases s@.len() - i,
    {
        let b = s[i];
        if b < 48 || b > 57 {
            proof {
                assert(!is_digit(s@[i as int]));
            }
            return None;
        }
        proof {
            assert(s@.take(i + 1).drop_last() =~= s@.take(i as int));
            assert(s@.take(i + 1).last() == s@[i as int]);
        }
        let next: u32 = acc * 10 + ((b - 48) as u32);
        if next > 65535 {
            proof {
                if is_port_number(s@) {
                    lemma_digits_value_mono(s@, i + 1);
                }
            }
            return None;
        }
        acc = next;
        i = i + 1;
    }
    proof {
        assert(s@.take(s@.len() as int) =~= s@);
    }
    Some(acc as u16)
}

/// ASCII lower-casing of one byte.
fn to_lower(b: u8) -> (r: u8)
    ensures
        r == lower(b),
{
    if 65 <= b && b <= 90 {
        b + 32
    } else {
        b
    }
}

/// Recognizes the protocol field: `tcp` or `udp`, case-insensitive.
pub fn parse_protocol(s: &Vec<u8>) -> (r: Option<Protocol>)
    ensures
        r == protocol_of(s@),
{
    if s.len() != 3 {
        return None;
    }
    let l0 = to_lower(s[0]);
    let l1 = to_lower(s[1]);
    let l2 = to_lower(s[2]);
    if l0 == 116 && l1 == 99 && l2 == 112 {
        Some(Protocol::Tcp)
    } else if l0 == 117 && l1 == 100 && l2 == 112 {
        Some(Protocol::Udp)
    } else {
        None
    }
}

/// Splits one request token into the three `/`-separated fields and
/// validates each; returns exactly what the grammar (`mapping_of`) says.
pub fn parse_mapping(s: &Vec<u8>) -> (r: Result<MappingRequest, ParseError>)
    ensures
        r == mapping_of(s@),
{
    let mut seg0: Vec<u8> = Vec::new();
    let mut seg1: Vec<u8> = Vec::new();
    let mut cur: Vec<u8> = Vec::new();
    let mut nsep: usize = 0;
    let mut i: usize = 0;
    proof {
        assert(s@.take(0) =~= Seq::<u8>::empty());
        assert(split_on(s@.take(0), 47) =~= seq![Seq::<u8>::empty()]);
        assert(cur@ =~= Seq::<u8>::empty());
    }
    while i < s.len()
        invariant
            i <= s@.len(),
            nsep <= i,
            ({
                let parts = split_on(s@.take(i as int), 47);
                &&& parts.len() == nsep + 1
                &&& parts.last() == cur@
                &&& nsep >= 1 ==> parts[0] == seg0@
                &&& nsep >= 2 ==> parts[1] == seg1@
            }),
        decreases s@.len() - i,
    {
        let ghost preparts = split_on(s@.take(i as int), 47);
        let b = s[i];
        proof {
            assert(s@.take(i + 1).drop_last() =~= s@.take(i as int));
            assert(s@.take(i + 1).last() == s@[i as int]);
        }
        if b == 47 {
            let ghost oldcur = cur@;
            if nsep == 0 {
                core::mem::swap(&mut seg0, &mut cur);
            } else if nsep == 1 {
                core::mem::swap(&mut seg1, &mut cur);
            }
            cur = Vec::new();
            nsep = nsep + 1;
            proof {
                let parts = split_on(s@.take(i + 1), 47);
                assert(parts =~= preparts.push(Seq::<u8>::empty()));
                assert(cur@ =~= Seq::<u8>::empty());
                assert(parts.last() == cur@);
                if nsep == 1 {
                    assert(parts[0] == preparts[0]);
                    assert(preparts[0] == preparts.last());
                    assert(seg0@ == oldcur);
                } else if nsep == 2 {
                    assert(parts[1] == preparts[1]);
                    assert(preparts[1] == preparts.last());
                    assert(seg1@ == oldcur);
                }
            }
        } else {
            cur.push(b);
            proof {
                let parts = split_on(s@.take(i + 1), 47);
                assert(parts =~= preparts.update(
                    preparts.len() - 1,
                    preparts.last().push(s@[i as int]),
                ));
                assert(parts.last() == cur@);
            }
        }
        i = i + 1;
    }
    proof {
        assert(s@.take(s@.len() as int) =~= s@);
    }
    let ghost parts = split_on(s@, 47);
    if nsep != 2 {
        return Err(ParseError::BadShape);
    }
    proof {
        assert(parts.last() == parts[2]);
    }
    let proto = match parse_protocol(&seg0) {
        Some(p) => p,
        None => {
            return Err(ParseError::BadProtocol);
        },
    };
    let internal = match parse_u16(&seg1) {
        Some(n) => n,
        None => {
            return Err(ParseError::BadInternalPort);
        },
    };
    let external = match parse_u16(&cur) {
        Some(n) => n,
        None => {
            return Err(ParseError::BadExternalPort);
        },
    };
    Ok(MappingRequest { proto, internal_port: internal, external_port: external })
}

/// A dotted-quad octet field: digits without a superfluous leading zero,
/// value at most 255.
pub open spec fn is_octet(s: Seq<u8>) -> bool {
    &&& s.len() > 0
    &&& forall|j: int| 0 <= j < s.len() ==> is_digit(s[j])
    &&& s.len() > 1 ==> s[0] != 48
    &&& digits_value(s) <= 255
}

/// What a dotted-quad token means: exactly four `.`-separated octets.
pub open spec fn ipv4_of(s: Seq<u8>) -> Option<Ipv4> {
    let parts = split_on(s, 46);
    if parts.len() == 4 && is_octet(parts[0]) && is_octet(parts[1]) && is_octet(parts[2])
        && is_octet(parts[3]) {
        Some(
            Ipv4 {
                a: digits_value(parts[0]) as u8,
                b: digits_value(parts[1]) as u8,
                c: digits_value(parts[2]) as u8,
                d: digits_value(parts[3]) as u8,
            },
        )
    } else {
        None
    }
}

/// Parses one address octet: `Some` exactly on a digit string without a
/// superfluous leading zero whose value fits one byte.
pub fn parse_octet(s: &Vec<u8>) -> (r: Option<u8>)
    ensures
        is_octet(s@) ==> r == Some((digits_value(s@) as u8)),
        !is_octet(s@) ==> r is None,
{
    if s.len() == 0 {
        return None;
    }
    if s.len() > 1 && s[0] == 48 {
        return None;
    }
    let mut acc: u16 = 0;
    let mut i: usize = 0;
    while i < s.len()
        invariant
            0 < s@.len(),
            i <= s@.len(),
            forall|j: int| 0 <= j < i ==> is_digit(s@[j]),
            acc as int == digits_value(s@.take(i as int)),
            acc <= 255,
        decreases s@.len() - i,
    {
        let b = s[i];
        if b < 48 || b > 57 {
            proof {
                assert(!is_digit(s@[i as int]));
            }
            return None;
        }
        proof {
            assert(s@.take(i + 1).drop_last() =~= s@.take(i as int));
            assert(s@.take(i + 1).last() == s@[i as int]);
        }
        let next: u16 = acc * 10 + ((b - 48) as u16);
        if next > 255 {
            proof {
                if is_octet(s@) {
                    lemma_digits_value_mono(s@, i + 1);
                }
            }
            return None;
        }
        acc = next;
        i = i + 1;
    }
    proof {
        assert(s@.take(s@.len() as int) =~= s@);
    }
    Some(acc as u8)
}

/// Splits a dotted-quad token into its four `.`-separated fields and
/// validates each; returns exactly what `ipv4_of` says.
pub fn parse_ipv4(s: &Vec<u8>) -> (r: Option<Ipv4>)
    ensures
        r == ipv4_of(s@),
{
    let mut seg0: Vec<u8> = Vec::new();
    let mut seg1: Vec<u8> = Vec::new();
    let mut seg2: Vec<u8> = Vec::new();
    let mut cur: Vec<u8> = Vec::new();
    let mut nsep: usize = 0;
    let mut i: usize = 0;
    proof {
        assert(s@.take(0) =~= Seq::<u8>::empty());
        assert(split_on(s@.take(0), 46) =~= seq![Seq::<u8>::empty()]);
        assert(cur@ =~= Seq::<u8>::empty());
    }
    while i < s.len()
        invariant
            i <= s@.len(),
            nsep <= i,
            ({
                let parts = split_on(s@.take(i as int), 46);
                &&& parts.len() == nsep + 1
                &&& parts.last() == cur@
                &&& nsep >= 1 ==> parts[0] == seg0@
                &&& nsep >= 2 ==> parts[1] == seg1@
                &&& nsep >= 3 ==> parts[2] == seg2@
            }),
        decreases s@.len() - i,
    {
        let ghost preparts = split_on(s@.take(i as int), 46);
        let b = s[i];
        proof {
            assert(s@.take(i + 1).drop_last() =~= s@.take(i as int));
            assert(s@.take(i + 1).last() == s@[i as int]);
        }
        if b == 46 {
            let ghost oldcur = cur@;
            if nsep == 0 {
                core::mem::swap(&mut seg0, &mut cur);
            } else if nsep == 1 {
                core::mem::swap(&mut seg1, &mut cur);
            } else if nsep == 2 {
                core::mem::swap(&mut seg2, &mut cur);
            }
            cur = Vec::new();
            nsep = nsep + 1;
            proof {
                let parts = split_on(s@.take(i + 1), 46);
                assert(parts =~= preparts.push(Seq::<u8>::empty()));
                assert(cur@ =~= Seq::<u8>::empty());
                assert(parts.last() == cur@);
                if nsep == 1 {
                    assert(parts[0] == preparts[0]);
                    assert(preparts[0] == preparts.last());
                    assert(seg0@ == oldcur);
                } else if nsep == 2 {
                    assert(parts[1] == preparts[1]);
                    assert(preparts[1] == preparts.last());
                    assert(seg1@ == oldcur);
                } else if nsep == 3 {
                    assert(parts[2] == preparts[2]);
                    assert(preparts[2] == preparts.last());
                    assert(seg2@ == oldcur);
                }
            }
        } else {
            cur.push(b);
            proof {
                let parts = split_on(s@.take(i + 1), 46);
                assert(parts =~= preparts.update(
                    preparts.len() - 1,
                    preparts.last().push(s@[i as int]),
                ));
                assert(parts.last() == cur@);
            }
        }
        i = i + 1;
    }
    proof {
        assert(s@.take(s@.len() as int) =~= s@);
    }
    let ghost parts = split_on(s@, 46);
    if nsep != 3 {
        return None;
    }
    proof {
        assert(parts.last() == parts[3]);
    }
    let a = match parse_octet(&seg0) {
        Some(n) => n,
        None => {
            return None;
        },
    };
    let b = match parse_octet(&seg1) {
        Some(n) => n,
        None => {
            return None;
        },
    };
    let c = match parse_octet(&seg2) {
        Some(n) => n,
        None => {
            return None;
        },
    };
    let d = match parse_octet(&cur) {
        Some(n) => n,
        None => {
            return None;
        },
    };
    Some(Ipv4 { a, b, c, d })
}

/// The operator's interface selection: try every non-loopback interface, or
/// exactly the one named.
#[derive(Clone, Copy, PartialEq, Eq, Structural, Debug)]
pub enum InterfaceChoice {
    Any,
    Explicit(Ipv4),
}

/// What the first argument means: the literal token `any`, or a dotted-quad
/// IPv4 address; anything else is rejected.
pub open spec fn interface_choice_of(s: Seq<u8>) -> Option<InterfaceChoice> {
    if s == seq![97u8, 110u8, 121u8] {
        Some(InterfaceChoice::Any)
    } else {
        match ipv4_of(s) {
            Some(ip) => Some(InterfaceChoice::Explicit(ip)),
            None => None,
        }
    }
}

/// Parses the interface-selection argument.
pub fn parse_interface(s: &Vec<u8>) -> (r: Option<InterfaceChoice>)
    ensures
        r == interface_choice_of(s@),
{
    let ghost any_token = seq![97u8, 110u8, 121u8];
    proof {
        assert(any_token.len() == 3);
        assert(any_token[0] == 97 && any_token[1] == 110 && any_token[2] == 121);
    }
    if s.len() == 3 && s[0] == 97 && s[1] == 110 && s[2] == 121 {
        proof {
            assert(s@ =~= any_token);
        }
        return Some(InterfaceChoice::Any);
    }
    proof {
        assert(s@ != any_token) by {
            if s@ == any_token {
                assert(s@.len() == 3);
                assert(s@[0] == 97 && s@[1] == 110 && s@[2] == 121);
            }
        }
    }
    match parse_ipv4(s) {
        Some(ip) => Some(InterfaceChoice::Explicit(ip)),
        None => None,
    }
}

/// The outcome the gateway reported for one mapping request.
#[derive(Debug, Clone)]
pub enum AttemptOutcome {
    Mapped,
    Failed { reason: String },
}

/// Processes a batch of mapping requests one at a time. Which request comes
/// next never depends on the outcomes recorded so far: a failed request
/// leaves the rest of the batch untouched.
#[derive(Debug)]
pub struct Batch {
    pub requests: Vec<MappingRequest>,
    pub next: usize,
    pub outcomes: Vec<AttemptOutcome>,
}

impl Batch {
    /// One outcome on record for each request already handed out.
    pub open spec fn wf(self) -> bool {
        &&& self.outcomes@.len() == self.next
        &&& self.next <= self.requests@.len()
    }

    pub fn new(requests: Vec<MappingRequest>) -> (b: Batch)
        ensures
            b.wf(),
            b.requests@ == requests@,
            b.next == 0,
            b.outcomes@ == Seq::<AttemptOutcome>::empty(),
    {
        let b = Batch { requests, next: 0, outcomes: Vec::new() };
        proof {
            assert(b.outcomes@ =~= Seq::<AttemptOutcome>::empty());
        }
        b
    }

    /// The next request to attempt — determined by position alone, never by
    /// how earlier requests fared.
    pub fn next_request(&self) -> (r: Option<MappingRequest>)
        requires
            self.wf(),
        ensures
            r == (if self.next < self.requests@.len() {
                Some(self.requests@[self.next as int])
            } else {
                None::<MappingRequest>
            }),
    {
        if self.next < self.requests.len() {
            Some(self.requests[self.next])
        } else {
            None
        }
    }

    /// Records what the gateway said to the current request and moves on to
    /// the next one, whatever the outcome was.
    pub fn record_outcome(&mut self, outcome: AttemptOutcome)
        requires
            old(self).wf(),
            old(self).next < old(self).requests@.len(),
        ensures
            final(self).wf(),
            final(self).requests@ == old(self).requests@,
            final(self).next == old(self).next + 1,
            final(self).outcomes@ == old(self).outcomes@.push(outcome),
    {
        let bound = self.requests.len();
        self.outcomes.push(outcome);
        self.next = self.next + 1;
        proof {
            assert(self.next <= bound);
        }
    }
}

} // verus!
