//! HTTP methods as a bit-flag set, and the Omni ABI type vocabulary.
use vstd::prelude::*;
use crate::text::{flags_text, push_flags_text, str_eq, to_uppercase, uppercase};

verus! {

/// The Omni ABI types that handlers speak.
pub enum Types {
    OmniContext,
    OmniRequest,
    OmniResponse,
    OmniHeader,
    OmniBody,
}

/// A set of HTTP methods, one bit per method: GET is bit 0, then POST, PATCH, PUT,
/// DELETE, HEAD, OPTIONS, CONNECT and TRACE (bit 8).
#[derive(Clone, Copy, PartialEq, Eq, Structural, Debug, Hash)]
pub struct Method {
    pub bits: u32,
}

/// The method names, in bit order.
pub open spec fn method_names() -> Seq<Seq<char>> {
    seq![
        "GET"@,
        "POST"@,
        "PATCH"@,
        "PUT"@,
        "DELETE"@,
        "HEAD"@,
        "OPTIONS"@,
        "CONNECT"@,
        "TRACE"@,
    ]
}

/// The bits of the method that an uppercase name denotes, if it denotes one.
pub open spec fn method_bits_by_name(name: Seq<char>) -> Option<u32> {
    if name == "GET"@ {
        Some(1u32)
    } else if name == "POST"@ {
        Some(2u32)
    } else if name == "PATCH"@ {
        Some(4u32)
    } else if name == "PUT"@ {
        Some(8u32)
    } else if name == "DELETE"@ {
        Some(16u32)
    } else if name == "HEAD"@ {
        Some(32u32)
    } else if name == "OPTIONS"@ {
        Some(64u32)
    } else if name == "CONNECT"@ {
        Some(128u32)
    } else if name == "TRACE"@ {
        Some(256u32)
    } else {
        None
    }
}

/// The message of the error for a name that is no method.
pub open spec fn unknown_method_message(s: Seq<char>) -> Seq<char> {
    "Unknown HTTP method: "@ + s
}

/// How a method set prints: `Method(` its flags text `)`, e.g. `Method(GET | POST)`.
pub open spec fn method_text(bits: u32) -> Seq<char> {
    "Method("@ + flags_text(bits as u64, method_names()) + ")"@
}

#[allow(non_snake_case)]
impl Method {
    pub fn GET() -> (m: Method)
        ensures
            m.bits == 1,
    {
        Method { bits: 1 }
    }

    pub fn POST() -> (m: Method)
        ensures
            m.bits == 2,
    {
        Method { bits: 2 }
    }

    pub fn PATCH() -> (m: Method)
        ensures
            m.bits == 4,
    {
        Method { bits: 4 }
    }

    pub fn PUT() -> (m: Method)
        ensures
            m.bits == 8,
    {
        Method { bits: 8 }
    }

    pub fn DELETE() -> (m: Method)
        ensures
            m.bits == 16,
    {
        Method { bits: 16 }
    }

    pub fn HEAD() -> (m: Method)
        ensures
            m.bits == 32,
    {
        Method { bits: 32 }
    }

    pub fn OPTIONS() -> (m: Method)
        ensures
            m.bits == 64,
    {
        Method { bits: 64 }
    }

    pub fn CONNECT() -> (m: Method)
        ensures
            m.bits == 128,
    {
        Method { bits: 128 }
    }

    pub fn TRACE() -> (m: Method)
        ensures
            m.bits == 256,
    {
        Method { bits: 256 }
    }

    /// The empty set.
    pub fn empty() -> (m: Method)
        ensures
            m.bits == 0,
    {
        Method { bits: 0 }
    }

    /// The set with exactly these bits, named or not.
    pub fn from_bits_retain(bits: u32) -> (m: Method)
        ensures
            m.bits == bits,
    {
        Method { bits }
    }

    pub fn bits(&self) -> (b: u32)
        ensures
            b == self.bits,
    {
        self.bits
    }

    pub fn is_empty(&self) -> (b: bool)
        ensures
            b == (self.bits == 0),
    {
        self.bits == 0
    }

    /// Whether every method of `other` is in `self`.
    pub fn contains(&self, other: Method) -> (b: bool)
        ensures
            b == (self.bits & other.bits == other.bits),
    {
        self.bits & other.bits == other.bits
    }

    /// The methods of both sets.
    pub fn union(&self, other: Method) -> (m: Method)
        ensures
            m.bits == self.bits | other.bits,
    {
        Method { bits: self.bits | other.bits }
    }

    /// Parses an already uppercased name; `given` is the text the error quotes.
    pub fn from_upper(upper: &str, given: &str) -> (r: Result<Method, String>)
        ensures
            match r {
                Ok(m) => method_bits_by_name(upper@) == Some(m.bits),
                Err(e) => method_bits_by_name(upper@) is None && e@ == unknown_method_message(
                    given@,
                ),
            },
    {
        if str_eq(upper, "GET") {
            Ok(Method::GET())
        } else if str_eq(upper, "POST") {
            Ok(Method::POST())
        } else if str_eq(upper, "PATCH") {
            Ok(Method::PATCH())
        } else if str_eq(upper, "PUT") {
            Ok(Method::PUT())
        } else if str_eq(upper, "DELETE") {
            Ok(Method::DELETE())
        } else if str_eq(upper, "HEAD") {
            Ok(Method::HEAD())
        } else if str_eq(upper, "OPTIONS") {
            Ok(Method::OPTIONS())
        } else if str_eq(upper, "CONNECT") {
            Ok(Method::CONNECT())
        } else if str_eq(upper, "TRACE") {
            Ok(Method::TRACE())
        } else {
            let mut e = String::from_str("Unknown HTTP method: ");
            e.append(given);
            Err(e)
        }
    }

    /// Parses a method name, ignoring case: the name is uppercased first.
    pub fn from_str(s: &str) -> (r: Result<Method, String>)
        ensures
            match r {
                Ok(m) => method_bits_by_name(uppercase(s@)) == Some(m.bits),
                Err(e) => method_bits_by_name(uppercase(s@)) is None && e@
                    == unknown_method_message(s@),
            },
    {
        let upper = to_uppercase(s);
        Method::from_upper(upper.as_str(), s)
    }

    /// The printed form of the set, e.g. `Method(GET)`.
    pub fn to_text(&self) -> (s: String)
        ensures
            s@ == method_text(self.bits),
    {
        let mut names: Vec<&str> = Vec::new();
        names.push("GET");
        names.push("POST");
        names.push("PATCH");
        names.push("PUT");
        names.push("DELETE");
        names.push("HEAD");
        names.push("OPTIONS");
        names.push("CONNECT");
        names.push("TRACE");
        assert(names@.map_values(|n: &str| n@) =~= method_names());
        let mut s = String::from_str("Method(");
        push_flags_text(&mut s, self.bits as u64, &names);
        s.append(")");
        s
    }
}

/// Each method name denotes the single bit of its place in the method list:
/// the `i`-th name (GET first, TRACE last) gives `1 << i`, the bits of the
/// method constant of that name, so no two names share a bit.
pub proof fn law_method_name_bits(i: int)
    requires
        0 <= i < method_names().len(),
    ensures
        method_names().len() == 9,
        method_bits_by_name(method_names()[i]) == Some(1u32 << (i as u32)),
{
    reveal_strlit("GET");
    reveal_strlit("POST");
    reveal_strlit("PATCH");
    reveal_strlit("PUT");
    reveal_strlit("DELETE");
    reveal_strlit("HEAD");
    reveal_strlit("OPTIONS");
    reveal_strlit("CONNECT");
    reveal_strlit("TRACE");
    assert(1u32 << 0u32 == 1u32) by (bit_vector);
    assert(1u32 << 1u32 == 2u32) by (bit_vector);
    assert(1u32 << 2u32 == 4u32) by (bit_vector);
    assert(1u32 << 3u32 == 8u32) by (bit_vector);
    assert(1u32 << 4u32 == 16u32) by (bit_vector);
    assert(1u32 << 5u32 == 32u32) by (bit_vector);
    assert(1u32 << 6u32 == 64u32) by (bit_vector);
    assert(1u32 << 7u32 == 128u32) by (bit_vector);
    assert(1u32 << 8u32 == 256u32) by (bit_vector);
    assert("GET"@.len() == 3 && "PUT"@.len() == 3 && "POST"@.len() == 4 && "HEAD"@.len() == 4);
    assert("PATCH"@.len() == 5 && "TRACE"@.len() == 5 && "DELETE"@.len() == 6);
    assert("OPTIONS"@.len() == 7 && "CONNECT"@.len() == 7);
    assert("GET"@[0] != "PUT"@[0] && "POST"@[0] != "HEAD"@[0] && "PATCH"@[0] != "TRACE"@[0]);
    assert("OPTIONS"@[0] != "CONNECT"@[0]);
    assert("GET"@ != "POST"@);
    assert("GET"@ != "PATCH"@);
    assert("GET"@ != "PUT"@);
    assert("GET"@ != "DELETE"@);
    assert("GET"@ != "HEAD"@);
    assert("GET"@ != "OPTIONS"@);
    assert("GET"@ != "CONNECT"@);
    assert("GET"@ != "TRACE"@);
    assert("POST"@ != "PATCH"@);
    assert("POST"@ != "PUT"@);
    assert("POST"@ != "DELETE"@);
    assert("POST"@ != "HEAD"@);
    assert("POST"@ != "OPTIONS"@);
    assert("POST"@ != "CONNECT"@);
    assert("POST"@ != "TRACE"@);
    assert("PATCH"@ != "PUT"@);
    assert("PATCH"@ != "DELETE"@);
    assert("PATCH"@ != "HEAD"@);
    assert("PATCH"@ != "OPTIONS"@);
    assert("PATCH"@ != "CONNECT"@);
    assert("PATCH"@ != "TRACE"@);
    assert("PUT"@ != "DELETE"@);
    assert("PUT"@ != "HEAD"@);
    assert("PUT"@ != "OPTIONS"@);
    assert("PUT"@ != "CONNECT"@);
    assert("PUT"@ != "TRACE"@);
    assert("DELETE"@ != "HEAD"@);
    assert("DELETE"@ != "OPTIONS"@);
    assert("DELETE"@ != "CONNECT"@);
    assert("DELETE"@ != "TRACE"@);
    assert("HEAD"@ != "OPTIONS"@);
    assert("HEAD"@ != "CONNECT"@);
    assert("HEAD"@ != "TRACE"@);
    assert("OPTIONS"@ != "CONNECT"@);
    assert("OPTIONS"@ != "TRACE"@);
    assert("CONNECT"@ != "TRACE"@);
}

} // verus!
