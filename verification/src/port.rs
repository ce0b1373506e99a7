use vstd::prelude::*;

use crate::errors::Errors;
use crate::presets::{
    alias_depth, alias_target, find_preset, has_no_upper, is_alias_entry, lemma_alias_depth_decreases,
    lemma_alias_entries, lemma_lookup_preset, lemma_names_are_not_port_texts, lemma_port_text_is_no_alias,
    lemma_port_text_values, lemma_shape_number_fits, port_text_shape, preset_table, preset_value, starts_like_port_text,
};
use crate::text::{
    ascii_lowercase, chars_of, decimal, decimal_chars, is_digit, lemma_decimal_digits, lemma_lowercase_idempotent,
    lemma_u16_text_of_decimal, lowercase_chars, parse_u16, string_from_chars, sub_chars, u16_parse_fault, u16_text_value,
    unsigned_digits, NumberFault,
};

verus! {

/// The transport protocol of a port.
#[derive(Debug, Clone, Copy, PartialEq, Eq, Structural, Hash, PartialOrd, Ord)]
pub enum Protocol {
    Tcp,
    Udp,
}

/// The upper-case name under which a protocol is shown.
pub open spec fn protocol_name(p: Protocol) -> Seq<char> {
    match p {
        Protocol::Tcp => seq!['T', 'C', 'P'],
        Protocol::Udp => seq!['U', 'D', 'P'],
    }
}

impl Protocol {
    /// The protocol's name in upper case: `TCP` or `UDP`.
    pub fn to_string(&self) -> (s: String)
        ensures
            s@ == protocol_name(*self),
    {
        match self {
            Protocol::Tcp => {
                let s = String::from_str("TCP");
                proof { reveal_strlit("TCP"); }
                s
            },
            Protocol::Udp => {
                let s = String::from_str("UDP");
                proof { reveal_strlit("UDP"); }
                s
            },
        }
    }
}

/// A port number together with its protocol.
#[derive(Debug, Clone, Copy, PartialEq, Eq, Structural, Hash, PartialOrd, Ord)]
pub struct Port {
    pub port: u16,
    pub protocol: Protocol,
}

/// How a port is shown: the protocol's name, a space, and the number.
pub open spec fn port_text(p: Port) -> Seq<char> {
    protocol_name(p.protocol) + seq![' '] + decimal(p.port as nat)
}

impl Port {
    /// The port as shown to people, such as `TCP 8080`.
    pub fn to_string(&self) -> (s: String)
        ensures
            s@ == port_text(*self),
    {
        let name = self.protocol.to_string();
        let with_space = name.concat(" ");
        proof { reveal_strlit(" "); }
        let digits = decimal_chars(self.port as u32);
        let number = string_from_chars(digits.as_slice());
        with_space.concat(number.as_str())
    }
}

/// A port is shown with the name of its own protocol: the text is `UDP`
/// for a UDP port and `TCP` for a TCP port, then a space, then the decimal
/// digits of the number, which read back as that number. So the first letter
/// of the text followed by the digits denotes the port again.
pub proof fn lemma_port_shown_with_own_protocol(p: Port)
    ensures
        port_text(p).len() == 4 + decimal(p.port as nat).len(),
        port_text(p).subrange(0, 3) == (if p.protocol == Protocol::Udp {
            seq!['U', 'D', 'P']
        } else {
            seq!['T', 'C', 'P']
        }),
        port_text(p)[0] == 'U' <==> p.protocol == Protocol::Udp,
        port_text(p)[3] == ' ',
        port_text(p).subrange(4, port_text(p).len() as int) == decimal(p.port as nat),
        u16_text_value(port_text(p).subrange(4, port_text(p).len() as int)) == Some(p.port),
        port_from_text(seq![port_text(p)[0]] + port_text(p).subrange(4, port_text(p).len() as int))
            == Ok::<Port, PortFault>(p),
{
    let t = port_text(p);
    let d = decimal(p.port as nat);
    lemma_decimal_digits(p.port as nat);
    assert(t.subrange(0, 3) =~= protocol_name(p.protocol));
    assert(t.subrange(4, t.len() as int) =~= d);
    lemma_u16_text_of_decimal(p.port);
    assert(t[0] == protocol_letter(p.protocol, true));
    lemma_letter_and_number_denote_port(p, true);
}

/// Why a text is no port.
#[derive(Debug, Clone, Copy, PartialEq, Eq, Structural)]
pub enum PortFault {
    /// The text is empty.
    Empty,
    /// The (lower-cased) first character is neither `t` nor `u`.
    UnknownProtocol(char),
    /// What follows the protocol letter is no `u16`, for this reason.
    BadNumber(NumberFault),
}

/// The port a text denotes. The text is read without regard to ASCII case:
/// a preset name stands for the port its value denotes; otherwise the first
/// character is the protocol (`t` for TCP, `u` for UDP) and the rest is the
/// number, as `std` reads a `u16` (with the kind of error `std` gives when
/// it cannot).
pub open spec fn port_from_text(s: Seq<char>) -> Result<Port, PortFault>
    decreases alias_depth(s),
{
    if s.len() == 0 {
        Err(PortFault::Empty)
    } else {
        match alias_target(s) {
            Some(v) => {
                proof {
                    lemma_alias_depth_decreases(s);
                }
                port_from_text(v)
            },
            None => {
                let l = ascii_lowercase(s);
                let protocol = if l[0] == 't' {
                    Some(Protocol::Tcp)
                } else if l[0] == 'u' {
                    Some(Protocol::Udp)
                } else {
                    None
                };
                match protocol {
                    None => Err(PortFault::UnknownProtocol(l[0])),
                    Some(protocol) => match u16_text_value(l.drop_first()) {
                        Some(n) => Ok(Port { port: n, protocol }),
                        None => Err(PortFault::BadNumber(u16_parse_fault(l.drop_first()))),
                    },
                }
            },
        }
    }
}

/// The error that reports a fault of a port text.
pub open spec fn fault_error(f: PortFault) -> Errors {
    match f {
        PortFault::Empty => Errors::EmptyPortString,
        PortFault::UnknownProtocol(c) => Errors::UnknownProtocol(c),
        PortFault::BadNumber(k) => Errors::InvalidPort(k),
    }
}

/// The result a port text gives: the port, or the error that reports the
/// fault.
pub open spec fn port_result(s: Seq<char>) -> Result<Port, Errors> {
    match port_from_text(s) {
        Ok(p) => Ok(p),
        Err(f) => Err(fault_error(f)),
    }
}

impl Port {
    /// The port that a protocol and the outcome of reading its number give:
    /// the number with the protocol, or the reason it is no number.
    pub fn from_number(protocol: Protocol, number: Result<u16, NumberFault>) -> (r: Result<Port, Errors>)
        ensures
            r == match number {
                Ok(n) => Ok(Port { port: n, protocol }),
                Err(k) => Err(Errors::InvalidPort(k)),
            },
    {
        match number {
            Ok(n) => Ok(Port { port: n, protocol }),
            Err(k) => Err(Errors::InvalidPort(k)),
        }
    }

    /// Reads a port from text such as `t8080`, `U53` or a preset name like
    /// `ssh`, as `port_from_text` says.
    pub fn try_from(str: &str) -> (r: Result<Port, Errors>)
        ensures
            r == port_result(str@),
        decreases alias_depth(str@),
    {
        if str.is_empty() {
            return Err(Errors::EmptyPortString);
        }
        let chars = chars_of(str);
        let lower = lowercase_chars(&chars);
        if let Some(value) = find_preset(lower.as_slice()) {
            proof {
                lemma_alias_depth_decreases(str@);
            }
            return Port::try_from(value);
        }
        let first = lower[0];
        let protocol = if first == 't' {
            Protocol::Tcp
        } else if first == 'u' {
            Protocol::Udp
        } else {
            return Err(Errors::UnknownProtocol(first));
        };
        let rest = sub_chars(lower.as_slice(), 1, lower.len());
        let number = string_from_chars(rest.as_slice());
        proof {
            assert(rest@ =~= lower@.drop_first());
        }
        Port::from_number(protocol, parse_u16(number.as_str()))
    }
}

/// Reading a port text does not depend on ASCII case: a text denotes what
/// its lower-case form denotes.
pub proof fn lemma_port_text_ignores_case(s: Seq<char>)
    ensures
        port_from_text(ascii_lowercase(s)) == port_from_text(s),
{
    let l = ascii_lowercase(s);
    lemma_lowercase_idempotent(s);
    assert(alias_target(l) == alias_target(s));
    if s.len() > 0 && alias_target(s) is Some {
        lemma_alias_depth_decreases(s);
        lemma_alias_depth_decreases(l);
    }
}

/// Two texts with the same lower-case form give the same result: the same
/// port, or the same error with the same payload.
pub proof fn lemma_same_lowercase_same_port(s1: Seq<char>, s2: Seq<char>)
    requires
        ascii_lowercase(s1) == ascii_lowercase(s2),
    ensures
        port_from_text(s1) == port_from_text(s2),
        port_result(s1) == port_result(s2),
{
    lemma_port_text_ignores_case(s1);
    lemma_port_text_ignores_case(s2);
}

/// The letter of a protocol: `t` or `u`, in upper case when `upper` is set.
pub open spec fn protocol_letter(p: Protocol, upper: bool) -> char {
    match (p, upper) {
        (Protocol::Tcp, false) => 't',
        (Protocol::Tcp, true) => 'T',
        (Protocol::Udp, false) => 'u',
        (Protocol::Udp, true) => 'U',
    }
}

/// The protocol's letter (in either case) followed by the decimal text of
/// the number denotes that port.
pub proof fn lemma_letter_and_number_denote_port(p: Port, upper: bool)
    ensures
        port_from_text(seq![protocol_letter(p.protocol, upper)] + decimal(p.port as nat)) == Ok::<Port, PortFault>(p),
{
    let d = decimal(p.port as nat);
    let s = seq![protocol_letter(p.protocol, upper)] + d;
    lemma_decimal_digits(p.port as nat);
    assert(s[1] == d[0]);
    assert(starts_like_port_text(s));
    lemma_port_text_is_no_alias(s);
    let l = ascii_lowercase(s);
    assert(l.drop_first() =~= d) by {
        assert forall|i: int| 0 <= i < d.len() implies #[trigger] l.drop_first()[i] == d[i] by {
            assert(s[i + 1] == d[i]);
            assert(is_digit(d[i]));
        }
    }
    lemma_u16_text_of_decimal(p.port);
}

/// A preset name, in any case, denotes the port that the preset's value
/// denotes.
pub proof fn lemma_preset_name_denotes_its_value(s: Seq<char>)
    requires
        preset_value(ascii_lowercase(s)) is Some,
    ensures
        port_from_text(s) == port_from_text(preset_value(ascii_lowercase(s))->0@),
{
    lemma_lookup_preset(preset_table(), ascii_lowercase(s));
    lemma_names_are_not_port_texts();
    let i = choose|i: int| 0 <= i < preset_table().len() && #[trigger] preset_table()[i].0@ == ascii_lowercase(s)
        && preset_table()[i].1 == preset_value(ascii_lowercase(s))->0;
    assert(preset_table()[i].0@.len() > 0);
    assert(s.len() > 0);
    lemma_alias_depth_decreases(s);
}

/// A protocol letter followed by a number that fits denotes a port.
proof fn lemma_shaped_text_denotes_port(s: Seq<char>)
    requires
        port_text_shape(s),
    ensures
        port_from_text(s) is Ok,
{
    lemma_port_text_is_no_alias(s);
    let l = ascii_lowercase(s);
    let d = s.drop_first();
    assert(l.drop_first() =~= d) by {
        assert forall|i: int| 0 <= i < d.len() implies #[trigger] l.drop_first()[i] == d[i] by {
            assert(s[i + 1] == d[i]);
            assert(is_digit(d[i]));
        }
    }
    assert(is_digit(d[0]));
    assert(unsigned_digits(d) == d);
    lemma_shape_number_fits(s);
    assert(u16_text_value(l.drop_first()) is Some);
    assert(l[0] == 't' || l[0] == 'u');
}

/// A text without upper-case letters is its own lower-case form.
proof fn lemma_lowercase_of_lower(s: Seq<char>)
    requires
        has_no_upper(s),
    ensures
        ascii_lowercase(s) == s,
{
    assert(ascii_lowercase(s) =~= s);
}

/// Every preset name denotes a port: following the presets from any name
/// ends at a port text that fits.
pub proof fn lemma_every_preset_denotes_a_port()
    ensures
        forall|i: int| 0 <= i < preset_table().len() ==> port_from_text(#[trigger] preset_table()[i].0@) is Ok,
{
    let t = preset_table();
    lemma_port_text_values();
    lemma_alias_entries();
    lemma_names_are_not_port_texts();
    lemma_shaped_text_denotes_port(t[5].1@);
    lemma_shaped_text_denotes_port(t[27].1@);
    lemma_preset_name_denotes_its_value(t[6].1@);
    lemma_preset_name_denotes_its_value(t[28].1@);
    lemma_preset_name_denotes_its_value(t[29].1@);
    assert forall|j: int| 0 <= j < t.len() implies port_from_text(#[trigger] t[j].1@) is Ok by {
        if !is_alias_entry(j) {
            lemma_shaped_text_denotes_port(t[j].1@);
        }
    }
    assert forall|i: int| 0 <= i < t.len() implies port_from_text(#[trigger] t[i].0@) is Ok by {
        let n = t[i].0@;
        lemma_lowercase_of_lower(n);
        lemma_lookup_preset(t, n);
        let v = preset_value(n)->0;
        let j = choose|j: int| 0 <= j < t.len() && #[trigger] t[j].0@ == n && t[j].1 == v;
        lemma_preset_name_denotes_its_value(n);
        assert(port_from_text(t[j].1@) is Ok);
    }
}

} // verus!
