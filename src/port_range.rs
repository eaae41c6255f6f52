//! Expansion of `host:port[-port]` listen and target specifications into listener triples.
use vstd::prelude::*;
use crate::text::{
    chars_of, decimal, find_char, index_of, last_index_of, parse_u16,
    parse_u16_chars, push_decimal, push_str, rfind_char, slice_of, string_from_chars, trim,
    trimmed,
};

verus! {

/// Widest port range a single specification may name.
pub const MAX_PORT_RANGE: u32 = 1024;

/// Why an address specification was refused.
#[derive(Clone, Copy, Debug, PartialEq, Eq, Structural)]
pub enum AddrError {
    EmptyAddress,
    InvalidIpv6,
    MissingPort,
    MissingHostOrPort,
    InvalidPort,
    ZeroPort,
    RangeIncludesZero,
    RangeReversed,
    RangeTooLarge,
    RangeMismatch { listen: usize, target: usize },
}

/// One concrete listener: where to bind, which port, and where to relay.
#[derive(Clone, Debug)]
pub struct ListenTarget {
    pub listen_addr: String,
    pub listen_port: u16,
    pub target_addr: String,
}

impl View for ListenTarget {
    type V = (Seq<char>, u16, Seq<char>);

    open spec fn view(&self) -> (Seq<char>, u16, Seq<char>) {
        (self.listen_addr@, self.listen_port, self.target_addr@)
    }
}

pub open spec fn targets_view(v: Seq<ListenTarget>) -> Seq<(Seq<char>, u16, Seq<char>)> {
    Seq::new(v.len(), |i: int| v[i]@)
}

/// `host:port` text.
pub open spec fn endpoint(host: Seq<char>, port: u16) -> Seq<char> {
    host + seq![':'] + decimal(port as nat)
}

/// Host and port text of an address: `[v6]:port`, else split at the last colon.
pub open spec fn split_spec(raw: Seq<char>) -> Result<(Seq<char>, Seq<char>), AddrError> {
    let a = trim(raw);
    if a.len() == 0 {
        Err(AddrError::EmptyAddress)
    } else if a[0] == '[' {
        let end = index_of(a, ']');
        if end < 0 {
            Err(AddrError::InvalidIpv6)
        } else {
            let rest = a.subrange(end + 1, a.len() as int);
            if rest.len() == 0 || rest[0] != ':' || rest.len() == 1 {
                Err(AddrError::MissingPort)
            } else {
                Ok((a.subrange(0, end + 1), rest.drop_first()))
            }
        }
    } else {
        let k = last_index_of(a, ':');
        if k < 0 {
            Err(AddrError::MissingPort)
        } else {
            let host = a.subrange(0, k);
            let port = a.subrange(k + 1, a.len() as int);
            if host.len() == 0 || port.len() == 0 {
                Err(AddrError::MissingHostOrPort)
            } else {
                Ok((host, port))
            }
        }
    }
}

/// A single port number, white space around it ignored.
pub open spec fn port_value_spec(raw: Seq<char>) -> Result<u16, AddrError> {
    match parse_u16(trim(raw)) {
        Some(p) => Ok(p),
        None => Err(AddrError::InvalidPort),
    }
}

/// The ascending run `start..=end`.
pub open spec fn port_run(start: u16, end: u16) -> Seq<u16> {
    Seq::new((end - start + 1) as nat, |i: int| (start + i) as u16)
}

/// The ports a port token names: `N`, or the inclusive range `N-M`.
pub open spec fn ports_spec(raw: Seq<char>) -> Result<Seq<u16>, AddrError> {
    let k = index_of(raw, '-');
    if k >= 0 {
        match port_value_spec(raw.subrange(0, k)) {
            Err(e) => Err(e),
            Ok(start) => match port_value_spec(raw.subrange(k + 1, raw.len() as int)) {
                Err(e) => Err(e),
                Ok(end) => if start == 0 || end == 0 {
                    Err(AddrError::RangeIncludesZero)
                } else if start > end {
                    Err(AddrError::RangeReversed)
                } else if end - start + 1 > MAX_PORT_RANGE {
                    Err(AddrError::RangeTooLarge)
                } else {
                    Ok(port_run(start, end))
                },
            },
        }
    } else {
        match port_value_spec(raw) {
            Err(e) => Err(e),
            Ok(p) => if p == 0 {
                Err(AddrError::ZeroPort)
            } else {
                Ok(seq![p])
            },
        }
    }
}

/// Pairs listen ports with target ports: one target port serves every listen port, a range
/// of equal size pairs by position, any other size is a mismatch.
pub open spec fn pair_spec(
    lh: Seq<char>,
    lports: Seq<u16>,
    th: Seq<char>,
    tports: Seq<u16>,
) -> Result<Seq<(Seq<char>, u16, Seq<char>)>, AddrError> {
    if tports.len() == 1 {
        Ok(
            Seq::new(
                lports.len(),
                |i: int| (endpoint(lh, lports[i]), lports[i], endpoint(th, tports[0])),
            ),
        )
    } else if tports.len() == lports.len() {
        Ok(
            Seq::new(
                lports.len(),
                |i: int| (endpoint(lh, lports[i]), lports[i], endpoint(th, tports[i])),
            ),
        )
    } else {
        Err(
            AddrError::RangeMismatch {
                listen: lports.len() as usize,
                target: tports.len() as usize,
            },
        )
    }
}

/// The listener triples that a listen and a target specification describe.
pub open spec fn expand_spec(listen: Seq<char>, target: Seq<char>) -> Result<
    Seq<(Seq<char>, u16, Seq<char>)>,
    AddrError,
> {
    match split_spec(listen) {
        Err(e) => Err(e),
        Ok((lh, lp)) => match ports_spec(lp) {
            Err(e) => Err(e),
            Ok(lports) => match split_spec(target) {
                Err(e) => Err(e),
                Ok((th, tp)) => match ports_spec(tp) {
                    Err(e) => Err(e),
                    Ok(tports) => pair_spec(lh, lports, th, tports),
                },
            },
        },
    }
}


fn split_host_port(addr: &Vec<char>) -> (r: Result<(Vec<char>, Vec<char>), AddrError>)
    ensures
        match r {
            Ok((h, p)) => split_spec(addr@) == Ok::<_, AddrError>((h@, p@)),
            Err(e) => split_spec(addr@) == Err::<(Seq<char>, Seq<char>), AddrError>(e),
        },
{
    let a = trimmed(addr);
    if a.len() == 0 {
        return Err(AddrError::EmptyAddress);
    }
    if a[0] == '[' {
        let end = match find_char(&a, ']') {
            Some(k) => k,
            None => return Err(AddrError::InvalidIpv6),
        };
        let rest = slice_of(&a, end + 1, a.len());
        if rest.len() == 0 || rest[0] != ':' || rest.len() == 1 {
            return Err(AddrError::MissingPort);
        }
        let host = slice_of(&a, 0, end + 1);
        let port = slice_of(&rest, 1, rest.len());
        assert(port@ == rest@.drop_first());
        return Ok((host, port));
    }
    let k = match rfind_char(&a, ':') {
        Some(k) => k,
        None => return Err(AddrError::MissingPort),
    };
    let host = slice_of(&a, 0, k);
    let port = slice_of(&a, k + 1, a.len());
    if host.len() == 0 || port.len() == 0 {
        return Err(AddrError::MissingHostOrPort);
    }
    Ok((host, port))
}

fn parse_port_value(raw: &Vec<char>) -> (r: Result<u16, AddrError>)
    ensures
        r == port_value_spec(raw@),
{
    let t = trimmed(raw);
    match parse_u16_chars(&t) {
        Some(p) => Ok(p),
        None => Err(AddrError::InvalidPort),
    }
}

fn parse_ports(raw: &Vec<char>) -> (r: Result<Vec<u16>, AddrError>)
    ensures
        match r {
            Ok(v) => ports_spec(raw@) == Ok::<_, AddrError>(v@),
            Err(e) => ports_spec(raw@) == Err::<Seq<u16>, AddrError>(e),
        },
{
    match find_char(raw, '-') {
        Some(k) => {
            let n = raw.len();
            let start = match parse_port_value(&slice_of(raw, 0, k)) {
                Ok(p) => p,
                Err(e) => return Err(e),
            };
            let end = match parse_port_value(&slice_of(raw, k + 1, n)) {
                Ok(p) => p,
                Err(e) => return Err(e),
            };
            if start == 0 || end == 0 {
                return Err(AddrError::RangeIncludesZero);
            }
            if start > end {
                return Err(AddrError::RangeReversed);
            }
            if (end - start) as u32 + 1 > MAX_PORT_RANGE {
                return Err(AddrError::RangeTooLarge);
            }
            let mut ports: Vec<u16> = Vec::new();
            let mut p: u32 = start as u32;
            while p <= end as u32
                invariant
                    start <= p <= end as u32 + 1,
                    ports@ == port_run(start, end).subrange(0, p - start),
                decreases end as u32 + 1 - p,
            {
                let ghost before = ports@;
                ports.push(p as u16);
                assert(ports@ =~= port_run(start, end).subrange(0, p + 1 - start));
                p = p + 1;
            }
            assert(port_run(start, end).subrange(0, end - start + 1) =~= port_run(start, end));
            Ok(ports)
        },
        None => {
            let p = match parse_port_value(raw) {
                Ok(p) => p,
                Err(e) => return Err(e),
            };
            if p == 0 {
                return Err(AddrError::ZeroPort);
            }
            let mut one: Vec<u16> = Vec::new();
            one.push(p);
            assert(one@ =~= seq![p]);
            Ok(one)
        },
    }
}

fn endpoint_text(host: &Vec<char>, port: u16) -> (r: String)
    ensures
        r@ == endpoint(host@, port),
{
    let mut out = host.clone();
    out.push(':');
    push_decimal(&mut out, port as u64);
    string_from_chars(&out)
}

/// Expands a listen and a target specification into one triple per listen port.
pub fn expand_listen_targets(listen_addr: &str, target_addr: &str) -> (r: Result<
    Vec<ListenTarget>,
    AddrError,
>)
    ensures
        match r {
            Ok(v) => expand_spec(listen_addr@, target_addr@) == Ok::<_, AddrError>(
                targets_view(v@),
            ),
            Err(e) => expand_spec(listen_addr@, target_addr@) == Err::<
                Seq<(Seq<char>, u16, Seq<char>)>,
                AddrError,
            >(e),
        },
{
    let (listen_host, listen_port_raw) = match split_host_port(&chars_of(listen_addr)) {
        Ok(v) => v,
        Err(e) => return Err(e),
    };
    let listen_ports = match parse_ports(&listen_port_raw) {
        Ok(v) => v,
        Err(e) => return Err(e),
    };
    let (target_host, target_port_raw) = match split_host_port(&chars_of(target_addr)) {
        Ok(v) => v,
        Err(e) => return Err(e),
    };
    let target_ports = match parse_ports(&target_port_raw) {
        Ok(v) => v,
        Err(e) => return Err(e),
    };
    if target_ports.len() != 1 && target_ports.len() != listen_ports.len() {
        return Err(
            AddrError::RangeMismatch { listen: listen_ports.len(), target: target_ports.len() },
        );
    }
    let ghost want = pair_spec(listen_host@, listen_ports@, target_host@, target_ports@)->Ok_0;
    let mut targets: Vec<ListenTarget> = Vec::new();
    let mut i: usize = 0;
    while i < listen_ports.len()
        invariant
            i <= listen_ports@.len(),
            target_ports@.len() == 1 || target_ports@.len() == listen_ports@.len(),
            want == pair_spec(listen_host@, listen_ports@, target_host@, target_ports@)->Ok_0,
            want.len() == listen_ports@.len(),
            targets_view(targets@) == want.subrange(0, i as int),
        decreases listen_ports@.len() - i,
    {
        let target_port = if target_ports.len() == 1 {
            target_ports[0]
        } else {
            target_ports[i]
        };
        let t = ListenTarget {
            listen_addr: endpoint_text(&listen_host, listen_ports[i]),
            listen_port: listen_ports[i],
            target_addr: endpoint_text(&target_host, target_port),
        };
        let ghost before = targets@;
        targets.push(t);
        assert(targets@ == before.push(t));
        assert(t@ == want[i as int]);
        assert(targets_view(targets@) =~= want.subrange(0, i + 1)) by {
            assert(targets_view(before) == want.subrange(0, i as int));
            assert(targets_view(before).len() == i);
            assert(before.len() == i);
            assert forall|j: int| 0 <= j < i + 1 implies targets_view(targets@)[j] == want[j] by {
                if j < i {
                    assert(targets@[j] == before[j]);
                    assert(targets_view(before)[j] == want[j]);
                } else {
                    assert(targets@[j] == t);
                }
            }
        }
        i = i + 1;
    }
    assert(targets_view(targets@) == want);
    Ok(targets)
}

impl AddrError {
    /// Operator-facing text of the error.
    pub fn message(&self) -> (r: String)
        ensures
            r@ == self.text(),
    {
        let mut out: Vec<char> = Vec::new();
        match self {
            AddrError::EmptyAddress => push_str(&mut out, "Address is empty"),
            AddrError::InvalidIpv6 => push_str(&mut out, "Invalid IPv6 address"),
            AddrError::MissingPort => push_str(&mut out, "Missing port in address"),
            AddrError::MissingHostOrPort => push_str(&mut out, "Missing host or port in address"),
            AddrError::InvalidPort => push_str(&mut out, "Invalid port number"),
            AddrError::ZeroPort => push_str(&mut out, "Port cannot be 0"),
            AddrError::RangeIncludesZero => push_str(&mut out, "Port range cannot include 0"),
            AddrError::RangeReversed => push_str(&mut out, "Port range start is greater than end"),
            AddrError::RangeTooLarge => {
                push_str(&mut out, "Port range too large (max ");
                push_decimal(&mut out, MAX_PORT_RANGE as u64);
                push_str(&mut out, ")");
            },
            AddrError::RangeMismatch { listen, target } => {
                push_str(&mut out, "Port range mismatch: listen has ");
                push_decimal(&mut out, *listen as u64);
                push_str(&mut out, " ports, target has ");
                push_decimal(&mut out, *target as u64);
                push_str(&mut out, " ports");
            },
        }
        string_from_chars(&out)
    }

    pub open spec fn text(&self) -> Seq<char> {
        match *self {
            AddrError::EmptyAddress => "Address is empty"@,
            AddrError::InvalidIpv6 => "Invalid IPv6 address"@,
            AddrError::MissingPort => "Missing port in address"@,
            AddrError::MissingHostOrPort => "Missing host or port in address"@,
            AddrError::InvalidPort => "Invalid port number"@,
            AddrError::ZeroPort => "Port cannot be 0"@,
            AddrError::RangeIncludesZero => "Port range cannot include 0"@,
            AddrError::RangeReversed => "Port range start is greater than end"@,
            AddrError::RangeTooLarge => "Port range too large (max "@ + decimal(
                MAX_PORT_RANGE as nat,
            ) + ")"@,
            AddrError::RangeMismatch { listen, target } => "Port range mismatch: listen has "@
                + decimal(listen as nat) + " ports, target has "@ + decimal(target as nat)
                + " ports"@,
        }
    }
}

} // verus!
