use vstd::prelude::*;

verus! {

/// Which transports a forwarding rule relays.
#[derive(Clone, Copy, Debug, PartialEq, Eq, Structural)]
pub enum ProtocolMode {
    Tcp,
    Udp,
    Both,
}

impl Default for ProtocolMode {
    fn default() -> (r: Self)
        ensures
            r == ProtocolMode::Tcp,
    {
        ProtocolMode::Tcp
    }
}

impl ProtocolMode {
    /// True when the rule opens TCP listeners.
    pub fn uses_tcp(self) -> (r: bool)
        ensures
            r == (self == ProtocolMode::Tcp || self == ProtocolMode::Both),
    {
        matches!(self, ProtocolMode::Tcp | ProtocolMode::Both)
    }

    /// True when the rule opens UDP listeners.
    pub fn uses_udp(self) -> (r: bool)
        ensures
            r == (self == ProtocolMode::Udp || self == ProtocolMode::Both),
    {
        matches!(self, ProtocolMode::Udp | ProtocolMode::Both)
    }
}

} // verus!
