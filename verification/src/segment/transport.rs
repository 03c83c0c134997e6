//! How a segment's memory is reached.

use super::error::ParseTransportProtocolError;
use crate::text::same_text;
use vstd::prelude::*;

verus! {

/// Transfer protocol used to reach a memory segment.
///
/// The common protocols are strongly typed so placement and capability checks
/// do not depend on string literals. `Custom` keeps the core compatible with
/// transport plugins that are not known at compile time.
#[derive(Clone, Debug, Eq, Hash, PartialEq)]
#[non_exhaustive]
pub enum TransportProtocol {
    Tcp,
    Rdma,
    Cxl,
    NvmeOf,
    Custom(String),
}

/// The contents of a [`TransportProtocol`].
pub enum TransportProtocolView {
    Tcp,
    Rdma,
    Cxl,
    NvmeOf,
    Custom(Seq<char>),
}

impl TransportProtocolView {
    /// The name under which the protocol is written.
    pub open spec fn text(self) -> Seq<char> {
        match self {
            TransportProtocolView::Tcp => "tcp"@,
            TransportProtocolView::Rdma => "rdma"@,
            TransportProtocolView::Cxl => "cxl"@,
            TransportProtocolView::NvmeOf => "nvmeof"@,
            TransportProtocolView::Custom(name) => name,
        }
    }
}

/// A character that may stand in a protocol name.
pub open spec fn is_protocol_char(c: char) -> bool {
    ('a' <= c && c <= 'z') || ('0' <= c && c <= '9') || c == '_' || c == '-'
}

/// A protocol name: one or more lowercase letters, digits, `_` or `-`.
pub open spec fn is_protocol_name(text: Seq<char>) -> bool {
    text.len() > 0 && forall|i: int| 0 <= i < text.len() ==> is_protocol_char(#[trigger] text[i])
}

/// The protocol that a well-formed name stands for.
pub open spec fn protocol_named(text: Seq<char>) -> TransportProtocolView {
    if text == "tcp"@ {
        TransportProtocolView::Tcp
    } else if text == "rdma"@ {
        TransportProtocolView::Rdma
    } else if text == "cxl"@ {
        TransportProtocolView::Cxl
    } else if text == "nvmeof"@ {
        TransportProtocolView::NvmeOf
    } else {
        TransportProtocolView::Custom(text)
    }
}

impl View for TransportProtocol {
    type V = TransportProtocolView;

    open spec fn view(&self) -> TransportProtocolView {
        match *self {
            TransportProtocol::Tcp => TransportProtocolView::Tcp,
            TransportProtocol::Rdma => TransportProtocolView::Rdma,
            TransportProtocol::Cxl => TransportProtocolView::Cxl,
            TransportProtocol::NvmeOf => TransportProtocolView::NvmeOf,
            TransportProtocol::Custom(name) => TransportProtocolView::Custom(name@),
        }
    }
}

/// Whether the text is a protocol name.
fn protocol_name_is_valid(text: &str) -> (valid: bool)
    ensures
        valid == is_protocol_name(text@),
{
    let length: usize = text.unicode_len();
    if length == 0 {
        return false;
    }
    let mut index: usize = 0;
    while index < length
        invariant
            index <= length,
            length == text@.len(),
            forall|i: int| 0 <= i < index ==> is_protocol_char(#[trigger] text@[i]),
        decreases length - index,
    {
        let c = text.get_char(index);
        let fits = ('a' <= c && c <= 'z') || ('0' <= c && c <= '9') || c == '_' || c == '-';
        if !fits {
            assert(!is_protocol_char(text@[index as int]));
            return false;
        }
        index = index + 1;
    }
    true
}

impl TransportProtocol {
    pub fn as_str(&self) -> (text: &str)
        ensures
            text@ == self@.text(),
    {
        match self {
            Self::Tcp => "tcp",
            Self::Rdma => "rdma",
            Self::Cxl => "cxl",
            Self::NvmeOf => "nvmeof",
            Self::Custom(protocol) => protocol.as_str(),
        }
    }

    /// Reads a protocol from its name.
    pub fn parse(protocol: &str) -> (parsed: Result<Self, ParseTransportProtocolError>)
        ensures
            parsed.is_ok() == is_protocol_name(protocol@),
            parsed matches Ok(value) ==> value@ == protocol_named(protocol@),
    {
        if !protocol_name_is_valid(protocol) {
            return Err(ParseTransportProtocolError);
        }
        if same_text(protocol, "tcp") {
            Ok(Self::Tcp)
        } else if same_text(protocol, "rdma") {
            Ok(Self::Rdma)
        } else if same_text(protocol, "cxl") {
            Ok(Self::Cxl)
        } else if same_text(protocol, "nvmeof") {
            Ok(Self::NvmeOf)
        } else {
            Ok(Self::Custom(protocol.to_owned()))
        }
    }

    /// Whether both name the same protocol through the same variant.
    pub fn same_as(&self, other: &Self) -> (same: bool)
        ensures
            same == (self@ == other@),
    {
        match (self, other) {
            (Self::Tcp, Self::Tcp) => true,
            (Self::Rdma, Self::Rdma) => true,
            (Self::Cxl, Self::Cxl) => true,
            (Self::NvmeOf, Self::NvmeOf) => true,
            (Self::Custom(left), Self::Custom(right)) => *left == *right,
            _ => false,
        }
    }

    /// A protocol equal to this one.
    pub fn duplicate(&self) -> (copy: Self)
        ensures
            copy == *self,
    {
        match self {
            Self::Tcp => Self::Tcp,
            Self::Rdma => Self::Rdma,
            Self::Cxl => Self::Cxl,
            Self::NvmeOf => Self::NvmeOf,
            Self::Custom(protocol) => Self::Custom(protocol.clone()),
        }
    }
}

/// Where and over which protocol a segment is reached.
#[derive(Clone, Debug, Eq, Hash, PartialEq)]
pub struct TransportEndpoint {
    pub protocol: TransportProtocol,
    pub endpoint: String,
}

/// The contents of a [`TransportEndpoint`].
pub struct TransportEndpointView {
    pub protocol: TransportProtocolView,
    pub endpoint: Seq<char>,
}

impl View for TransportEndpoint {
    type V = TransportEndpointView;

    open spec fn view(&self) -> TransportEndpointView {
        TransportEndpointView { protocol: self.protocol@, endpoint: self.endpoint@ }
    }
}

impl TransportEndpoint {
    pub fn new(protocol: TransportProtocol, endpoint: String) -> (transport: Self)
        ensures
            transport@ == (TransportEndpointView { protocol: protocol@, endpoint: endpoint@ }),
    {
        Self { protocol, endpoint }
    }

    pub fn protocol(&self) -> (protocol: &TransportProtocol)
        ensures
            protocol@ == self@.protocol,
    {
        &self.protocol
    }

    pub fn endpoint(&self) -> (endpoint: &str)
        ensures
            endpoint@ == self@.endpoint,
    {
        self.endpoint.as_str()
    }

    /// Whether both reach the same place over the same protocol.
    pub fn same_as(&self, other: &Self) -> (same: bool)
        ensures
            same == (self@ == other@),
    {
        self.protocol.same_as(&other.protocol) && self.endpoint == other.endpoint
    }

    /// A transport equal to this one.
    pub fn duplicate(&self) -> (copy: Self)
        ensures
            copy == *self,
    {
        Self { protocol: self.protocol.duplicate(), endpoint: self.endpoint.clone() }
    }
}

/// Every protocol name reads back as a protocol that is written under that name.
pub proof fn law_protocol_name_round_trip(text: Seq<char>)
    ensures
        protocol_named(text).text() == text,
{
}

/// Protocols are named in lower-case letters, digits, underscores and hyphens.
pub proof fn law_names_of_protocols(c: char)
    ensures
        is_protocol_char(c) <==> 0x61 <= c as int <= 0x7a || 0x30 <= c as int <= 0x39 || c as int
            == 0x5f || c as int == 0x2d,
        !is_protocol_name(Seq::empty()),
{
}

} // verus!
