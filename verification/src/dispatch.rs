//! Telling packets apart by their first byte.
use crate::types::Uuid;
use crate::wire;
use crate::wire::{
    slice_uuid, APP_PACKET_OP, BOOTSTRAP_REQUEST_OP, BOOTSTRAP_RESPONSE_OP, CONNECT_ACK_OP,
    CONNECT_REQUEST_OP, CONN_RESET_OP, CONTACT_REQUEST_OP, CONTACT_RESPONSE_OP,
    CROSS_USER_PULL_REQUEST_OP, CROSS_USER_PULL_RESPONSE_OP, CROSS_USER_UPDATE_AVAILABLE_OP,
    DEVICE_REGISTER_OP, DG_KEEPALIVE_OP, GENERATE_INVITATION_REQUEST_OP,
    GENERATE_INVITATION_RESPONSE_OP, MERGE_ACK_OP, MERGE_PROPOSAL_OP, RELAY_PACKET_OP, SG_PING_OP,
    SYNC_PULL_REQUEST_OP, SYNC_PULL_RESPONSE_OP, SYNC_UPDATE_AVAILABLE_OP, SYNC_WRITE_ACK_OP,
    SYNC_WRITE_REQUEST_OP, TUNNEL_CONNECT_ACK_OP, TUNNEL_CONNECT_REQUEST_OP, TUNNEL_DELIVERY_OP,
    TUNNEL_FORWARD_OP, TUNNEL_INIT_OP, WATERMARK_PROBE_REQUEST_OP, WATERMARK_PROBE_RESPONSE_OP,
};
use vstd::prelude::*;

verus! {

/// Operations of applications.
pub const APP_REGISTER_OP: u8 = 0x00;

pub const APP_UPDATE_OP: u8 = 0x01;

pub const APP_GET_DATA_OP: u8 = 0x02;

pub const APP_SEND_PACKET_OP: u8 = 0x03;

/// The older exchange of contact data.
pub const CONTACT_DATA_PUSH_OP: u8 = 0x60;

pub const CONTACT_DATA_PULL_REQUEST_OP: u8 = 0x61;

/// What a packet is.
#[derive(Clone, Copy, PartialEq, Eq, Debug)]
pub enum Packet {
    AppRegister,
    AppUpdate,
    AppGetData,
    AppSendPacket,
    SgPing { nonce: Uuid },
    DgKeepalive,
    ConnReset,
    ConnectRequest,
    ConnectAck,
    BootstrapRequest,
    BootstrapResponse,
    DeviceRegistration,
    ContactRequest,
    ContactResponse,
    GenerateInvitationRequest,
    GenerateInvitationResponse,
    ContactDataPush,
    ContactDataPullRequest,
    SyncWriteRequest,
    SyncWriteAck,
    SyncUpdateAvailable,
    SyncPullRequest,
    SyncPullResponse,
    CrossUserUpdateAvailable,
    CrossUserPullRequest,
    CrossUserPullResponse,
    MergeProposal,
    MergeAck,
    WatermarkProbeRequest,
    WatermarkProbeResponse,
    RelayPacket,
    AppPacket,
    TunnelInit,
    TunnelForward,
    TunnelConnectRequest,
    TunnelConnectAck,
    TunnelDelivery,
}

/// What the first byte of a packet says, for all but a ping.
pub open spec fn kind_of(op: u8) -> Option<Packet> {
    if op == APP_REGISTER_OP {
        Some(Packet::AppRegister)
    } else if op == APP_UPDATE_OP {
        Some(Packet::AppUpdate)
    } else if op == APP_GET_DATA_OP {
        Some(Packet::AppGetData)
    } else if op == APP_SEND_PACKET_OP {
        Some(Packet::AppSendPacket)
    } else if op == DG_KEEPALIVE_OP {
        Some(Packet::DgKeepalive)
    } else if op == CONN_RESET_OP {
        Some(Packet::ConnReset)
    } else if op == CONNECT_REQUEST_OP {
        Some(Packet::ConnectRequest)
    } else if op == CONNECT_ACK_OP {
        Some(Packet::ConnectAck)
    } else if op == BOOTSTRAP_REQUEST_OP {
        Some(Packet::BootstrapRequest)
    } else if op == BOOTSTRAP_RESPONSE_OP {
        Some(Packet::BootstrapResponse)
    } else if op == DEVICE_REGISTER_OP {
        Some(Packet::DeviceRegistration)
    } else if op == CONTACT_REQUEST_OP {
        Some(Packet::ContactRequest)
    } else if op == CONTACT_RESPONSE_OP {
        Some(Packet::ContactResponse)
    } else if op == GENERATE_INVITATION_REQUEST_OP {
        Some(Packet::GenerateInvitationRequest)
    } else if op == GENERATE_INVITATION_RESPONSE_OP {
        Some(Packet::GenerateInvitationResponse)
    } else if op == CONTACT_DATA_PUSH_OP {
        Some(Packet::ContactDataPush)
    } else if op == CONTACT_DATA_PULL_REQUEST_OP {
        Some(Packet::ContactDataPullRequest)
    } else if op == SYNC_WRITE_REQUEST_OP {
        Some(Packet::SyncWriteRequest)
    } else if op == SYNC_WRITE_ACK_OP {
        Some(Packet::SyncWriteAck)
    } else if op == SYNC_UPDATE_AVAILABLE_OP {
        Some(Packet::SyncUpdateAvailable)
    } else if op == SYNC_PULL_REQUEST_OP {
        Some(Packet::SyncPullRequest)
    } else if op == SYNC_PULL_RESPONSE_OP {
        Some(Packet::SyncPullResponse)
    } else if op == CROSS_USER_UPDATE_AVAILABLE_OP {
        Some(Packet::CrossUserUpdateAvailable)
    } else if op == CROSS_USER_PULL_REQUEST_OP {
        Some(Packet::CrossUserPullRequest)
    } else if op == CROSS_USER_PULL_RESPONSE_OP {
        Some(Packet::CrossUserPullResponse)
    } else if op == MERGE_PROPOSAL_OP {
        Some(Packet::MergeProposal)
    } else if op == MERGE_ACK_OP {
        Some(Packet::MergeAck)
    } else if op == WATERMARK_PROBE_REQUEST_OP {
        Some(Packet::WatermarkProbeRequest)
    } else if op == WATERMARK_PROBE_RESPONSE_OP {
        Some(Packet::WatermarkProbeResponse)
    } else if op == RELAY_PACKET_OP {
        Some(Packet::RelayPacket)
    } else if op == APP_PACKET_OP {
        Some(Packet::AppPacket)
    } else if op == TUNNEL_INIT_OP {
        Some(Packet::TunnelInit)
    } else if op == TUNNEL_FORWARD_OP {
        Some(Packet::TunnelForward)
    } else if op == TUNNEL_CONNECT_REQUEST_OP {
        Some(Packet::TunnelConnectRequest)
    } else if op == TUNNEL_CONNECT_ACK_OP {
        Some(Packet::TunnelConnectAck)
    } else if op == TUNNEL_DELIVERY_OP {
        Some(Packet::TunnelDelivery)
    } else {
        None
    }
}

fn find_kind(op: u8) -> (r: Option<Packet>)
    ensures
        r == kind_of(op),
{
    if op == APP_REGISTER_OP {
        Some(Packet::AppRegister)
    } else if op == APP_UPDATE_OP {
        Some(Packet::AppUpdate)
    } else if op == APP_GET_DATA_OP {
        Some(Packet::AppGetData)
    } else if op == APP_SEND_PACKET_OP {
        Some(Packet::AppSendPacket)
    } else if op == DG_KEEPALIVE_OP {
        Some(Packet::DgKeepalive)
    } else if op == CONN_RESET_OP {
        Some(Packet::ConnReset)
    } else if op == CONNECT_REQUEST_OP {
        Some(Packet::ConnectRequest)
    } else if op == CONNECT_ACK_OP {
        Some(Packet::ConnectAck)
    } else if op == BOOTSTRAP_REQUEST_OP {
        Some(Packet::BootstrapRequest)
    } else if op == BOOTSTRAP_RESPONSE_OP {
        Some(Packet::BootstrapResponse)
    } else if op == DEVICE_REGISTER_OP {
        Some(Packet::DeviceRegistration)
    } else if op == CONTACT_REQUEST_OP {
        Some(Packet::ContactRequest)
    } else if op == CONTACT_RESPONSE_OP {
        Some(Packet::ContactResponse)
    } else if op == GENERATE_INVITATION_REQUEST_OP {
        Some(Packet::GenerateInvitationRequest)
    } else if op == GENERATE_INVITATION_RESPONSE_OP {
        Some(Packet::GenerateInvitationResponse)
    } else if op == CONTACT_DATA_PUSH_OP {
        Some(Packet::ContactDataPush)
    } else if op == CONTACT_DATA_PULL_REQUEST_OP {
        Some(Packet::ContactDataPullRequest)
    } else if op == SYNC_WRITE_REQUEST_OP {
        Some(Packet::SyncWriteRequest)
    } else if op == SYNC_WRITE_ACK_OP {
        Some(Packet::SyncWriteAck)
    } else if op == SYNC_UPDATE_AVAILABLE_OP {
        Some(Packet::SyncUpdateAvailable)
    } else if op == SYNC_PULL_REQUEST_OP {
        Some(Packet::SyncPullRequest)
    } else if op == SYNC_PULL_RESPONSE_OP {
        Some(Packet::SyncPullResponse)
    } else if op == CROSS_USER_UPDATE_AVAILABLE_OP {
        Some(Packet::CrossUserUpdateAvailable)
    } else if op == CROSS_USER_PULL_REQUEST_OP {
        Some(Packet::CrossUserPullRequest)
    } else if op == CROSS_USER_PULL_RESPONSE_OP {
        Some(Packet::CrossUserPullResponse)
    } else if op == MERGE_PROPOSAL_OP {
        Some(Packet::MergeProposal)
    } else if op == MERGE_ACK_OP {
        Some(Packet::MergeAck)
    } else if op == WATERMARK_PROBE_REQUEST_OP {
        Some(Packet::WatermarkProbeRequest)
    } else if op == WATERMARK_PROBE_RESPONSE_OP {
        Some(Packet::WatermarkProbeResponse)
    } else if op == RELAY_PACKET_OP {
        Some(Packet::RelayPacket)
    } else if op == APP_PACKET_OP {
        Some(Packet::AppPacket)
    } else if op == TUNNEL_INIT_OP {
        Some(Packet::TunnelInit)
    } else if op == TUNNEL_FORWARD_OP {
        Some(Packet::TunnelForward)
    } else if op == TUNNEL_CONNECT_REQUEST_OP {
        Some(Packet::TunnelConnectRequest)
    } else if op == TUNNEL_CONNECT_ACK_OP {
        Some(Packet::TunnelConnectAck)
    } else if op == TUNNEL_DELIVERY_OP {
        Some(Packet::TunnelDelivery)
    } else {
        None
    }
}

/// What a packet is. Empty packets, unknown ones and pings without a nonce are
/// nothing.
pub open spec fn packet_of(d: Seq<u8>) -> Option<Packet> {
    if d.len() == 0 {
        None
    } else if d[0] == SG_PING_OP {
        if d.len() < 17 {
            None
        } else {
            Some(Packet::SgPing { nonce: wire::uuid_of(d.subrange(1, 17)) })
        }
    } else {
        kind_of(d[0])
    }
}

/// What a packet is.
pub fn read_packet(data: &[u8]) -> (r: Option<Packet>)
    ensures
        r == packet_of(data@),
{
    if data.len() == 0 {
        return None;
    }
    if data[0] == SG_PING_OP {
        return match slice_uuid(data, 1) {
            Some(nonce) => Some(Packet::SgPing { nonce }),
            None => None,
        };
    }
    find_kind(data[0])
}

/// The first byte of a packet says what it is, whatever follows.
pub proof fn law_first_byte_says(d: Seq<u8>)
    requires
        d.len() > 0,
    ensures
        ({
            let kind = packet_of(d);
            &&& d[0] == 0x00 ==> kind == Some(Packet::AppRegister)
            &&& d[0] == 0x01 ==> kind == Some(Packet::AppUpdate)
            &&& d[0] == 0x02 ==> kind == Some(Packet::AppGetData)
            &&& d[0] == 0x03 ==> kind == Some(Packet::AppSendPacket)
            &&& d[0] == 0x12 ==> kind == Some(Packet::DgKeepalive)
            &&& d[0] == 0x13 ==> kind == Some(Packet::ConnReset)
            &&& d[0] == 0x20 ==> kind == Some(Packet::ConnectRequest)
            &&& d[0] == 0x21 ==> kind == Some(Packet::ConnectAck)
            &&& d[0] == 0x30 ==> kind == Some(Packet::BootstrapRequest)
            &&& d[0] == 0x31 ==> kind == Some(Packet::BootstrapResponse)
            &&& d[0] == 0x32 ==> kind == Some(Packet::DeviceRegistration)
            &&& d[0] == 0x33 ==> kind == Some(Packet::ContactRequest)
            &&& d[0] == 0x34 ==> kind == Some(Packet::ContactResponse)
            &&& d[0] == 0x35 ==> kind == Some(Packet::GenerateInvitationRequest)
            &&& d[0] == 0x36 ==> kind == Some(Packet::GenerateInvitationResponse)
            &&& d[0] == 0x40 ==> kind == Some(Packet::RelayPacket)
            &&& d[0] == 0x41 ==> kind == Some(Packet::AppPacket)
            &&& d[0] == 0x50 ==> kind == Some(Packet::TunnelInit)
            &&& d[0] == 0x51 ==> kind == Some(Packet::TunnelForward)
            &&& d[0] == 0x52 ==> kind == Some(Packet::TunnelConnectRequest)
            &&& d[0] == 0x53 ==> kind == Some(Packet::TunnelConnectAck)
            &&& d[0] == 0x54 ==> kind == Some(Packet::TunnelDelivery)
            &&& d[0] == 0x60 ==> kind == Some(Packet::ContactDataPush)
            &&& d[0] == 0x61 ==> kind == Some(Packet::ContactDataPullRequest)
            &&& d[0] == 0x70 ==> kind == Some(Packet::SyncWriteRequest)
            &&& d[0] == 0x71 ==> kind == Some(Packet::SyncWriteAck)
            &&& d[0] == 0x72 ==> kind == Some(Packet::SyncUpdateAvailable)
            &&& d[0] == 0x73 ==> kind == Some(Packet::SyncPullRequest)
            &&& d[0] == 0x74 ==> kind == Some(Packet::SyncPullResponse)
            &&& d[0] == 0x75 ==> kind == Some(Packet::CrossUserUpdateAvailable)
            &&& d[0] == 0x76 ==> kind == Some(Packet::CrossUserPullRequest)
            &&& d[0] == 0x77 ==> kind == Some(Packet::CrossUserPullResponse)
            &&& d[0] == 0x78 ==> kind == Some(Packet::MergeProposal)
            &&& d[0] == 0x79 ==> kind == Some(Packet::MergeAck)
            &&& d[0] == 0x7A ==> kind == Some(Packet::WatermarkProbeRequest)
            &&& d[0] == 0x7B ==> kind == Some(Packet::WatermarkProbeResponse)
        }),
{
}

/// A ping is one with the sixteen bytes behind its first as its nonce, and one
/// that is shorter is none.
pub proof fn law_ping_has_a_nonce(nonce: Uuid, rest: Seq<u8>)
    ensures
        packet_of(seq![0x10u8] + nonce@ + rest) == Some(Packet::SgPing { nonce }),
        forall|d: Seq<u8>|
            0 < d.len() < 17 && d[0] == 0x10 ==> #[trigger] packet_of(d) is None,
{
    let d = seq![0x10u8] + nonce@ + rest;
    assert(d.subrange(1, 17) =~= nonce@);
    wire::lemma_uuid_of(nonce);
}

/// Packets of the same kind begin with the same byte.
pub proof fn law_kinds_differ(a: u8, b: u8)
    requires
        kind_of(a) is Some,
        kind_of(a) == kind_of(b),
    ensures
        a == b,
{
}

} // verus!
