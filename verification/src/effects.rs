//! What the rules ask the program around them to do.
use crate::model;
use crate::types::{ActiveConnection, PeerAddr, SecretKey, Uuid};
use vstd::prelude::*;

verus! {

/// Work for later.
#[derive(Clone, Copy, PartialEq, Eq, Debug)]
pub enum Task {
    MaintainConnections,
    SetupTunnel { sender_uuid: Uuid, dest_uuid: Uuid },
}

/// Something to do, in the order in which it stands in a list.
#[derive(Debug, PartialEq, Eq)]
pub enum Effect {
    /// Write the node's state to disk.
    Save,
    /// Send a datagram as it is.
    Send { dest: PeerAddr, bytes: Vec<u8> },
    /// Encrypt a body for a session, put the op byte and the session's header
    /// before it, and send it to the session's peer.
    Seal { conn: ActiveConnection, op: u8, body: Vec<u8> },
    /// Encrypt a body for the tunnel session `conn`, frame it for the tunnel
    /// with [`crate::tunnels::tunnel_forward_packet`] and send it to the peer of
    /// `via`.
    SealTunnel { conn: ActiveConnection, via: ActiveConnection, tunnel_id: u16, body: Vec<u8> },
    /// Encrypt a body with `key`, put `head` and the nonce before it, and send it.
    SealWith { key: SecretKey, dest: PeerAddr, head: Vec<u8>, body: Vec<u8> },
    /// Put the Ed25519 signature with `key` of `bytes` behind them and send both.
    SendSigned { key: SecretKey, dest: PeerAddr, bytes: Vec<u8> },
    /// Do something after so many milliseconds.
    Schedule { task: Task, delay_ms: u64 },
}

#[verifier::ext_equal]
pub enum EffectView {
    Save,
    Send { dest: PeerAddr, bytes: Seq<u8> },
    Seal { conn: ActiveConnection, op: u8, body: Seq<u8> },
    SealTunnel { conn: ActiveConnection, via: ActiveConnection, tunnel_id: u16, body: Seq<u8> },
    SealWith { key: SecretKey, dest: PeerAddr, head: Seq<u8>, body: Seq<u8> },
    SendSigned { key: SecretKey, dest: PeerAddr, bytes: Seq<u8> },
    Schedule { task: Task, delay_ms: u64 },
}

impl View for Effect {
    type V = EffectView;

    open spec fn view(&self) -> EffectView {
        match *self {
            Effect::Save => EffectView::Save,
            Effect::Send { dest, bytes } => EffectView::Send { dest, bytes: bytes@ },
            Effect::Seal { conn, op, body } => EffectView::Seal { conn, op, body: body@ },
            Effect::SealTunnel { conn, via, tunnel_id, body } => EffectView::SealTunnel {
                conn,
                via,
                tunnel_id,
                body: body@,
            },
            Effect::SealWith { key, dest, head, body } => EffectView::SealWith {
                key,
                dest,
                head: head@,
                body: body@,
            },
            Effect::SendSigned { key, dest, bytes } => EffectView::SendSigned {
                key,
                dest,
                bytes: bytes@,
            },
            Effect::Schedule { task, delay_ms } => EffectView::Schedule { task, delay_ms },
        }
    }
}

/// Appends one list of effects to another.
pub fn push_all(out: &mut Vec<Effect>, more: Vec<Effect>)
    ensures
        model::views(final(out)@) == model::views(old(out)@) + model::views(more@),
{
    let mut m = more;
    out.append(&mut m);
    assert(model::views(out@) =~= model::views(old(out)@) + model::views(more@));
}

} // verus!
