//! The data a node holds, and the mathematical value that each part stands for.
use crate::keys;
use crate::model;
use vstd::prelude::*;

verus! {

/// A 128-bit identifier, compared and ordered bytewise.
pub type Uuid = [u8; 16];

/// The identifier that names nothing: all bytes zero.
pub open spec fn spec_nil() -> Uuid {
    [0u8, 0u8, 0u8, 0u8, 0u8, 0u8, 0u8, 0u8, 0u8, 0u8, 0u8, 0u8, 0u8, 0u8, 0u8, 0u8]
}

/// The identifier that names nothing: all bytes zero.
pub fn nil() -> (r: Uuid)
    ensures
        r == spec_nil(),
{
    [0u8, 0u8, 0u8, 0u8, 0u8, 0u8, 0u8, 0u8, 0u8, 0u8, 0u8, 0u8, 0u8, 0u8, 0u8, 0u8]
}

/// A public key, as bytes.
pub type PublicKey = [u8; 32];

/// A private key or a symmetric key, as bytes.
pub type SecretKey = [u8; 32];

/// What role a device plays: a server that others reach, or a plain device.
#[derive(Clone, Copy, PartialEq, Eq, Debug, Structural)]
pub enum DeviceGrade {
    SG,
    DG,
}

/// Which of the two replicated states a version counts.
#[derive(Clone, Copy, PartialEq, Eq, Debug, Structural)]
pub enum Scope {
    Private,
    Public,
}

/// An IPv4 address, most significant octet first.
#[derive(Clone, Copy, PartialEq, Eq, Debug, Structural)]
pub struct Ipv4 {
    pub a: u8,
    pub b: u8,
    pub c: u8,
    pub d: u8,
}

/// An IPv4 endpoint.
#[derive(Clone, Copy, PartialEq, Eq, Debug, Structural)]
pub struct HostAddr {
    pub ip: Ipv4,
    pub port: u16,
}

/// Where a datagram comes from or goes to. The eight groups of a version 6
/// address stand most significant first.
#[derive(Clone, Copy, PartialEq, Eq, Debug, Structural)]
pub enum PeerAddr {
    V4(HostAddr),
    V6 {
        high: u64,
        low: u64,
        port: u16,
        flow: u32,
        zone: u32,
    },
}

/// The endpoint of an application whose private fields live elsewhere.
pub open spec fn spec_no_host() -> HostAddr {
    HostAddr { ip: Ipv4 { a: 0, b: 0, c: 0, d: 0 }, port: 0 }
}

/// The endpoint of an application whose private fields live elsewhere.
pub fn no_host() -> (r: HostAddr)
    ensures
        r == spec_no_host(),
{
    HostAddr { ip: Ipv4 { a: 0, b: 0, c: 0, d: 0 }, port: 0 }
}

/// A position in a writer's history. Versions of different writers are ordered
/// only by who the writer is, never by their counters.
#[derive(Clone, Copy, PartialEq, Eq, Debug)]
pub struct SyncVersion {
    pub writer_sg_uuid: Uuid,
    pub epoch: u32,
    pub seq: u64,
}

/// An application registered on a device.
#[derive(Debug, PartialEq, Eq)]
pub struct Application {
    pub id: Uuid,
    pub alias: String,
    pub protocol: String,
    pub host: HostAddr,
    pub user_approved: bool,
    pub token: Uuid,
}

#[verifier::ext_equal]
pub struct ApplicationView {
    pub id: Uuid,
    pub alias: Seq<char>,
    pub protocol: Seq<char>,
    pub host: HostAddr,
    pub user_approved: bool,
    pub token: Uuid,
}

impl View for Application {
    type V = ApplicationView;

    open spec fn view(&self) -> ApplicationView {
        ApplicationView {
            id: self.id,
            alias: self.alias@,
            protocol: self.protocol@,
            host: self.host,
            user_approved: self.user_approved,
            token: self.token,
        }
    }
}

impl Clone for Application {
    fn clone(&self) -> (r: Self)
        ensures
            r@ == self@,
    {
        Application {
            id: self.id,
            alias: self.alias.clone(),
            protocol: self.protocol.clone(),
            host: self.host,
            user_approved: self.user_approved,
            token: self.token,
        }
    }
}

/// One of a user's devices.
#[derive(Debug, PartialEq, Eq)]
pub struct Device {
    pub uuid: Uuid,
    pub alias: String,
    pub grade: DeviceGrade,
    pub sg_rank: Option<u32>,
    pub hosts: Vec<String>,
    pub applications: Vec<Application>,
}

#[verifier::ext_equal]
pub struct DeviceView {
    pub uuid: Uuid,
    pub alias: Seq<char>,
    pub grade: DeviceGrade,
    pub sg_rank: Option<u32>,
    pub hosts: Seq<Seq<char>>,
    pub applications: Seq<ApplicationView>,
}

impl View for Device {
    type V = DeviceView;

    open spec fn view(&self) -> DeviceView {
        DeviceView {
            uuid: self.uuid,
            alias: self.alias@,
            grade: self.grade,
            sg_rank: self.sg_rank,
            hosts: model::views(self.hosts@),
            applications: model::views(self.applications@),
        }
    }
}

/// A copy of a list of strings.
pub fn clone_strings(v: &Vec<String>) -> (r: Vec<String>)
    ensures
        r@ == v@,
{
    let mut out: Vec<String> = Vec::new();
    let mut i: usize = 0;
    while i < v.len()
        invariant
            i <= v@.len(),
            out@ == v@.take(i as int),
        decreases v@.len() - i,
    {
        out.push(v[i].clone());
        i += 1;
        assert(out@ =~= v@.take(i as int));
    }
    assert(v@.take(v@.len() as int) =~= v@);
    out
}

/// A copy of a list of applications.
pub fn clone_applications(v: &Vec<Application>) -> (r: Vec<Application>)
    ensures
        model::views(r@) == model::views(v@),
{
    let r = v.clone();
    assert(model::views(r@) =~= model::views(v@));
    r
}

impl Clone for Device {
    fn clone(&self) -> (r: Self)
        ensures
            r@ == self@,
    {
        Device {
            uuid: self.uuid,
            alias: self.alias.clone(),
            grade: self.grade,
            sg_rank: self.sg_rank,
            hosts: clone_strings(&self.hosts),
            applications: clone_applications(&self.applications),
        }
    }
}

/// A person, with the devices they run.
#[derive(Debug, PartialEq, Eq)]
pub struct User {
    pub alias: String,
    pub uuid: Uuid,
    pub devices: Vec<Device>,
}

#[verifier::ext_equal]
pub struct UserView {
    pub alias: Seq<char>,
    pub uuid: Uuid,
    pub devices: Seq<DeviceView>,
}

impl View for User {
    type V = UserView;

    open spec fn view(&self) -> UserView {
        UserView { alias: self.alias@, uuid: self.uuid, devices: model::views(self.devices@) }
    }
}

/// Another user, known by their identity key.
#[derive(Debug, PartialEq, Eq)]
pub struct Contact {
    pub user: User,
    pub public_key: PublicKey,
    pub last_seen_public_version: SyncVersion,
}

#[verifier::ext_equal]
pub struct ContactView {
    pub user: UserView,
    pub public_key: PublicKey,
    pub last_seen_public_version: SyncVersion,
}

impl View for Contact {
    type V = ContactView;

    open spec fn view(&self) -> ContactView {
        ContactView {
            user: self.user@,
            public_key: self.public_key,
            last_seen_public_version: self.last_seen_public_version,
        }
    }
}

/// A key pair, as bytes.
#[derive(Clone, Copy, PartialEq, Eq, Debug)]
pub struct KeyPair {
    pub public_key: PublicKey,
    pub private_key: SecretKey,
}

/// An established session with a peer device. Times are seconds since the
/// Unix epoch.
#[derive(Clone, Copy, PartialEq, Eq, Debug)]
pub struct ActiveConnection {
    pub id: u16,
    pub timeout: u64,
    pub key_pair: KeyPair,
    pub peer_public_key: PublicKey,
    pub peer_active_connection_id: u16,
    pub device_uuid: Uuid,
    pub peer_addr: PeerAddr,
}

/// A session that this node asked for and that the peer has not confirmed.
#[derive(Clone, Copy, PartialEq, Eq, Debug)]
pub struct PendingConnection {
    pub our_conn_id: u16,
    pub our_key_pair: KeyPair,
    pub peer_device_uuid: Uuid,
    pub peer_longterm_pk: PublicKey,
    pub created_at: u64,
}

/// A path through this server between two of its sessions. Times of tunnels
/// are milliseconds of a monotonic clock.
#[derive(Clone, Copy, PartialEq, Eq, Debug)]
pub struct ActiveTunnel {
    pub id: u16,
    pub connection_a_id: u16,
    pub connection_b_id: u16,
    pub last_used_at: u64,
}

/// A tunnel that this server has proposed to its two ends.
#[derive(Clone, Copy, PartialEq, Eq, Debug)]
pub struct PendingTunnel {
    pub tunnel_id: u16,
    pub sender_device_uuid: Uuid,
    pub dest_device_uuid: Uuid,
    pub sender_ephem_pk: Option<PublicKey>,
}

/// The sender's side of a tunnel whose other end has not answered.
#[derive(Clone, Copy, PartialEq, Eq, Debug)]
pub struct PendingTunnelConnection {
    pub tunnel_id: u16,
    pub our_conn_id: u16,
    pub our_key_pair: KeyPair,
    pub dest_device_uuid: Uuid,
}

/// Which session carries the traffic of a tunnel on this device.
#[derive(Clone, Copy, PartialEq, Eq, Debug, Structural)]
pub struct TunnelLeg {
    pub tunnel_id: u16,
    pub conn_id: u16,
}

/// How many packets a server relayed from one device to another since
/// `window_start`.
#[derive(Clone, Copy, PartialEq, Eq, Debug)]
pub struct TunnelCounter {
    pub sender_uuid: Uuid,
    pub dest_uuid: Uuid,
    pub count: u32,
    pub window_start: u64,
}

/// A single-use code that this node has minted.
#[derive(Clone, Copy, PartialEq, Eq, Debug)]
pub struct Invitation {
    pub id: Uuid,
    pub key_pair: KeyPair,
    pub expires_at: u64,
}

/// A redeemed device invitation whose device has not registered yet.
#[derive(Clone, Copy, PartialEq, Eq, Debug)]
pub struct PendingDeviceAcceptance {
    pub invitation_id: Uuid,
    pub shared_secret: SecretKey,
    pub expires_at: u64,
}

/// A join that this device has started.
#[derive(Debug, PartialEq, Eq)]
pub struct PendingBootstrap {
    pub invitation_id: Uuid,
    pub our_ephem_key_pair: KeyPair,
    pub invitation_pk: PublicKey,
    pub sg_addr: HostAddr,
    pub device_alias: String,
    pub desired_grade: DeviceGrade,
    pub desired_sg_rank: Option<u32>,
}

#[verifier::ext_equal]
pub struct PendingBootstrapView {
    pub invitation_id: Uuid,
    pub our_ephem_key_pair: KeyPair,
    pub invitation_pk: PublicKey,
    pub sg_addr: HostAddr,
    pub device_alias: Seq<char>,
    pub desired_grade: DeviceGrade,
    pub desired_sg_rank: Option<u32>,
}

impl View for PendingBootstrap {
    type V = PendingBootstrapView;

    open spec fn view(&self) -> PendingBootstrapView {
        PendingBootstrapView {
            invitation_id: self.invitation_id,
            our_ephem_key_pair: self.our_ephem_key_pair,
            invitation_pk: self.invitation_pk,
            sg_addr: self.sg_addr,
            device_alias: self.device_alias@,
            desired_grade: self.desired_grade,
            desired_sg_rank: self.desired_sg_rank,
        }
    }
}

/// A contact exchange that this node has started.
#[derive(Clone, Copy, PartialEq, Eq, Debug)]
pub struct PendingContactExchange {
    pub our_ephem_key_pair: KeyPair,
    pub invitation_pk: PublicKey,
    pub sg_addr: HostAddr,
}

/// One accepted change, under the version it was committed at. `committed_at`
/// is in seconds since the Unix epoch.
#[derive(Debug, PartialEq, Eq)]
pub struct WriteLogEntry {
    pub version: SyncVersion,
    pub scope: Scope,
    pub change_payload: Vec<u8>,
    pub committed_at: u64,
}

#[verifier::ext_equal]
pub struct WriteLogEntryView {
    pub version: SyncVersion,
    pub scope: Scope,
    pub change_payload: Seq<u8>,
    pub committed_at: u64,
}

impl View for WriteLogEntry {
    type V = WriteLogEntryView;

    open spec fn view(&self) -> WriteLogEntryView {
        WriteLogEntryView {
            version: self.version,
            scope: self.scope,
            change_payload: self.change_payload@,
            committed_at: self.committed_at,
        }
    }
}

impl Clone for WriteLogEntry {
    fn clone(&self) -> (r: Self)
        ensures
            r@ == self@,
    {
        let p = self.change_payload.clone();
        assert(p@ =~= self.change_payload@);
        WriteLogEntry {
            version: self.version,
            scope: self.scope,
            change_payload: p,
            committed_at: self.committed_at,
        }
    }
}

/// How far a peer and this node agree, for each writer.
#[derive(Debug, PartialEq, Eq)]
pub struct PeerWatermarks {
    pub peer: Uuid,
    pub marks: Vec<SyncVersion>,
}

#[verifier::ext_equal]
pub struct PeerWatermarksView {
    pub peer: Uuid,
    pub marks: Seq<SyncVersion>,
}

impl View for PeerWatermarks {
    type V = PeerWatermarksView;

    open spec fn view(&self) -> PeerWatermarksView {
        PeerWatermarksView { peer: self.peer, marks: self.marks@ }
    }
}

/// The last proposal that a peer sent.
#[derive(Debug, PartialEq, Eq)]
pub struct ReceivedProposal {
    pub peer: Uuid,
    pub entries: Vec<WriteLogEntry>,
}

#[verifier::ext_equal]
pub struct ReceivedProposalView {
    pub peer: Uuid,
    pub entries: Seq<WriteLogEntryView>,
}

impl View for ReceivedProposal {
    type V = ReceivedProposalView;

    open spec fn view(&self) -> ReceivedProposalView {
        ReceivedProposalView { peer: self.peer, entries: model::views(self.entries@) }
    }
}

/// What the last ping of one host of a server found. `last_rtt` is in
/// nanoseconds.
#[derive(Clone, Copy, PartialEq, Eq, Debug, Structural)]
pub struct SgStatus {
    pub up: bool,
    pub last_rtt: Option<u64>,
    pub last_polled: u64,
}

/// The status of one advertised host of one server.
#[derive(Debug, PartialEq, Eq)]
pub struct SgHostStatus {
    pub device_uuid: Uuid,
    pub host: String,
    pub status: SgStatus,
}

#[verifier::ext_equal]
pub struct SgHostStatusView {
    pub device_uuid: Uuid,
    pub host: Seq<char>,
    pub status: SgStatus,
}

impl View for SgHostStatus {
    type V = SgHostStatusView;

    open spec fn view(&self) -> SgHostStatusView {
        SgHostStatusView { device_uuid: self.device_uuid, host: self.host@, status: self.status }
    }
}

/// Everything a node holds on behalf of its user.
#[derive(Debug, PartialEq, Eq)]
pub struct Owner {
    pub user: User,
    pub key_pair: KeyPair,
    pub contact_users: Vec<Contact>,
    pub active_connections: Vec<ActiveConnection>,
    pub pending_connections: Vec<PendingConnection>,
    pub active_tunnels: Vec<ActiveTunnel>,
    pub pending_tunnels: Vec<PendingTunnel>,
    pub pending_tunnel_connections: Vec<PendingTunnelConnection>,
    pub dg_tunnel_map: Vec<TunnelLeg>,
    pub tunnel_counters: Vec<TunnelCounter>,
    pub device_invitations: Vec<Invitation>,
    pub contact_invitations: Vec<Invitation>,
    pub pending_device_acceptances: Vec<PendingDeviceAcceptance>,
    pub pending_bootstrap: Option<PendingBootstrap>,
    pub pending_contact_exchange: Option<PendingContactExchange>,
    pub private_version: SyncVersion,
    pub public_version: SyncVersion,
    pub write_log: Vec<WriteLogEntry>,
    pub last_watermarks: Vec<PeerWatermarks>,
    pub received_merge_proposals: Vec<ReceivedProposal>,
}

#[verifier::ext_equal]
pub struct OwnerView {
    pub user: UserView,
    pub key_pair: KeyPair,
    pub contact_users: Seq<ContactView>,
    pub active_connections: Seq<ActiveConnection>,
    pub pending_connections: Seq<PendingConnection>,
    pub active_tunnels: Seq<ActiveTunnel>,
    pub pending_tunnels: Seq<PendingTunnel>,
    pub pending_tunnel_connections: Seq<PendingTunnelConnection>,
    pub dg_tunnel_map: Seq<TunnelLeg>,
    pub tunnel_counters: Seq<TunnelCounter>,
    pub device_invitations: Seq<Invitation>,
    pub contact_invitations: Seq<Invitation>,
    pub pending_device_acceptances: Seq<PendingDeviceAcceptance>,
    pub pending_bootstrap: Option<PendingBootstrapView>,
    pub pending_contact_exchange: Option<PendingContactExchange>,
    pub private_version: SyncVersion,
    pub public_version: SyncVersion,
    pub write_log: Seq<WriteLogEntryView>,
    pub last_watermarks: Seq<PeerWatermarksView>,
    pub received_merge_proposals: Seq<ReceivedProposalView>,
}

pub open spec fn bootstrap_view(p: Option<PendingBootstrap>) -> Option<PendingBootstrapView> {
    match p {
        Some(b) => Some(b@),
        None => None,
    }
}

impl View for Owner {
    type V = OwnerView;

    open spec fn view(&self) -> OwnerView {
        OwnerView {
            user: self.user@,
            key_pair: self.key_pair,
            contact_users: model::views(self.contact_users@),
            active_connections: self.active_connections@,
            pending_connections: self.pending_connections@,
            active_tunnels: self.active_tunnels@,
            pending_tunnels: self.pending_tunnels@,
            pending_tunnel_connections: self.pending_tunnel_connections@,
            dg_tunnel_map: self.dg_tunnel_map@,
            tunnel_counters: self.tunnel_counters@,
            device_invitations: self.device_invitations@,
            contact_invitations: self.contact_invitations@,
            pending_device_acceptances: self.pending_device_acceptances@,
            pending_bootstrap: bootstrap_view(self.pending_bootstrap),
            pending_contact_exchange: self.pending_contact_exchange,
            private_version: self.private_version,
            public_version: self.public_version,
            write_log: model::views(self.write_log@),
            last_watermarks: model::views(self.last_watermarks@),
            received_merge_proposals: model::views(self.received_merge_proposals@),
        }
    }
}

/// The whole state of a node.
#[derive(Debug, PartialEq, Eq)]
pub struct Node {
    pub device_uuid: Uuid,
    pub owner: Owner,
    pub sg_statuses: Vec<SgHostStatus>,
    pub admin_password_hash: Option<String>,
}

#[verifier::ext_equal]
pub struct NodeView {
    pub device_uuid: Uuid,
    pub owner: OwnerView,
    pub sg_statuses: Seq<SgHostStatusView>,
    pub admin_password_hash: Option<Seq<char>>,
}

pub open spec fn string_view(s: Option<String>) -> Option<Seq<char>> {
    match s {
        Some(t) => Some(t@),
        None => None,
    }
}

impl View for Node {
    type V = NodeView;

    open spec fn view(&self) -> NodeView {
        NodeView {
            device_uuid: self.device_uuid,
            owner: self.owner@,
            sg_statuses: model::views(self.sg_statuses@),
            admin_password_hash: string_view(self.admin_password_hash),
        }
    }
}

/// Whether two identifiers are the same.
pub fn uuid_eq(a: &Uuid, b: &Uuid) -> (r: bool)
    ensures
        r == (*a == *b),
{
    let mut i: usize = 0;
    while i < 16
        invariant
            i <= 16,
            forall|k: int| 0 <= k < i ==> a@[k] == b@[k],
        decreases 16 - i,
    {
        if a[i] != b[i] {
            return false;
        }
        i += 1;
    }
    assert(a@ =~= b@);
    assert(*a =~= *b);
    true
}

/// Whether two keys are the same.
pub fn key_eq(a: &[u8; 32], b: &[u8; 32]) -> (r: bool)
    ensures
        r == (*a == *b),
{
    let mut i: usize = 0;
    while i < 32
        invariant
            i <= 32,
            forall|k: int| 0 <= k < i ==> a@[k] == b@[k],
        decreases 32 - i,
    {
        if a[i] != b[i] {
            return false;
        }
        i += 1;
    }
    assert(a@ =~= b@);
    assert(*a =~= *b);
    true
}

impl SyncVersion {
    /// The version before anything was written.
    pub open spec fn spec_zero() -> SyncVersion {
        SyncVersion { writer_sg_uuid: spec_nil(), epoch: 0, seq: 0 }
    }

    /// The version before anything was written.
    pub fn zero() -> (r: SyncVersion)
        ensures
            r == Self::spec_zero(),
    {
        SyncVersion { writer_sg_uuid: nil(), epoch: 0, seq: 0 }
    }

    /// Whether two versions are the same.
    pub fn same(&self, other: &SyncVersion) -> (r: bool)
        ensures
            r == (*self == *other),
    {
        self.epoch == other.epoch && self.seq == other.seq && uuid_eq(
            &self.writer_sg_uuid,
            &other.writer_sg_uuid,
        )
    }

    /// Whether nothing was written yet.
    pub fn is_initial(&self) -> (r: bool)
        ensures
            r == (*self == Self::spec_zero()),
    {
        self.same(&Self::zero())
    }

    /// Whether there is room to advance the version `n` times more.
    pub open spec fn room(self, n: int) -> bool {
        &&& self.epoch + n <= u32::MAX
        &&& self.seq + n <= u64::MAX
    }

    /// The next version when `writer` commits: one further in its own history,
    /// or the first of a new epoch when the writer changes.
    pub open spec fn bumped(self, writer: Uuid) -> SyncVersion {
        if self.writer_sg_uuid == writer {
            SyncVersion { writer_sg_uuid: writer, epoch: self.epoch, seq: (self.seq + 1) as u64 }
        } else {
            SyncVersion { writer_sg_uuid: writer, epoch: (self.epoch + 1) as u32, seq: 1 }
        }
    }

    /// See [`SyncVersion::bumped`].
    pub fn bump(&self, writer: &Uuid) -> (r: SyncVersion)
        requires
            self.room(1),
        ensures
            r == self.bumped(*writer),
    {
        if uuid_eq(&self.writer_sg_uuid, writer) {
            SyncVersion { writer_sg_uuid: *writer, epoch: self.epoch, seq: self.seq + 1 }
        } else {
            SyncVersion { writer_sg_uuid: *writer, epoch: self.epoch + 1, seq: 1 }
        }
    }
}

impl Default for SyncVersion {
    fn default() -> (r: SyncVersion)
        ensures
            r == Self::spec_zero(),
    {
        Self::zero()
    }
}

impl OwnerView {
    pub open spec fn version(self, scope: Scope) -> SyncVersion {
        match scope {
            Scope::Private => self.private_version,
            Scope::Public => self.public_version,
        }
    }

    pub open spec fn with_bump(self, scope: Scope, writer: Uuid) -> OwnerView {
        match scope {
            Scope::Private => OwnerView {
                private_version: self.private_version.bumped(writer),
                ..self
            },
            Scope::Public => OwnerView {
                public_version: self.public_version.bumped(writer),
                ..self
            },
        }
    }
}

impl Owner {
    /// The current version of a scope.
    pub fn version(&self, scope: Scope) -> (r: SyncVersion)
        ensures
            r == self@.version(scope),
    {
        match scope {
            Scope::Private => self.private_version,
            Scope::Public => self.public_version,
        }
    }

    /// Advances the version of a scope on behalf of `writer`.
    pub fn bump_version(&mut self, scope: Scope, writer: Uuid)
        requires
            old(self)@.version(scope).room(1),
        ensures
            final(self)@ == old(self)@.with_bump(scope, writer),
    {
        match scope {
            Scope::Private => {
                self.private_version = self.private_version.bump(&writer);
            },
            Scope::Public => {
                self.public_version = self.public_version.bump(&writer);
            },
        }
    }
}

impl KeyPair {
    pub open spec fn is_blank(self) -> bool {
        &&& forall|i: int| 0 <= i < 32 ==> #[trigger] self.public_key@[i] == 0
        &&& forall|i: int| 0 <= i < 32 ==> #[trigger] self.private_key@[i] == 0
    }

    /// No key: all bytes zero.
    pub fn blank() -> (r: KeyPair)
        ensures
            r.is_blank(),
    {
        KeyPair { public_key: [0u8; 32], private_key: [0u8; 32] }
    }
}

impl OwnerView {
    /// A user with a key pair, and nothing else.
    pub open spec fn fresh(user: UserView, key_pair: KeyPair) -> OwnerView {
        OwnerView {
            user,
            key_pair,
            contact_users: Seq::empty(),
            active_connections: Seq::empty(),
            pending_connections: Seq::empty(),
            active_tunnels: Seq::empty(),
            pending_tunnels: Seq::empty(),
            pending_tunnel_connections: Seq::empty(),
            dg_tunnel_map: Seq::empty(),
            tunnel_counters: Seq::empty(),
            device_invitations: Seq::empty(),
            contact_invitations: Seq::empty(),
            pending_device_acceptances: Seq::empty(),
            pending_bootstrap: None,
            pending_contact_exchange: None,
            private_version: SyncVersion::spec_zero(),
            public_version: SyncVersion::spec_zero(),
            write_log: Seq::empty(),
            last_watermarks: Seq::empty(),
            received_merge_proposals: Seq::empty(),
        }
    }
}

impl Owner {
    /// A user with no devices but `device`, and nothing else.
    pub fn new(alias: String, uuid: Uuid, device: Device) -> (r: Owner)
        ensures
            r.key_pair.is_blank(),
            r@ == OwnerView::fresh(
                UserView { alias: alias@, uuid, devices: seq![device@] },
                r.key_pair,
            ),
    {
        broadcast use model::group_views;

        let mut devices: Vec<Device> = Vec::new();
        devices.push(device);
        let owner = Owner {
            user: User { alias, uuid, devices },
            key_pair: KeyPair::blank(),
            contact_users: Vec::new(),
            active_connections: Vec::new(),
            pending_connections: Vec::new(),
            active_tunnels: Vec::new(),
            pending_tunnels: Vec::new(),
            pending_tunnel_connections: Vec::new(),
            dg_tunnel_map: Vec::new(),
            tunnel_counters: Vec::new(),
            device_invitations: Vec::new(),
            contact_invitations: Vec::new(),
            pending_device_acceptances: Vec::new(),
            pending_bootstrap: None,
            pending_contact_exchange: None,
            private_version: SyncVersion::zero(),
            public_version: SyncVersion::zero(),
            write_log: Vec::new(),
            last_watermarks: Vec::new(),
            received_merge_proposals: Vec::new(),
        };
        assert(owner@.user.devices =~= seq![device@]);
        assert(owner@.contact_users =~= Seq::empty());
        assert(owner@.write_log =~= Seq::empty());
        assert(owner@.last_watermarks =~= Seq::empty());
        assert(owner@.received_merge_proposals =~= Seq::empty());
        owner
    }
}

impl Node {
    /// A node that is not set up: a plain device of a user without a key. The
    /// identifiers are fresh.
    pub fn new(device_uuid: Uuid, user_uuid: Uuid) -> (r: Node)
        ensures
            keys::keyed(r@),
            r.owner.key_pair.is_blank(),
            r@ == (NodeView {
                device_uuid,
                owner: OwnerView::fresh(
                    UserView {
                        alias: "Owner"@,
                        uuid: user_uuid,
                        devices: seq![
                            DeviceView {
                                uuid: device_uuid,
                                alias: "Device"@,
                                grade: DeviceGrade::DG,
                                sg_rank: None,
                                hosts: Seq::empty(),
                                applications: Seq::empty(),
                            },
                        ],
                    },
                    r.owner.key_pair,
                ),
                sg_statuses: Seq::empty(),
                admin_password_hash: None,
            }),
    {
        broadcast use model::group_views;

        let device = Device {
            uuid: device_uuid,
            alias: "Device".to_owned(),
            grade: DeviceGrade::DG,
            sg_rank: None,
            hosts: Vec::new(),
            applications: Vec::new(),
        };
        assert(device@.hosts =~= Seq::empty());
        assert(device@.applications =~= Seq::empty());
        let node = Node {
            device_uuid,
            owner: Owner::new("Owner".to_owned(), user_uuid, device),
            sg_statuses: Vec::new(),
            admin_password_hash: None,
        };
        assert(node@.sg_statuses =~= Seq::empty());
        node
    }
}

} // verus!
