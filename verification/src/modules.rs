//! Applications that run inside the node. Each is a module that a user turns on
//! for all of their devices; modules reach one another by user, device and
//! module.
use crate::app_edge;
use crate::app_edge::route;
use crate::debug;
use crate::effects::{Effect, EffectView};
use crate::model;
use crate::types::{Node, NodeView, Uuid};
use crate::wire;
use crate::wire::{push_bytes, push_u16};
use vstd::prelude::*;

verus! {

/// What a module is known by. It stands in packets and in stored data, so it
/// never changes.
pub type ModuleId = u16;

/// Where a packet comes from.
#[derive(Debug, Clone, Copy, PartialEq, Eq)]
pub struct PacketSource {
    pub user: Uuid,
    pub device: Uuid,
    pub module: ModuleId,
}

/// Where a packet goes.
#[derive(Debug, Clone, Copy, PartialEq, Eq)]
pub struct PacketTarget {
    pub user: Uuid,
    pub device: Uuid,
    pub module: ModuleId,
}

/// Why a packet was not sent.
#[derive(Debug, Clone, Copy, PartialEq, Eq, Structural)]
pub enum SendError {
    /// There is no way to the target now: no session with it, and no server to
    /// carry the packet.
    NoPath,
}

/// A request to the pages of a module.
#[derive(Debug, PartialEq, Eq)]
pub struct HttpRequest {
    pub method: String,
    pub path: String,
    pub query: String,
    pub body: Vec<u8>,
}

/// What a module answers.
#[derive(Debug, PartialEq, Eq)]
pub struct HttpResponse {
    pub status: u16,
    pub content_type: &'static str,
    pub body: Vec<u8>,
}

/// What a module has stored.
#[derive(Debug, PartialEq, Eq)]
pub struct ModuleState {
    pub module: ModuleId,
    pub blob: Vec<u8>,
}

#[verifier::ext_equal]
pub struct ModuleStateView {
    pub module: ModuleId,
    pub blob: Seq<u8>,
}

impl View for ModuleState {
    type V = ModuleStateView;

    open spec fn view(&self) -> ModuleStateView {
        ModuleStateView { module: self.module, blob: self.blob@ }
    }
}

/// The modules that a user has turned on.
#[derive(Debug, PartialEq, Eq)]
pub struct EnabledModules {
    pub user: Uuid,
    pub modules: Vec<ModuleId>,
}

#[verifier::ext_equal]
pub struct EnabledModulesView {
    pub user: Uuid,
    pub modules: Seq<ModuleId>,
}

impl View for EnabledModules {
    type V = EnabledModulesView;

    open spec fn view(&self) -> EnabledModulesView {
        EnabledModulesView { user: self.user, modules: self.modules@ }
    }
}

/// What a module works with: the state of the node to read, its own stored data,
/// and what is to be done once it returns.
pub struct ModuleCtx<'a> {
    pub node: &'a Node,
    pub module: ModuleId,
    pub states: Vec<ModuleState>,
    pub enabled: Vec<EnabledModules>,
    /// How the address of each session's peer is written, in the order of the
    /// sessions.
    pub peers: Vec<String>,
    pub effects: Vec<Effect>,
    /// Seconds since the Unix epoch.
    pub now: u64,
}

#[verifier::ext_equal]
pub struct ModuleCtxView {
    pub node: NodeView,
    pub module: ModuleId,
    pub states: Seq<ModuleStateView>,
    pub enabled: Seq<EnabledModulesView>,
    pub peers: Seq<Seq<char>>,
    pub effects: Seq<EffectView>,
    pub now: u64,
}

impl<'a> View for ModuleCtx<'a> {
    type V = ModuleCtxView;

    open spec fn view(&self) -> ModuleCtxView {
        ModuleCtxView {
            node: self.node@,
            module: self.module,
            states: model::views(self.states@),
            enabled: model::views(self.enabled@),
            peers: model::views(self.peers@),
            effects: model::views(self.effects@),
            now: self.now,
        }
    }
}

/// The payload of a packet between modules: the module that it is for, and what
/// is sent to it.
pub open spec fn module_body(target: PacketTarget, payload: Seq<u8>) -> Seq<u8> {
    wire::enc_u16(target.module) + payload
}

/// The packet to a module, if there is a way.
pub open spec fn module_packet(c: ModuleCtxView, target: PacketTarget, payload: Seq<u8>) -> Option<
    EffectView,
> {
    app_edge::routed(c.node, target.device, module_body(target, payload), c.now)
}

pub open spec fn state_of(m: ModuleId) -> spec_fn(ModuleStateView) -> bool {
    |s: ModuleStateView| s.module == m
}

pub open spec fn state_of_other(m: ModuleId) -> spec_fn(ModuleStateView) -> bool {
    |s: ModuleStateView| s.module != m
}

/// What a module has stored, if anything.
pub open spec fn stored(states: Seq<ModuleStateView>, m: ModuleId) -> Option<Seq<u8>> {
    match model::first_where(states, state_of(m)) {
        Some(i) => Some(states[i].blob),
        None => None,
    }
}

/// The stored data once a module stores something.
pub open spec fn with_stored(states: Seq<ModuleStateView>, m: ModuleId, blob: Seq<u8>) -> Seq<
    ModuleStateView,
> {
    model::keep(states, state_of_other(m)).push(ModuleStateView { module: m, blob })
}

impl<'a> ModuleCtx<'a> {
    /// Sends a payload to a module of a device. Fails only where there is no way.
    pub fn send(&mut self, target: PacketTarget, payload: &[u8]) -> (r: Result<(), SendError>)
        ensures
            match module_packet(old(self)@, target, payload@) {
                Some(e) => r is Ok && final(self)@ == (ModuleCtxView {
                    effects: old(self)@.effects.push(e),
                    ..old(self)@
                }),
                None => r == Err::<(), SendError>(SendError::NoPath) && final(self)@
                    == old(self)@,
            },
    {
        broadcast use model::group_views;

        let mut body: Vec<u8> = Vec::new();
        push_u16(&mut body, target.module);
        push_bytes(&mut body, payload);
        assert(body@ =~= module_body(target, payload@));
        match route(self.node, &target.device, body, self.now) {
            Some(e) => {
                self.effects.push(e);
                Ok(())
            },
            None => Err(SendError::NoPath),
        }
    }

    /// Hands the state of the node to `f`.
    pub fn read<R, F: FnOnce(&Node) -> R>(&self, f: F) -> (r: R)
        requires
            f.requires((self.node,)),
        ensures
            f.ensures((self.node,), r),
    {
        f(self.node)
    }

    /// What this module has stored.
    pub fn load_state(&self) -> (r: Option<Vec<u8>>)
        ensures
            match stored(self@.states, self.module) {
                Some(b) => r matches Some(v) && v@ == b,
                None => r is None,
            },
    {
        broadcast use model::group_views;

        let m = self.module;
        let ghost s = model::views(self.states@);
        let mut i: usize = 0;
        while i < self.states.len()
            invariant
                i <= self.states@.len(),
                s == model::views(self.states@),
                m == self.module,
                forall|j: int| 0 <= j < i ==> !state_of(m)(#[trigger] s[j]),
            decreases self.states@.len() - i,
        {
            if self.states[i].module == m {
                proof {
                    assert(state_of(m)(s[i as int]));
                    model::lemma_first_at(s, state_of(m), i as int);
                }
                let mut v: Vec<u8> = Vec::new();
                push_bytes(&mut v, self.states[i].blob.as_slice());
                assert(v@ =~= s[i as int].blob);
                return Some(v);
            }
            i += 1;
        }
        proof {
            model::lemma_first_none(s, state_of(m));
        }
        None
    }

    /// Stores data for this module, in place of what it has stored.
    pub fn save_state(&mut self, blob: Vec<u8>)
        ensures
            final(self)@ == (ModuleCtxView {
                states: with_stored(old(self)@.states, old(self).module, blob@),
                effects: old(self)@.effects.push(EffectView::Save),
                ..old(self)@
            }),
    {
        broadcast use model::group_views;

        let m = self.module;
        let ghost s = model::views(self.states@);
        let mut rest: Vec<ModuleState> = Vec::new();
        let mut i: usize = 0;
        assert(s.take(0) =~= Seq::empty());
        assert(model::views(rest@) =~= model::keep(s.take(0), state_of_other(m)));
        while i < self.states.len()
            invariant
                i <= self.states@.len(),
                s == model::views(self.states@),
                *self == *old(self),
                model::views(rest@) == model::keep(s.take(i as int), state_of_other(m)),
            decreases self.states@.len() - i,
        {
            proof {
                model::lemma_keep_step(s, state_of_other(m), i as int);
            }
            if self.states[i].module != m {
                let mut blob: Vec<u8> = Vec::new();
                push_bytes(&mut blob, self.states[i].blob.as_slice());
                let x = ModuleState { module: self.states[i].module, blob };
                assert(x@ =~= s[i as int]);
                rest.push(x);
            }
            i += 1;
        }
        assert(s.take(s.len() as int) =~= s);
        rest.push(ModuleState { module: m, blob });
        self.states = rest;
        self.effects.push(Effect::Save);
    }
}

/// An application that runs inside the node.
pub trait Module {
    /// What the module is known by.
    fn id(&self) -> ModuleId;

    /// Its name in paths.
    fn slug(&self) -> &'static str;

    /// Its name for people.
    fn alias(&self) -> &'static str;

    /// A packet for the module has come.
    fn on_receive(&mut self, from: PacketSource, payload: &[u8], ctx: &mut ModuleCtx);

    /// A request to the module's pages has come. `None` where it has no such
    /// page.
    fn on_http(&mut self, _req: &HttpRequest, _ctx: &mut ModuleCtx) -> (r: Option<HttpResponse>)
        default_ensures
            r is None,
    {
        None
    }

    /// The user has turned the module on.
    fn on_enable(&mut self, _ctx: &mut ModuleCtx) {
    }

    /// The user has turned the module off.
    fn on_disable(&mut self, _ctx: &mut ModuleCtx) {
    }
}

/// Every module of this program.
pub fn all() -> (r: Vec<debug::Debug>)
    ensures
        r@.len() == 1,
        r@[0]@ == Seq::<debug::ReceivedView>::empty(),
{
    let mut v: Vec<debug::Debug> = Vec::new();
    v.push(debug::Debug::new());
    v
}

/// What a module stores is what it loads, and the others keep theirs.
pub proof fn law_stored_is_loaded(
    states: Seq<ModuleStateView>,
    m: ModuleId,
    blob: Seq<u8>,
    other: ModuleId,
)
    ensures
        stored(with_stored(states, m, blob), m) == Some(blob),
        other != m ==> stored(with_stored(states, m, blob), other) == stored(states, other),
{
    let rest = model::keep(states, state_of_other(m));
    let x = ModuleStateView { module: m, blob };
    let now = rest.push(x);
    model::lemma_keep_again(states, state_of_other(m));
    assert(model::is_first(now, state_of(m), rest.len() as int)) by {
        assert forall|j: int| 0 <= j < rest.len() implies !state_of(m)(#[trigger] now[j]) by {
            assert(now[j] == rest[j]);
            assert(state_of_other(m)(rest[j]));
        }
    }
    model::lemma_first_at(now, state_of(m), rest.len() as int);
    if other != m {
        lemma_others_kept(states, m, other);
        model::lemma_first_where(rest, state_of(other));
        match model::first_where(rest, state_of(other)) {
            Some(i) => {
                assert(model::is_first(now, state_of(other), i)) by {
                    assert forall|j: int| 0 <= j < i implies !state_of(other)(
                        #[trigger] now[j],
                    ) by {
                        assert(now[j] == rest[j]);
                    }
                }
                model::lemma_first_at(now, state_of(other), i);
            },
            None => {
                assert forall|j: int| 0 <= j < now.len() implies !state_of(other)(
                    #[trigger] now[j],
                ) by {
                    if j < rest.len() {
                        assert(now[j] == rest[j]);
                    }
                }
                model::lemma_first_none(now, state_of(other));
            },
        }
    }
}

/// Dropping one module's data leaves what the others stored.
proof fn lemma_others_kept(states: Seq<ModuleStateView>, m: ModuleId, other: ModuleId)
    requires
        other != m,
    ensures
        stored(model::keep(states, state_of_other(m)), other) == stored(states, other),
    decreases states.len(),
{
    if states.len() > 0 {
        let t = states.drop_last();
        let x = states.last();
        lemma_others_kept(t, m, other);
        let kt = model::keep(t, state_of_other(m));
        lemma_stored_push(t, x, other);
        assert(t.push(x) =~= states);
        if x.module != m {
            lemma_stored_push(kt, x, other);
        }
    }
}

/// What is found once one more module has stored something.
proof fn lemma_stored_push(s: Seq<ModuleStateView>, x: ModuleStateView, m: ModuleId)
    ensures
        stored(s.push(x), m) == match stored(s, m) {
            Some(b) => Some(b),
            None => if x.module == m {
                Some(x.blob)
            } else {
                None
            },
        },
{
    let t = s.push(x);
    model::lemma_first_where(s, state_of(m));
    match model::first_where(s, state_of(m)) {
        Some(i) => {
            assert(model::is_first(t, state_of(m), i)) by {
                assert forall|j: int| 0 <= j < i implies !state_of(m)(#[trigger] t[j]) by {
                    assert(t[j] == s[j]);
                }
            }
            model::lemma_first_at(t, state_of(m), i);
        },
        None => {
            assert forall|j: int| 0 <= j < s.len() implies !state_of(m)(#[trigger] t[j]) by {
                assert(t[j] == s[j]);
            }
            if x.module == m {
                assert(model::is_first(t, state_of(m), s.len() as int));
                model::lemma_first_at(t, state_of(m), s.len() as int);
            } else {
                model::lemma_first_none(t, state_of(m));
            }
        },
    }
}

} // verus!
