//! Setting a node up: its first user, joining a user, and the password of the
//! admin pages.
use crate::app_edge;
use crate::effects::{push_all, Effect, EffectView};
use crate::find::find_device;
use crate::forms;
use crate::forms::{decoded_field, form_field};
use crate::hosts;
use crate::hosts::parse_pnet_hosts;
use crate::invite;
use crate::keys;
use crate::mint;
use crate::mint::{start_bootstrap, start_contact_exchange};
use crate::model;
use crate::numbers;
use crate::numbers::read_number;
use crate::routing::{ResolvedHost, ResolvedHostView};
use crate::text;
use crate::text::{owned, text_eq, trim};
use crate::types::{
    DeviceGrade, DeviceView, KeyPair, Node, NodeView, OwnerView, PublicKey, SecretKey, UserView,
};
use vstd::prelude::*;
use vstd::string::*;

verus! {

/// A password of the admin pages has at least so many characters.
pub const MIN_PASSWORD_LEN: usize = 8;

/// The key of a node that no user was set up on.
pub open spec fn is_blank_key(k: PublicKey) -> bool {
    forall|i: int| 0 <= i < 32 ==> #[trigger] k@[i] == 0
}

/// A node is set up once its user has a key.
pub open spec fn initialized(n: NodeView) -> bool {
    !is_blank_key(n.owner.key_pair.public_key)
}

/// Whether a node is set up.
pub fn is_initialized(node: &Node) -> (r: bool)
    ensures
        r == initialized(node@),
{
    let k = &node.owner.key_pair.public_key;
    let mut i: usize = 0;
    while i < 32
        invariant
            i <= 32,
            k == node.owner.key_pair.public_key,
            forall|j: int| 0 <= j < i ==> #[trigger] k@[j] == 0,
        decreases 32 - i,
    {
        if k[i] != 0 {
            assert(k@[i as int] != 0);
            return true;
        }
        i += 1;
    }
    false
}

/// What is wrong with a new password, if anything.
pub open spec fn password_fault(password: Seq<char>, confirm: Seq<char>) -> Option<Seq<char>> {
    if password.len() < MIN_PASSWORD_LEN {
        Some("password_short"@)
    } else if password != confirm {
        Some("password_mismatch"@)
    } else {
        None
    }
}

/// The error in a result, if there is one.
pub open spec fn fault_of<T>(r: Result<T, &'static str>) -> Option<Seq<char>> {
    match r {
        Ok(_) => None,
        Err(e) => Some(e@),
    }
}

/// Whether a new password will do: it is long enough and was typed twice the
/// same.
pub fn validate_new_password(password: &str, confirm: &str) -> (r: Result<(), &'static str>)
    ensures
        fault_of(r) == password_fault(password@, confirm@),
{
    if password.unicode_len() < MIN_PASSWORD_LEN {
        Err("password_short")
    } else if !text_eq(password, confirm) {
        Err("password_mismatch")
    } else {
        Ok(())
    }
}

/// What is wrong with the new password in a form, if anything.
pub open spec fn form_password_fault(body: Seq<u8>) -> Option<Seq<char>> {
    password_fault(
        forms::field_or_blank(body, "password"@),
        forms::field_or_blank(body, "password_confirm"@),
    )
}

/// The new password in a form.
pub fn new_password(body: &[u8]) -> (r: Result<String, &'static str>)
    ensures
        fault_of(r) == form_password_fault(body@),
        r matches Ok(p) ==> p@ == forms::field_or_blank(body@, "password"@),
{
    let password = decoded_field(body, "password");
    let confirm = decoded_field(body, "password_confirm");
    match validate_new_password(password.as_str(), confirm.as_str()) {
        Ok(_) => Ok(password),
        Err(e) => Err(e),
    }
}

/// The grade that a form asks for; `other` where it names none.
pub open spec fn grade_in(body: Seq<u8>, other: Seq<char>) -> DeviceGrade {
    let said = match forms::field_in(body, "grade"@) {
        Some(s) => s,
        None => other,
    };
    if said == "sg"@ {
        DeviceGrade::SG
    } else {
        DeviceGrade::DG
    }
}

fn read_grade(body: &[u8], other: &str) -> (r: DeviceGrade)
    ensures
        r == grade_in(body@, other@),
{
    let sg = match form_field(body, "grade") {
        Some(s) => text_eq(s.as_str(), "sg"),
        None => text_eq(other, "sg"),
    };
    if sg {
        DeviceGrade::SG
    } else {
        DeviceGrade::DG
    }
}

/// The rank that a form asks for: 1 where it names none, or 0. Only a server has
/// one.
pub open spec fn rank_in(body: Seq<u8>, grade: DeviceGrade) -> Option<u32> {
    if grade == DeviceGrade::SG {
        let said = match forms::field_in(body, "sg_rank"@) {
            Some(s) => numbers::number_to(s, u32::MAX as nat),
            None => None,
        };
        match said {
            Some(n) => if n == 0 {
                Some(1)
            } else {
                Some(n as u32)
            },
            None => Some(1),
        }
    } else {
        None
    }
}

fn read_rank(body: &[u8], grade: DeviceGrade) -> (r: Option<u32>)
    ensures
        r == rank_in(body@, grade),
{
    if grade == DeviceGrade::SG {
        let said: Option<u64> = match form_field(body, "sg_rank") {
            Some(s) => read_number(s.as_str(), u32::MAX as u64),
            None => None,
        };
        match said {
            Some(n) => if n == 0 {
                Some(1)
            } else {
                Some(n as u32)
            },
            None => Some(1),
        }
    } else {
        None
    }
}

/// What a step of the setup comes to: the error if there is one, the state and
/// the effects.
pub struct SetupView {
    pub fault: Option<Seq<char>>,
    pub node: NodeView,
    pub effects: Seq<EffectView>,
}

/// This device once it was set up for a new user. A server takes its hosts from
/// the settings, if they name any.
pub open spec fn device_set_up(
    d: DeviceView,
    alias: Seq<char>,
    grade: DeviceGrade,
    rank: Option<u32>,
    hosts: Seq<Seq<char>>,
) -> DeviceView {
    DeviceView {
        alias,
        grade,
        sg_rank: rank,
        hosts: if grade == DeviceGrade::SG && hosts.len() > 0 {
            hosts
        } else {
            d.hosts
        },
        ..d
    }
}

/// The state once a new user was set up.
pub open spec fn user_set_up(
    n: NodeView,
    alias: Seq<char>,
    device_alias: Seq<char>,
    grade: DeviceGrade,
    rank: Option<u32>,
    keys: KeyPair,
    hosts: Seq<Seq<char>>,
) -> NodeView {
    let devices = n.owner.user.devices;
    NodeView {
        owner: OwnerView {
            user: UserView {
                alias,
                devices: match app_edge::own_index(n) {
                    Some(i) => devices.update(
                        i,
                        device_set_up(devices[i], device_alias, grade, rank, hosts),
                    ),
                    None => devices,
                },
                ..n.owner.user
            },
            key_pair: keys,
            ..n.owner
        },
        ..n
    }
}

/// What setting up a new user comes to. Both names are needed.
pub open spec fn new_user(
    n: NodeView,
    alias: Seq<char>,
    device_alias: Seq<char>,
    grade: DeviceGrade,
    rank: Option<u32>,
    keys: KeyPair,
    hosts: Seq<Seq<char>>,
) -> SetupView {
    if alias.len() == 0 || device_alias.len() == 0 {
        SetupView { fault: Some("fields"@), node: n, effects: Seq::empty() }
    } else {
        SetupView {
            fault: None,
            node: user_set_up(n, alias, device_alias, grade, rank, keys, hosts),
            effects: seq![EffectView::Save],
        }
    }
}

/// Sets up a new user on this device. `keys` are fresh, and `pnet_hosts` is what
/// the environment says about hosts.
pub fn apply_new_user_setup(
    node: &mut Node,
    alias: &str,
    device_alias: &str,
    grade: DeviceGrade,
    sg_rank: Option<u32>,
    keys: KeyPair,
    pnet_hosts: &str,
) -> (r: (Option<&'static str>, Vec<Effect>))
    ensures
        ({
            let v = new_user(
                old(node)@,
                alias@,
                device_alias@,
                grade,
                sg_rank,
                keys,
                hosts::hosts_in(pnet_hosts@),
            );
            &&& hosts::text_of(r.0) == v.fault
            &&& final(node)@ == v.node
            &&& model::views(r.1@) == v.effects
        }),
        keys::keyed(old(node)@) ==> keys::keyed(final(node)@),
{
    broadcast use model::group_views;

    let mut out: Vec<Effect> = Vec::new();
    assert(model::views(out@) =~= Seq::empty());
    if alias.unicode_len() == 0 || device_alias.unicode_len() == 0 {
        return (Some("fields"), out);
    }
    let ghost n = node@;
    let named = parse_pnet_hosts(pnet_hosts);
    let ghost nh = model::views(named@);
    let ghost all = user_set_up(n, alias@, device_alias@, grade, sg_rank, keys, nh);
    let device_uuid = node.device_uuid;
    let found = find_device(&node.owner.user.devices, &device_uuid);
    if let Some(d) = found {
        let ghost before = node.owner.user.devices@;
        node.owner.user.devices[d].alias = owned(device_alias);
        node.owner.user.devices[d].grade = grade;
        node.owner.user.devices[d].sg_rank = sg_rank;
        if grade == DeviceGrade::SG && named.len() > 0 {
            node.owner.user.devices[d].hosts = named;
        }
        proof {
            let now = node.owner.user.devices@;
            assert(now[d as int]@ =~= device_set_up(
                before[d as int]@,
                device_alias@,
                grade,
                sg_rank,
                nh,
            ));
            assert(model::views(now) =~= all.owner.user.devices);
        }
    }
    node.owner.user.alias = owned(alias);
    node.owner.key_pair = keys;
    assert(node@ =~= all);
    out.push(Effect::Save);
    assert(model::views(out@) =~= seq![EffectView::Save]);
    (None, out)
}

/// The state with a password.
pub open spec fn with_password(n: NodeView, hash: Seq<char>) -> NodeView {
    NodeView { admin_password_hash: Some(hash), ..n }
}

/// Stores the hash of the password of the admin pages.
pub fn store_password(node: &mut Node, hash: String) -> (r: Vec<Effect>)
    ensures
        final(node)@ == with_password(old(node)@, hash@),
        model::views(r@) == seq![EffectView::Save],
        keys::keyed(old(node)@) ==> keys::keyed(final(node)@),
{
    node.admin_password_hash = Some(hash);
    let mut out: Vec<Effect> = Vec::new();
    out.push(Effect::Save);
    assert(model::views(out@) =~= seq![EffectView::Save]);
    out
}

/// What the form for a new user comes to. The password is looked at first, and
/// stored once the user is set up.
pub open spec fn setup_done(
    n: NodeView,
    body: Seq<u8>,
    keys: KeyPair,
    hosts: Seq<Seq<char>>,
    hash: Seq<char>,
) -> SetupView {
    let grade = grade_in(body, "sg"@);
    match form_password_fault(body) {
        Some(e) => SetupView { fault: Some(e), node: n, effects: Seq::empty() },
        None => {
            let v = new_user(
                n,
                text::trimmed(forms::field_or_blank(body, "alias"@)),
                text::trimmed(forms::field_or_blank(body, "device_alias"@)),
                grade,
                rank_in(body, grade),
                keys,
                hosts,
            );
            if v.fault is Some {
                v
            } else {
                SetupView {
                    fault: None,
                    node: with_password(v.node, hash),
                    effects: v.effects.push(EffectView::Save),
                }
            }
        },
    }
}

/// Sets up a new user from a form. `keys` are fresh, `pnet_hosts` is what the
/// environment says about hosts, and `hash` is the hash of the form's password.
pub fn complete_setup(
    node: &mut Node,
    body: &[u8],
    keys: KeyPair,
    pnet_hosts: &str,
    hash: String,
) -> (r: (Result<(), &'static str>, Vec<Effect>))
    ensures
        ({
            let v = setup_done(old(node)@, body@, keys, hosts::hosts_in(pnet_hosts@), hash@);
            &&& fault_of(r.0) == v.fault
            &&& final(node)@ == v.node
            &&& model::views(r.1@) == v.effects
        }),
        keys::keyed(old(node)@) ==> keys::keyed(final(node)@),
{
    broadcast use model::group_views;

    proof {
        keys::lemma_setup_done(node@, body@, keys, hosts::hosts_in(pnet_hosts@), hash@);
    }
    let none: Vec<Effect> = Vec::new();
    assert(model::views(none@) =~= Seq::empty());
    if let Err(e) = new_password(body) {
        return (Err(e), none);
    }
    let alias = trim(decoded_field(body, "alias").as_str());
    let device_alias = trim(decoded_field(body, "device_alias").as_str());
    let grade = read_grade(body, "sg");
    let rank = read_rank(body, grade);
    let (fault, effects) = apply_new_user_setup(
        node,
        alias.as_str(),
        device_alias.as_str(),
        grade,
        rank,
        keys,
        pnet_hosts,
    );
    let mut out = effects;
    if let Some(e) = fault {
        return (Err(e), out);
    }
    let ghost before = model::views(out@);
    push_all(&mut out, store_password(node, hash));
    assert(model::views(out@) =~= before.push(EffectView::Save));
    (Ok(()), out)
}

/// What a form to join a user comes to. Nothing happens where it has no code, or
/// the code is none or leads nowhere.
pub open spec fn join_asked(
    n: NodeView,
    body: Seq<u8>,
    cache: Seq<ResolvedHostView>,
    fresh: KeyPair,
) -> (NodeView, Seq<EffectView>) {
    let grade = grade_in(body, "dg"@);
    match forms::field_in(body, "code"@) {
        None => (n, Seq::empty()),
        Some(code) => match invite::code_says(code) {
            None => (n, Seq::empty()),
            Some(c) => match mint::code_addr(c, cache) {
                None => (n, Seq::empty()),
                Some(addr) => mint::join_started(
                    n,
                    c,
                    addr,
                    text::trimmed(forms::field_or_blank(body, "device_alias"@)),
                    grade,
                    rank_in(body, grade),
                    fresh,
                ),
            },
        },
    }
}

/// Sets out to join a user from a form. `cache` holds the resolved hosts, `fresh`
/// is a new key pair.
pub fn initiate_bootstrap(
    node: &mut Node,
    body: &[u8],
    cache: &Vec<ResolvedHost>,
    fresh: KeyPair,
) -> (r: Vec<Effect>)
    ensures
        (final(node)@, model::views(r@)) == join_asked(
            old(node)@,
            body@,
            model::views(cache@),
            fresh,
        ),
        keys::keyed(old(node)@) ==> keys::keyed(final(node)@),
{
    proof {
        keys::lemma_join_asked(node@, body@, model::views(cache@), fresh, Seq::empty());
    }
    let none: Vec<Effect> = Vec::new();
    assert(model::views(none@) =~= Seq::empty());
    let code = match form_field(body, "code") {
        Some(c) => c,
        None => {
            return none;
        },
    };
    let device_alias = trim(decoded_field(body, "device_alias").as_str());
    let grade = read_grade(body, "dg");
    let rank = read_rank(body, grade);
    match start_bootstrap(node, device_alias.as_str(), code.as_str(), grade, rank, cache, fresh) {
        Ok(e) => e,
        Err(_) => none,
    }
}

/// What the form to join a user on a fresh device comes to. The password is
/// stored before the join starts.
pub open spec fn join_set_up(
    n: NodeView,
    body: Seq<u8>,
    cache: Seq<ResolvedHostView>,
    fresh: KeyPair,
    hash: Seq<char>,
) -> SetupView {
    match form_password_fault(body) {
        Some(e) => SetupView { fault: Some(e), node: n, effects: Seq::empty() },
        None => {
            let (m, e) = join_asked(with_password(n, hash), body, cache, fresh);
            SetupView { fault: None, node: m, effects: seq![EffectView::Save] + e }
        },
    }
}

/// Sets a password from a form and sets out to join a user. `hash` is the hash of
/// the form's password.
pub fn complete_join_setup(
    node: &mut Node,
    body: &[u8],
    cache: &Vec<ResolvedHost>,
    fresh: KeyPair,
    hash: String,
) -> (r: (Result<(), &'static str>, Vec<Effect>))
    ensures
        ({
            let v = join_set_up(old(node)@, body@, model::views(cache@), fresh, hash@);
            &&& fault_of(r.0) == v.fault
            &&& final(node)@ == v.node
            &&& model::views(r.1@) == v.effects
        }),
        keys::keyed(old(node)@) ==> keys::keyed(final(node)@),
{
    proof {
        keys::lemma_join_asked(node@, body@, model::views(cache@), fresh, hash@);
    }
    let none: Vec<Effect> = Vec::new();
    assert(model::views(none@) =~= Seq::empty());
    if let Err(e) = new_password(body) {
        return (Err(e), none);
    }
    let mut out = store_password(node, hash);
    push_all(&mut out, initiate_bootstrap(node, body, cache, fresh));
    (Ok(()), out)
}

/// What the form for a first password comes to. There must not be one yet.
pub open spec fn password_set(n: NodeView, body: Seq<u8>, hash: Seq<char>) -> SetupView {
    if n.admin_password_hash is Some {
        SetupView { fault: Some("exists"@), node: n, effects: Seq::empty() }
    } else {
        match form_password_fault(body) {
            Some(e) => SetupView { fault: Some(e), node: n, effects: Seq::empty() },
            None => SetupView {
                fault: None,
                node: with_password(n, hash),
                effects: seq![EffectView::Save],
            },
        }
    }
}

/// Sets the first password from a form. `hash` is the hash of the form's
/// password.
pub fn complete_set_password(node: &mut Node, body: &[u8], hash: String) -> (r: (
    Result<(), &'static str>,
    Vec<Effect>,
))
    ensures
        ({
            let v = password_set(old(node)@, body@, hash@);
            &&& fault_of(r.0) == v.fault
            &&& final(node)@ == v.node
            &&& model::views(r.1@) == v.effects
        }),
        keys::keyed(old(node)@) ==> keys::keyed(final(node)@),
{
    let none: Vec<Effect> = Vec::new();
    assert(model::views(none@) =~= Seq::empty());
    if node.admin_password_hash.is_some() {
        return (Err("exists"), none);
    }
    if let Err(e) = new_password(body) {
        return (Err(e), none);
    }
    (Ok(()), store_password(node, hash))
}

/// What a form to exchange cards comes to.
pub open spec fn exchange_asked(
    n: NodeView,
    body: Seq<u8>,
    cache: Seq<ResolvedHostView>,
    fresh: KeyPair,
    key: SecretKey,
) -> (NodeView, Seq<EffectView>) {
    match forms::field_in(body, "code"@) {
        None => (n, Seq::empty()),
        Some(code) => match invite::code_says(code) {
            None => (n, Seq::empty()),
            Some(c) => match mint::code_addr(c, cache) {
                None => (n, Seq::empty()),
                Some(addr) => mint::exchange_started(n, c, addr, fresh, key),
            },
        },
    }
}

/// Sets out to exchange cards with the user whose code a form has. `fresh` is a
/// new key pair, `key` the key derived from it and from the code.
pub fn initiate_contact_exchange(
    node: &mut Node,
    body: &[u8],
    cache: &Vec<ResolvedHost>,
    fresh: KeyPair,
    key: SecretKey,
) -> (r: Vec<Effect>)
    ensures
        (final(node)@, model::views(r@)) == exchange_asked(
            old(node)@,
            body@,
            model::views(cache@),
            fresh,
            key,
        ),
        keys::keyed(old(node)@) ==> keys::keyed(final(node)@),
{
    proof {
        keys::lemma_exchange_asked(node@, body@, model::views(cache@), fresh, key);
    }
    match form_field(body, "code") {
        Some(code) => start_contact_exchange(node, code.as_str(), cache, fresh, key),
        None => {
            let none: Vec<Effect> = Vec::new();
            assert(model::views(none@) =~= Seq::empty());
            none
        },
    }
}

/// A password is stored by no form that fails, and a first password never
/// replaces one.
pub proof fn law_failed_setup_changes_nothing(
    n: NodeView,
    body: Seq<u8>,
    cache: Seq<ResolvedHostView>,
    keys: KeyPair,
    hosts: Seq<Seq<char>>,
    hash: Seq<char>,
)
    ensures
        setup_done(n, body, keys, hosts, hash).fault is Some ==> setup_done(
            n,
            body,
            keys,
            hosts,
            hash,
        ).node == n,
        join_set_up(n, body, cache, keys, hash).fault is Some ==> join_set_up(
            n,
            body,
            cache,
            keys,
            hash,
        ).node == n,
        password_set(n, body, hash).fault is Some ==> password_set(n, body, hash).node == n,
        n.admin_password_hash is Some ==> password_set(n, body, hash).node == n,
{
}

/// After a setup that succeeds the node has a password, and it is set up if the
/// new key is one.
pub proof fn law_setup_locks_the_pages(
    n: NodeView,
    body: Seq<u8>,
    keys: KeyPair,
    hosts: Seq<Seq<char>>,
    hash: Seq<char>,
)
    requires
        setup_done(n, body, keys, hosts, hash).fault is None,
        !is_blank_key(keys.public_key),
    ensures
        setup_done(n, body, keys, hosts, hash).node.admin_password_hash == Some(hash),
        initialized(setup_done(n, body, keys, hosts, hash).node),
{
}

/// A join that starts never leaves the node without a password.
pub proof fn law_join_has_a_password(
    n: NodeView,
    body: Seq<u8>,
    cache: Seq<ResolvedHostView>,
    fresh: KeyPair,
    hash: Seq<char>,
)
    requires
        join_set_up(n, body, cache, fresh, hash).fault is None,
    ensures
        join_set_up(n, body, cache, fresh, hash).node.admin_password_hash == Some(hash),
{
}

} // verus!
