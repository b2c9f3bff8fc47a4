//! Looking things up in a node's lists.
use crate::model;
use crate::types::{
    uuid_eq, ActiveConnection, Application, ApplicationView, Contact, ContactView, Device,
    DeviceView, Uuid,
};
use vstd::prelude::*;

verus! {

pub open spec fn device_is(u: Uuid) -> spec_fn(DeviceView) -> bool {
    |d: DeviceView| d.uuid == u
}

pub open spec fn app_is(id: Uuid) -> spec_fn(ApplicationView) -> bool {
    |a: ApplicationView| a.id == id
}

pub open spec fn app_is_not(id: Uuid) -> spec_fn(ApplicationView) -> bool {
    |a: ApplicationView| a.id != id
}

pub open spec fn app_has_token(t: Uuid) -> spec_fn(ApplicationView) -> bool {
    |a: ApplicationView| a.token == t
}

pub open spec fn contact_is(u: Uuid) -> spec_fn(ContactView) -> bool {
    |c: ContactView| c.user.uuid == u
}

pub open spec fn contact_has_device(u: Uuid) -> spec_fn(ContactView) -> bool {
    |c: ContactView| model::any_where(c.user.devices, device_is(u))
}

pub open spec fn conn_has_id(id: u16) -> spec_fn(ActiveConnection) -> bool {
    |c: ActiveConnection| c.id == id
}

pub open spec fn conn_to(u: Uuid) -> spec_fn(ActiveConnection) -> bool {
    |c: ActiveConnection| c.device_uuid == u
}

/// The first position as a machine number.
pub open spec fn as_index(i: Option<int>) -> Option<usize> {
    match i {
        Some(k) => Some(k as usize),
        None => None,
    }
}

/// The first device with the identifier `u`.
pub fn find_device(v: &Vec<Device>, u: &Uuid) -> (r: Option<usize>)
    ensures
        r == as_index(model::first_where(model::views(v@), device_is(*u))),
        r is Some ==> r->0 < v@.len() && v@[r->0 as int].uuid == *u,
        r is Some ==> model::first_where(model::views(v@), device_is(*u)) == Some(r->0 as int),
{
    broadcast use model::group_views;

    let ghost s = model::views(v@);
    let mut i: usize = 0;
    while i < v.len()
        invariant
            i <= v@.len(),
            s == model::views(v@),
            forall|j: int| 0 <= j < i ==> !device_is(*u)(#[trigger] s[j]),
        decreases v@.len() - i,
    {
        if uuid_eq(&v[i].uuid, u) {
            proof {
                assert(device_is(*u)(s[i as int]));
                model::lemma_first_at(s, device_is(*u), i as int);
            }
            return Some(i);
        }
        i += 1;
    }
    proof {
        model::lemma_first_none(s, device_is(*u));
    }
    None
}

/// The first application with the identifier `id`.
pub fn find_app(v: &Vec<Application>, id: &Uuid) -> (r: Option<usize>)
    ensures
        r == as_index(model::first_where(model::views(v@), app_is(*id))),
        r is Some ==> r->0 < v@.len() && v@[r->0 as int].id == *id,
        r is Some ==> model::first_where(model::views(v@), app_is(*id)) == Some(r->0 as int),
        r is Some <==> model::any_where(model::views(v@), app_is(*id)),
{
    broadcast use model::group_views;

    let ghost s = model::views(v@);
    let mut i: usize = 0;
    while i < v.len()
        invariant
            i <= v@.len(),
            s == model::views(v@),
            forall|j: int| 0 <= j < i ==> !app_is(*id)(#[trigger] s[j]),
        decreases v@.len() - i,
    {
        if uuid_eq(&v[i].id, id) {
            proof {
                assert(app_is(*id)(s[i as int]));
                model::lemma_first_at(s, app_is(*id), i as int);
            }
            return Some(i);
        }
        i += 1;
    }
    proof {
        model::lemma_first_none(s, app_is(*id));
    }
    None
}

/// The first application with the token `t`.
pub fn find_app_by_token(v: &Vec<Application>, t: &Uuid) -> (r: Option<usize>)
    ensures
        r == as_index(model::first_where(model::views(v@), app_has_token(*t))),
        r is Some ==> r->0 < v@.len() && v@[r->0 as int].token == *t,
        r is Some ==> model::first_where(model::views(v@), app_has_token(*t)) == Some(r->0 as int),
{
    broadcast use model::group_views;

    let ghost s = model::views(v@);
    let mut i: usize = 0;
    while i < v.len()
        invariant
            i <= v@.len(),
            s == model::views(v@),
            forall|j: int| 0 <= j < i ==> !app_has_token(*t)(#[trigger] s[j]),
        decreases v@.len() - i,
    {
        if uuid_eq(&v[i].token, t) {
            proof {
                assert(app_has_token(*t)(s[i as int]));
                model::lemma_first_at(s, app_has_token(*t), i as int);
            }
            return Some(i);
        }
        i += 1;
    }
    proof {
        model::lemma_first_none(s, app_has_token(*t));
    }
    None
}

/// The first contact with the user identifier `u`.
pub fn find_contact(v: &Vec<Contact>, u: &Uuid) -> (r: Option<usize>)
    ensures
        r == as_index(model::first_where(model::views(v@), contact_is(*u))),
        r is Some ==> r->0 < v@.len() && v@[r->0 as int].user.uuid == *u,
        r is Some ==> model::first_where(model::views(v@), contact_is(*u)) == Some(r->0 as int),
{
    broadcast use model::group_views;

    let ghost s = model::views(v@);
    let mut i: usize = 0;
    while i < v.len()
        invariant
            i <= v@.len(),
            s == model::views(v@),
            forall|j: int| 0 <= j < i ==> !contact_is(*u)(#[trigger] s[j]),
        decreases v@.len() - i,
    {
        if uuid_eq(&v[i].user.uuid, u) {
            proof {
                assert(contact_is(*u)(s[i as int]));
                model::lemma_first_at(s, contact_is(*u), i as int);
            }
            return Some(i);
        }
        i += 1;
    }
    proof {
        model::lemma_first_none(s, contact_is(*u));
    }
    None
}

/// The first contact that runs the device `u`.
pub fn find_contact_of_device(v: &Vec<Contact>, u: &Uuid) -> (r: Option<usize>)
    ensures
        r == as_index(model::first_where(model::views(v@), contact_has_device(*u))),
        r is Some ==> r->0 < v@.len(),
        r is Some ==> model::first_where(model::views(v@), contact_has_device(*u)) == Some(
            r->0 as int,
        ),
{
    broadcast use model::group_views;

    let ghost s = model::views(v@);
    let mut i: usize = 0;
    while i < v.len()
        invariant
            i <= v@.len(),
            s == model::views(v@),
            forall|j: int| 0 <= j < i ==> !contact_has_device(*u)(#[trigger] s[j]),
        decreases v@.len() - i,
    {
        let found = find_device(&v[i].user.devices, u);
        proof {
            model::lemma_first_where(model::views(v@[i as int].user.devices@), device_is(*u));
        }
        if found.is_some() {
            proof {
                assert(contact_has_device(*u)(s[i as int]));
                model::lemma_first_at(s, contact_has_device(*u), i as int);
            }
            return Some(i);
        }
        i += 1;
    }
    proof {
        model::lemma_first_none(s, contact_has_device(*u));
    }
    None
}

/// The connection with the identifier `id`.
pub fn find_conn(v: &Vec<ActiveConnection>, id: u16) -> (r: Option<usize>)
    ensures
        r == as_index(model::first_where(v@, conn_has_id(id))),
        r is Some ==> r->0 < v@.len() && v@[r->0 as int].id == id,
        r is Some ==> model::first_where(v@, conn_has_id(id)) == Some(r->0 as int),
{
    let mut i: usize = 0;
    while i < v.len()
        invariant
            i <= v@.len(),
            forall|j: int| 0 <= j < i ==> !conn_has_id(id)(#[trigger] v@[j]),
        decreases v@.len() - i,
    {
        if v[i].id == id {
            proof {
                assert(conn_has_id(id)(v@[i as int]));
                model::lemma_first_at(v@, conn_has_id(id), i as int);
            }
            return Some(i);
        }
        i += 1;
    }
    proof {
        model::lemma_first_none(v@, conn_has_id(id));
    }
    None
}

/// The first connection to the device `u`.
pub fn find_conn_to(v: &Vec<ActiveConnection>, u: &Uuid) -> (r: Option<usize>)
    ensures
        r == as_index(model::first_where(v@, conn_to(*u))),
        r is Some ==> r->0 < v@.len() && v@[r->0 as int].device_uuid == *u,
        r is Some ==> model::first_where(v@, conn_to(*u)) == Some(r->0 as int),
        r is Some <==> model::any_where(v@, conn_to(*u)),
{
    let mut i: usize = 0;
    while i < v.len()
        invariant
            i <= v@.len(),
            forall|j: int| 0 <= j < i ==> !conn_to(*u)(#[trigger] v@[j]),
        decreases v@.len() - i,
    {
        if uuid_eq(&v[i].device_uuid, u) {
            proof {
                assert(conn_to(*u)(v@[i as int]));
                model::lemma_first_at(v@, conn_to(*u), i as int);
            }
            return Some(i);
        }
        i += 1;
    }
    proof {
        model::lemma_first_none(v@, conn_to(*u));
    }
    None
}

} // verus!
