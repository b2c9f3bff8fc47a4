//! The pages before a user is logged in: setup, login and the first password.
use crate::forms;
use crate::forms::query_param;
use crate::layout;
use crate::layout::setup_layout;
use crate::markup;
use crate::text::{blank, is_empty, owned, put, text_eq};
use vstd::prelude::*;

verus! {

/// The value of a parameter; nothing where there is none.
pub open spec fn param_or_blank(query: Seq<char>, name: Seq<char>) -> Seq<char> {
    match forms::param_in(query, name) {
        Some(v) => v,
        None => Seq::empty(),
    }
}

/// The value of a parameter; nothing where there is none.
pub fn param_or_none(query: &str, name: &str) -> (r: String)
    ensures
        r@ == param_or_blank(query@, name@),
{
    match query_param(query, name) {
        Some(v) => v,
        None => blank(),
    }
}

/// What the form for a new user says about an error.
pub open spec fn new_user_notice(error: Seq<char>) -> Seq<char> {
    if error == "fields"@ {
        markup::FIELDS_NEEDED@
    } else {
        code_entry_notice(error)
    }
}

/// What the form for an invitation code says about an error.
pub open spec fn code_entry_notice(error: Seq<char>) -> Seq<char> {
    if error == "password_short"@ {
        markup::ADMIN_PASSWORD_SHORT@
    } else if error == "password_mismatch"@ {
        markup::PASSWORD_MISMATCH@
    } else {
        Seq::empty()
    }
}

fn show_code_entry_notice(error: &str) -> (r: String)
    ensures
        r@ == code_entry_notice(error@),
{
    if text_eq(error, "password_short") {
        owned(markup::ADMIN_PASSWORD_SHORT)
    } else if text_eq(error, "password_mismatch") {
        owned(markup::PASSWORD_MISMATCH)
    } else {
        blank()
    }
}

/// The form for a new user.
pub open spec fn new_user_form(error: Seq<char>) -> Seq<char> {
    markup::NEW_USER_ERROR@ + new_user_notice(error) + markup::NEW_USER_END@
}

/// The form for a new user.
pub fn render_setup_new_user_form(error: &str) -> (r: String)
    ensures
        r@ == new_user_form(error@),
{
    let notice = if text_eq(error, "fields") {
        owned(markup::FIELDS_NEEDED)
    } else {
        show_code_entry_notice(error)
    };
    let mut s = owned(markup::NEW_USER_ERROR);
    put(&mut s, notice.as_str());
    put(&mut s, markup::NEW_USER_END);
    s
}

/// The form for an invitation code.
pub open spec fn code_entry(grade: Seq<char>, error: Seq<char>) -> Seq<char> {
    let sg = grade == "sg"@;
    markup::CODE_ENTRY_ERROR@ + code_entry_notice(error) + markup::CODE_ENTRY_GRADE@ + (if sg {
        "sg"@
    } else {
        "dg"@
    }) + markup::CODE_ENTRY_BACK@ + (if sg {
        "/setup?grade=sg"@
    } else {
        "/setup"@
    }) + markup::CODE_ENTRY_END@
}

/// The form for an invitation code.
pub fn render_setup_code_entry(grade: &str, error: &str) -> (r: String)
    ensures
        r@ == code_entry(grade@, error@),
{
    let sg = text_eq(grade, "sg");
    let mut s = owned(markup::CODE_ENTRY_ERROR);
    put(&mut s, show_code_entry_notice(error).as_str());
    put(&mut s, markup::CODE_ENTRY_GRADE);
    if sg {
        put(&mut s, "sg");
    } else {
        put(&mut s, "dg");
    }
    put(&mut s, markup::CODE_ENTRY_BACK);
    if sg {
        put(&mut s, "/setup?grade=sg");
    } else {
        put(&mut s, "/setup");
    }
    put(&mut s, markup::CODE_ENTRY_END);
    s
}

/// The step of the setup that a query asks for.
pub open spec fn setup_step(query: Seq<char>) -> Seq<char> {
    let grade = param_or_blank(query, "grade"@);
    let role = param_or_blank(query, "role"@);
    let error = param_or_blank(query, "error"@);
    if forms::param_in(query, "waiting"@) is Some {
        markup::WAITING@
    } else if grade.len() == 0 {
        markup::GRADE_STEP@
    } else if grade == "sg"@ && role.len() == 0 {
        markup::ROLE_STEP@
    } else if grade == "sg"@ && role == "new"@ {
        new_user_form(error)
    } else if (grade == "sg"@ && role == "join"@) || grade == "dg"@ {
        code_entry(grade, error)
    } else {
        markup::GRADE_STEP@
    }
}

/// The page of the setup that a query asks for.
pub fn render_setup(query: &str) -> (r: String)
    ensures
        r@ == layout::setup_page(setup_step(query@)),
{
    if query_param(query, "waiting").is_some() {
        return setup_layout(markup::WAITING);
    }
    let grade = param_or_none(query, "grade");
    let role = param_or_none(query, "role");
    let error = param_or_none(query, "error");
    if is_empty(&grade) {
        return setup_layout(markup::GRADE_STEP);
    }
    let sg = text_eq(grade.as_str(), "sg");
    if sg && is_empty(&role) {
        return setup_layout(markup::ROLE_STEP);
    }
    if sg && text_eq(role.as_str(), "new") {
        return setup_layout(render_setup_new_user_form(error.as_str()).as_str());
    }
    if (sg && text_eq(role.as_str(), "join")) || text_eq(grade.as_str(), "dg") {
        return setup_layout(render_setup_code_entry(grade.as_str(), error.as_str()).as_str());
    }
    setup_layout(markup::GRADE_STEP)
}

/// The form to log in.
pub open spec fn login_form(error: Seq<char>) -> Seq<char> {
    markup::LOGIN_ERROR@ + (if error == "bad"@ {
        markup::BAD_PASSWORD@
    } else {
        Seq::empty()
    }) + markup::LOGIN_END@
}

/// The page to log in.
pub fn render_login(error: &str) -> (r: String)
    ensures
        r@ == layout::setup_page(login_form(error@)),
{
    let notice = if text_eq(error, "bad") {
        owned(markup::BAD_PASSWORD)
    } else {
        blank()
    };
    let mut s = owned(markup::LOGIN_ERROR);
    put(&mut s, notice.as_str());
    put(&mut s, markup::LOGIN_END);
    setup_layout(s.as_str())
}

/// What the form for the first password says about an error.
pub open spec fn set_password_notice(error: Seq<char>) -> Seq<char> {
    if error == "password_short"@ {
        markup::PASSWORD_SHORT@
    } else if error == "password_mismatch"@ {
        markup::PASSWORD_MISMATCH@
    } else if error == "exists"@ {
        markup::PASSWORD_EXISTS@
    } else {
        Seq::empty()
    }
}

/// The form for the first password.
pub open spec fn set_password_form(error: Seq<char>) -> Seq<char> {
    markup::SET_PASSWORD_ERROR@ + set_password_notice(error) + markup::SET_PASSWORD_END@
}

/// The page for the first password.
pub fn render_set_password(error: &str) -> (r: String)
    ensures
        r@ == layout::setup_page(set_password_form(error@)),
{
    let notice = if text_eq(error, "password_short") {
        owned(markup::PASSWORD_SHORT)
    } else if text_eq(error, "password_mismatch") {
        owned(markup::PASSWORD_MISMATCH)
    } else if text_eq(error, "exists") {
        owned(markup::PASSWORD_EXISTS)
    } else {
        blank()
    };
    let mut s = owned(markup::SET_PASSWORD_ERROR);
    put(&mut s, notice.as_str());
    put(&mut s, markup::SET_PASSWORD_END);
    setup_layout(s.as_str())
}

} // verus!
