//! Activation of a running instance over D-Bus.
//!
//! A second invocation with `--pick` asks the instance that already runs to
//! enter colour-picker mode.

use crate::text::same_text;
use vstd::prelude::*;

verus! {

/// Messages forwarded from the D-Bus activation interface to the app.
#[derive(Debug, Clone, Copy, PartialEq, Eq, Structural)]
pub enum Activation {
    /// The `pick` action was requested (`--pick` forwarded from a second
    /// invocation of the applet).
    Pick,
}

/// The message that an action stands for; the applet knows the action `pick`
/// alone.
pub fn requested(action: &str) -> (r: Option<Activation>)
    ensures
        r == if action@ == "pick"@ {
            Some(Activation::Pick)
        } else {
            None
        },
{
    if same_text(action, "pick") {
        Some(Activation::Pick)
    } else {
        None
    }
}

/// A dotted name as an object path: a slash in front, and in place of each dot.
pub open spec fn path_text(name: Seq<char>) -> Seq<char> {
    seq!['/'] + name.map_values(
        |c: char|
            if c == '.' {
                '/'
            } else {
                c
            },
    )
}

/// The conventional object path of an application.
pub fn object_path(app_id: &str) -> (path: String)
    ensures
        path@ == path_text(app_id@),
{
    proof {
        reveal_strlit("/");
    }
    let n = app_id.unicode_len();
    let mut path = String::new();
    path.append("/");
    let mut i: usize = 0;
    while i < n
        invariant
            i <= n,
            n == app_id@.len(),
            path@ == path_text(app_id@.take(i as int)),
            "/"@ =~= seq!['/'],
        decreases n - i,
    {
        let ghost before = path@;
        if app_id.get_char(i) == '.' {
            path.append("/");
        } else {
            path.append(app_id.substring_char(i, i + 1));
        }
        assert(path@ =~= path_text(app_id@.take(i + 1)));
        i = i + 1;
    }
    assert(app_id@.take(n as int) =~= app_id@);
    path
}

/// An object path begins with a slash and has no dots: each part of the name is a
/// part of the path, in order.
pub proof fn law_path_follows_name(name: Seq<char>, i: int)
    requires
        0 <= i < name.len(),
    ensures
        path_text(name).len() == name.len() + 1,
        path_text(name)[0] == '/',
        name[i] == '.' ==> path_text(name)[i + 1] == '/',
        name[i] != '.' ==> path_text(name)[i + 1] == name[i],
{
}

/// The platform data that goes with a request: the tokens that the
/// environment holds, each under its key.
pub fn platform_data(token: Option<String>, startup_id: Option<String>) -> (r: Vec<
    (&'static str, String),
>)
    ensures
        r@.len() == (if token is Some {
            1int
        } else {
            0
        }) + (if startup_id is Some {
            1int
        } else {
            0
        }),
        token matches Some(t) ==> r@[0].0@ == "activation-token"@ && r@[0].1 == t,
        startup_id matches Some(s) ==> r@.last().0@ == "desktop-startup-id"@ && r@.last().1 == s,
{
    let mut data: Vec<(&'static str, String)> = Vec::new();
    if let Some(t) = token {
        data.push(("activation-token", t));
    }
    if let Some(s) = startup_id {
        data.push(("desktop-startup-id", s));
    }
    data
}

} // verus!
