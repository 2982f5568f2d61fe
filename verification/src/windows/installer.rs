//! The arguments of `sc.exe` that install, remove, start and stop the
//! service.

use vstd::prelude::*;
use crate::text::{concat, owned};
use crate::windows::config::ServiceConfig;

verus! {

/// The views of a vector of strings.
pub open spec fn arg_views(v: Seq<String>) -> Seq<Seq<char>> {
    v.map_values(|a: String| a@)
}

/// `sc.exe create NAME binPath=BINARY DisplayName=DISPLAY start=auto`.
pub fn install_args(config: &ServiceConfig) -> (res: Vec<String>)
    ensures
        arg_views(res@) == seq![
            "create"@,
            config.name@,
            "binPath="@ + config.binary_name@,
            "DisplayName="@ + config.display_name@,
            "start=auto"@,
        ],
{
    let mut v: Vec<String> = Vec::new();
    v.push(owned("create"));
    v.push(config.name.clone());
    v.push(concat("binPath=", config.binary_name.as_str()));
    v.push(concat("DisplayName=", config.display_name.as_str()));
    v.push(owned("start=auto"));
    assert(arg_views(v@) =~= seq![
        "create"@,
        config.name@,
        "binPath="@ + config.binary_name@,
        "DisplayName="@ + config.display_name@,
        "start=auto"@,
    ]);
    v
}

fn verb_and_name(verb: &str, config: &ServiceConfig) -> (res: Vec<String>)
    ensures
        arg_views(res@) == seq![verb@, config.name@],
{
    let mut v: Vec<String> = Vec::new();
    v.push(owned(verb));
    v.push(config.name.clone());
    assert(arg_views(v@) =~= seq![verb@, config.name@]);
    v
}

/// `sc.exe delete NAME`.
pub fn uninstall_args(config: &ServiceConfig) -> (res: Vec<String>)
    ensures
        arg_views(res@) == seq!["delete"@, config.name@],
{
    verb_and_name("delete", config)
}

/// `sc.exe start NAME`.
pub fn start_args(config: &ServiceConfig) -> (res: Vec<String>)
    ensures
        arg_views(res@) == seq!["start"@, config.name@],
{
    verb_and_name("start", config)
}

/// `sc.exe stop NAME`.
pub fn stop_args(config: &ServiceConfig) -> (res: Vec<String>)
    ensures
        arg_views(res@) == seq!["stop"@, config.name@],
{
    verb_and_name("stop", config)
}

} // verus!
