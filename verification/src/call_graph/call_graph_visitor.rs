//! The decisions taken for each call found in a function body.
use vstd::prelude::*;
use vstd::string::StringExecFns;
use crate::call_graph::call_graph_builder::DefId;

verus! {

/// The names of the crates of the standard distribution, whose functions are
/// left out of the call graph.
pub open spec fn is_std_crate_name(name: Seq<char>) -> bool {
    ||| name == "alloc"@
    ||| name == "std"@
    ||| name == "core"@
    ||| name == "proc_macro"@
    ||| name == "clippy"@
}

/// Whether a crate belongs to the standard distribution.
pub fn is_std_crate(crate_name: &String) -> (r: bool)
    ensures
        r == is_std_crate_name(crate_name@),
{
    *crate_name == String::from_str("alloc")
        || *crate_name == String::from_str("std")
        || *crate_name == String::from_str("core")
        || *crate_name == String::from_str("proc_macro")
        || *crate_name == String::from_str("clippy")
}

/// How the compiler resolved the function a call names.
#[derive(Clone, Copy, Debug, PartialEq, Eq, Structural)]
pub enum CalleeResolution {
    /// An ordinary item, given by the definition its type comes from.
    Item(DefId),
    /// An intrinsic or a compiler-made clone, with whether its definition is a closure.
    IntrinsicOrCloneShim { def_id: DefId, is_closure: bool },
    /// Any other kind of instance.
    Other,
    /// The instance could not be resolved.
    Unresolved,
}

/// The function a call is recorded against, if any.
pub open spec fn spec_call_target(callee: DefId, resolution: CalleeResolution) -> Option<DefId> {
    match resolution {
        CalleeResolution::Item(d) => Some(d),
        CalleeResolution::IntrinsicOrCloneShim { def_id, is_closure } => if is_closure { None } else { Some(def_id) },
        CalleeResolution::Other => None,
        CalleeResolution::Unresolved => Some(callee),
    }
}

/// For a call from `caller` to `callee`, defined in the crate `callee_crate`
/// and resolved as `resolution`: the function the call is recorded against,
/// and whether that is `caller` itself (a direct recursion). Calls into the
/// standard crates are not recorded.
pub fn call_target(caller: DefId, callee_crate: &String, callee: DefId, resolution: CalleeResolution) -> (r: Option<(DefId, bool)>)
    ensures
        r == (if is_std_crate_name(callee_crate@) {
            None
        } else {
            match spec_call_target(callee, resolution) {
                Some(t) => Some((t, t == caller)),
                None => None,
            }
        }),
{
    if is_std_crate(callee_crate) {
        return None;
    }
    let target = match resolution {
        CalleeResolution::Item(d) => Some(d),
        CalleeResolution::IntrinsicOrCloneShim { def_id, is_closure } => {
            if !is_closure {
                Some(def_id)
            } else {
                None
            }
        },
        CalleeResolution::Other => None,
        CalleeResolution::Unresolved => Some(callee),
    };
    match target {
        Some(t) => Some((t, t == caller)),
        None => None,
    }
}

/// Exactly five crates count as standard: `alloc`, `std`, `core`,
/// `proc_macro` and `clippy`. Any other name, however close to one of
/// them, names an ordinary crate.
pub proof fn lemma_std_crates_exactly(name: Seq<char>)
    ensures
        is_std_crate_name(name) <==> name == "alloc"@ || name == "std"@ || name == "core"@
            || name == "proc_macro"@ || name == "clippy"@,
        name != "alloc"@ && name != "std"@ && name != "core"@ && name != "proc_macro"@ && name != "clippy"@
            ==> !is_std_crate_name(name),
{
}

/// No standard crate has a name of more than ten characters: it is one of
/// the five names, the longest of which is `proc_macro`.
pub proof fn lemma_std_crate_names_short(name: Seq<char>)
    requires
        is_std_crate_name(name),
    ensures
        name.len() <= 10,
{
    reveal_strlit("alloc");
    reveal_strlit("std");
    reveal_strlit("core");
    reveal_strlit("proc_macro");
    reveal_strlit("clippy");
}

} // verus!
