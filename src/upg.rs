//! The decisions of the build wrapper that runs the analysis over a cargo
//! build: which tool to run for an invocation, with which arguments.
use vstd::prelude::*;
use vstd::string::StrSliceExecFns;

verus! {

/// Whether two strings are equal.
pub fn str_eq(a: &str, b: &str) -> (r: bool)
    ensures
        r == (a@ == b@),
{
    let la = a.unicode_len();
    let lb = b.unicode_len();
    if la != lb {
        return false;
    }
    let mut i: usize = 0;
    while i < la
        invariant
            la == a@.len(),
            lb == b@.len(),
            la == lb,
            i <= la,
            forall|j: int| 0 <= j < i ==> a@[j] == b@[j],
        decreases la - i,
    {
        if a.get_char(i) != b.get_char(i) {
            return false;
        }
        i += 1;
    }
    assert(a@ =~= b@);
    true
}

/// The crates that are built by the plain compiler rather than analysed:
/// build scripts, procedural macros and their common dependencies.
pub open spec fn normal_built(arg: Seq<char>) -> bool {
    arg == "proc-macro"@ || arg == "build_script_build"@ || arg == "syn"@ || arg == "quote"@
        || arg == "proc_macro2"@ || arg == "unicode_ident"@ || arg == "version_check"@
        || arg == "proc_macro_error"@ || arg == "proc_macro_error_attr"@ || arg == "compiler_builtins"@
}

/// Whether a compiler argument names a crate that is built normally.
pub fn is_normal_built(arg: &str) -> (r: bool)
    ensures
        r == normal_built(arg@),
{
    str_eq(arg, "proc-macro") || str_eq(arg, "build_script_build") || str_eq(arg, "syn")
        || str_eq(arg, "quote") || str_eq(arg, "proc_macro2") || str_eq(arg, "unicode_ident")
        || str_eq(arg, "version_check") || str_eq(arg, "proc_macro_error")
        || str_eq(arg, "proc_macro_error_attr") || str_eq(arg, "compiler_builtins")
}

/// What the wrapper does for one invocation.
#[derive(Clone, Copy, Debug, PartialEq, Eq, Structural)]
pub enum Action {
    /// Print the compiler's version.
    RustcVersion,
    /// Compile with the plain compiler.
    Rustc,
    /// Record the compiler arguments, then run the analysis driver.
    Driver,
    /// Start the cargo build with this wrapper as the compiler.
    Cargo,
}

/// Chooses the action for the arguments given to the wrapper.
pub fn decide(args: &Vec<String>, is_wrapper: bool) -> (r: Action)
    ensures
        args@.len() == 1 && args@[0]@ == "-vv"@ ==> r == Action::RustcVersion,
        !(args@.len() == 1 && args@[0]@ == "-vv"@) && is_wrapper ==> r == if exists|i: int|
            0 <= i < args@.len() && normal_built(#[trigger] args@[i]@) {
            Action::Rustc
        } else {
            Action::Driver
        },
        !(args@.len() == 1 && args@[0]@ == "-vv"@) && !is_wrapper ==> r == Action::Cargo,
{
    if args.len() == 1 && str_eq(args[0].as_str(), "-vv") {
        return Action::RustcVersion;
    }
    if !is_wrapper {
        return Action::Cargo;
    }
    let mut i: usize = 0;
    while i < args.len()
        invariant
            i <= args.len(),
            is_wrapper,
            !(args@.len() == 1 && args@[0]@ == "-vv"@),
            forall|j: int| 0 <= j < i ==> !normal_built(#[trigger] args@[j]@),
        decreases args.len() - i,
    {
        if is_normal_built(args[i].as_str()) {
            assert(normal_built(args@[i as int]@));
            return Action::Rustc;
        }
        i += 1;
    }
    Action::Driver
}

/// The cargo arguments: a plain build, or one that also builds `core` and
/// `alloc` from source when a standard library path is configured.
pub fn cargo_build_args(has_std_library: bool) -> (r: Vec<String>)
    ensures
        has_std_library ==> r@.len() == 2 && r@[0]@ == "build"@ && r@[1]@ == "-Zbuild-std=core,alloc"@,
        !has_std_library ==> r@.len() == 1 && r@[0]@ == "build"@,
{
    let mut v: Vec<String> = Vec::new();
    v.push("build".to_owned());
    if has_std_library {
        v.push("-Zbuild-std=core,alloc".to_owned());
    }
    v
}

/// Whether the analysis asks the host to go on compiling dependent units:
/// only when the setting is present and not `0`.
pub fn should_continue(setting: Option<&str>) -> (r: bool)
    ensures
        r == (setting is Some && setting->0@ != "0"@),
{
    match setting {
        Some(s) => !str_eq(s, "0"),
        None => false,
    }
}

/// The compiler flags the analysis needs on every crate.
pub fn rustc_flags() -> (r: Vec<String>)
    ensures
        r@.len() == 9,
        r@[0]@ == "-Cpanic=abort"@,
        r@[1]@ == "-Csymbol-mangling-version=v0"@,
        r@[2]@ == "-Zunstable-options"@,
        r@[3]@ == "-Ztrim-diagnostic-paths=no"@,
        r@[4]@ == "-Zhuman_readable_cgu_names"@,
        r@[5]@ == "-Zalways-encode-mir"@,
        r@[6]@ == "-Zcrate-attr=feature(register_tool)"@,
        r@[7]@ == "-Zcrate-attr=register_tool(rapx)"@,
        r@[8]@ == "-Zmir-enable-passes=-RemoveStorageMarkers"@,
{
    let mut v: Vec<String> = Vec::new();
    v.push("-Cpanic=abort".to_owned());
    v.push("-Csymbol-mangling-version=v0".to_owned());
    v.push("-Zunstable-options".to_owned());
    v.push("-Ztrim-diagnostic-paths=no".to_owned());
    v.push("-Zhuman_readable_cgu_names".to_owned());
    v.push("-Zalways-encode-mir".to_owned());
    v.push("-Zcrate-attr=feature(register_tool)".to_owned());
    v.push("-Zcrate-attr=register_tool(rapx)".to_owned());
    v.push("-Zmir-enable-passes=-RemoveStorageMarkers".to_owned());
    v
}

} // verus!
