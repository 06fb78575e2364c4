//! The pure decision logic of the process bridge: which arguments the
//! external toolchain is invoked with, and how its captured exit status
//! and output turn into a result. Spawning itself is I/O and lives with
//! the caller; these functions are total on the captured outcome.

use vstd::prelude::*;
use vstd::string::StringExecFns;

use crate::ErrorKind;

verus! {

/// What one synchronous invocation of an external executable produced:
/// its exit status and captured output, as opaque text.
pub struct ProcessResult {
    pub exit_success: bool,
    pub stdout: String,
    pub stderr: String,
}

/// A failure with its kind and the descriptive text surfaced to callers.
#[derive(Debug)]
pub struct OpError {
    pub kind: ErrorKind,
    pub message: String,
}

/// The type flag handed to the initializer: `library` maps to itself and
/// any other template to `project` — a two-way enumeration, not a general
/// passthrough.
pub open spec fn spec_project_type(template: Seq<char>) -> Seq<char> {
    if template == "library"@ {
        "library"@
    } else {
        "project"@
    }
}

/// Law: the initializer's type flag is always one of exactly two values,
/// whatever the template says.
pub proof fn lemma_project_type_enumeration(template: Seq<char>)
    ensures
        spec_project_type(template) == "library"@ || spec_project_type(template) == "project"@,
{
}

/// The success message reported after a project is scaffolded.
pub open spec fn created_message(name: Seq<char>, location: Seq<char>) -> Seq<char> {
    "Project "@ + name + " created successfully at "@ + location
}

/// Maps a template to the initializer's type flag.
pub fn project_type_of(template: &String) -> (r: String)
    ensures
        r@ == spec_project_type(template@),
{
    let lib = String::from_str("library");
    if template.eq(&lib) {
        lib
    } else {
        String::from_str("project")
    }
}

/// The exact argument list for scaffolding a project: the `init`
/// subcommand, the project name, and the type flag derived from the
/// template.
pub fn init_args(name: &String, template: &String) -> (r: Vec<String>)
    ensures
        r@.len() == 3,
        r@[0]@ == "init"@,
        r@[1]@ == name@,
        r@[2]@ == "--type="@ + spec_project_type(template@),
{
    let mut r: Vec<String> = Vec::new();
    r.push(String::from_str("init"));
    r.push(name.clone());
    let flag = String::from_str("--type=").concat(project_type_of(template).as_str());
    r.push(flag);
    r
}

/// The exact argument list for running a script: the `run` subcommand and
/// the script path.
pub fn run_args(path: &String) -> (r: Vec<String>)
    ensures
        r@.len() == 2,
        r@[0]@ == "run"@,
        r@[1]@ == path@,
{
    let mut r: Vec<String> = Vec::new();
    r.push(String::from_str("run"));
    r.push(path.clone());
    r
}

/// Turns the initializer's captured outcome into the bridge's result: on
/// exit success, the success message naming the project and its location;
/// on a nonzero exit, a process-exit error carrying the captured standard
/// error, exactly.
pub fn init_result(name: &String, location: &String, out: ProcessResult) -> (r: Result<
    String,
    OpError,
>)
    ensures
        r is Ok <==> out.exit_success,
        r is Ok ==> r->Ok_0@ == created_message(name@, location@),
        r is Err ==> r->Err_0.kind == ErrorKind::ProcessExitError && r->Err_0.message@
            == out.stderr@,
{
    if out.exit_success {
        let msg = String::from_str("Project ").concat(name.as_str()).concat(
            " created successfully at ",
        ).concat(location.as_str());
        Ok(msg)
    } else {
        Err(OpError { kind: ErrorKind::ProcessExitError, message: out.stderr })
    }
}

/// Turns the runner's captured outcome into the bridge's result: captured
/// standard output on success, a process-exit error carrying the captured
/// standard error otherwise.
pub fn run_result(out: ProcessResult) -> (r: Result<String, OpError>)
    ensures
        r is Ok <==> out.exit_success,
        r is Ok ==> r->Ok_0@ == out.stdout@,
        r is Err ==> r->Err_0.kind == ErrorKind::ProcessExitError && r->Err_0.message@
            == out.stderr@,
{
    if out.exit_success {
        Ok(out.stdout)
    } else {
        Err(OpError { kind: ErrorKind::ProcessExitError, message: out.stderr })
    }
}

/// The greeting returned by the greeting stub of the command surface.
pub open spec fn spec_greeting(name: Seq<char>) -> Seq<char> {
    "Hello, "@ + name + "! You've been greeted from Rust!"@
}

/// Greets by name, exactly as the greeting stub does.
pub fn greet(name: &str) -> (r: String)
    ensures
        r@ == spec_greeting(name@),
{
    String::from_str("Hello, ").concat(name).concat("! You've been greeted from Rust!")
}

} // verus!
