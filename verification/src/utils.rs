//! What the property source reports for one device path.

use vstd::prelude::*;
use vstd::string::*;

verus! {

/// The outcome of one run of the property source.
#[derive(Clone, Debug, PartialEq, Eq)]
pub struct CommandResult {
    /// The exit status; absent where the run gave none.
    pub status: Option<i32>,
    /// What the run wrote to its standard output, if anything.
    pub stdout: Option<String>,
    /// What the run wrote to its standard error, if anything.
    pub stderr: Option<String>,
}

/// The mathematical value of a [`CommandResult`].
pub struct ResultView {
    pub status: Option<i32>,
    pub stdout: Option<Seq<char>>,
    pub stderr: Option<Seq<char>>,
}

impl View for CommandResult {
    type V = ResultView;

    open spec fn view(&self) -> ResultView {
        ResultView {
            status: self.status,
            stdout: self.stdout.deep_view(),
            stderr: self.stderr.deep_view(),
        }
    }
}

/// The property block that a result carries: its standard output, provided
/// the run ended with status zero. Any other status, a missing status or a
/// missing output means that the path has no usable properties.
pub open spec fn usable_output(result: ResultView) -> Option<Seq<char>> {
    if result.status == Some(0i32) {
        result.stdout
    } else {
        None
    }
}

impl CommandResult {
    /// The result of a run that could not be made or gave nothing.
    pub fn none() -> (r: CommandResult)
        ensures
            r@ == (ResultView { status: None, stdout: None, stderr: None }),
    {
        CommandResult { status: None, stdout: None, stderr: None }
    }

    /// Takes the property block out of the result, if it carries one.
    pub fn into_output(self) -> (r: Option<String>)
        ensures
            r.deep_view() == usable_output(self@),
    {
        match self.status {
            Some(code) => {
                if code == 0 {
                    self.stdout
                } else {
                    None
                }
            },
            None => None,
        }
    }
}

/// The name of the program that reports device properties.
pub const UDEVADM: &'static str = "udevadm";

/// The arguments with which `udevadm` is run to report the properties of
/// the device at `path`.
pub fn udevadm_args(path: &str) -> (r: Vec<String>)
    ensures
        r.deep_view() == seq!["info"@, "-q"@, "property"@, "-p"@, path@],
{
    let mut args: Vec<String> = Vec::new();
    args.push("info".to_owned());
    args.push("-q".to_owned());
    args.push("property".to_owned());
    args.push("-p".to_owned());
    args.push(path.to_owned());
    assert(args.deep_view() =~= seq!["info"@, "-q"@, "property"@, "-p"@, path@]);
    args
}

} // verus!
