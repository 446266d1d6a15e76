//! Where the report goes, as named on the command line.
use vstd::prelude::*;
use vstd::string::StringExecFns;

verus! {

#[derive(Clone, Copy, Debug, PartialEq, Eq, PartialOrd, Ord, Hash, Structural)]
pub enum Output {
    Stdout,
    Stderr,
    Quiet,
}

/// The output that a lower-case name stands for.
pub open spec fn output_named(s: Seq<char>) -> Option<Output> {
    if s == "stdout"@ {
        Some(Output::Stdout)
    } else if s == "stderr"@ {
        Some(Output::Stderr)
    } else if s == "quiet"@ {
        Some(Output::Quiet)
    } else {
        None
    }
}

pub uninterp spec fn lower_of(s: Seq<char>) -> Seq<char>;

/// Relies on `str::to_lowercase`: the result depends on the characters alone.
#[verifier::external_body]
fn lowercase(s: &str) -> (r: String)
    ensures
        r@ == lower_of(s@),
{
    s.to_lowercase()
}

fn invalid_output_message(src: &str) -> (r: String)
    ensures
        r@ == "invalid output type: "@ + src@,
{
    let mut message = <String as StringExecFns>::from_str("invalid output type: ");
    message.append(src);
    message
}

/// How the workers of the aggregation talk to each other.
#[derive(Clone, Copy, Debug, PartialEq, Eq, Structural)]
pub enum CommunicationMode {
    /// One worker, on the current thread.
    Thread,
    /// Several workers, as threads of this process.
    Process(usize),
}

/// One worker runs on the current thread; more run as threads of the process.
pub fn communication_mode(workers: usize) -> (m: CommunicationMode)
    requires
        workers >= 1,
    ensures
        workers == 1 ==> m == CommunicationMode::Thread,
        workers > 1 ==> m == CommunicationMode::Process(workers),
{
    if workers == 1 {
        CommunicationMode::Thread
    } else {
        CommunicationMode::Process(workers)
    }
}

impl Output {
    /// Reads an output from its lower-case name; `src` is the name as it was
    /// given, for the error message.
    pub fn from_lowercase(lower: &str, src: &str) -> (r: Result<Output, String>)
        ensures
            match output_named(lower@) {
                Some(o) => r == Ok::<Output, String>(o),
                None => r is Err && r->Err_0@ == "invalid output type: "@ + src@,
            },
    {
        let name = lower.to_owned();
        if name == "stdout".to_owned() {
            Ok(Output::Stdout)
        } else if name == "stderr".to_owned() {
            Ok(Output::Stderr)
        } else if name == "quiet".to_owned() {
            Ok(Output::Quiet)
        } else {
            Err(invalid_output_message(src))
        }
    }

    /// Reads an output from its name, in any case.
    pub fn parse(src: &str) -> (r: Result<Output, String>)
        ensures
            match output_named(lower_of(src@)) {
                Some(o) => r == Ok::<Output, String>(o),
                None => r is Err && r->Err_0@ == "invalid output type: "@ + src@,
            },
    {
        let lower = lowercase(src);
        Output::from_lowercase(lower.as_str(), src)
    }
}

impl std::str::FromStr for Output {
    type Err = String;

    fn from_str(src: &str) -> Result<Output, String> {
        Output::parse(src)
    }
}

} // verus!
