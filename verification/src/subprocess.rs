//! What the output of a finished command means.
use crate::text;
use vstd::prelude::*;

verus! {

/// A command's trimmed output; the output of one that failed is its error,
/// with what it wrote to stderr.
pub open spec fn output_spec(
    what: Seq<char>,
    success: bool,
    status: Seq<char>,
    stdout: Seq<u8>,
    stderr: Seq<u8>,
) -> Result<Seq<char>, Seq<char>> {
    if success {
        Ok(text::trim_spec(text::lossy_text(stdout)))
    } else {
        Err(what + " failed ("@ + status + "):\n"@ + text::lossy_text(stderr))
    }
}

/// The trimmed stdout of a command that ran to completion; a non-zero exit
/// becomes an error carrying the command's stderr.
pub fn run_cmd(what: &str, success: bool, status: &str, stdout: &[u8], stderr: &[u8]) -> (r: Result<
    String,
    String,
>)
    ensures
        match r {
            Ok(s) => output_spec(what@, success, status@, stdout@, stderr@) == Result::<
                Seq<char>,
                Seq<char>,
            >::Ok(s@),
            Err(e) => output_spec(what@, success, status@, stdout@, stderr@) == Result::<
                Seq<char>,
                Seq<char>,
            >::Err(e@),
        },
{
    if success {
        let read: String = text::read_lossy(stdout);
        Ok(text::trim(read.as_str()))
    } else {
        let read: String = text::read_lossy(stderr);
        Err(text::cat5(what, " failed (", status, "):\n", read.as_str()))
    }
}

} // verus!
