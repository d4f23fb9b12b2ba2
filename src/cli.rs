//! The verbs of the command-line front end.
use vstd::prelude::*;

verus! {

/// What the front end is asked to do.
#[derive(Debug, Clone, Copy, PartialEq, Eq, Structural)]
pub enum Cmd {
    EncodeSigned,
    EncodeUnsigned,
    DecodeSigned,
    DecodeUnsigned,
}

/// The word that names each verb on the command line.
pub open spec fn cmd_word(cmd: Cmd) -> Seq<char> {
    match cmd {
        Cmd::EncodeSigned => seq!['e', 's'],
        Cmd::EncodeUnsigned => seq!['e', 'u'],
        Cmd::DecodeSigned => seq!['d', 's'],
        Cmd::DecodeUnsigned => seq!['d', 'u'],
    }
}

/// The word that names `cmd` on the command line.
pub fn cmd_str(cmd: Cmd) -> (r: &'static str)
    ensures
        r@ == cmd_word(cmd),
{
    proof {
        reveal_strlit("es");
        reveal_strlit("eu");
        reveal_strlit("ds");
        reveal_strlit("du");
    }
    match cmd {
        Cmd::EncodeSigned => "es",
        Cmd::EncodeUnsigned => "eu",
        Cmd::DecodeSigned => "ds",
        Cmd::DecodeUnsigned => "du",
    }
}

} // verus!
