//! Parsing client command arrays into typed commands. Only the
//! parsing lives here: executing a command touches the shared
//! backend, which is outside the codec's scope.

use vstd::prelude::*;
use crate::frame::{frames_view, lemma_frames_view, BulkString, RespArray, RespFrame};
use crate::model::FrameV;

verus! {

/// Why a command array was rejected.
#[derive(Debug, Clone, Copy, PartialEq, Eq, Structural, Hash)]
pub enum CommandError {
    /// The array does not name this command, or has the wrong shape.
    InvalidCommand,
    /// The command's arguments have the wrong form.
    InvalidArgument,
}

/// ASCII lower-casing of one byte.
pub open spec fn ascii_lower(b: u8) -> u8 {
    if 65 <= b <= 90 {
        (b + 32) as u8
    } else {
        b
    }
}

/// Whether `s` spells `name` up to ASCII case.
pub open spec fn names_cmd(s: Seq<u8>, name: Seq<u8>) -> bool {
    s.len() == name.len() && forall|i: int| 0 <= i < s.len() ==> ascii_lower(#[trigger] s[i])
        == name[i]
}

/// A well-shaped command array: a leading bulk string spelling the
/// command name, then exactly `n_args` argument frames.
pub open spec fn command_shape(frames: Seq<FrameV>, name: Seq<u8>, n_args: int) -> bool {
    &&& frames.len() == 1 + n_args
    &&& frames.len() >= 1
    &&& match frames[0] {
        FrameV::BulkString(s) => names_cmd(s, name),
        _ => false,
    }
}

/// Check the command array's name and argument count.
pub fn validate_command(value: &RespArray, name: &[u8], n_args: usize) -> (r: Result<
    (),
    CommandError,
>)
    ensures
        r is Ok <==> command_shape(value@, name@, n_args as int),
{
    proof {
        lemma_frames_view(value.0@);
    }
    let vlen = value.0.len();
    if n_args == usize::MAX || vlen != 1 + n_args {
        return Err(CommandError::InvalidCommand);
    }
    match &value.0[0] {
        RespFrame::BulkString(first) => {
            let fb = &first.0;
            if fb.len() != name.len() {
                return Err(CommandError::InvalidCommand);
            }
            let n = fb.len();
            let mut i: usize = 0;
            #[verifier::loop_isolation(false)]
            while i < n
                invariant
                    i <= n,
                    forall|j: int| 0 <= j < i ==> ascii_lower(#[trigger] fb@[j]) == name@[j],
                decreases n - i,
            {
                let b = fb[i];
                let low = if 65 <= b && b <= 90 {
                    b + 32
                } else {
                    b
                };
                if low != name[i] {
                    return Err(CommandError::InvalidCommand);
                }
                i = i + 1;
            }
            Ok(())
        },
        _ => Err(CommandError::InvalidCommand),
    }
}

/// The argument frames of a command array: everything behind the
/// first `start` elements, in order.
pub fn extract_args(value: RespArray, start: usize) -> (r: Result<Vec<RespFrame>, CommandError>)
    ensures
        match r {
            Ok(args) => start <= value@.len() && frames_view(args@) == value@.skip(start as int),
            Err(_) => start > value@.len(),
        },
{
    proof {
        lemma_frames_view(value.0@);
    }
    if start > value.0.len() {
        return Err(CommandError::InvalidArgument);
    }
    let mut v = value.0;
    let ghost v0 = v@;
    let mut i: usize = 0;
    #[verifier::loop_isolation(false)]
    while i < start
        invariant
            i <= start,
            v@ == v0.skip(i as int),
            start <= v0.len(),
        decreases start - i,
    {
        v.remove(0);
        proof {
            assert(v0.skip(i as int).remove(0) =~= v0.skip(i as int + 1));
        }
        i = i + 1;
    }
    proof {
        lemma_frames_view(v@);
        lemma_frames_view(v0);
        assert(frames_view(v@) =~= frames_view(v0).skip(start as int)) by {
            assert forall|j: int| 0 <= j < v@.len() implies frames_view(v@)[j] == frames_view(
                v0,
            ).skip(start as int)[j] by {
                assert(v@[j] == v0[start + j]);
            }
        }
    }
    Ok(v)
}

/// An echo command: replies with its own argument.
pub struct Echo {
    pub message: Vec<u8>,
}

impl Echo {
    /// Parse `echo <message>`: exactly one argument, a bulk string,
    /// whose bytes become the message.
    pub fn try_from(value: RespArray) -> (r: Result<Echo, CommandError>)
        ensures
            match r {
                Ok(e) => command_shape(value@, seq![101u8, 99u8, 104u8, 111u8], 1) && (
                value@[1] matches FrameV::BulkString(m) && e.message@ == m),
                Err(_) => !(command_shape(value@, seq![101u8, 99u8, 104u8, 111u8], 1)
                    && value@[1] matches FrameV::BulkString(_)),
            },
    {
        proof {
            lemma_frames_view(value.0@);
        }
        let name: [u8; 4] = [101, 99, 104, 111];
        match validate_command(&value, name.as_slice(), 1) {
            Ok(()) => {},
            Err(e) => {
                proof {
                    assert(name@ =~= seq![101u8, 99u8, 104u8, 111u8]);
                }
                return Err(e);
            },
        }
        proof {
            assert(name@ =~= seq![101u8, 99u8, 104u8, 111u8]);
        }
        let mut v = value.0;
        let arg = v.remove(1);
        match arg {
            RespFrame::BulkString(b) => Ok(Echo { message: b.0 }),
            _ => Err(CommandError::InvalidArgument),
        }
    }
}

} // verus!
