//! What the command line asks for.
use crate::text::{chars_of, stands_at};
use vstd::prelude::*;

verus! {

/// What the program is to do.
#[derive(Clone, Copy, Debug, PartialEq, Eq, Structural)]
pub enum Mode {
    /// Chat with the finished model.
    Chat,
    /// Chat with the latest checkpoint.
    ChatCheckpoint,
    Train,
}

/// `flag` is one of the arguments.
pub open spec fn has_flag(args: Seq<String>, flag: Seq<char>) -> bool {
    exists|i: int| 0 <= i < args.len() && (#[trigger] args[i])@ == flag
}

fn contains_flag(args: &Vec<String>, flag: &str) -> (r: bool)
    ensures
        r == has_flag(args@, flag@),
{
    let wanted = chars_of(flag);
    for i in 0..args.len()
        invariant
            wanted@ == flag@,
            forall|j: int| 0 <= j < i ==> (#[trigger] args@[j])@ != flag@,
    {
        let arg = chars_of(args[i].as_str());
        assert(arg@.subrange(0, arg@.len() as int) == arg@);
        if arg.len() == wanted.len() && stands_at(&arg, &wanted, 0) {
            return true;
        }
    }
    false
}

/// What the arguments ask for. Chatting with a checkpoint takes precedence; training is what is
/// done without a flag.
pub fn select_mode(args: &Vec<String>) -> (r: Mode)
    ensures
        r == if has_flag(args@, "--chat-checkpoint"@) {
            Mode::ChatCheckpoint
        } else if has_flag(args@, "--chat"@) {
            Mode::Chat
        } else {
            Mode::Train
        },
{
    if contains_flag(args, "--chat-checkpoint") {
        Mode::ChatCheckpoint
    } else if contains_flag(args, "--chat") {
        Mode::Chat
    } else {
        Mode::Train
    }
}

/// Argument `i`, or `default` where there are not so many.
pub fn argument_or(args: &Vec<String>, i: usize, default: &str) -> (r: String)
    ensures
        r@ == if i < args@.len() {
            args@[i as int]@
        } else {
            default@
        },
{
    if i < args.len() {
        args[i].clone()
    } else {
        default.to_owned()
    }
}

/// A flag is found wherever it stands among the arguments, and only if it stands there letter for
/// letter.
pub proof fn law_flags_are_found_anywhere(
    before: Seq<String>,
    arg: String,
    after: Seq<String>,
    flag: Seq<char>,
)
    ensures
        !has_flag(Seq::empty(), flag),
        has_flag(before + seq![arg] + after, flag) <==> has_flag(before, flag) || arg@ == flag
            || has_flag(after, flag),
{
    let all = before + seq![arg] + after;
    let n = before.len() as int;
    if has_flag(all, flag) {
        let i = choose|i: int| 0 <= i < all.len() && (#[trigger] all[i])@ == flag;
        if i < n {
            assert(before[i]@ == flag);
        } else if i > n {
            assert(after[i - n - 1]@ == flag);
        }
    }
    if has_flag(before, flag) {
        let i = choose|i: int| 0 <= i < before.len() && (#[trigger] before[i])@ == flag;
        assert(all[i]@ == flag);
    }
    if arg@ == flag {
        assert(all[n]@ == flag);
    }
    if has_flag(after, flag) {
        let i = choose|i: int| 0 <= i < after.len() && (#[trigger] after[i])@ == flag;
        assert(all[n + 1 + i]@ == flag);
    }
}

} // verus!
