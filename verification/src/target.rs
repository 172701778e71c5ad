//! The encoding target: a write-then-finish buffer capability that
//! query-string encoders append to. Exactly one finish is valid per
//! instance; later writes and a second finish are rejected.

use vstd::prelude::*;
use vstd::string::*;

verus! {

#[derive(Clone, Copy, Debug, PartialEq, Eq, Structural)]
pub enum TargetError {
    /// The target was already finished; no further use is valid.
    AlreadyFinished,
}

/// A growable text buffer with a consumed/sentinel state enforcing the
/// single-finish rule. Its model is the accumulated content and whether the
/// target is finished.
pub struct EncodingTarget {
    buf: String,
    finished: bool,
}

impl View for EncodingTarget {
    type V = (Seq<char>, bool);

    closed spec fn view(&self) -> (Seq<char>, bool) {
        (self.buf@, self.finished)
    }
}

/// What one finish call does to the model: on a live target it returns the
/// content and marks the target finished; on a finished target it fails.
pub open spec fn finish_model(t: (Seq<char>, bool)) -> ((Seq<char>, bool), Result<
    Seq<char>,
    TargetError,
>) {
    if t.1 {
        (t, Err(TargetError::AlreadyFinished))
    } else {
        ((t.0, true), Ok(t.0))
    }
}

/// A target is single-use: whatever the state, finishing what one finish
/// call left behind always fails with `AlreadyFinished`.
pub proof fn lemma_finish_single_use(t: (Seq<char>, bool))
    ensures
        finish_model(finish_model(t).0).1 == Err::<Seq<char>, TargetError>(
            TargetError::AlreadyFinished,
        ),
{
}

impl EncodingTarget {
    /// A fresh, empty, unfinished target.
    pub fn new() -> (r: EncodingTarget)
        ensures
            r@ == (Seq::<char>::empty(), false),
    {
        EncodingTarget { buf: String::new(), finished: false }
    }

    /// Append text through the buffer handle. Writing to a finished target
    /// fails and changes nothing.
    pub fn push_str(&mut self, s: &str) -> (r: Result<(), TargetError>)
        ensures
            old(self)@.1 ==> r == Err::<(), TargetError>(TargetError::AlreadyFinished)
                && final(self)@ == old(self)@,
            !old(self)@.1 ==> r == Ok::<(), TargetError>(()) && final(self)@ == (
            old(self)@.0 + s@,
            false,
            ),
    {
        if self.finished {
            Err(TargetError::AlreadyFinished)
        } else {
            self.buf.append(s);
            Ok(())
        }
    }

    /// Finish the target, returning its accumulated content. Exactly one
    /// finish call is valid: a second one fails with `AlreadyFinished`.
    pub fn finish(&mut self) -> (r: Result<String, TargetError>)
        ensures
            final(self)@ == finish_model(old(self)@).0,
            (match r {
                Ok(c) => finish_model(old(self)@).1 == Ok::<Seq<char>, TargetError>(c@),
                Err(e) => finish_model(old(self)@).1 == Err::<Seq<char>, TargetError>(e),
            }),
    {
        if self.finished {
            Err(TargetError::AlreadyFinished)
        } else {
            self.finished = true;
            Ok(self.buf.clone())
        }
    }
}

} // verus!
