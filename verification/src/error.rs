//! The errors of the decoders, and what goes with a result in contracts.

use vstd::prelude::*;

verus! {

/// The part of the format a decoder was reading when it gave up.
#[derive(Clone, Copy, Debug, PartialEq, Eq, Structural)]
pub enum Stage {
    /// The stage header in front of the payload.
    Container,
    /// The Burrows-Wheeler transform.
    Bwt,
    /// Move-to-front coding.
    Mtf,
    /// Run-length coding.
    Rle,
    /// Huffman coding.
    Huff,
}

/// What was wrong with the bytes.
#[derive(Clone, Copy, Debug, PartialEq, Eq, Structural)]
pub enum Fault {
    /// No `|` separates a header from its payload.
    MissingSeparator,
    /// A byte of the stage header names no stage.
    UnknownStage,
    /// The header is not an integer in base 36.
    BadHeader,
    /// An index points past the end of what it indexes.
    IndexOutOfRange,
    /// The byte that closes the alphabet never comes.
    MissingTerminator,
    /// The buffer ends before a declared length is reached.
    Truncated,
    /// A traversal record is tagged neither leaf nor internal.
    BadNodeTag,
    /// The two traversals do not describe one tree.
    BadTraversal,
    /// The bit stream walks off the code tree.
    BadTree,
}

/// A decoder's refusal: which stage met which fault.
#[derive(Clone, Copy, Debug, PartialEq, Eq, Structural)]
pub struct ParseError {
    pub stage: Stage,
    pub fault: Fault,
}

/// What a decoder returned, with the buffer taken by its view.
pub open spec fn result_view(r: Result<Vec<u8>, ParseError>) -> Result<Seq<u8>, ParseError> {
    match r {
        Ok(v) => Ok(v@),
        Err(e) => Err(e),
    }
}

/// `head` in front of what `rest` holds, where it holds something.
pub open spec fn led_by<T>(head: Seq<T>, rest: Result<Seq<T>, Fault>) -> Result<Seq<T>, Fault> {
    match rest {
        Ok(tail) => Ok(head + tail),
        Err(fault) => Err(fault),
    }
}

/// Putting two heads in front, one after the other, is putting their
/// concatenation in front.
pub proof fn lemma_led_by_twice<T>(a: Seq<T>, b: Seq<T>, rest: Result<Seq<T>, Fault>)
    ensures
        led_by(a, led_by(b, rest)) == led_by(a + b, rest),
{
    if let Ok(tail) = rest {
        assert(a + (b + tail) =~= (a + b) + tail);
    }
}

/// Nothing in front changes nothing.
pub proof fn lemma_led_by_nothing<T>(rest: Result<Seq<T>, Fault>)
    ensures
        led_by(Seq::<T>::empty(), rest) == rest,
{
    if let Ok(tail) = rest {
        assert(Seq::<T>::empty() + tail =~= tail);
    }
}

/// `tail` behind what `front` holds, where it holds something.
pub open spec fn followed_by<T>(front: Result<Seq<T>, Fault>, tail: Seq<T>) -> Result<
    Seq<T>,
    Fault,
> {
    match front {
        Ok(head) => Ok(head + tail),
        Err(fault) => Err(fault),
    }
}

/// Nothing behind changes nothing.
pub proof fn lemma_followed_by_nothing<T>(front: Result<Seq<T>, Fault>)
    ensures
        followed_by(front, Seq::<T>::empty()) == front,
{
    if let Ok(head) = front {
        assert(head + Seq::<T>::empty() =~= head);
    }
}

/// Putting two tails behind, one after the other, is putting their
/// concatenation behind.
pub proof fn lemma_followed_by_twice<T>(front: Result<Seq<T>, Fault>, a: Seq<T>, b: Seq<T>)
    ensures
        followed_by(followed_by(front, a), b) == followed_by(front, a + b),
{
    if let Ok(head) = front {
        assert((head + a) + b =~= head + (a + b));
    }
}

/// The answer of stage `stage` for what its parser found.
pub open spec fn staged(stage: Stage, found: Result<Seq<u8>, Fault>) -> Result<
    Seq<u8>,
    ParseError,
> {
    match found {
        Ok(bytes) => Ok(bytes),
        Err(fault) => Err(ParseError { stage, fault }),
    }
}

impl ParseError {
    /// A one-line description for whoever reports the failure.
    pub fn message(&self) -> (text: &'static str)
        ensures
            text@ == Self::text_of(self.fault),
    {
        match self.fault {
            Fault::MissingSeparator => "no '|' separator found",
            Fault::UnknownStage => "unknown stage tag in the header",
            Fault::BadHeader => "header is not a base-36 number",
            Fault::IndexOutOfRange => "index out of range",
            Fault::MissingTerminator => "alphabet terminator not found",
            Fault::Truncated => "buffer ends too early",
            Fault::BadNodeTag => "unexpected tag in a tree record",
            Fault::BadTraversal => "traversals do not describe a tree",
            Fault::BadTree => "bit stream leaves the code tree",
        }
    }

    /// The description of each fault.
    pub open spec fn text_of(fault: Fault) -> Seq<char> {
        match fault {
            Fault::MissingSeparator => "no '|' separator found"@,
            Fault::UnknownStage => "unknown stage tag in the header"@,
            Fault::BadHeader => "header is not a base-36 number"@,
            Fault::IndexOutOfRange => "index out of range"@,
            Fault::MissingTerminator => "alphabet terminator not found"@,
            Fault::Truncated => "buffer ends too early"@,
            Fault::BadNodeTag => "unexpected tag in a tree record"@,
            Fault::BadTraversal => "traversals do not describe a tree"@,
            Fault::BadTree => "bit stream leaves the code tree"@,
        }
    }
}

} // verus!
