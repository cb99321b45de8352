//! What an experiment says of a claim.

use vstd::prelude::*;

verus! {

/// What an experiment says of a claim.
#[derive(Clone, Copy, PartialEq, Eq, Structural, Debug)]
pub enum Verdict {
    /// The claim was tested and held.
    Holds,
    /// The claim was tested and did not hold.
    Fails,
    /// The run did not reach what the claim is about.
    NotExercised,
}

/// The verdict on a claim that was tested or not, and held or not.
pub open spec fn verdict_of(exercised: bool, holds: bool) -> Verdict {
    if !exercised {
        Verdict::NotExercised
    } else if holds {
        Verdict::Holds
    } else {
        Verdict::Fails
    }
}

/// The verdict on a claim that was tested or not, and held or not.
pub fn verdict(exercised: bool, holds: bool) -> (v: Verdict)
    ensures
        v == verdict_of(exercised, holds),
{
    if !exercised {
        Verdict::NotExercised
    } else if holds {
        Verdict::Holds
    } else {
        Verdict::Fails
    }
}

/// A claim that was not tested is never said to hold or to fail, and one that was is
/// said to hold exactly if it did.
pub proof fn lemma_verdict_says(exercised: bool, holds: bool)
    ensures
        verdict_of(exercised, holds) is NotExercised <==> !exercised,
        verdict_of(exercised, holds) is Holds <==> exercised && holds,
        verdict_of(exercised, holds) is Fails <==> exercised && !holds,
{
}

/// What the comparison of two samples says of the first.
#[derive(Clone, Copy, PartialEq, Eq, Structural, Debug)]
pub enum Comparison {
    /// It is greater, by more than chance.
    Greater,
    /// It is less, by more than chance.
    Less,
    /// Nothing tells them apart.
    NoDifference,
}

/// The verdict on a claim of more, by at least what is asked for.
pub fn gains(c: Comparison, enough: bool) -> (v: Verdict)
    ensures
        v == verdict_of(true, c is Greater && enough),
{
    match c {
        Comparison::Greater => verdict(true, enough),
        Comparison::Less | Comparison::NoDifference => Verdict::Fails,
    }
}

/// The verdict on a claim of no loss: where nothing tells the two apart, it
/// holds.
pub fn loses_nothing(c: Comparison) -> (v: Verdict)
    ensures
        v == verdict_of(true, !(c is Less)),
{
    match c {
        Comparison::Less => Verdict::Fails,
        Comparison::Greater | Comparison::NoDifference => Verdict::Holds,
    }
}

/// The verdict on a claim that nothing changes.
pub fn changes_nothing(c: Comparison) -> (v: Verdict)
    ensures
        v == verdict_of(true, c is NoDifference),
{
    match c {
        Comparison::NoDifference => Verdict::Holds,
        Comparison::Greater | Comparison::Less => Verdict::Fails,
    }
}

/// The verdict on a claim that neither of two things changes.
pub fn neither_changes(a: Comparison, b: Comparison) -> (v: Verdict)
    ensures
        v == verdict_of(true, a is NoDifference && b is NoDifference),
{
    match a {
        Comparison::NoDifference => changes_nothing(b),
        Comparison::Greater | Comparison::Less => Verdict::Fails,
    }
}

/// The verdict on a claim that one thing does not change while another stays
/// close.
pub fn changes_nothing_while(c: Comparison, close: bool) -> (v: Verdict)
    ensures
        v == verdict_of(true, c is NoDifference && close),
{
    match c {
        Comparison::NoDifference => verdict(true, close),
        Comparison::Greater | Comparison::Less => Verdict::Fails,
    }
}

/// The verdict on a claim of at least a share: it holds where the share is
/// reached, and where nothing shows a loss.
pub fn keeps_share(c: Comparison, reached: bool) -> (v: Verdict)
    ensures
        v == verdict_of(true, reached || !(c is Less)),
{
    if reached {
        Verdict::Holds
    } else {
        loses_nothing(c)
    }
}

/// The verdict on a claim that two others hold.
pub fn both_hold(a: Verdict, b: Verdict) -> (v: Verdict)
    ensures
        v == verdict_of(true, a is Holds && b is Holds),
{
    match (a, b) {
        (Verdict::Holds, Verdict::Holds) => Verdict::Holds,
        _ => Verdict::Fails,
    }
}

/// The verdict on a claim of no gain, or, of what is a cost, of no more of it.
pub fn is_no_more(c: Comparison) -> (v: Verdict)
    ensures
        v == verdict_of(true, !(c is Greater)),
{
    match c {
        Comparison::Greater => Verdict::Fails,
        Comparison::Less | Comparison::NoDifference => Verdict::Holds,
    }
}

} // verus!
