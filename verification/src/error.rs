use vstd::prelude::*;

verus! {

/// Everything that can go wrong between a history text and a finished draw.
#[derive(Clone, Copy, Debug, PartialEq, Eq, Structural)]
pub enum LottoError {
    /// The history holds no observation at all.
    EmptyHistory,
    /// A data line does not hold the expected count of numbers, or holds a
    /// number that does not fit the value type.
    MalformedLine,
    /// No candidate with a positive weight is left to sample.
    AllWeightsZero,
    /// A range was given with its lower bound above its upper bound, or a
    /// line layout whose position lies outside its group.
    InvalidRange,
    /// The inverse policy met a candidate that was never observed.
    UndefinedWeight,
    /// The weights of the table do not add up within 64 bits.
    WeightOverflow,
}

impl LottoError {
    /// A short message for the user.
    pub fn message(&self) -> (s: &'static str)
        ensures
            s@ == error_text(*self),
    {
        match self {
            LottoError::EmptyHistory => "no observations in the draw history",
            LottoError::MalformedLine => "a data line does not hold the expected numbers",
            LottoError::AllWeightsZero => "no candidate with a positive weight is left",
            LottoError::InvalidRange => "a range or layout is empty",
            LottoError::UndefinedWeight => "inverse weighting met a value that was never drawn",
            LottoError::WeightOverflow => "the weights do not add up within 64 bits",
        }
    }
}

/// The text that [`LottoError::message`] returns for each error.
pub open spec fn error_text(e: LottoError) -> Seq<char> {
    match e {
        LottoError::EmptyHistory => "no observations in the draw history"@,
        LottoError::MalformedLine => "a data line does not hold the expected numbers"@,
        LottoError::AllWeightsZero => "no candidate with a positive weight is left"@,
        LottoError::InvalidRange => "a range or layout is empty"@,
        LottoError::UndefinedWeight => "inverse weighting met a value that was never drawn"@,
        LottoError::WeightOverflow => "the weights do not add up within 64 bits"@,
    }
}

} // verus!
