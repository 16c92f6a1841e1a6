//! What can go wrong.
use crate::text::{decimal, join, numeral};
use vstd::prelude::*;

verus! {

/// Why a computation gave no result.
#[derive(Debug)]
pub enum ShapleyError {
    /// The input breaks a rule of the model.
    Validation(String),
    /// The solver of linear programs failed.
    LpSolver(String),
    /// Parts of the input contradict each other.
    DataInconsistency(String),
    /// There are more operators than coalitions can be enumerated for.
    TooManyOperators { count: usize, limit: usize },
    /// A city is labelled like a device.
    InvalidCityLabel(String),
    /// A link ends at a device that is not listed.
    MissingDevice(String),
    /// No public link reaches the node of a demand.
    UnreachableDemandNode(String),
    /// A number could not be computed.
    NumericalError(String),
    /// A matrix could not be put together.
    MatrixConstructionError(String),
    /// The caller asked for the computation to stop.
    Cancelled,
}

/// What a [`ShapleyError`] says.
pub enum Fault {
    Validation(Seq<char>),
    LpSolver(Seq<char>),
    DataInconsistency(Seq<char>),
    TooManyOperators { count: int, limit: int },
    InvalidCityLabel(Seq<char>),
    MissingDevice(Seq<char>),
    UnreachableDemandNode(Seq<char>),
    NumericalError(Seq<char>),
    MatrixConstructionError(Seq<char>),
    Cancelled,
}

impl View for ShapleyError {
    type V = Fault;

    open spec fn view(&self) -> Fault {
        match *self {
            ShapleyError::Validation(s) => Fault::Validation(s@),
            ShapleyError::LpSolver(s) => Fault::LpSolver(s@),
            ShapleyError::DataInconsistency(s) => Fault::DataInconsistency(s@),
            ShapleyError::TooManyOperators { count, limit } => Fault::TooManyOperators {
                count: count as int,
                limit: limit as int,
            },
            ShapleyError::InvalidCityLabel(s) => Fault::InvalidCityLabel(s@),
            ShapleyError::MissingDevice(s) => Fault::MissingDevice(s@),
            ShapleyError::UnreachableDemandNode(s) => Fault::UnreachableDemandNode(s@),
            ShapleyError::NumericalError(s) => Fault::NumericalError(s@),
            ShapleyError::MatrixConstructionError(s) => Fault::MatrixConstructionError(s@),
            ShapleyError::Cancelled => Fault::Cancelled,
        }
    }
}

/// The text that reports a fault.
pub open spec fn report(f: Fault) -> Seq<char> {
    match f {
        Fault::Validation(s) => "Validation error: "@ + s,
        Fault::LpSolver(s) => "LP solver error: "@ + s,
        Fault::DataInconsistency(s) => "Data inconsistency: "@ + s,
        Fault::TooManyOperators { count, limit } => "Too many operators: "@ + numeral(count as nat)
            + " (limit is "@ + numeral(limit as nat) + ")"@,
        Fault::InvalidCityLabel(s) => "Invalid city label: "@ + s,
        Fault::MissingDevice(s) => "Missing device: "@ + s,
        Fault::UnreachableDemandNode(s) => "Unreachable demand node: "@ + s,
        Fault::NumericalError(s) => "Numerical computation error: "@ + s,
        Fault::MatrixConstructionError(s) => "Matrix construction error: "@ + s,
        Fault::Cancelled => "computation cancelled"@,
    }
}

impl ShapleyError {
    /// The text that reports the error.
    pub fn message(&self) -> (r: String)
        ensures
            r@ == report(self@),
    {
        match self {
            ShapleyError::Validation(s) => join("Validation error: ", s.as_str()),
            ShapleyError::LpSolver(s) => join("LP solver error: ", s.as_str()),
            ShapleyError::DataInconsistency(s) => join("Data inconsistency: ", s.as_str()),
            ShapleyError::TooManyOperators { count, limit } => {
                let head = join("Too many operators: ", decimal(*count as u64).as_str());
                let middle = join(head.as_str(), " (limit is ");
                let tail = join(middle.as_str(), decimal(*limit as u64).as_str());
                join(tail.as_str(), ")")
            },
            ShapleyError::InvalidCityLabel(s) => join("Invalid city label: ", s.as_str()),
            ShapleyError::MissingDevice(s) => join("Missing device: ", s.as_str()),
            ShapleyError::UnreachableDemandNode(s) => join("Unreachable demand node: ", s.as_str()),
            ShapleyError::NumericalError(s) => join("Numerical computation error: ", s.as_str()),
            ShapleyError::MatrixConstructionError(s) => join(
                "Matrix construction error: ",
                s.as_str(),
            ),
            ShapleyError::Cancelled => "computation cancelled".to_owned(),
        }
    }
}

} // verus!
