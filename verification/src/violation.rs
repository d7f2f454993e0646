//! What makes an input unfit for propagation.
use vstd::prelude::*;

verus! {

/// A requirement on the inputs of a propagation step that does not hold.
#[derive(Clone, Copy, Debug, PartialEq, Eq, Structural)]
pub enum Violation {
    MeanEmpty,
    MeanNotFinite,
    CovarianceRows,
    CovarianceNotSquare,
    CovarianceNotFinite,
    WeightEmpty,
    BiasLength,
    WeightColumns,
    WeightNotFinite,
    BiasNotFinite,
    Variance,
    InputMeanEmpty,
    InputDeviationLength,
    InputMeanNotFinite,
    InputDeviation,
    MomentsShapes,
    MomentsFormats,
    OperandFormats,
    InputWidth,
    BiasWidth,
    WeightShapes,
    BiasShapes,
    BiasWidths,
    ResidualShapes,
    ResidualCrossShape,
    ConvolutionShapes,
    ConvolutionFit,
    CovarianceShape,
    CovarianceFormats,
    FeatureCount,
    CrossWeight,
    CrossMean,
    CrossVariance,
    CauchyShapes,
    CauchyFormats,
    ProbabilityMass,
    IntervalCoefficient,
    Slope,
    SlopeCoefficients,
}

impl Violation {
    /// The text of [`message`](Violation::message).
    pub open spec fn text(self) -> Seq<char> {
        match self {
            Violation::MeanEmpty => "mean must be non-empty"@,
            Violation::MeanNotFinite => "mean must be finite"@,
            Violation::CovarianceRows => "covariance must have one row per mean element"@,
            Violation::CovarianceNotSquare => "covariance must be square"@,
            Violation::CovarianceNotFinite => "covariance must be finite"@,
            Violation::WeightEmpty => "weight must have at least one output row"@,
            Violation::BiasLength => "bias length must match weight rows"@,
            Violation::WeightColumns => "weight columns must match mean length"@,
            Violation::WeightNotFinite => "weight must be finite"@,
            Violation::BiasNotFinite => "bias must be finite"@,
            Violation::Variance => "variance must be finite and non-negative"@,
            Violation::InputMeanEmpty => "input mean must be non-empty"@,
            Violation::InputDeviationLength => "input std length must match mean length"@,
            Violation::InputMeanNotFinite => "input mean must be finite"@,
            Violation::InputDeviation =>
                "input std must be finite and non-negative, with a representable squared variance"@,
            Violation::MomentsShapes => "mean and variance shapes must match"@,
            Violation::MomentsFormats => "mean and variance must have the same dtype"@,
            Violation::OperandFormats => "operands must have the same dtype"@,
            Violation::InputWidth => "input width must match weight rows"@,
            Violation::BiasWidth => "bias shape must match output width"@,
            Violation::WeightShapes => "weight mean and variance shapes must match"@,
            Violation::BiasShapes => "bias mean and variance shapes must match"@,
            Violation::BiasWidths => "bias shapes must match output width"@,
            Violation::ResidualShapes => "residual shapes must match"@,
            Violation::ResidualCrossShape => "cross-covariance shape must match residuals"@,
            Violation::ConvolutionShapes => "convolution mean and variance shapes must match"@,
            Violation::ConvolutionFit => "convolution weight, bias and options must fit the input"@,
            Violation::CovarianceShape => "covariance shape must be [n, d, d]"@,
            Violation::CovarianceFormats => "mean and covariance must have the same dtype"@,
            Violation::FeatureCount => "squared feature count must be representable"@,
            Violation::CrossWeight => "cross-covariance right features must match weight inputs"@,
            Violation::CrossMean => "cross-covariance must match right moments"@,
            Violation::CrossVariance => "right mean and variance shapes must match"@,
            Violation::CauchyShapes => "location and scale shapes must match"@,
            Violation::CauchyFormats => "location and scale must have the same dtype"@,
            Violation::ProbabilityMass => "probability mass must be finite and in [0, 1)"@,
            Violation::IntervalCoefficient => "interval coefficient must be finite and representable by the backend"@,
            Violation::Slope => "leaky-ReLU slope must be finite"@,
            Violation::SlopeCoefficients => "leaky-ReLU moment coefficients must be finite and representable by the backend"@,
        }
    }

    /// The requirement in words.
    pub fn message(self) -> (r: &'static str)
        ensures
            r@ == self.text(),
    {
        match self {
            Violation::MeanEmpty => "mean must be non-empty",
            Violation::MeanNotFinite => "mean must be finite",
            Violation::CovarianceRows => "covariance must have one row per mean element",
            Violation::CovarianceNotSquare => "covariance must be square",
            Violation::CovarianceNotFinite => "covariance must be finite",
            Violation::WeightEmpty => "weight must have at least one output row",
            Violation::BiasLength => "bias length must match weight rows",
            Violation::WeightColumns => "weight columns must match mean length",
            Violation::WeightNotFinite => "weight must be finite",
            Violation::BiasNotFinite => "bias must be finite",
            Violation::Variance => "variance must be finite and non-negative",
            Violation::InputMeanEmpty => "input mean must be non-empty",
            Violation::InputDeviationLength => "input std length must match mean length",
            Violation::InputMeanNotFinite => "input mean must be finite",
            Violation::InputDeviation =>
                "input std must be finite and non-negative, with a representable squared variance",
            Violation::MomentsShapes => "mean and variance shapes must match",
            Violation::MomentsFormats => "mean and variance must have the same dtype",
            Violation::OperandFormats => "operands must have the same dtype",
            Violation::InputWidth => "input width must match weight rows",
            Violation::BiasWidth => "bias shape must match output width",
            Violation::WeightShapes => "weight mean and variance shapes must match",
            Violation::BiasShapes => "bias mean and variance shapes must match",
            Violation::BiasWidths => "bias shapes must match output width",
            Violation::ResidualShapes => "residual shapes must match",
            Violation::ResidualCrossShape => "cross-covariance shape must match residuals",
            Violation::ConvolutionShapes => "convolution mean and variance shapes must match",
            Violation::ConvolutionFit => "convolution weight, bias and options must fit the input",
            Violation::CovarianceShape => "covariance shape must be [n, d, d]",
            Violation::CovarianceFormats => "mean and covariance must have the same dtype",
            Violation::FeatureCount => "squared feature count must be representable",
            Violation::CrossWeight => "cross-covariance right features must match weight inputs",
            Violation::CrossMean => "cross-covariance must match right moments",
            Violation::CrossVariance => "right mean and variance shapes must match",
            Violation::CauchyShapes => "location and scale shapes must match",
            Violation::CauchyFormats => "location and scale must have the same dtype",
            Violation::ProbabilityMass => "probability mass must be finite and in [0, 1)",
            Violation::IntervalCoefficient => "interval coefficient must be finite and representable by the backend",
            Violation::Slope => "leaky-ReLU slope must be finite",
            Violation::SlopeCoefficients => "leaky-ReLU moment coefficients must be finite and representable by the backend",
        }
    }
}

} // verus!
