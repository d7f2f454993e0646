//! What the messages say.
use vstd::prelude::*;

use crate::violation::Violation;

verus! {

/// Length, first letter and twentieth letter of a message, which tell the
/// messages apart.
spec fn mark(v: Violation) -> (int, char, char) {
    match v {
        Violation::MeanEmpty => (22, 'm', 'p'),
        Violation::MeanNotFinite => (19, 'm', ' '),
        Violation::CovarianceRows => (45, 'c', 'e'),
        Violation::CovarianceNotSquare => (25, 'c', 's'),
        Violation::CovarianceNotFinite => (25, 'c', 'f'),
        Violation::WeightEmpty => (40, 'w', ' '),
        Violation::BiasLength => (34, 'b', 't'),
        Violation::WeightColumns => (37, 'w', ' '),
        Violation::WeightNotFinite => (21, 'w', 't'),
        Violation::BiasNotFinite => (19, 'b', ' '),
        Violation::Variance => (40, 'v', 'n'),
        Violation::InputMeanEmpty => (28, 'i', 'n'),
        Violation::InputDeviationLength => (39, 'i', 's'),
        Violation::InputMeanNotFinite => (25, 'i', 'f'),
        Violation::InputDeviation => (80, 'i', 'i'),
        Violation::MomentsShapes => (35, 'm', 'h'),
        Violation::MomentsFormats => (42, 'm', 'u'),
        Violation::OperandFormats => (33, 'o', 't'),
        Violation::InputWidth => (34, 'i', 't'),
        Violation::BiasWidth => (34, 'b', 'c'),
        Violation::WeightShapes => (42, 'w', 'i'),
        Violation::BiasShapes => (40, 'b', 'n'),
        Violation::BiasWidths => (35, 'b', 't'),
        Violation::ResidualShapes => (26, 'r', 't'),
        Violation::ResidualCrossShape => (43, 'c', 'a'),
        Violation::ConvolutionShapes => (47, 'c', 'd'),
        Violation::ConvolutionFit => (55, 'c', ' '),
        Violation::CovarianceShape => (34, 'c', 's'),
        Violation::CovarianceFormats => (44, 'm', ' '),
        Violation::FeatureCount => (43, 's', 'n'),
        Violation::CrossWeight => (56, 'c', 'g'),
        Violation::CrossMean => (41, 'c', 's'),
        Violation::CrossVariance => (41, 'r', 'a'),
        Violation::CauchyShapes => (36, 'l', 's'),
        Violation::CauchyFormats => (43, 'l', 'm'),
        Violation::ProbabilityMass => (45, 'p', 's'),
        Violation::IntervalCoefficient => (68, 'i', 't'),
        Violation::Slope => (31, 'l', 's'),
        Violation::SlopeCoefficients => (78, 'l', 'o'),
    }
}

/// The mark of a message is what it says.
proof fn lemma_mark(v: Violation)
    ensures
        v.text().len() == mark(v).0,
        v.text().len() > 0,
        v.text()[0] == mark(v).1,
        v.text().len() > 19 ==> v.text()[19] == mark(v).2,
{
    match v {
        Violation::MeanEmpty => {
            reveal_strlit("mean must be non-empty");
        },
        Violation::MeanNotFinite => {
            reveal_strlit("mean must be finite");
        },
        Violation::CovarianceRows => {
            reveal_strlit("covariance must have one row per mean element");
        },
        Violation::CovarianceNotSquare => {
            reveal_strlit("covariance must be square");
        },
        Violation::CovarianceNotFinite => {
            reveal_strlit("covariance must be finite");
        },
        Violation::WeightEmpty => {
            reveal_strlit("weight must have at least one output row");
        },
        Violation::BiasLength => {
            reveal_strlit("bias length must match weight rows");
        },
        Violation::WeightColumns => {
            reveal_strlit("weight columns must match mean length");
        },
        Violation::WeightNotFinite => {
            reveal_strlit("weight must be finite");
        },
        Violation::BiasNotFinite => {
            reveal_strlit("bias must be finite");
        },
        Violation::Variance => {
            reveal_strlit("variance must be finite and non-negative");
        },
        Violation::InputMeanEmpty => {
            reveal_strlit("input mean must be non-empty");
        },
        Violation::InputDeviationLength => {
            reveal_strlit("input std length must match mean length");
        },
        Violation::InputMeanNotFinite => {
            reveal_strlit("input mean must be finite");
        },
        Violation::InputDeviation => {
            reveal_strlit("input std must be finite and non-negative, with a representable squared variance");
        },
        Violation::MomentsShapes => {
            reveal_strlit("mean and variance shapes must match");
        },
        Violation::MomentsFormats => {
            reveal_strlit("mean and variance must have the same dtype");
        },
        Violation::OperandFormats => {
            reveal_strlit("operands must have the same dtype");
        },
        Violation::InputWidth => {
            reveal_strlit("input width must match weight rows");
        },
        Violation::BiasWidth => {
            reveal_strlit("bias shape must match output width");
        },
        Violation::WeightShapes => {
            reveal_strlit("weight mean and variance shapes must match");
        },
        Violation::BiasShapes => {
            reveal_strlit("bias mean and variance shapes must match");
        },
        Violation::BiasWidths => {
            reveal_strlit("bias shapes must match output width");
        },
        Violation::ResidualShapes => {
            reveal_strlit("residual shapes must match");
        },
        Violation::ResidualCrossShape => {
            reveal_strlit("cross-covariance shape must match residuals");
        },
        Violation::ConvolutionShapes => {
            reveal_strlit("convolution mean and variance shapes must match");
        },
        Violation::ConvolutionFit => {
            reveal_strlit("convolution weight, bias and options must fit the input");
        },
        Violation::CovarianceShape => {
            reveal_strlit("covariance shape must be [n, d, d]");
        },
        Violation::CovarianceFormats => {
            reveal_strlit("mean and covariance must have the same dtype");
        },
        Violation::FeatureCount => {
            reveal_strlit("squared feature count must be representable");
        },
        Violation::CrossWeight => {
            reveal_strlit("cross-covariance right features must match weight inputs");
        },
        Violation::CrossMean => {
            reveal_strlit("cross-covariance must match right moments");
        },
        Violation::CrossVariance => {
            reveal_strlit("right mean and variance shapes must match");
        },
        Violation::CauchyShapes => {
            reveal_strlit("location and scale shapes must match");
        },
        Violation::CauchyFormats => {
            reveal_strlit("location and scale must have the same dtype");
        },
        Violation::ProbabilityMass => {
            reveal_strlit("probability mass must be finite and in [0, 1)");
        },
        Violation::IntervalCoefficient => {
            reveal_strlit("interval coefficient must be finite and representable by the backend");
        },
        Violation::Slope => {
            reveal_strlit("leaky-ReLU slope must be finite");
        },
        Violation::SlopeCoefficients => {
            reveal_strlit("leaky-ReLU moment coefficients must be finite and representable by the backend");
        },
    }
}

/// Different requirements have different marks.
proof fn lemma_marks_differ(v: Violation, w: Violation)
    requires
        mark(v).0 == mark(w).0,
        mark(v).1 == mark(w).1,
        mark(v).0 > 19 ==> mark(v).2 == mark(w).2,
    ensures
        v == w,
{
}

/// Each requirement is put in words of its own: a message tells which
/// requirement does not hold.
pub proof fn law_messages_differ(v: Violation, w: Violation)
    ensures
        v.text() == w.text() <==> v == w,
        v.text().len() > 0,
{
    lemma_mark(v);
    lemma_mark(w);
    if v.text() == w.text() {
        lemma_marks_differ(v, w);
    }
}

/// The words of each requirement.
pub proof fn law_messages(v: Violation)
    ensures
        v == Violation::MeanEmpty ==> v.text() == "mean must be non-empty"@,
        v == Violation::MeanNotFinite ==> v.text() == "mean must be finite"@,
        v == Violation::CovarianceRows ==> v.text() == "covariance must have one row per mean element"@,
        v == Violation::CovarianceNotSquare ==> v.text() == "covariance must be square"@,
        v == Violation::CovarianceNotFinite ==> v.text() == "covariance must be finite"@,
        v == Violation::WeightEmpty ==> v.text() == "weight must have at least one output row"@,
        v == Violation::BiasLength ==> v.text() == "bias length must match weight rows"@,
        v == Violation::WeightColumns ==> v.text() == "weight columns must match mean length"@,
        v == Violation::WeightNotFinite ==> v.text() == "weight must be finite"@,
        v == Violation::BiasNotFinite ==> v.text() == "bias must be finite"@,
        v == Violation::Variance ==> v.text() == "variance must be finite and non-negative"@,
        v == Violation::InputMeanEmpty ==> v.text() == "input mean must be non-empty"@,
        v == Violation::InputDeviationLength ==> v.text() == "input std length must match mean length"@,
        v == Violation::InputMeanNotFinite ==> v.text() == "input mean must be finite"@,
        v == Violation::InputDeviation ==> v.text() == "input std must be finite and non-negative, with a representable squared variance"@,
        v == Violation::MomentsShapes ==> v.text() == "mean and variance shapes must match"@,
        v == Violation::MomentsFormats ==> v.text() == "mean and variance must have the same dtype"@,
        v == Violation::OperandFormats ==> v.text() == "operands must have the same dtype"@,
        v == Violation::InputWidth ==> v.text() == "input width must match weight rows"@,
        v == Violation::BiasWidth ==> v.text() == "bias shape must match output width"@,
        v == Violation::WeightShapes ==> v.text() == "weight mean and variance shapes must match"@,
        v == Violation::BiasShapes ==> v.text() == "bias mean and variance shapes must match"@,
        v == Violation::BiasWidths ==> v.text() == "bias shapes must match output width"@,
        v == Violation::ResidualShapes ==> v.text() == "residual shapes must match"@,
        v == Violation::ResidualCrossShape ==> v.text() == "cross-covariance shape must match residuals"@,
        v == Violation::ConvolutionShapes ==> v.text() == "convolution mean and variance shapes must match"@,
        v == Violation::ConvolutionFit ==> v.text() == "convolution weight, bias and options must fit the input"@,
        v == Violation::CovarianceShape ==> v.text() == "covariance shape must be [n, d, d]"@,
        v == Violation::CovarianceFormats ==> v.text() == "mean and covariance must have the same dtype"@,
        v == Violation::FeatureCount ==> v.text() == "squared feature count must be representable"@,
        v == Violation::CrossWeight ==> v.text() == "cross-covariance right features must match weight inputs"@,
        v == Violation::CrossMean ==> v.text() == "cross-covariance must match right moments"@,
        v == Violation::CrossVariance ==> v.text() == "right mean and variance shapes must match"@,
        v == Violation::CauchyShapes ==> v.text() == "location and scale shapes must match"@,
        v == Violation::CauchyFormats ==> v.text() == "location and scale must have the same dtype"@,
        v == Violation::ProbabilityMass ==> v.text() == "probability mass must be finite and in [0, 1)"@,
        v == Violation::IntervalCoefficient ==> v.text() == "interval coefficient must be finite and representable by the backend"@,
        v == Violation::Slope ==> v.text() == "leaky-ReLU slope must be finite"@,
        v == Violation::SlopeCoefficients ==> v.text() == "leaky-ReLU moment coefficients must be finite and representable by the backend"@,
{
}

} // verus!
