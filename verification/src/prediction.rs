//! Predictions, and how they are shown.

use crate::number::{is_product, is_text, is_whole, shown, Number};
use vstd::prelude::*;

verus! {

/// A predicted command.
#[derive(Debug, Clone, PartialEq)]
pub struct Prediction<N> {
    /// The command.
    pub command: String,
    /// The probability that it comes next, which smoothing keeps above zero.
    pub confidence: N,
}

/// The predictions for what follows a command.
#[derive(Debug, Clone)]
pub struct PredictionResult<N> {
    /// The command that was just run.
    pub current_command: String,
    /// The predictions, the most likely first.
    pub predictions: Vec<Prediction<N>>,
    /// The number of commands known.
    pub num_states: usize,
    /// The number of transitions recorded.
    pub total_transitions: u64,
}

/// The commands of `predictions`.
pub open spec fn commands_of<N>(predictions: Seq<Prediction<N>>) -> Seq<Seq<char>> {
    predictions.map_values(|p: Prediction<N>| p.command@)
}

/// The confidences of `predictions`.
pub open spec fn confidences_of<N>(predictions: Seq<Prediction<N>>) -> Seq<N> {
    predictions.map_values(|p: Prediction<N>| p.confidence)
}

/// The texts in `parts`, with `separator` between each two.
pub open spec fn joined(parts: Seq<Seq<char>>, separator: Seq<char>) -> Seq<char>
    decreases parts.len(),
{
    if parts.len() == 0 {
        Seq::empty()
    } else {
        let head = joined(parts.drop_last(), separator);
        if parts.len() == 1 {
            head + parts.last()
        } else {
            head + separator + parts.last()
        }
    }
}

/// The commands of `predictions` on one line.
pub open spec fn ghost_line<N>(predictions: Seq<Prediction<N>>) -> Seq<char> {
    joined(commands_of(predictions), "  "@)
}

/// `label` is the command with its confidence in percent.
pub open spec fn is_label<N: Number>(prediction: Prediction<N>, label: Seq<char>) -> bool {
    exists|hundred: N, percent: N, figure: Seq<char>|
        is_whole(100, hundred) && #[trigger] is_product(prediction.confidence, hundred, percent)
            && #[trigger] is_text(percent, 1, figure) && label == prediction.command@ + " ("@
            + figure + "%)"@
}

/// `labels` are the labels of `predictions`.
pub open spec fn are_labels<N: Number>(
    predictions: Seq<Prediction<N>>,
    labels: Seq<Seq<char>>,
) -> bool {
    &&& labels.len() == predictions.len()
    &&& forall|i: int| 0 <= i < labels.len() ==> is_label(predictions[i], #[trigger] labels[i])
}

/// The lines that show `labels`, each behind an arrow and on a line of its own.
pub open spec fn arrow_lines(labels: Seq<Seq<char>>) -> Seq<char>
    decreases labels.len(),
{
    if labels.len() == 0 {
        Seq::empty()
    } else {
        arrow_lines(labels.drop_last()) + "\n  → "@ + labels.last()
    }
}

/// `text` explains the predictions for what follows `current`, line by line.
pub open spec fn is_explanation<N: Number>(
    current: Seq<char>,
    predictions: Seq<Prediction<N>>,
    text: Seq<char>,
) -> bool {
    exists|labels: Seq<Seq<char>>| #[trigger]
        are_labels(predictions, labels) && text == "After `"@ + current + "`:"@ + arrow_lines(
            labels,
        )
}

impl<N: Number> Prediction<N> {
    /// The command with its confidence in percent.
    pub fn to_text(&self) -> (label: String)
        ensures
            is_label(*self, label@),
    {
        let hundred = N::from_u64(100);
        let percent = self.confidence.times(hundred);
        let figure = shown(percent, 1);
        let mut label = self.command.clone();
        label.append(" (");
        label.append(figure.as_str());
        label.append("%)");
        proof {
            assert(is_whole(100, hundred));
            assert(is_product(self.confidence, hundred, percent));
            assert(is_text(percent, 1, figure@));
        }
        label
    }
}

impl<N: Number> PredictionResult<N> {
    /// The predicted commands on one line.
    pub fn ghost_text(&self) -> (text: String)
        ensures
            text@ == ghost_line(self.predictions@),
    {
        let ghost commands = commands_of(self.predictions@);
        let mut text = String::new();
        assert(commands.take(0) =~= Seq::<Seq<char>>::empty());
        for i in 0..self.predictions.len()
            invariant
                commands == commands_of(self.predictions@),
                text@ == joined(commands.take(i as int), "  "@),
        {
            if i > 0 {
                text.append("  ");
            }
            text.append(self.predictions[i].command.as_str());
            proof {
                let longer = commands.take(i + 1);
                assert(longer.drop_last() =~= commands.take(i as int));
                assert(longer.last() == self.predictions@[i as int].command@);
                assert(text@ =~= joined(longer, "  "@));
            }
        }
        assert(commands.take(commands.len() as int) =~= commands);
        text
    }

    /// The predictions with their confidences, one to a line.
    pub fn detailed(&self) -> (text: String)
        ensures
            is_explanation(self.current_command@, self.predictions@, text@),
    {
        let mut text = "After `".to_owned();
        text.append(self.current_command.as_str());
        text.append("`:");
        let ghost head = text@;
        let ghost mut labels: Seq<Seq<char>> = Seq::empty();
        assert(text@ =~= head + arrow_lines(labels));
        for i in 0..self.predictions.len()
            invariant
                labels.len() == i,
                forall|j: int|
                    0 <= j < i ==> is_label(self.predictions@[j], #[trigger] labels[j]),
                text@ == head + arrow_lines(labels),
        {
            let label = self.predictions[i].to_text();
            text.append("\n  → ");
            text.append(label.as_str());
            proof {
                let longer = labels.push(label@);
                assert(longer.drop_last() =~= labels);
                assert(text@ =~= head + arrow_lines(longer));
                labels = longer;
            }
        }
        assert(are_labels(self.predictions@, labels));
        text
    }
}

} // verus!
