//! What holds of every text that is shown.

use crate::decimal::decimal_text;
use crate::exact::is_exact;
use crate::number::{is_fraction, is_product, is_quotient, is_text, is_whole, Number};
use crate::prediction::{
    are_labels, arrow_lines, commands_of, ghost_line, is_explanation, is_label, joined, Prediction,
};
use crate::resource_predictor::{
    is_bytes_text, is_forecast, is_memory_text, is_warning_text, ResourceAvailability,
    ResourcePrediction, StatsView,
};
use crate::workflow_anomaly::Severity;
use vstd::prelude::*;

verus! {

/// The line of no predictions is empty, that of one is its command, and a further
/// one is put behind two spaces.
pub proof fn law_ghost_line_grows<N>(predictions: Seq<Prediction<N>>, next: Prediction<N>)
    ensures
        ghost_line(Seq::<Prediction<N>>::empty()).len() == 0,
        predictions.len() == 0 ==> ghost_line(predictions.push(next)) == next.command@,
        predictions.len() > 0 ==> ghost_line(predictions.push(next)) == ghost_line(predictions)
            + "  "@ + next.command@,
{
    let longer = commands_of(predictions.push(next));
    assert(longer.drop_last() =~= commands_of(predictions));
    assert(longer.last() == next.command@);
    if predictions.len() == 0 {
        assert(longer.drop_last() =~= Seq::<Seq<char>>::empty());
        assert(joined(longer.drop_last(), "  "@) =~= Seq::<char>::empty());
        assert(longer.len() == 1);
        assert(joined(longer, "  "@) =~= next.command@);
    }
    assert(commands_of(Seq::<Prediction<N>>::empty()) =~= Seq::<Seq<char>>::empty());
}

/// Without rounding, a prediction is shown as its command and, in brackets, a
/// hundred times its confidence with one decimal and a percent sign.
pub proof fn law_label_shows_percent<N: Number>(
    value: spec_fn(N) -> real,
    prediction: Prediction<N>,
    label: Seq<char>,
)
    requires
        is_exact(value),
        is_label(prediction, label),
    ensures
        exists|percent: N, figure: Seq<char>| #[trigger]
            is_text(percent, 1, figure) && value(percent) == value(prediction.confidence)
                * 100 as real && label == prediction.command@ + " ("@ + figure + "%)"@,
{
    let (hundred, percent, figure) = choose|hundred: N, percent: N, figure: Seq<char>|
        is_whole(100, hundred) && #[trigger] is_product(prediction.confidence, hundred, percent)
            && #[trigger] is_text(percent, 1, figure) && label == prediction.command@ + " ("@
            + figure + "%)"@;
    assert(is_text(percent, 1, figure));
    assert(value(hundred) == 100 as real);
}

/// An explanation names the current command, and each prediction adds a line of
/// its own with its label behind an arrow.
pub proof fn law_explanation_grows<N: Number>(
    current: Seq<char>,
    predictions: Seq<Prediction<N>>,
    next: Prediction<N>,
    text: Seq<char>,
)
    ensures
        is_explanation(current, Seq::<Prediction<N>>::empty(), text) ==> text == "After `"@
            + current + "`:"@,
        is_explanation(current, predictions.push(next), text) ==> exists|
            before: Seq<char>,
            label: Seq<char>,
        | #[trigger]
            is_explanation(current, predictions, before) && #[trigger] is_label(next, label)
                && text == before + "\n  → "@ + label,
{
    if is_explanation(current, Seq::<Prediction<N>>::empty(), text) {
        let labels = choose|labels: Seq<Seq<char>>| #[trigger]
            are_labels(Seq::<Prediction<N>>::empty(), labels) && text == "After `"@ + current
                + "`:"@ + arrow_lines(labels);
        assert(text =~= "After `"@ + current + "`:"@);
    }
    if is_explanation(current, predictions.push(next), text) {
        let longer = predictions.push(next);
        let labels = choose|labels: Seq<Seq<char>>| #[trigger]
            are_labels(longer, labels) && text == "After `"@ + current + "`:"@ + arrow_lines(
                labels,
            );
        let fewer = labels.drop_last();
        assert forall|i: int| 0 <= i < fewer.len() implies is_label(
            predictions[i],
            #[trigger] fewer[i],
        ) by {
            assert(is_label(longer[i], labels[i]));
        }
        assert(are_labels(predictions, fewer));
        assert(is_label(longer[predictions.len() as int], labels[predictions.len() as int]));
        let before = "After `"@ + current + "`:"@ + arrow_lines(fewer);
        assert(is_explanation(current, predictions, before));
        assert(is_label(next, labels.last()));
        assert(text =~= before + "\n  → "@ + labels.last());
    }
}

/// Each severity has its word.
pub proof fn law_severities_have_words()
    ensures
        Severity::Normal.word() == "normal"@,
        Severity::Mild.word() == "mild"@,
        Severity::Significant.word() == "significant"@,
        Severity::Dramatic.word() == "dramatic"@,
{
}

/// Without rounding, an amount of bytes is shown in the unit with one decimal.
proof fn lemma_bytes_text<N: Number>(
    value: spec_fn(N) -> real,
    bytes: u64,
    unit: u64,
    text: Seq<char>,
) -> (amount: N)
    requires
        is_exact(value),
        unit > 0,
        is_bytes_text::<N>(bytes, unit, text),
    ensures
        is_text(amount, 1, text),
        value(amount) * unit as real == bytes as real,
{
    let amount = choose|amount: N| #[trigger]
        is_fraction(bytes, unit, amount) && is_text(amount, 1, text);
    let (a, b) = choose|a: N, b: N|
        is_whole(bytes, a) && is_whole(unit, b) && #[trigger] is_quotient(a, b, amount);
    let x = bytes as real;
    let u = unit as real;
    assert(value(b) == u);
    assert(x / u * u == x) by (nonlinear_arith)
        requires
            u > 0 as real,
    ;
    amount
}

/// Without rounding, the warning of a prediction tells the memory that is needed
/// and the memory that is free, both in units of a thousand million bytes with
/// one decimal.
pub proof fn law_warning_tells_both_amounts<N: Number>(
    value: spec_fn(N) -> real,
    command: Seq<char>,
    stats: StatsView<N>,
    available: Option<ResourceAvailability>,
    prediction: ResourcePrediction,
)
    requires
        is_exact(value),
        is_forecast(command, stats, available, prediction),
        prediction.warning_message is Some,
    ensures
        exists|needed: N, free: N, needed_text: Seq<char>, free_text: Seq<char>| #[trigger]
            is_text(needed, 1, needed_text) && #[trigger] is_text(free, 1, free_text) && value(
                needed,
            ) * 1_000_000_000 as real == prediction.predicted_memory_bytes as real && value(free)
                * 1_000_000_000 as real == available->0.free_memory_bytes as real
                && prediction.warning_message->0@ == "This build typically uses "@ + needed_text
                + " GB. You have "@ + free_text + " GB free."@,
{
    let message = prediction.warning_message->0@;
    let bytes = prediction.predicted_memory_bytes;
    let room = available->0.free_memory_bytes;
    assert(is_warning_text::<N>(bytes, room, message));
    let (a, b) = choose|a: Seq<char>, b: Seq<char>| #[trigger]
        is_bytes_text::<N>(bytes, 1_000_000_000, a) && #[trigger] is_bytes_text::<N>(
            room,
            1_000_000_000,
            b,
        ) && message == "This build typically uses "@ + a + " GB. You have "@ + b + " GB free."@;
    let needed = lemma_bytes_text::<N>(value, bytes, 1_000_000_000, a);
    let free = lemma_bytes_text::<N>(value, room, 1_000_000_000, b);
    assert(is_text(needed, 1, a) && is_text(free, 1, b));
}

/// Without rounding, a prediction is shown with its command, the memory that is
/// needed in units of a thousand million bytes with one decimal, the number of
/// observations if there are any, and its warning on a line of its own if there
/// is one.
pub proof fn law_prediction_is_shown<N: Number>(
    value: spec_fn(N) -> real,
    prediction: ResourcePrediction,
    text: Seq<char>,
)
    requires
        is_exact(value),
        prediction.is_shown_as::<N>(text),
    ensures
        exists|needed: N, amount: Seq<char>| #[trigger]
            is_text(needed, 1, amount) && value(needed) * 1_000_000_000 as real
                == prediction.predicted_memory_bytes as real && ({
                let head = "`"@ + prediction.command@ + "` typically needs "@ + amount
                    + " GB RAM"@;
                let based = if prediction.observation_count > 0 {
                    head + " (based on "@ + decimal_text(prediction.observation_count as nat)
                        + " observations)"@
                } else {
                    head
                };
                text == match prediction.warning_message {
                    Some(message) => based + "\n⚠️ "@ + message@,
                    None => based,
                }
            }),
{
    let amount = choose|amount: Seq<char>| #[trigger]
        is_bytes_text::<N>(prediction.predicted_memory_bytes, 1_000_000_000, amount)
            && prediction.is_line(amount, text);
    let needed = lemma_bytes_text::<N>(
        value,
        prediction.predicted_memory_bytes,
        1_000_000_000,
        amount,
    );
    assert(is_text(needed, 1, amount));
    let head = "`"@ + prediction.command@ + "` typically needs "@ + amount + " GB RAM"@;
    let based = if prediction.observation_count > 0 {
        head + " (based on "@ + decimal_text(prediction.observation_count as nat)
            + " observations)"@
    } else {
        head
    };
    assert(head + prediction.basis_text() =~= based);
    assert(based + prediction.warning_text() =~= match prediction.warning_message {
        Some(message) => based + "\n⚠️ "@ + message@,
        None => based,
    });
}

/// Without rounding, what a run does to the memory is told with its command and
/// the average memory in units of a million bytes without decimals.
pub proof fn law_memory_text_tells_the_average<N: Number>(
    value: spec_fn(N) -> real,
    command: Seq<char>,
    stats: StatsView<N>,
    message: Seq<char>,
)
    requires
        is_exact(value),
        is_memory_text(command, stats, message),
    ensures
        exists|amount: N, text: Seq<char>| #[trigger]
            is_text(amount, 0, text) && value(amount) * 1_000_000 as real == value(
                stats.memory_ema,
            ) && message == "When you run `"@ + command + "`, memory usage increases by ~"@ + text
                + " MB"@,
{
    let (mega, amount, text) = choose|mega: N, amount: N, text: Seq<char>|
        is_whole(1_000_000, mega) && #[trigger] is_quotient(stats.memory_ema, mega, amount)
            && #[trigger] is_text(amount, 0, text) && message == "When you run `"@ + command
            + "`, memory usage increases by ~"@ + text + " MB"@;
    let x = value(stats.memory_ema);
    let u = 1_000_000 as real;
    assert(value(mega) == u);
    assert(x / u * u == x) by (nonlinear_arith)
        requires
            u > 0 as real,
    ;
    assert(is_text(amount, 0, text));
}

} // verus!
