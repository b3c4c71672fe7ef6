# Terminal forecast harness

A verified library for terminals that forecasts from what was run before:

- which command comes next (`command_predictor`),
- whether the workflow has just changed (`workflow_anomaly`),
- what a command will use (`resource_predictor`).

`src/` is the library, written and proved in Verus. It computes in a number type
that implements `Number` (and `ChainNumber`, where a Markov chain is involved);
its contracts say which operation is applied to which values. `laws`,
`prediction_laws` and `resource_laws` prove what holds of every predictor,
`repeat_laws` what deterministic arithmetic adds to it. What exact arithmetic
adds (`exact` says what that is) is proved beside each formula.

`app/` implements these traits for doubles, shows the forecasts and keeps them
as JSON. `tests/` runs the library on doubles.
