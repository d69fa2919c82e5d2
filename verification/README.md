# robust_rs

Robust statistics (trimmed and Walsh-average location, Theil–Sen and LTS
regression, FAST-MCD and Tyler scatter, Mahalanobis outlier maps) split in two:

- `src/` — the verified core, checked by Verus:
  - `order`: rank order of observations by total-order keys (stable merge
    sort), the `h` lowest-ranked observations, retained subsets, sorted keys
    and the middle order statistics behind every median;
  - `seeds`: the splitmix64 sub-stream seeds and the seeded ChaCha8 draws of
    elemental subsets and start orders;
  - `design`: the design checks, LTS/MCD coverage rules and breakdown points;
  - `search`: the FAST search budget, first-minimum selection and the
    concentration stopping rule;
  - `csv`: the layout of the embedded datasets;
  - `pairs`: the Walsh and slope index pairs;
  - `total_order`: integer keys of `f64` bit patterns under `totalOrder`.
- `app/` — the floating-point estimators built on that core (values are ranked
  through their `f64::total_cmp` keys).

`tests/` exercises the verified core.

Not included: the M-, S- and MM-regression estimators, `m_location`, the
M-estimator of scatter and OGK. They are built on a companion core crate (the
loss functions, the Qn/MAD/S-scale estimators, the solver control with its
defaults) whose code is not part of this project; for the same reason the
iterative fits here take their `Control` from the caller, and LTS computes its
MAD scale directly as `1.4826 · med|rᵢ − med r|`. The reference datasets
(`stackloss`, `starsCYG`) are not bundled either, since their data files are
not part of this project; `datasets::parse_csv` reads any such file's text.
