# rigor

Ball arithmetic for verified real computation. A ball `[m ± r]` stands for
the reals within `r` of `m`; every operation returns a ball that holds the
exact result of the operation on any points of its operands.

Layout of `src/` (bottom up):

- `limb_spec`, `mpn`: little-endian `u64` limb vectors and their kernels
  (add, sub, mul with Karatsuba, division, shifts), specified over
  `value_of`, the natural number a vector denotes.
- `dyadic`, `window`, `fp`: binary floating point with directed rounding;
  every rounding goes through one routine, specified over the exact dyadic
  value and the spec function `rounded`.
- `mag`: 30-bit upper bounds, the radius type.
- `ball`: balls, with inclusion laws for every operation.
- `bigint`: signed big integers for binary splitting.
- `decimal`: decimal text of integers, floats and balls.
- `directed`: what directed roundings bound.
- `binsplit`, `constants`: π, e, ln 2 by binary splitting of their series,
  stated over the exact partial sums; `ConstCache` keeps a constant at the
  highest precision asked of it and serves it rounded.
- `elementary`: exp, ln, atan, sin and cos on balls. Each states what its
  result holds in terms of the argument reduction and the truncated
  Taylor series with its tail bound (`exp_encloses`, `ln_encloses`,
  `atan_result`, `sin_cos_result`).
- `bernoulli`: Bernoulli numbers from exact tangent numbers.
- `gamma`, `zeta`: Γ by the Stirling series, ζ by Euler–Maclaurin
  summation. Γ and ln Γ state the Stirling sum, the shift and the
  reflection their balls hold (`stirling_encloses`, `ln_gamma_encloses`,
  `gamma_result`); for an exact integer `s >= 2`, ζ states the
  Euler–Maclaurin sum it holds (`zeta_encloses`).
- `testutil`: a deterministic generator for tests.

`app/` holds what involves `f64` (conversions), `Display` adapters, and
the process-wide, thread-safe caches of π, ln 2 and e around `ConstCache`.
