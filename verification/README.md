# ruint_div

Division of little-endian multi-limb unsigned integers by one- and
two-limb divisors, after Möller and Granlund, "Improved division by
invariant integers" (2010), verified with Verus.

- `src/double_word.rs`: splitting and joining `u128` into `u64` words, and
  facts about word shifts and leading zeros.
- `src/reciprocal.rs`: the reciprocals `floor((2^128 - 1) / d) - 2^64` and
  `floor((2^192 - 1) / d) - 2^64` of normalized divisors.
- `src/small.rs`: two-by-one and three-by-two divisions (reference and
  reciprocal-based), and in-place division of limb slices by one- and
  two-limb divisors, normalized or not.
- `src/limbs.rs`: the value of a limb sequence, the left shift of limbs, and
  one step of a division from the top limb down.
- `src/laws.rs`: dividing `q * d + r` gives back `q` and `r`.
- `src/problems.rs`: division problems with a known answer, built from a
  quotient, a remainder and a divisor.
- `app/main.rs`: the criterion benchmarks, which draw the random words with
  `rand`.
