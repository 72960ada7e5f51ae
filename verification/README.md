# active_inference

The discrete part of an active-inference toolkit, verified with Verus.

- `src/policy.rs`: policies (action sequences), their enumeration, filtering
  and 64-bit fingerprint, with the laws of the enumeration (every sequence is
  listed, once, in lexicographic order).
- `src/action.rs`: reading actions out of a policy, rolling a policy forward
  through a transition function, action labels.
- `src/digits.rs`: fixed-width numerals in base `n`, the model behind the
  enumeration, and the arithmetic lemmas about them.
- `app/`: the probability computations (expected free energy, precision,
  perception), which run on floating point and are not verified.
