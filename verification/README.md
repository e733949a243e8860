# curve1024

A 1024-bit elliptic-curve library with machine-checked contracts, verified
with Verus.

- `u1024` — 1024-bit unsigned integers as 16 little-endian limbs: carries,
  shifts, bit-serial division, modular addition, multiplication, powers and
  inverses, big-endian bytes, hexadecimal input and output.
- `montgomery`, `prime_field` — prime fields in Montgomery form with
  compile-time constants (`PrimeFieldConfig`), and `runtime_field` — the same
  arithmetic for a modulus chosen at run time, with the Montgomery constants
  computed by Newton's iteration.
- `affine`, `projective` — short Weierstrass curves `y^2 = x^3 + a x + b`
  (`SWCurveConfig`): point addition, doubling, negation and a scalar ladder in
  affine coordinates, and Jacobian coordinates; `curve_closure` — the chord
  and tangent rules never leave the curve; `projective_laws` — Jacobian
  doubling and addition agree with the affine ones.
- `config` — Curve1024: `y^2 = x^3 + 41` over a 1024-bit prime field, with a
  generator of 512-bit prime order.
- `signature` — a 1024-bit message hash built from SHA-256, Schnorr and ECDSA
  signatures; `keypair` — key pairs; `signed_file` — the signed-file format
  `[message] [signature] [scheme tag] ["C1K\n"]`.
- `ct` — constant-time selection through the `subtle` crate.

Every function states its result exactly in its `ensures` clause, over
mathematical models (`val()` for integers, representations for field
elements, `(x, y, is_infinite)` for points). Laws such as the correctness of
division, modular multiplication and powers, the Montgomery constants, the
group identities of point addition, the byte encodings' round trips, and the
closure of the group law on the curve, the agreement of Jacobian and affine
arithmetic, the inverse laws of a field, the round trip of both signature
schemes and the ECDSA verification equation are proof functions
next to the code. What is not proved is named as a hypothesis: inverses in a
field (Fermat's little theorem for a prime modulus, `inverse_ok`) and the
group facts of the multiples of the generator (`generator_homomorphic`).

`app/` holds the command-line tool `curve1024-sig` (key generation, signing and
verification of files); `tests/` holds the tests.
