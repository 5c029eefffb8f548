# crc_fast

CRC arithmetic over polynomials with coefficients in GF(2), with its contracts proved by Verus.

- `combine`: the CRC of a concatenation from the CRCs of its parts.
- `arch`: vector tiers, and the folding of a message into a single vector.
- `checksum`: what the CRC of a sequence of bytes is, and a bitwise computation of it.

Everything rests on `poly`, which defines addition, multiplication and division of polynomials on
natural numbers: bit `i` of a number is the coefficient of `x^i`. `bits` relates machine words to
them, `field` computes modulo a CRC polynomial, and `register` says what feeding message bits does
to a CRC register.

What holds of the library as a whole is proved in two places.

- `laws`: combining gives the CRC of the concatenation, for every pair of sequences; the keys are
  what they should be, and so are the zeros that they stand for.
- `fold_laws`: folding keeps the remainder of the message, so that processing blocks leaves the
  register that feeding their bytes one by one leaves.

`app` selects a tier for the machine at hand.
