# digital-euro-wallet

A verified model of the offline digital euro: value held as a balance on a secure
element, paid directly from one certified device to another, settled locally, and
immediately re-spendable offline. The library is written in Rust and proved with
Verus.

```
   online                            offline, device to device
   ------                            -------------------------
   account --funding---> device A    device B --PaymentRequest--> device A
   account <-defunding-- device A    device B <------Transfer---- device A
```

## Layout

```
src/wallet.rs       the secure-element applet: balance, pay, receive, fund
src/issuer.rs       accounts, device certification, funding, defunding, float
src/protocol.rs     enrol / fund / defund / pay, and what holds of them
src/certificate.rs  device certificates
src/message.rs      payment, transfer, funding, and defunding messages
src/signature.rs    RSA-FDH signatures, prime generation, Miller-Rabin
src/hash.rs         domain-separated SHA-256
src/harness.rs      worlds of devices, invariants, random runs
src/scenarios.rs    end-to-end scenarios; src/script.rs, what they do move by move
src/ecash/          tokens: anonymous payments that unmask a double-spender
src/arith.rs        number theory behind RSA and Miller-Rabin
src/mersenne.rs     2^61 - 1 is prime
src/natural.rs      big numbers; src/random.rs, the source of randomness
app/                the command line around the library
tests/              tests
```

## What is proved

Each function states which inputs it refuses, with which error, and how it changes
the books. Proof functions state what holds across calls, among them:

- what a key with prime factors signs, verifies; the primality test turns no prime
  away;
- a device never holds, and never promises to accept, more than its limit;
- once the payer has debited itself, the payee can credit;
- payments, fundings and defundings conserve value; a refused one changes nothing;
- a transfer, a funding and a defunding order count once;
- spending a token twice discloses the identity in it, and spending it once does
  not.

SHA-256, big-number arithmetic and random numbers come from the crates `sha2`,
`num-bigint`, `num-integer` and `rand`. What is believed of them is written above
each function that calls them.

## Scope

This is a model, written to be read. It is not production cryptography: RSA with a
hash-expansion full-domain hash, no constant-time discipline, no attestation, no
revocation. The holding limit is a parameter of the model.
