# lend_protocol

A lending contract for a CosmWasm chain with a token factory and a spot
exchange: users deposit `inj` and mint zero-coupon debt tokens against it,
repay them, and anyone may liquidate a position whose debt, valued at the
exchange's mid prices, exceeds the collateral ratio. An administrator
creates debt tokens and registers the markets that price them.

The library (`src/`) is verified with Verus:

- `contract_execute`, `contract_admin_execute`, `contract_query`, `contract`:
  every operation is specified by a function on the model of the state that
  gives the new state and the messages to send, or the error; the
  executable code is proved to follow it and to keep the state's invariant.
- `laws`: properties of the protocol as a whole (only the administrator
  administers, a mint needs enough collateral, a full repayment closes the
  position, only positions whose debt ratio exceeds the collateral ratio are
  liquidated, ...).
- `decimal`: the fixed-point decimals of `injective_math`, whose arithmetic
  is called through a few trusted wrappers with stated contracts.
- `wire`, `account`: the protobuf wire format and the account messages,
  with their encodings, sizes and reading, and the proof that an encoding
  reads back as the message.
- `mock_module`: the decisions of the token factory and exchange stand-in
  used to run the contract off-chain.

`app/` holds the entry points, storage and chain messages around the
library; `tests/` exercises the library on concrete values.
