# ipld

IPLD data model values (`Ipld`, with maps kept in key order in `IpldMap`),
a DAG-CBOR encoder and decoder, and a DAG-JSON encoder, verified with Verus.

- `src/order.rs`: byte-string order, the order on map keys, ordered association lists.
- `src/ipld.rs`: the values and their mathematical models; map operations and their laws.
- `src/cbor.rs`: CBOR items as `serde_cbor` writes and reads them, and the calls into it.
- `src/dag_cbor.rs`: DAG-CBOR encoding and decoding; decoding gives back what encoding wrote.
- `src/dag_json.rs`: DAG-JSON encoding, with links as `{"/": base64}`.
- `app/main.rs`: a small program that writes a serde struct with a CID and reads it back.

The CBOR and JSON bytes themselves are produced by `serde_cbor`, `serde_json` and
`base64`; the contracts of those calls are stated in the functions marked
`#[verifier::external_body]`.
