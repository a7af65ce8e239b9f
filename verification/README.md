# graph_chain_aztec

The Aztec chain of a subgraph indexing node, written in Verus.

`src/` is the library. Each function in it says in its contract what it returns,
and Verus proves it.

- `codec`: blocks, headers, public logs, hashes, pointers
- `wire`: blocks as Firehose sends them
- `json`, `text`, `hexadecimal`, `reading`: JSON values and what is read in them
- `rpc`, `headers`: the calls to a node and their numbers, what is read in the answers, how a block
  is put together from them
- `trigger`: what calls for a handler, and in which order handlers run
- `data_source`, `manifest`, `version`: which triggers a data source wants, and
  how it is described
- `adapter`: the filter that collects what all data sources want
- `chain`: the triggers in a block; the events on a chain that is polled or comes
  from Firehose; how the head of the chain is kept

The functions whose names begin with `law_` state what holds of several of them
together.

`app/` is the part that talks to the outside: HTTP calls, and the traits that the
indexing node asks for. `tests/` runs the library on given values, and holds the
reading of blocks against the `prost` runtime.
