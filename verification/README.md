# diffuse-daemon

The node of a network that runs a language model in slices: each node holds some
layers, and activations travel from node to node, sealed for the next one.

- `src/` is the library: what a node knows of its peers and believes of them, what
  the network can serve and where one more node helps, how a route through a model
  is found and mended, what is sealed and opened on the way, how an answer is drawn
  token by token, and what is shown of it. Each function is verified against its
  contract; the laws that hold between functions are public proof functions. Those
  in `survival` and `repair` speak of whole sessions and sweeps: that the death of a
  replica does not change an answer, and that mending a route only adds to it.
- `app/` is the program around it: the command line, the calls between nodes, the
  inference worker, the terminal, and the HTTP server.
- `tests/` runs the library on concrete values, with the crates it calls.

What is believed without proof are the contracts of a few calls into other crates.
Each stands in a small function of its own, with a comment that begins with
`Trusted:`: signatures and digests in `crypto`, the key exchange and the cipher in
`transport`, fresh names in `sessions`, the clock in `clock`, colours in `tui` and
`display`, and two functions of the standard library in `text` and `wire`.
