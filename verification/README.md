# netcoords

A network-coordinate simulator: every node of a simulated network learns
two coordinate vectors whose dot products predict the latencies to and from
the other nodes, from latency measurements to a few landmark nodes.

- `src/` is the verified library (Verus). Single-precision values that its
  logic reads are held as their IEEE-754 bit patterns (`float_bits`), which
  lets it state exactly how coordinates are clipped (`nc`), how the training
  report picks its error percentiles (`stats`), how the King latency matrix
  is read and its landmarks drawn (`king`), and how the landmarks of a node
  in a generated network are chosen and measured (`measure`).
- `app/` is the program around it: graph generation with r-tree queries,
  shortest paths, the floating-point training steps, file I/O and JSON.
- `tests/` runs the library on concrete inputs.
