# neat

NEAT (NeuroEvolution of Augmenting Topologies), with its structural core verified in Verus.

- `src/` — the verified library: node and connection genes, the innovation tracker, genome
  construction and structural mutation (adding connections, splitting connections), the
  topological evaluation order, crossover, and the gene alignment behind the compatibility
  distance. Weights, biases and fitness are carried as the bit patterns of `f32` values.
- `app/` — the program around it: activation functions and network evaluation, weight and
  bias perturbation, the compatibility distance, species, speciation and reproduction, JSON
  persistence with serde, and the XOR runner.
- `tests/` — tests of the library.
