# core-to-core-latency

Measures how long it takes two cores of a machine to exchange a message, for all
pairs of cores.

`src/` is the verified library:

- `cores`: the choice of cores on the command line
- `args`: what a run is asked for
- `double`, `sorting`: the order of floating-point numbers on their bit patterns, and
  a stable sort
- `arithmetic`: the floating-point operations that the caller supplies
- `text`, `style`: numbers, padding and colours as text
- `bench`: the benchmark trait and the run over all pairs
  - `stats`, `samples`: statistics of a sample and of a pair
  - `schedule`, `sweep`, `record`: the order of the pairs, the steps of a run, and what
    it makes of each pair
  - `report`, `csv_output`: what is printed and written at the end
  - `laws`: what holds of a whole run
  - `cas`: the compare-and-swap benchmark

The library performs no floating-point arithmetic itself. Its contracts say which
operation of `Arithmetic` is applied to which numbers and where the result goes, and
nothing is assumed of the results.

`app/` is the program: the command line, the threads and their shared memory, the
clock, floating point, and files.
