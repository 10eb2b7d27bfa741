# delp

Forward error correction for lossy networks, verified with Verus.

A sender combines source packets into coded packets over a sliding window.  A
receiver reconstructs lost packets by solving a linear system over GF(2^4) or
GF(2^8).  The window adapts to the receiver's feedback.

- `src/` is the library.  Its functions carry contracts that Verus proves.
- `tests/` runs the library on concrete values.
- `app/` is the command-line tool and the UDP transport around the library.

What holds of the library as a whole stands in proof functions:

| Where                          | What                                                  |
|--------------------------------|-------------------------------------------------------|
| `gf::algebra`                  | the field laws                                        |
| `gf::cauchy`, `gf::vandermonde`| which matrices are regular                            |
| `wire::*`                      | reading gives back what was written                   |
| `codec::decoder::laws`         | nothing but true symbols are delivered, in order      |
| `codec::decoder::recovery`     | what the packets determine is known                   |
| `codec::decoder::elimination`  | a matrix gives out what is determined, at once, once  |
| `codec::laws`                  | encoders send true equations; feedback is truthful;   |
|                                | gaps lie before the window; packets are numbered      |
| `codec::erasures`              | `k` coded packets make up for `k` losses              |
| `codec::streams`               | streams with lost source packets are delivered whole  |
| `cli::file`, `cli::frames`     | files are put together as they were cut               |
| `cli::transfer`                | files arrive byte for byte; losses never corrupt them |
| `cli::bench`                   | the benchmark delivers every symbol                   |
