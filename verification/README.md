# quick_noise

Noise on grids: Perlin and value noise in two and three dimensions, simplex and
cellular noise in two. The lattice is hashed in registers of eight lanes
(`simply_simd`), and octaves are folded into the output block by block.

- `src/` is the library, verified with Verus. It holds what is exact: the hashes,
  the cells that samples fall into, the order in which the registers of a grid
  are prepared, blended and written, and the folding of octaves. Arithmetic on
  samples is handed in by the caller as functions, and contracts speak of what
  those functions gave.
- `tests/` runs the library, with integers and with single-precision numbers.
- `app/` is the single-precision arithmetic, the clock and the printing.

`src/lanes.rs` holds all that is taken on trust: what a register of `simply_simd`
does to its lanes.
