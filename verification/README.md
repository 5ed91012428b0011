# tdigest

A t-digest in Verus: a compact sketch of a distribution that is merged from values and from
other sketches, and that estimates the cumulative distribution function. The functions of
the library have contracts that Verus proves. Believed without proof are the contracts of
two functions that call outside the library, and one declared type: `quality::draw_below`
draws a number from rand's `StdRng`, the declared type, and `scale::to_ascii_lowercase` calls
the function of that name in the standard library.

- `src/` is the library. Numbers are binary64 bit patterns (`Float64`) whose arithmetic is
  proved to round correctly, so contracts fix every result to the last bit. What compresses
  a merged stream to the capacity of a digest, and what estimates a quantile, is handed in
  by the caller as a function; `digest::keep_all` serves where nothing has to be compressed.
- Laws of the library are proof functions named `law_..`.
- `tests/` runs the library, and holds its arithmetic against the hardware's.
- `app/` is ordinary Rust around it: polars tables, a Python class, stored bytes, parallel
  estimation, random samples, and the global allocator.
