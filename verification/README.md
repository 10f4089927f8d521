# Live Plotter

A window that plots time series as they arrive on standard input, one row of
values per line.

```
$ sample_source | live_plotter --labels kitchen garage --timestamp
```

- `src/` is the library, verified with Verus: sample buffers, input lines,
  labels, smoothing, M4 decimation, extents, colours, time texts and the state
  of the window.
- `app/` is the program around it: arguments, standard input, drawing, and
  floating point arithmetic.
- `tests/` runs the library on concrete values.

The library holds floating point numbers by their bit patterns. It decides
everything that follows from the order of numbers; sums and quotients are handed
to it as functions.
