# lau-signal-processing

Digital signal processing for agent telemetry streams: FIR and IIR filter
design, frequency response, FFT-based convolution, correlation, resampling,
adaptive filters, short-time Fourier analysis, linear prediction and telemetry
monitoring.

- `src/` is verified with Verus. It holds the exact, integer-valued part of the
  library: bit reversal and the bit-reversal permutation of the radix-2 FFT,
  transform and block sizes of block convolution, down- and upsampling,
  short-time Fourier frame layout, and the index bookkeeping of telemetry
  monitoring, each with a contract and the laws that relate them.
- `app/` holds the floating-point signal processing, which calls the verified
  library for those decisions.
- `tests/` runs the verified library on concrete values.
