# audio_radar

A stereo "sound radar": it captures the system's audio output, estimates the
directions of the sound sources from the time and level differences between
the two channels, and draws them on a transparent overlay.

- `src/` is the verified library (Verus). It holds the parts that work on
  integers and on opaque samples: the sample rings between the capture and
  analysis threads and their bookkeeping (`audio`, `dsp::ring`), the state of
  the onset detector (`dsp::onset`), the grammar of the calibration file and
  the plan that completes its tables (`dsp::calib`), the bit-reversal stage
  of the FFT (`dsp::fft`), and the packing of overlay colours (`utils`).
- `app/` is the program around it: audio capture with `cpal`, the
  floating-point signal processing (FFT butterflies, localisation, tracking,
  DC filter), calibration numbers, and the `eframe` overlay.
- `tests/` runs the library.
