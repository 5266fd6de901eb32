# Hollywood

Video pre-editing automation: detect and cut dead air, align recordings,
assemble a rough cut, and export it as FCP7 xmeml, FCPXML and
OpenTimelineIO.

`src/` is the verified library, checked by Verus:

- `rational`, `time`: exact rational seconds, frame and sample rates, ranges.
- `asset`, `track`, `timeline`, `error`: the timeline IR and its validation.
- `assemble`: a rough cut from keep regions.
- `xml`, `text`, `nle`, `xmeml`, `fcpxml`, `otio`: the interchange exporters.
- `detect`: keep regions from per-window activity.
- `sync`: drift-map planning and composition, FFT sizing and lags.
- `probe`: what a media probe decides from stream metadata.
- `pipeline`: stages, progress, the probe/detect/assemble/export flow.
- `gui`, `cli`: the front ends' decisions.

`app/` is the program around it: argument parsing, the FFmpeg backend, the
floating-point measurements (window levels, cross-correlation), progress
publishing and file output.
