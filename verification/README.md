# trackforge

ByteTrack, a multi-object tracker, with its decisions verified in Verus.

* `src/` is the verified library. It splits detections by confidence, matches them with
  tracks in two stages, starts, continues, loses, recovers and drops tracks, and hands out
  track IDs. Numbers are IEEE 754 bit patterns that the library compares but never computes
  with.
* `app/` is the tracker over floating-point boxes: Kalman filters, IoU distances and the
  Python bindings around the library.
* `tests/` runs the library, with motion filters where a test needs them.

A frame is one round trip: `ByteTrack::predict_requests` names the filter predictions that
the frame needs, `ByteTrack::association_boxes` the boxes whose IoU distances it needs,
`ByteTrack::update` takes both with the detections, and returns the active tracks and the
filter steps to take.

What the library promises over frames is stated and proved in `src/conservation.rs`,
`src/laws.rs` and `src/history.rs`: unique and sequential IDs that are never reused, tracks
that keep their ID, class and first frame, one detection for one track, class-strict
association in both stages, no drop before the buffer has run out, and storage bounded by the buffer window.
