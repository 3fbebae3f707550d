# ringil

The decision logic of a Ringil swarm node, written in Verus with its
contracts proved:

- `src/` is the verified library: the priority frame buffer, frame
  construction, the swarm key space and subscriptions, payload sealing with
  ChaCha20-Poly1305, embedding compression, object classes, ByteTrack
  bookkeeping with greedy association, the event plan of a perception frame,
  flight maneuver routing, and face-detector anchor decoding with
  non-maximum suppression.
- `app/` is ordinary Rust around it: configuration files, protobuf wire
  encoding, the Kalman filter and other real-valued geometry, image tensors
  and face alignment, the MAVLink link, and the pub/sub node.
- `tests/` exercises the library from outside.
