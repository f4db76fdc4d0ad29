# Argos

Share a screen, with its sound, with the machines on a local network. No accounts
and no servers: the machines find each other, and the pictures go straight from
one to the other.

The logic is a library that Verus verifies; the window, the sockets, the devices
and the connection are ordinary Rust around it.

| Where | What |
| --- | --- |
| `src/convert.rs` | RGBA images to I420 planes, scaled or not |
| `src/encode.rs`, `src/decode.rs` | H.264 through OpenH264 |
| `src/h264.rs` | units in a byte stream, RTP packets, and back |
| `src/signal.rs` | session descriptions as codes |
| `src/session.rs` | the two ends of a connection |
| `src/receive.rs` | packets to pictures, and what was lost on the way |
| `src/share.rs`, `src/view.rs` | the sessions of the two ends |
| `src/lan.rs` | who is on the network, and messages between machines |
| `src/audio.rs` | what the machine plays, without a running call |
| `src/capture.rs` | keeping the capture of a screen alive |
| `src/ui.rs` | what the window shows, and what changes it |
| `src/radmin.rs`, `src/config.rs` | the VPN, the settings |
| `src/text.rs`, `src/time.rs` | texts and moments |
| `app/` | the program: window, sockets, devices, threads |

Times are in nanoseconds throughout. Nothing in `src/` reads a clock, a socket or
a device: what these say comes in as an argument, and what is to be done comes
back as a result.
