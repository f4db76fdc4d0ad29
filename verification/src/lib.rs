//! Screen sharing over a local network: the logic between the capture device,
//! the codecs, the sockets and the window.
pub mod audio;
pub mod capture;
pub mod config;
pub mod convert;
pub mod decode;
pub mod encode;
pub mod h264;
pub mod lan;
pub mod radmin;
pub mod receive;
pub mod session;
pub mod share;
pub mod signal;
pub mod text;
pub mod time;
pub mod ui;
pub mod view;
