//! RaptorQR host receiver library: the RaptorQR transport protocol, the
//! RaptorQ decode session, transfer tracking, where received files are
//! saved, the receive loop's decisions, the receiver's command-line values
//! and status text, and the pure pixel and text helpers used around screen
//! capture and QR decoding.
pub mod protocol;
pub mod fec;
pub mod text;
pub mod transfer;
pub mod capture;
pub mod notify;
pub mod qrscan;
pub mod console;
pub mod cli;
pub mod naming;
pub mod worker;
pub mod receiver;
