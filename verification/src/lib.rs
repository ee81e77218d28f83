//! Streaming pattern classifier.
//!
//! Messages of a subject are encoded as sparse ternary hypervectors ([`encode`],
//! [`vsa`]) and compared with running vectors and statistics of the subject
//! ([`classify`], [`stats`], [`solutions`]); a temporal layer watches the drift
//! between windows of messages ([`temporal`]), and doubtful results are put before
//! a person ([`handler`]).  Runs ask for reads, writes and exponentials and go on
//! with the answers ([`protocol`], [`codec`]).  Numbers are single-precision bit
//! patterns ([`single`], [`rounding`], [`notation`]).
//!
//! What runs come to is stated and proved in [`effects`], [`service`], [`streams`],
//! [`scores`], [`reviews`] and [`progress`]; what the numbers come to, in [`bounds`],
//! [`order`], [`accuracy`], [`accumulation`], [`regression`], [`measures`] and
//! [`verdicts`].

pub mod accumulation;
pub mod accuracy;
pub mod bounds;
pub mod classify;
pub mod codec;
pub mod effects;
pub mod encode;
pub mod handler;
pub mod measures;
pub mod notation;
pub mod order;
pub mod progress;
pub mod protocol;
pub mod regression;
pub mod reviews;
pub mod rounding;
pub mod scores;
pub mod service;
pub mod single;
pub mod solutions;
pub mod stats;
pub mod streams;
pub mod temporal;
pub mod text;
pub mod verdicts;
pub mod vsa;
