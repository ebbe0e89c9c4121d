//! An exporter's core: probe scripts in, metric samples out.
//!
//! A probe script is an executable file whose first lines declare the metric
//! that it measures ([`descriptor`]). The scripts of one directory make a
//! registry ([`directory`], [`registry`]), which a coordinator serves and
//! replaces as a whole when the directory is loaded anew ([`reload`]). On
//! every scrape each script of the registry is run once, and what it printed
//! is read as one sample, or replaced by the fallback value that the script
//! declares for that case ([`scripts`]). What is answered to a request is
//! decided in [`endpoint`], and the settings of a run in [`cli`].
//!
//! Nothing in this library touches the outside world: it is handed what was
//! read, listed or run, and says what follows. The grammar of every text it
//! reads is written down in [`text`] and [`number`].

pub mod cli;
pub mod descriptor;
pub mod directory;
pub mod endpoint;
pub mod number;
pub mod registry;
pub mod reload;
pub mod scripts;
pub mod text;
