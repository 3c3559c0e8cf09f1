//! Reads the cursor position that KWin keeps in the memory of the running
//! `kwin_wayland` process.
//!
//! The library holds the logic: it parses tool output (`readelf`, `ps`,
//! `/proc/<pid>/maps`, generated layout bindings), decides each step of the
//! two-hop remote pointer chase, and frames the offset record that the
//! executable stores in its own file. Reading process memory, running tools
//! and writing files are left to the caller, which hands the results back as
//! plain values.

pub mod bytes;
pub mod consts;
pub mod device;
pub mod pointer;
pub mod text;
