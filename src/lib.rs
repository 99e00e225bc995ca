//! Display arrangement editor: geometry of the displays, the canvas on which
//! they are dragged, and the reconciliation of an arrangement with a live
//! session and with a persisted configuration file.
pub mod cli;
pub mod config;
pub mod geometry;
pub mod model;
pub mod monitor_view;
pub mod text;

pub use cli::{expand_home, Cmd, Opt};
pub use geometry::{ParseError, Pos, Scale, Transform};
pub use model::{AppData, Device, DisplayInfo, FocusedDisplay, OutputState};
pub use monitor_view::{DragState, Fit, MonitorView, PointerEvent, ViewScale};
