//! The verified core of the CV timeline generator: the timeline model, the
//! lane placement of blocks beside the time axis, label fitting, pixel
//! compositing for PNG export, the editing state of the project, and the
//! application icon.

pub mod model;
pub mod placement;
pub mod placement_laws;
pub mod text;
pub mod raster;
pub mod editor;
pub mod layout;
pub mod icon;
