//! Verified core of an RGBA image-processing toolkit: the pixel layout, the
//! mirror and box-blur filters, the `key=value` parameter language that the
//! filters read, and the checks that the command-line front end performs
//! before it hands a buffer to a filter.

pub mod layout;
pub mod blur;
pub mod mirror;
pub mod params;
pub mod blur_plugin;
pub mod mirror_plugin;
pub mod processor;
pub mod png;
