//! Training-data preparation, model-artifact framing and request handling for a
//! decision-tree classifier served over HTTP.

pub mod labels;
pub mod text;
pub mod request;
pub mod dataset;
pub mod artifact;
