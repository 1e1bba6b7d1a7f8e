//! A wireframe renderer's verified core: a boolean pixel grid with a text
//! serializer, a midpoint line rasterizer, and the edge-drawing step that
//! turns projected vertices into a frame.
#![verifier::loop_isolation(false)]

pub mod raster;
pub mod scene;
pub mod screen;
