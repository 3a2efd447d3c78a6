//! A freehand drawing surface: a fixed-size pixel buffer, the pen that
//! rasterises strokes into it, and the interaction state of the view that
//! shows it.
//!
//! Coordinates are whole canvas pixels; a pressure and a pen size are counted
//! in thousandths, so a radius, their product, in millionths of a pixel.
pub mod canvas;
mod geometry;
pub mod image;
pub mod pen;
pub mod viewport;

pub use canvas::{Canvas, Rectangle, DEFAULT_PEN_SIZE, MAX_SIDE};
pub use image::{SingleVecImage, RGB};
pub use pen::{
    circle_pen, circle_pen_outline, clip_to_range, in_circle, in_line, rect, rectangle, PenInput, PenSetting,
    COORD_LIMIT, MAX_PEN_SIZE, PRESSURE_SCALE, SIZE_SCALE,
};
pub use viewport::{
    KeyAction, PenKind, StrokeAction, StrokeStep, Viewport, CANVAS_HEIGHT, CANVAS_WIDTH,
    KEY_CONTROL_L, KEY_KP_ADD, KEY_KP_SUBTRACT, KEY_SPACE,
};
