pub mod f17;
pub mod isogeny;
pub mod limbs;
pub mod matrix;
