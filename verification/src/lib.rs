pub mod agglomerate;
pub mod frac;
pub mod linkage;
pub mod render;
pub mod tree;
