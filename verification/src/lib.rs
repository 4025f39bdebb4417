pub mod block;
pub mod circuit;
pub mod dispatch;
pub mod framing;
pub mod grid;
pub mod laws;
pub mod network;
pub mod scene;
pub mod storage;
pub mod text;
pub mod tick;
pub mod voxel;
