//! A fixed-point simulation of circular rigid bodies that fall under
//! gravity inside a rectangular arena and collide elastically.

pub mod fixed;
pub mod vector;
pub mod body;
pub mod contact;
pub mod conservation;
pub mod separation;
pub mod ball;
pub mod resolve;
pub mod sweep;
pub mod seed;
pub mod simulation;
