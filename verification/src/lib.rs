//! Control plane of a guitar audio router: audio buses and their effect chains,
//! control inputs that drive effect parameters, and the configuration protocol
//! that rebuilds bus effect chains.
pub mod audio_bus;
pub mod audio_effects;
pub mod control_input;
pub mod error;
pub mod routing_director;
pub mod text;
pub mod vcsgp;
