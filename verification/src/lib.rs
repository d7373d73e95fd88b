pub mod bot;
pub mod chain;
pub mod error;
pub mod model;
pub mod poem;
pub mod codec;
pub mod insult;
pub mod rng;
pub mod strmap;
pub mod text;
