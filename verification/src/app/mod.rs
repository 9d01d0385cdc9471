//! The commands, composed from the controls they drive.
pub mod brightness;
pub mod cursor;
pub mod display;
pub mod wallpaper;

pub use brightness::Brightness;
pub use cursor::Cursor;
pub use display::{Display, Settle};
pub use wallpaper::Wallpaper;
