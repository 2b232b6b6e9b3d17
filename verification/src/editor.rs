//! What the editor needs around the conversion: the keyboard.

pub mod keyboard;
