//! Cover art: the key a picture is filed under, the sizes it is drawn at, and
//! the colors it reads as.

pub mod cache;
pub mod decode;
pub mod palette;
pub mod remote;
