pub mod duration;
pub mod laws;
pub mod lookup;
pub mod lrc;
pub mod lyrics;
pub mod lyricsfile;
pub mod order;
pub mod overflow;
pub mod plain;
pub mod playback;
pub mod render;
pub mod text;
pub mod timestamp;
pub mod timing;
