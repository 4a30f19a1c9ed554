pub mod buddy_spec;
pub mod buddy_math;
pub mod buddy_lists;
pub mod buddy;
pub mod watermark;
pub mod frame;
pub mod zone;
pub mod numa;
pub mod layout;
pub mod state;

pub use state::{PmmStats, ZoneStat, stats};
