pub mod allocation;
pub mod allocator;
pub mod constant;
pub mod consts;
pub mod debuginfo;
pub mod statics;
