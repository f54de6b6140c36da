//! The decisions of a daemon that protects the focused window's VRAM through
//! the dmem cgroup controller: what a file, a unit name or a window snapshot
//! says, and what to do about it. Reading and writing are the caller's: where
//! decisions and I/O take turns, a function starts a conversation whose `next`
//! names what is needed and whose `answer` takes it.

pub mod app_search;
pub mod app_search_laws;
pub mod boost_laws;
pub mod booster;
pub mod bytes;
pub mod display;
pub mod display_laws;
pub mod dmem;
pub mod dmem_laws;
pub mod focus;
pub mod focus_laws;
pub mod follower;
pub mod json;
pub mod matcher;
pub mod matcher_laws;
pub mod pid_search;
pub mod pid_search_laws;
pub mod resolve;
pub mod scope;
pub mod scope_laws;
pub mod seqs;
pub mod slice_laws;
pub mod slices;
pub mod socket_laws;
pub mod sockets;
pub mod status;
pub mod sweep;
pub mod sweep_laws;
pub mod text;
pub mod text_laws;
pub mod tracker;
pub mod tree;
pub mod umbriel;
pub mod unit_laws;
pub mod units;
pub mod window_laws;
