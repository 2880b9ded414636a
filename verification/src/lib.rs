//! A verified codec for the RESP wire protocol: typed frames, an encoder
//! producing exact wire bytes, and an incremental decoder that consumes a
//! growable byte buffer atomically (a whole frame or nothing).

pub mod buffer;
pub mod decode;
pub mod encode;
pub mod frame;
pub mod laws;
pub mod wire;

pub use buffer::buf_data;
pub use decode::RespDecode;
pub use decode::calc_total_length;
pub use decode::expect_frame_length;
pub use decode::extract_fixed_data;
pub use decode::extract_simaple_frame_data;
pub use decode::find_ctrl;
pub use decode::parse_frame_at;
pub use decode::parse_length;
pub use encode::RespEncode;
pub use encode::encode_frame_into;
pub use frame::BulkString;
pub use frame::Double;
pub use frame::FrameModel;
pub use frame::RespArray;
pub use frame::RespError;
pub use frame::RespFrame;
pub use frame::RespMap;
pub use frame::RespNull;
pub use frame::RespNullArray;
pub use frame::RespNullBulkString;
pub use frame::RespSet;
pub use frame::SimpleError;
pub use frame::SimpleString;
