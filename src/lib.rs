//! A packet device over a zero-copy socket: a fixed pool of frames whose
//! ownership rotates between the application, the fill ring, the receive
//! ring, the pending deque and the transmit path.

pub mod laws;
pub mod link;
pub mod model;
pub mod pending;
pub mod socket;

pub use link::{plan_pump, PumpPlan};
pub use pending::{PendingDeque, PENDING_LEN};
pub use socket::{
    DeviceCapabilities, RxToken, TxToken, XdpSocket, DEFAULT_FRAME_COUNT, DEFAULT_FRAME_SIZE,
    DEFAULT_MTU, DEFAULT_RING_SIZE,
};
