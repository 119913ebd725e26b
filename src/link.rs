//! The decisions of one exchange between a device and a real socket: what
//! the real rings reported goes in, what to do with the real frames comes
//! out.

use vstd::prelude::*;

verus! {

/// What to do in one exchange with the real socket.
pub struct PumpPlan {
    /// Completions to take from the real completion ring.
    pub service: usize,
    /// For each frame the real socket received, whether it is handed to the
    /// device; a frame that is not handed over is dropped.
    pub deliver: Vec<bool>,
    /// Whether to wake the kernel.
    pub wake: bool,
    /// Frames of the device's transmit ring that go out on the wire; the
    /// rest wait there for a later exchange.
    pub send: usize,
    /// Real buffers to offer to the real fill ring after the exchange.
    pub fill: usize,
}

/// Frame `i` of `lens` is handed to the device: it fits in a frame and the
/// device's fill ring still had a frame for it.
pub open spec fn accepted(lens: Seq<usize>, i: int, frame_size: nat, fill_len: nat) -> bool {
    i < fill_len && lens[i] <= frame_size
}

/// Plans one exchange. `lens` are the lengths of the frames the real socket
/// received; `fill_len` is how many frames the device's fill ring holds;
/// `free_bufs` is how many real buffers are free; `outbound` is how many
/// frames the device has put on its transmit ring. One completion is taken
/// per exchange, as a receive of the device does; the kernel is woken only
/// when it asked and nothing arrived; a frame to send needs a free real buffer, and
/// the real buffers left over go to the real fill ring.
pub fn plan_pump(
    lens: &Vec<usize>,
    frame_size: usize,
    fill_len: usize,
    kernel_needs_wakeup: bool,
    free_bufs: usize,
    outbound: usize,
) -> (p: PumpPlan)
    ensures
        p.service == 1,
        p.deliver@.len() == lens@.len(),
        forall|i: int|
            0 <= i < lens@.len() ==> #[trigger] p.deliver@[i] == accepted(
                lens@,
                i,
                frame_size as nat,
                fill_len as nat,
            ),
        p.wake == (kernel_needs_wakeup && lens@.len() == 0),
        p.send == vstd::math::min(outbound as int, free_bufs as int),
        p.fill == free_bufs - p.send,
{
    let mut deliver: Vec<bool> = Vec::with_capacity(lens.len());
    let mut i: usize = 0;
    while i < lens.len()
        invariant
            0 <= i <= lens@.len(),
            deliver@.len() == i,
            forall|j: int|
                0 <= j < i ==> #[trigger] deliver@[j] == accepted(
                    lens@,
                    j,
                    frame_size as nat,
                    fill_len as nat,
                ),
        decreases lens@.len() - i,
    {
        deliver.push(i < fill_len && lens[i] <= frame_size);
        i = i + 1;
    }
    let service: usize = 1;
    let send: usize = if outbound < free_bufs {
        outbound
    } else {
        free_bufs
    };
    PumpPlan {
        service,
        deliver,
        wake: kernel_needs_wakeup && lens.len() == 0,
        send,
        fill: free_bufs - send,
    }
}

} // verus!
