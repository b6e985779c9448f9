//! The settings of a block, and what it tells of itself.

use vstd::prelude::*;
use crate::scratch::buf_reserve;
use crate::state::{KCP, KcpState, RTO_MIN, RTO_NDL, spec_mtu_max};
use crate::wire::OVERHEAD;

verus! {

/// The interval that a request for `interval` milliseconds sets: kept
/// within 10 and 5000.
pub open spec fn clamp_interval(interval: i32) -> u32 {
    if interval > 5000 {
        5000
    } else if interval < 10 {
        10
    } else {
        interval as u32
    }
}

/// The block after `nodelay`. A setting below zero leaves what it names as
/// it was; no-delay mode brings the lowest timeout down from `RTO_MIN` to
/// `RTO_NDL`; congestion control is off where `nc` says so.
pub open spec fn nodelay_state(s: KcpState, nodelay: i32, interval: i32, resend: i32, nc: bool)
    -> KcpState {
    KcpState {
        nodelay: if nodelay >= 0 {
            nodelay as u32
        } else {
            s.nodelay
        },
        rx_minrto: if nodelay > 0 {
            RTO_NDL
        } else if nodelay == 0 {
            RTO_MIN
        } else {
            s.rx_minrto
        },
        interval: if interval >= 0 {
            clamp_interval(interval)
        } else {
            s.interval
        },
        fastresend: if resend >= 0 {
            resend as u32
        } else {
            s.fastresend
        },
        nocwnd: nc,
        ..s
    }
}

/// The block after `wndsize`: a window takes the size asked for where
/// that is above zero.
pub open spec fn wndsize_state(s: KcpState, sndwnd: i32, rcvwnd: i32) -> KcpState {
    KcpState {
        snd_wnd: if sndwnd > 0 {
            sndwnd as u32
        } else {
            s.snd_wnd
        },
        rcv_wnd: if rcvwnd > 0 {
            rcvwnd as u32
        } else {
            s.rcv_wnd
        },
        ..s
    }
}

/// The block after `setmtu`: an MTU of 50 bytes or more is taken, and
/// with it the MSS, which is the MTU less the header.
pub open spec fn setmtu_state(s: KcpState, mtu: usize) -> KcpState {
    if mtu < 50 {
        s
    } else {
        KcpState { mtu, mss: (mtu - OVERHEAD) as usize, ..s }
    }
}

/// The number of segments that wait to be sent or acknowledged, or
/// `usize::MAX` where that number is beyond it.
pub open spec fn waiting(s: KcpState) -> usize {
    if s.snd_buf.len() + s.snd_queue.len() > usize::MAX {
        usize::MAX
    } else {
        (s.snd_buf.len() + s.snd_queue.len()) as usize
    }
}

impl KCP {
    /// Sets the mode of operation. `nodelay`: 0 for normal, above 0 for
    /// no-delay mode; `interval`: the flush interval in milliseconds;
    /// `resend`: the number of skips after which a segment is sent again at
    /// once, 0 for never; `nc`: whether congestion control is off. A
    /// number below zero leaves its setting as it was.
    pub fn nodelay(&mut self, nodelay: i32, interval: i32, resend: i32, nc: bool)
        requires
            old(self).wf(),
        ensures
            final(self).wf(),
            final(self)@ == nodelay_state(old(self)@, nodelay, interval, resend, nc),
            old(self)@.window_open() ==> final(self)@.window_open(),
            old(self)@.rcv_within_window() ==> final(self)@.rcv_within_window(),
            old(self)@.payloads_fit_mss() ==> final(self)@.payloads_fit_mss(),
            old(self)@.rto_above_min() && (nodelay != 0 || old(self)@.rx_rto >= RTO_MIN)
                ==> final(self)@.rto_above_min(),
    {
        if nodelay >= 0 {
            self.nodelay = nodelay as u32;
            if nodelay > 0 {
                self.rx_minrto = RTO_NDL;
            } else {
                self.rx_minrto = RTO_MIN;
            }
        }
        if interval >= 0 {
            self.interval = if interval > 5000 {
                5000
            } else if interval < 10 {
                10
            } else {
                interval as u32
            };
        }
        if resend >= 0 {
            self.fastresend = resend as u32;
        }
        self.nocwnd = nc;
    }

    /// Sets the send and the receive window, in segments. A size of zero
    /// or below leaves its window as it was.
    pub fn wndsize(&mut self, sndwnd: i32, rcvwnd: i32)
        requires
            old(self).wf(),
        ensures
            final(self).wf(),
            final(self)@ == wndsize_state(old(self)@, sndwnd, rcvwnd),
            old(self)@.window_open() ==> final(self)@.window_open(),
            old(self)@.rto_above_min() ==> final(self)@.rto_above_min(),
            old(self)@.payloads_fit_mss() ==> final(self)@.payloads_fit_mss(),
            old(self)@.rcv_within_window() && (rcvwnd <= 0 || rcvwnd >= old(self)@.rcv_wnd)
                ==> final(self)@.rcv_within_window(),
    {
        if sndwnd > 0 {
            self.snd_wnd = sndwnd as u32;
        }
        if rcvwnd > 0 {
            self.rcv_wnd = rcvwnd as u32;
        }
    }

    /// Sets the MTU, and with it the MSS. Returns whether the MTU was
    /// taken: one below 50 bytes is not. The MTU is to be one that the
    /// machine and the wire allow, `mtu_max()` at most: three datagrams of
    /// it are reserved at once.
    pub fn setmtu(&mut self, mtu: usize) -> (taken: bool)
        requires
            old(self).wf(),
            mtu <= spec_mtu_max(),
        ensures
            final(self).wf(),
            taken == (mtu >= 50),
            final(self)@ == setmtu_state(old(self)@, mtu),
            old(self)@.window_open() ==> final(self)@.window_open(),
            old(self)@.rcv_within_window() ==> final(self)@.rcv_within_window(),
            old(self)@.rto_above_min() ==> final(self)@.rto_above_min(),
            old(self)@.payloads_fit_mss() && mtu >= old(self)@.mtu
                ==> final(self)@.payloads_fit_mss(),
    {
        if mtu < 50 || mtu < OVERHEAD {
            return false;
        }
        self.mtu = mtu;
        self.mss = mtu - OVERHEAD;
        buf_reserve(&mut self.buffer, (mtu + OVERHEAD) * 3);
        true
    }

    /// Turns stream mode on or off. In stream mode `send` fills up the
    /// last queued segment before it starts a new one, and the bounds of
    /// messages are not kept.
    pub fn set_stream(&mut self, stream: bool)
        requires
            old(self).wf(),
        ensures
            final(self).wf(),
            final(self)@ == (KcpState { stream, ..old(self)@ }),
            old(self)@.keeps(final(self)@),
    {
        self.stream = stream;
    }

    /// The number of segments that wait to be sent or acknowledged.
    pub fn waitsnd(&self) -> (n: usize)
        ensures
            n == waiting(self@),
    {
        self.snd_buf.len().saturating_add(self.snd_queue.len())
    }
}

} // verus!
