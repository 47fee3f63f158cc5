//! A coarse TCP phase tracker. It follows the flag bits seen in each
//! direction far enough to tell a connection that is being set up or torn
//! down from one that is established; it never rejects a segment.

use vstd::prelude::*;

verus! {

/// FIN: the sender has finished sending.
pub const FIN: u8 = 0x01;

/// SYN: synchronise sequence numbers.
pub const SYN: u8 = 0x02;

/// RST: reset the connection.
pub const RST: u8 = 0x04;

/// ACK: the acknowledgement field is significant.
pub const ACK: u8 = 0x10;

/// The phase of a connection: which side has asked to open it, whether it
/// is open, and which side has asked to close it.
#[derive(Clone, Copy, PartialEq, Eq, Debug, Structural)]
pub enum TcpState {
    SynLocal,
    SynRemote,
    SynBoth,
    Established,
    Fin1Local,
    Fin1Remote,
    Fin2Local,
    Fin2Remote,
    Closed,
}

/// Every bit of `mask` is set in `flags`.
pub open spec fn has_flags(flags: u8, mask: u8) -> bool {
    flags & mask == mask
}

/// The phase assigned to a connection by the first segment seen of it.
pub open spec fn initial_state(flags: u8, is_ingress: bool) -> TcpState {
    if has_flags(flags, SYN) {
        if is_ingress {
            TcpState::SynRemote
        } else {
            TcpState::SynLocal
        }
    } else {
        TcpState::Closed
    }
}

/// The phase after a segment with `flags` travelling inwards (`ingress`) or
/// outwards is seen in phase `s`.
pub open spec fn next_state(s: TcpState, flags: u8, ingress: bool) -> TcpState {
    if has_flags(flags, RST) {
        TcpState::Closed
    } else {
        match s {
            TcpState::Closed => initial_state(flags, ingress),
            TcpState::SynRemote => if has_flags(flags, SYN) && !ingress {
                if has_flags(flags, ACK) {
                    TcpState::Established
                } else {
                    TcpState::SynBoth
                }
            } else {
                s
            },
            TcpState::SynLocal => if has_flags(flags, SYN) && ingress {
                if has_flags(flags, ACK) {
                    TcpState::Established
                } else {
                    TcpState::SynBoth
                }
            } else {
                s
            },
            TcpState::SynBoth => if has_flags(flags, SYN | ACK) {
                TcpState::Established
            } else {
                s
            },
            TcpState::Established => if has_flags(flags, FIN) {
                if ingress {
                    TcpState::Fin1Remote
                } else {
                    TcpState::Fin1Local
                }
            } else {
                s
            },
            TcpState::Fin1Local => if has_flags(flags, FIN) && ingress {
                TcpState::Fin2Local
            } else {
                s
            },
            TcpState::Fin1Remote => if has_flags(flags, FIN) && !ingress {
                TcpState::Fin2Remote
            } else {
                s
            },
            TcpState::Fin2Local => if has_flags(flags, ACK) && !ingress {
                TcpState::Closed
            } else {
                s
            },
            TcpState::Fin2Remote => if has_flags(flags, ACK) && ingress {
                TcpState::Closed
            } else {
                s
            },
        }
    }
}

/// Whether a segment with `flags` carries the bits that phase `s` waits for,
/// from whichever side it comes.
pub open spec fn is_relevant(s: TcpState, flags: u8) -> bool {
    has_flags(flags, RST) || match s {
        TcpState::Closed | TcpState::SynRemote | TcpState::SynLocal => has_flags(flags, SYN),
        TcpState::SynBoth => has_flags(flags, SYN | ACK),
        TcpState::Established => has_flags(flags, FIN) || (flags | SYN) != SYN,
        TcpState::Fin1Local | TcpState::Fin1Remote => has_flags(flags, FIN),
        TcpState::Fin2Local | TcpState::Fin2Remote => has_flags(flags, ACK),
    }
}

/// A segment with RST closes the connection, whatever its phase and
/// whichever side sends it.
pub proof fn lemma_reset_closes(s: TcpState, flags: u8, ingress: bool)
    requires
        has_flags(flags, RST),
    ensures
        next_state(s, flags, ingress) == TcpState::Closed,
{
}

/// A connection that the local side opens with SYN is established once
/// the remote side answers with SYN and ACK, and stays so while segments
/// without FIN or RST pass.
pub proof fn lemma_handshake(first: u8, answer: u8, later: u8, ingress: bool)
    requires
        has_flags(first, SYN),
        has_flags(answer, SYN),
        has_flags(answer, ACK),
        !has_flags(answer, RST),
        !has_flags(later, FIN),
        !has_flags(later, RST),
    ensures
        initial_state(first, false) == TcpState::SynLocal,
        next_state(TcpState::SynLocal, answer, true) == TcpState::Established,
        next_state(TcpState::Established, later, ingress) == TcpState::Established,
{
}

/// An established connection that the local side closes is closed once
/// the local side has sent FIN, the remote side has sent FIN, and the local
/// side has acknowledged it.
pub proof fn lemma_close(fin_out: u8, fin_in: u8, ack_out: u8)
    requires
        has_flags(fin_out, FIN),
        !has_flags(fin_out, RST),
        has_flags(fin_in, FIN),
        !has_flags(fin_in, RST),
        has_flags(ack_out, ACK),
    ensures
        next_state(TcpState::Established, fin_out, false) == TcpState::Fin1Local,
        next_state(TcpState::Fin1Local, fin_in, true) == TcpState::Fin2Local,
        next_state(TcpState::Fin2Local, ack_out, false) == TcpState::Closed,
{
}

/// No first segment makes a connection established: every connection
/// starts on the short timeout.
pub proof fn lemma_never_established_at_first(flags: u8, is_ingress: bool)
    ensures
        initial_state(flags, is_ingress) != TcpState::Established,
{
}

/// The tracker of one connection.
pub struct TcpStateMachine {
    pub state: TcpState,
}

impl TcpStateMachine {
    /// Starts tracking a connection from the first segment seen of it.
    pub fn new(flags: u8, is_ingress: bool) -> (m: Self)
        ensures
            m.state == initial_state(flags, is_ingress),
    {
        Self {
            state: if flags & SYN == SYN {
                if is_ingress {
                    TcpState::SynRemote
                } else {
                    TcpState::SynLocal
                }
            } else {
                TcpState::Closed
            },
        }
    }

    /// Feeds one segment to the tracker. The result tells whether the
    /// segment carried the bits the current phase waits for.
    pub fn update(&mut self, flags: u8, ingress: bool) -> (relevant: bool)
        ensures
            final(self).state == next_state(old(self).state, flags, ingress),
            relevant == is_relevant(old(self).state, flags),
    {
        if flags & RST == RST {
            self.state = TcpState::Closed;
            return true;
        }
        match self.state {
            TcpState::Closed => if flags & SYN == SYN {
                if ingress {
                    self.state = TcpState::SynRemote
                } else {
                    self.state = TcpState::SynLocal
                }
                true
            } else {
                false
            },
            TcpState::SynRemote => if flags & SYN == SYN {
                if !ingress {
                    if flags & ACK == ACK {
                        self.state = TcpState::Established
                    } else {
                        self.state = TcpState::SynBoth
                    }
                }
                true
            } else {
                false
            },
            TcpState::SynLocal => if flags & SYN == SYN {
                if ingress {
                    if flags & ACK == ACK {
                        self.state = TcpState::Established
                    } else {
                        self.state = TcpState::SynBoth
                    }
                }
                true
            } else {
                false
            },
            TcpState::SynBoth => if flags & (SYN | ACK) == (SYN | ACK) {
                self.state = TcpState::Established;
                true
            } else {
                false
            },
            TcpState::Established => if flags & FIN == FIN {
                if ingress {
                    self.state = TcpState::Fin1Remote
                } else {
                    self.state = TcpState::Fin1Local
                }
                true
            } else if (flags | SYN) == SYN {
                false
            } else {
                true
            },
            TcpState::Fin1Local => if flags & FIN == FIN {
                if ingress {
                    self.state = TcpState::Fin2Local
                }
                true
            } else {
                false
            },
            TcpState::Fin1Remote => if flags & FIN == FIN {
                if !ingress {
                    self.state = TcpState::Fin2Remote
                }
                true
            } else {
                false
            },
            TcpState::Fin2Local => if flags & ACK == ACK {
                if !ingress {
                    self.state = TcpState::Closed
                }
                true
            } else {
                false
            },
            TcpState::Fin2Remote => if flags & ACK == ACK {
                if ingress {
                    self.state = TcpState::Closed
                }
                true
            } else {
                false
            },
        }
    }
}

} // verus!
