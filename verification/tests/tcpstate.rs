use rustnat::tcpstate::{TcpState, TcpStateMachine, ACK, FIN, RST, SYN};

#[test]
fn handshake_then_close() {
    let mut m = TcpStateMachine::new(SYN, false);
    assert_eq!(m.state, TcpState::SynLocal);
    assert!(m.update(SYN | ACK, true));
    assert_eq!(m.state, TcpState::Established);
    assert!(m.update(ACK, false));
    assert_eq!(m.state, TcpState::Established);
    assert!(m.update(FIN, false));
    assert_eq!(m.state, TcpState::Fin1Local);
    assert!(m.update(FIN, true));
    assert_eq!(m.state, TcpState::Fin2Local);
    assert!(m.update(ACK, false));
    assert_eq!(m.state, TcpState::Closed);
}

#[test]
fn reset_closes_from_every_state() {
    let all = [
        TcpState::SynLocal,
        TcpState::SynRemote,
        TcpState::SynBoth,
        TcpState::Established,
        TcpState::Fin1Local,
        TcpState::Fin1Remote,
        TcpState::Fin2Local,
        TcpState::Fin2Remote,
        TcpState::Closed,
    ];
    for s in all {
        for ingress in [false, true] {
            let mut m = TcpStateMachine { state: s };
            assert!(m.update(RST | ACK, ingress));
            assert_eq!(m.state, TcpState::Closed);
        }
    }
}
