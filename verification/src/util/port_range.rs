//! External port pools laid out in cycles: the same block of ports, taken at
//! the same offset of every cycle of the port space.

use vstd::prelude::*;

verus! {

/// The ports `begin`, `begin + 1`, ... up to but without `end`.
pub open spec fn port_block(begin: int, end: int) -> Seq<u16> {
    Seq::new(
        if end > begin {
            (end - begin) as nat
        } else {
            0
        },
        |i: int| (begin + i) as u16,
    )
}

/// Where cycle `n` starts its block.
pub open spec fn block_begin(cycle_size: u16, cycle_starts: u16, portset_offset: u16, n: int) -> int {
    cycle_starts + n * cycle_size + portset_offset
}

/// The blocks of the first `cycle_nums` cycles, one after the other. Each
/// block holds the ports from its beginning up to but without the port
/// `portset_size - 1` further on.
pub open spec fn port_cycles(
    cycle_size: u16,
    cycle_nums: nat,
    cycle_starts: u16,
    portset_offset: u16,
    portset_size: u16,
) -> Seq<u16>
    decreases cycle_nums,
{
    if cycle_nums == 0 {
        Seq::empty()
    } else {
        let begin = block_begin(cycle_size, cycle_starts, portset_offset, cycle_nums - 1);
        port_cycles(
            cycle_size,
            (cycle_nums - 1) as nat,
            cycle_starts,
            portset_offset,
            portset_size,
        ) + port_block(begin, begin + portset_size - 1)
    }
}

/// The width of a block: one port less than `portset_size`.
pub open spec fn block_width(portset_size: u16) -> int {
    if portset_size == 0 {
        0
    } else {
        portset_size - 1
    }
}

/// The pool made of one block per cycle. Every block must lie within the
/// port space, the last one being the highest.
pub fn gen(
    cycle_size: u16,
    cycle_nums: u16,
    cycle_starts: u16,
    portset_offset: u16,
    portset_size: u16,
) -> (range: Vec<u16>)
    requires
        cycle_nums > 0 ==> block_begin(cycle_size, cycle_starts, portset_offset, cycle_nums - 1)
            + block_width(portset_size) <= u16::MAX,
    ensures
        range@ == port_cycles(
            cycle_size,
            cycle_nums as nat,
            cycle_starts,
            portset_offset,
            portset_size,
        ),
{
    let mut range: Vec<u16> = Vec::new();
    let mut n: u16 = 0;
    while n < cycle_nums
        invariant
            n <= cycle_nums,
            cycle_nums > 0 ==> block_begin(cycle_size, cycle_starts, portset_offset, cycle_nums - 1)
                + block_width(portset_size) <= u16::MAX,
            range@ == port_cycles(cycle_size, n as nat, cycle_starts, portset_offset, portset_size),
        decreases cycle_nums - n,
    {
        assert(n * cycle_size <= (cycle_nums - 1) * cycle_size) by (nonlinear_arith)
            requires
                n <= cycle_nums - 1,
                cycle_size >= 0,
        ;
        let begin: u16 = cycle_starts + (n * cycle_size) + portset_offset;
        let end: u16 = if portset_size == 0 {
            begin
        } else {
            begin + (portset_size - 1)
        };
        let ghost before = range@;
        let mut p: u16 = begin;
        while p < end
            invariant
                begin <= p <= end,
                range@ == before + port_block(begin as int, p as int),
            decreases end - p,
        {
            range.push(p);
            p = p + 1;
            assert(range@ =~= before + port_block(begin as int, p as int));
        }
        assert(range@ =~= before + port_block(begin as int, begin + portset_size - 1));
        n = n + 1;
    }
    range
}

/// The pool of a v6plus subscriber with port-set identifier `psid`.
pub fn gen_v6plus(psid: u8) -> (range: Vec<u16>)
    ensures
        range@ == port_cycles(4096, 15, 4096, (psid * 16) as u16, 16),
{
    let offset: u16 = (psid as u16) << 4;
    assert(offset == psid * 16) by (bit_vector)
        requires
            offset == (psid as u16) << 4,
    ;
    gen(4096, 15, 4096, offset, 16)
}

/// The pool of an OCN virtual-connect subscriber with port-set identifier
/// `psid`, which is 63 at most.
pub fn gen_ocn_vc(psid: u8) -> (range: Vec<u16>)
    requires
        psid <= 63,
    ensures
        range@ == port_cycles(1024, 63, 1024, (psid * 16) as u16, 16),
{
    let offset: u16 = (psid as u16) << 4;
    assert(offset == psid * 16) by (bit_vector)
        requires
            offset == (psid as u16) << 4,
    ;
    gen(1024, 63, 1024, offset, 16)
}

/// The port after `x` in the pool of the hundred ports from 19900 on,
/// the first following the last.
pub fn get_next_port(x: u16) -> (next: u16)
    requires
        x >= 19900,
    ensures
        next == (x - 19900 + 1) % 100 + 19900,
        19900 <= next < 20000,
{
    ((x - 19900 + 1) % 100) + 19900
}

} // verus!
