//! Building the segments a connection sends.

use vstd::prelude::*;

use crate::model::build_segment_spec;
use crate::wire::{FIPS_VERSION, Flags, OptionView, Segment, TcpOption};

verus! {

pub struct SegmentHeader {
    pub local_port: u16,
    pub remote_port: u16,
    pub seq: u32,
    pub ack: u32,
    pub window: u16,
    pub mss: u16,
    pub flags: Flags,
}

pub fn build_segment(header: SegmentHeader, payload: Vec<u8>) -> (r: Segment)
    ensures
        r@ == build_segment_spec(
            header.local_port,
            header.remote_port,
            header.seq,
            header.ack,
            header.window,
            header.mss,
            header.flags@,
            payload@,
        ),
{
    let mut segment = Segment::new(header.local_port, header.remote_port, header.seq);
    segment.flags = header.flags;
    segment.window = header.window;
    segment.payload = payload;
    if header.flags.contains(Flags::ack()) {
        segment.ack = Some(header.ack);
    }
    if header.flags.contains(Flags::syn()) {
        let mut options: Vec<TcpOption> = Vec::new();
        options.push(TcpOption::MaxSegmentSize(header.mss));
        options.push(TcpOption::FipsVersion { version: FIPS_VERSION, reserved: 0 });
        segment.options = options;
        assert(segment@.options =~= seq![
            OptionView::MaxSegmentSize(header.mss),
            OptionView::FipsVersion { version: FIPS_VERSION, reserved: 0 },
        ]);
    }
    assert(segment@ == build_segment_spec(
        header.local_port,
        header.remote_port,
        header.seq,
        header.ack,
        header.window,
        header.mss,
        header.flags@,
        payload@,
    ));
    segment
}

} // verus!
