//! The TCP/FIPS segment encoding: a standard big-endian TCP header with a zero
//! checksum and urgent pointer, TCP options, and the payload.

use vstd::prelude::*;

verus! {

pub const HEADER_LEN: usize = 20;

pub const MAX_HEADER_LEN: usize = 60;

pub const FIPS_OPTION_KIND: u8 = 254;

pub const FIPS_VERSION: u8 = 1;

pub const FIN_BIT: u16 = 0x001;

pub const SYN_BIT: u16 = 0x002;

pub const RST_BIT: u16 = 0x004;

pub const PSH_BIT: u16 = 0x008;

pub const ACK_BIT: u16 = 0x010;

pub const ECE_BIT: u16 = 0x040;

pub const CWR_BIT: u16 = 0x080;

/// The bits that no supported flag uses (URG and every bit above CWR).
pub const UNSUPPORTED_FLAG_BITS: u16 = 0xff20;

/// Whether `bits` uses only the supported flags FIN, SYN, RST, PSH, ACK, ECE, CWR.
pub open spec fn flag_bits_supported(bits: u16) -> bool {
    bits & UNSUPPORTED_FLAG_BITS == 0
}

/// Whether every bit of `flag` is set in `bits`.
pub open spec fn has_flag(bits: u16, flag: u16) -> bool {
    bits & flag == flag
}

/// A set of TCP control flags; only the supported flags can ever be set.
#[derive(Clone, Copy, Debug, Default, PartialEq, Eq, Structural)]
pub struct Flags(u16);

impl Flags {
    #[verifier::type_invariant]
    closed spec fn supported(self) -> bool {
        flag_bits_supported(self.0)
    }

    /// The raw flag bits.
    pub closed spec fn spec_bits(self) -> u16 {
        self.0
    }

    pub open spec fn has(self, flag: u16) -> bool {
        has_flag(self.spec_bits(), flag)
    }

    proof fn lemma_named_bits_supported()
        ensures
            flag_bits_supported(FIN_BIT),
            flag_bits_supported(SYN_BIT),
            flag_bits_supported(RST_BIT),
            flag_bits_supported(PSH_BIT),
            flag_bits_supported(ACK_BIT),
            flag_bits_supported(ECE_BIT),
            flag_bits_supported(CWR_BIT),
            flag_bits_supported(0),
    {
        assert(0x001u16 & 0xff20u16 == 0) by (bit_vector);
        assert(0x002u16 & 0xff20u16 == 0) by (bit_vector);
        assert(0x004u16 & 0xff20u16 == 0) by (bit_vector);
        assert(0x008u16 & 0xff20u16 == 0) by (bit_vector);
        assert(0x010u16 & 0xff20u16 == 0) by (bit_vector);
        assert(0x040u16 & 0xff20u16 == 0) by (bit_vector);
        assert(0x080u16 & 0xff20u16 == 0) by (bit_vector);
        assert(0x000u16 & 0xff20u16 == 0) by (bit_vector);
    }

    fn from_supported(bits: u16) -> (r: Self)
        requires
            flag_bits_supported(bits),
        ensures
            r.spec_bits() == bits,
    {
        Flags(bits)
    }

    pub fn fin() -> (r: Self)
        ensures
            r.spec_bits() == FIN_BIT,
    {
        proof {
            Self::lemma_named_bits_supported();
        }
        Self::from_supported(FIN_BIT)
    }

    pub fn syn() -> (r: Self)
        ensures
            r.spec_bits() == SYN_BIT,
    {
        proof {
            Self::lemma_named_bits_supported();
        }
        Self::from_supported(SYN_BIT)
    }

    pub fn rst() -> (r: Self)
        ensures
            r.spec_bits() == RST_BIT,
    {
        proof {
            Self::lemma_named_bits_supported();
        }
        Self::from_supported(RST_BIT)
    }

    pub fn psh() -> (r: Self)
        ensures
            r.spec_bits() == PSH_BIT,
    {
        proof {
            Self::lemma_named_bits_supported();
        }
        Self::from_supported(PSH_BIT)
    }

    pub fn ack() -> (r: Self)
        ensures
            r.spec_bits() == ACK_BIT,
    {
        proof {
            Self::lemma_named_bits_supported();
        }
        Self::from_supported(ACK_BIT)
    }

    pub fn ece() -> (r: Self)
        ensures
            r.spec_bits() == ECE_BIT,
    {
        proof {
            Self::lemma_named_bits_supported();
        }
        Self::from_supported(ECE_BIT)
    }

    pub fn cwr() -> (r: Self)
        ensures
            r.spec_bits() == CWR_BIT,
    {
        proof {
            Self::lemma_named_bits_supported();
        }
        Self::from_supported(CWR_BIT)
    }

    pub fn empty() -> (r: Self)
        ensures
            r.spec_bits() == 0,
    {
        proof {
            Self::lemma_named_bits_supported();
        }
        Self::from_supported(0)
    }

    pub fn bits(self) -> (r: u16)
        ensures
            r == self.spec_bits(),
    {
        self.0
    }

    pub fn contains(self, flag: Self) -> (r: bool)
        ensures
            r == self.has(flag.spec_bits()),
    {
        self.0 & flag.0 == flag.0
    }

    pub fn union(self, flag: Self) -> (r: Self)
        ensures
            r.spec_bits() == self.spec_bits() | flag.spec_bits(),
    {
        proof {
            use_type_invariant(self);
            use_type_invariant(flag);
        }
        let a = self.0;
        let b = flag.0;
        assert(a & 0xff20u16 == 0 && b & 0xff20u16 == 0 ==> (a | b) & 0xff20u16 == 0)
            by (bit_vector);
        Flags(a | b)
    }

    /// Flags read from the wire; any unsupported bit is refused.
    fn from_wire(bits: u16) -> (r: Result<Self, WireError>)
        ensures
            flag_bits_supported(bits) ==> r == Ok::<Flags, WireError>(
                Self::view_of(bits),
            ),
            !flag_bits_supported(bits) ==> r == Err::<Flags, WireError>(
                WireError::UnsupportedFlags(bits),
            ),
    {
        if bits & UNSUPPORTED_FLAG_BITS != 0 {
            return Err(WireError::UnsupportedFlags(bits));
        }
        Ok(Flags(bits))
    }

    /// The flag set with exactly these bits.
    pub closed spec fn view_of(bits: u16) -> Flags {
        Flags(bits)
    }

    pub proof fn lemma_view_of(bits: u16)
        ensures
            Self::view_of(bits).spec_bits() == bits,
    {
    }
}

impl View for Flags {
    type V = u16;

    open spec fn view(&self) -> u16 {
        self.spec_bits()
    }
}

impl vstd::std_specs::ops::BitOrSpecImpl for Flags {
    open spec fn obeys_bitor_spec() -> bool {
        true
    }

    open spec fn bitor_req(self, rhs: Flags) -> bool {
        true
    }

    closed spec fn bitor_spec(self, rhs: Flags) -> Flags {
        Flags(self.0 | rhs.0)
    }
}

impl core::ops::BitOr for Flags {
    type Output = Self;

    fn bitor(self, rhs: Self) -> (r: Self::Output) {
        self.union(rhs)
    }
}

/// Errors of segment encoding and decoding.
#[derive(Clone, Copy, Debug, PartialEq, Eq, Structural)]
pub enum WireError {
    Truncated,
    InvalidHeaderLength,
    NonZeroChecksum,
    UrgentUnsupported,
    UnsupportedFlags(u16),
    ZeroPort,
    AckFlagMismatch,
    HeaderTooLong,
    OptionTooLong,
    MalformedOption,
}

#[derive(Clone, Debug, PartialEq, Eq)]
pub enum TcpOption {
    EndOfList,
    NoOperation,
    MaxSegmentSize(u16),
    FipsVersion { version: u8, reserved: u8 },
    Unknown { kind: u8, data: Vec<u8> },
}

/// The mathematical value of a TCP option.
pub enum OptionView {
    EndOfList,
    NoOperation,
    MaxSegmentSize(u16),
    FipsVersion { version: u8, reserved: u8 },
    Unknown { kind: u8, data: Seq<u8> },
}

impl View for TcpOption {
    type V = OptionView;

    open spec fn view(&self) -> OptionView {
        match self {
            TcpOption::EndOfList => OptionView::EndOfList,
            TcpOption::NoOperation => OptionView::NoOperation,
            TcpOption::MaxSegmentSize(v) => OptionView::MaxSegmentSize(*v),
            TcpOption::FipsVersion { version, reserved } => OptionView::FipsVersion {
                version: *version,
                reserved: *reserved,
            },
            TcpOption::Unknown { kind, data } => OptionView::Unknown { kind: *kind, data: data@ },
        }
    }
}

#[derive(Clone, Debug, PartialEq, Eq)]
pub struct Segment {
    pub src_port: u16,
    pub dst_port: u16,
    pub seq: u32,
    pub ack: Option<u32>,
    pub flags: Flags,
    pub window: u16,
    pub options: Vec<TcpOption>,
    pub payload: Vec<u8>,
}

/// The mathematical value of a segment.
pub struct SegmentView {
    pub src_port: u16,
    pub dst_port: u16,
    pub seq: u32,
    pub ack: Option<u32>,
    pub flags: u16,
    pub window: u16,
    pub options: Seq<OptionView>,
    pub payload: Seq<u8>,
}

impl View for Segment {
    type V = SegmentView;

    open spec fn view(&self) -> SegmentView {
        SegmentView {
            src_port: self.src_port,
            dst_port: self.dst_port,
            seq: self.seq,
            ack: self.ack,
            flags: self.flags@,
            window: self.window,
            options: self.options@.map_values(|o: TcpOption| o@),
            payload: self.payload@,
        }
    }
}

pub proof fn lemma_supported_bits(b: u16)
    requires
        flag_bits_supported(b),
    ensures
        b <= 0xdf,
{
    assert(b & 0xff20u16 == 0 ==> b <= 0xdf) by (bit_vector);
}

// ---------------------------------------------------------------------------
// Big-endian integers.
/// The big-endian 16-bit value of two bytes.
pub open spec fn be16(hi: u8, lo: u8) -> u16 {
    (hi * 256 + lo) as u16
}

/// The big-endian 32-bit value of four bytes.
pub open spec fn be32(b0: u8, b1: u8, b2: u8, b3: u8) -> u32 {
    (b0 * 0x100_0000 + b1 * 0x1_0000 + b2 * 0x100 + b3) as u32
}

/// The two big-endian bytes of a 16-bit value.
pub open spec fn be16_bytes(v: u16) -> Seq<u8> {
    seq![(v / 256) as u8, (v % 256) as u8]
}

/// The four big-endian bytes of a 32-bit value.
pub open spec fn be32_bytes(v: u32) -> Seq<u8> {
    seq![
        (v / 0x100_0000) as u8,
        ((v / 0x1_0000) % 256) as u8,
        ((v / 0x100) % 256) as u8,
        (v % 256) as u8,
    ]
}

pub proof fn lemma_be16_roundtrip(v: u16)
    ensures
        be16(be16_bytes(v)[0], be16_bytes(v)[1]) == v,
{
    assert((v / 256) * 256 + v % 256 == v) by (nonlinear_arith);
}

pub proof fn lemma_be32_roundtrip(v: u32)
    ensures
        be32(be32_bytes(v)[0], be32_bytes(v)[1], be32_bytes(v)[2], be32_bytes(v)[3]) == v,
{
    let b0 = v / 0x100_0000;
    let b1 = (v / 0x1_0000) % 256;
    let b2 = (v / 0x100) % 256;
    let b3 = v % 256;
    assert(b0 * 0x100_0000 + b1 * 0x1_0000 + b2 * 0x100 + b3 == v) by (nonlinear_arith)
        requires
            b0 == v / 0x100_0000,
            b1 == (v / 0x1_0000) % 256,
            b2 == (v / 0x100) % 256,
            b3 == v % 256,
    ;
}

fn push_be16(out: &mut Vec<u8>, v: u16)
    ensures
        final(out)@ == old(out)@ + be16_bytes(v),
{
    out.push((v / 256) as u8);
    out.push((v % 256) as u8);
    assert(final_bytes_eq(out@, old(out)@, be16_bytes(v)));
}

fn push_be32(out: &mut Vec<u8>, v: u32)
    ensures
        final(out)@ == old(out)@ + be32_bytes(v),
{
    out.push((v / 0x100_0000) as u8);
    out.push(((v / 0x1_0000) % 256) as u8);
    out.push(((v / 0x100) % 256) as u8);
    out.push((v % 256) as u8);
    assert(final_bytes_eq(out@, old(out)@, be32_bytes(v)));
}

spec fn final_bytes_eq(a: Seq<u8>, b: Seq<u8>, c: Seq<u8>) -> bool {
    a =~= b + c
}

fn read_be16(bytes: &[u8], at: usize) -> (r: u16)
    requires
        at + 1 < bytes@.len(),
    ensures
        r == be16(bytes@[at as int], bytes@[at + 1]),
{
    (bytes[at] as u16) * 256 + (bytes[at + 1] as u16)
}

fn read_be32(bytes: &[u8], at: usize) -> (r: u32)
    requires
        at + 3 < bytes@.len(),
    ensures
        r == be32(bytes@[at as int], bytes@[at + 1], bytes@[at + 2], bytes@[at + 3]),
{
    (bytes[at] as u32) * 0x100_0000 + (bytes[at + 1] as u32) * 0x1_0000 + (bytes[at + 2] as u32)
        * 0x100 + (bytes[at + 3] as u32)
}

// ---------------------------------------------------------------------------
// Options.
/// The number of bytes an option occupies on the wire.
pub open spec fn option_len(o: OptionView) -> nat {
    match o {
        OptionView::EndOfList | OptionView::NoOperation => 1,
        OptionView::MaxSegmentSize(_) | OptionView::FipsVersion { .. } => 4,
        OptionView::Unknown { data, .. } => data.len() + 2,
    }
}

/// The total wire length of a list of options.
pub open spec fn options_len(opts: Seq<OptionView>) -> nat
    decreases opts.len(),
{
    if opts.len() == 0 {
        0
    } else {
        option_len(opts[0]) + options_len(opts.drop_first())
    }
}

/// The encoding of one option, or why it cannot be encoded.
pub open spec fn option_encoding(o: OptionView) -> Result<Seq<u8>, WireError> {
    match o {
        OptionView::EndOfList => Ok(seq![0u8]),
        OptionView::NoOperation => Ok(seq![1u8]),
        OptionView::MaxSegmentSize(v) => Ok(seq![2u8, 4u8] + be16_bytes(v)),
        OptionView::FipsVersion { version, reserved } => Ok(
            seq![FIPS_OPTION_KIND, 4u8, version, reserved],
        ),
        OptionView::Unknown { kind, data } => if data.len() + 2 > 255 {
            Err(WireError::OptionTooLong)
        } else if kind <= 1 {
            Err(WireError::MalformedOption)
        } else {
            Ok(seq![kind, (data.len() + 2) as u8] + data)
        },
    }
}

/// `prefix` in front of a successful result; an error passes through.
pub open spec fn prepend_bytes(prefix: Seq<u8>, r: Result<Seq<u8>, WireError>) -> Result<
    Seq<u8>,
    WireError,
> {
    match r {
        Ok(rest) => Ok(prefix + rest),
        Err(e) => Err(e),
    }
}

/// The encoding of a list of options in order; the first option that cannot be
/// encoded decides the error.
pub open spec fn options_encoding(opts: Seq<OptionView>) -> Result<Seq<u8>, WireError>
    decreases opts.len(),
{
    if opts.len() == 0 {
        Ok(Seq::empty())
    } else {
        match option_encoding(opts[0]) {
            Err(e) => Err(e),
            Ok(first) => prepend_bytes(first, options_encoding(opts.drop_first())),
        }
    }
}

/// `prefix` in front of a successfully decoded option list.
pub open spec fn prepend_options(prefix: Seq<OptionView>, r: Result<Seq<OptionView>, WireError>) -> Result<
    Seq<OptionView>,
    WireError,
> {
    match r {
        Ok(rest) => Ok(prefix + rest),
        Err(e) => Err(e),
    }
}

/// The option that a well-formed kind, length and data decode to.
pub open spec fn decoded_option(kind: u8, len: nat, data: Seq<u8>) -> Result<OptionView, WireError> {
    if kind == 2 && len == 4 {
        Ok(OptionView::MaxSegmentSize(be16(data[0], data[1])))
    } else if kind == FIPS_OPTION_KIND && len == 4 {
        Ok(OptionView::FipsVersion { version: data[0], reserved: data[1] })
    } else if kind == 2 || kind == FIPS_OPTION_KIND {
        Err(WireError::MalformedOption)
    } else {
        Ok(OptionView::Unknown { kind, data })
    }
}

/// Decoding of the option area: kind 0 ends the list, kind 1 is a no-op, every
/// other kind is followed by its total length.
pub open spec fn decode_options_spec(b: Seq<u8>) -> Result<Seq<OptionView>, WireError>
    decreases b.len(),
{
    if b.len() == 0 || b[0] == 0 {
        Ok(Seq::empty())
    } else if b[0] == 1 {
        prepend_options(seq![OptionView::NoOperation], decode_options_spec(b.drop_first()))
    } else if b.len() < 2 || b[1] < 2 || b[1] > b.len() {
        Err(WireError::MalformedOption)
    } else {
        match decoded_option(b[0], b[1] as nat, b.subrange(2, b[1] as int)) {
            Err(e) => Err(e),
            Ok(o) => prepend_options(seq![o], decode_options_spec(b.skip(b[1] as int))),
        }
    }
}

// ---------------------------------------------------------------------------
// Segments.
/// `n` rounded up to a multiple of four.
pub open spec fn padded(n: nat) -> nat {
    ((n + 3) / 4) * 4
}

/// `n` zero bytes.
pub open spec fn zeros(n: nat) -> Seq<u8> {
    Seq::new(n, |i: int| 0u8)
}

/// The fixed 20-byte header of a segment whose header is `header_len` bytes.
pub open spec fn header_bytes(s: SegmentView, header_len: nat) -> Seq<u8> {
    be16_bytes(s.src_port) + be16_bytes(s.dst_port) + be32_bytes(s.seq) + be32_bytes(
        match s.ack {
            Some(a) => a,
            None => 0,
        },
    ) + be16_bytes(((header_len / 4) * 4096 + s.flags) as u16) + be16_bytes(s.window)
        + be16_bytes(0) + be16_bytes(0)
}

/// The encoding of a segment, or why it cannot be encoded.
pub open spec fn encode_spec(s: SegmentView) -> Result<Seq<u8>, WireError> {
    if s.src_port == 0 || s.dst_port == 0 {
        Err(WireError::ZeroPort)
    } else if has_flag(s.flags, ACK_BIT) != s.ack.is_some() {
        Err(WireError::AckFlagMismatch)
    } else if options_len(s.options) > 40 {
        Err(WireError::HeaderTooLong)
    } else {
        let header_len = (HEADER_LEN + padded(options_len(s.options))) as nat;
        match options_encoding(s.options) {
            Err(e) => Err(e),
            Ok(ob) => Ok(
                header_bytes(s, header_len) + ob + zeros(
                    (padded(options_len(s.options)) - options_len(s.options)) as nat,
                ) + s.payload,
            ),
        }
    }
}

/// The header length that the data-offset field of `b` announces.
pub open spec fn announced_header_len(b: Seq<u8>) -> nat {
    ((be16(b[12], b[13]) / 4096) * 4) as nat
}

/// The decoding of a segment, or why the bytes are refused.
pub open spec fn decode_spec(b: Seq<u8>) -> Result<SegmentView, WireError> {
    if b.len() < HEADER_LEN {
        Err(WireError::Truncated)
    } else if be16(b[0], b[1]) == 0 || be16(b[2], b[3]) == 0 {
        Err(WireError::ZeroPort)
    } else if announced_header_len(b) < HEADER_LEN || announced_header_len(b) > MAX_HEADER_LEN
        || announced_header_len(b) > b.len() {
        Err(WireError::InvalidHeaderLength)
    } else if be16(b[16], b[17]) != 0 {
        Err(WireError::NonZeroChecksum)
    } else if be16(b[18], b[19]) != 0 {
        Err(WireError::UrgentUnsupported)
    } else if !flag_bits_supported((be16(b[12], b[13]) % 512) as u16) {
        Err(WireError::UnsupportedFlags((be16(b[12], b[13]) % 512) as u16))
    } else {
        let hl = announced_header_len(b);
        let flags = (be16(b[12], b[13]) % 512) as u16;
        match decode_options_spec(b.subrange(HEADER_LEN as int, hl as int)) {
            Err(e) => Err(e),
            Ok(options) => Ok(
                SegmentView {
                    src_port: be16(b[0], b[1]),
                    dst_port: be16(b[2], b[3]),
                    seq: be32(b[4], b[5], b[6], b[7]),
                    ack: if has_flag(flags, ACK_BIT) {
                        Some(be32(b[8], b[9], b[10], b[11]))
                    } else {
                        None
                    },
                    flags,
                    window: be16(b[14], b[15]),
                    options,
                    payload: b.subrange(hl as int, b.len() as int),
                },
            ),
        }
    }
}

/// A decoded segment never carries a zero port.
pub proof fn lemma_decode_ports(b: Seq<u8>)
    ensures
        decode_spec(b) matches Ok(s) ==> s.src_port != 0 && s.dst_port != 0,
{
}

/// The number of sequence numbers a segment occupies: payload plus SYN and FIN.
pub open spec fn sequence_len_spec(s: SegmentView) -> int {
    s.payload.len() + (if has_flag(s.flags, SYN_BIT) {
        1int
    } else {
        0int
    }) + (if has_flag(s.flags, FIN_BIT) {
        1int
    } else {
        0int
    })
}

/// The first FIPS version option of a list, if any.
pub open spec fn first_fips_version(opts: Seq<OptionView>) -> Option<u8>
    decreases opts.len(),
{
    if opts.len() == 0 {
        None
    } else {
        match opts[0] {
            OptionView::FipsVersion { version, .. } => Some(version),
            _ => first_fips_version(opts.drop_first()),
        }
    }
}

/// The first maximum-segment-size option of a list, if any.
pub open spec fn first_mss(opts: Seq<OptionView>) -> Option<u16>
    decreases opts.len(),
{
    if opts.len() == 0 {
        None
    } else {
        match opts[0] {
            OptionView::MaxSegmentSize(v) => Some(v),
            _ => first_mss(opts.drop_first()),
        }
    }
}

/// Whether some option announces FIPS version `expected` with a zero reserved byte.
pub open spec fn announces_version(opts: Seq<OptionView>, expected: u8) -> bool {
    exists|i: int|
        0 <= i < opts.len() && #[trigger] opts[i] == (OptionView::FipsVersion {
            version: expected,
            reserved: 0,
        })
}

pub fn copy_bytes(src: &[u8], from: usize, to: usize) -> (r: Vec<u8>)
    requires
        from <= to <= src@.len(),
    ensures
        r@ == src@.subrange(from as int, to as int),
{
    let mut out: Vec<u8> = Vec::new();
    let mut i = from;
    while i < to
        invariant
            from <= i <= to <= src@.len(),
            out@ == src@.subrange(from as int, i as int),
        decreases to - i,
    {
        out.push(src[i]);
        i = i + 1;
        assert(out@ =~= src@.subrange(from as int, i as int));
    }
    out
}

/// Appends all of `src`.
pub fn push_all(out: &mut Vec<u8>, src: &Vec<u8>)
    ensures
        final(out)@ == old(out)@ + src@,
{
    push_bytes(out, src.as_slice());
}

/// A copy of a byte vector.
pub fn copy_vec(src: &Vec<u8>) -> (r: Vec<u8>)
    ensures
        r@ == src@,
{
    let r = copy_bytes(src.as_slice(), 0, src.len());
    assert(src@.subrange(0, src@.len() as int) =~= src@);
    r
}

impl TcpOption {
    fn encoded_len(&self) -> (r: usize)
        requires
            option_len(self@) <= usize::MAX,
        ensures
            r == option_len(self@),
    {
        match self {
            TcpOption::EndOfList | TcpOption::NoOperation => 1,
            TcpOption::MaxSegmentSize(_) | TcpOption::FipsVersion { .. } => 4,
            TcpOption::Unknown { data, .. } => data.len() + 2,
        }
    }

    fn encode_into(&self, output: &mut Vec<u8>) -> (r: Result<(), WireError>)
        ensures
            match option_encoding(self@) {
                Ok(b) => r is Ok && final(output)@ == old(output)@ + b,
                Err(e) => r == Err::<(), WireError>(e),
            },
    {
        match self {
            TcpOption::EndOfList => {
                output.push(0);
                assert(output@ =~= old(output)@ + seq![0u8]);
            },
            TcpOption::NoOperation => {
                output.push(1);
                assert(output@ =~= old(output)@ + seq![1u8]);
            },
            TcpOption::MaxSegmentSize(value) => {
                output.push(2);
                output.push(4);
                push_be16(output, *value);
                assert(output@ =~= old(output)@ + (seq![2u8, 4u8] + be16_bytes(*value)));
            },
            TcpOption::FipsVersion { version, reserved } => {
                output.push(FIPS_OPTION_KIND);
                output.push(4);
                output.push(*version);
                output.push(*reserved);
                assert(output@ =~= old(output)@ + seq![FIPS_OPTION_KIND, 4u8, *version, *reserved]);
            },
            TcpOption::Unknown { kind, data } => {
                if data.len() > 253 {
                    return Err(WireError::OptionTooLong);
                }
                if *kind <= 1 {
                    return Err(WireError::MalformedOption);
                }
                let len = (data.len() + 2) as u8;
                output.push(*kind);
                output.push(len);
                let ghost before = output@;
                let mut i: usize = 0;
                while i < data.len()
                    invariant
                        i <= data@.len(),
                        output@ == before + data@.subrange(0, i as int),
                    decreases data@.len() - i,
                {
                    output.push(data[i]);
                    i = i + 1;
                    assert(output@ =~= before + data@.subrange(0, i as int));
                }
                assert(data@.subrange(0, data@.len() as int) =~= data@);
                assert(output@ =~= old(output)@ + (seq![*kind, (data@.len() + 2) as u8] + data@));
            },
        }
        Ok(())
    }
}

pub proof fn lemma_options_encoding_len(opts: Seq<OptionView>)
    ensures
        options_encoding(opts) matches Ok(b) ==> b.len() == options_len(opts),
    decreases opts.len(),
{
    if opts.len() > 0 {
        lemma_options_encoding_len(opts.drop_first());
    }
}

proof fn lemma_options_len_skip(opts: Seq<OptionView>, k: int)
    requires
        0 <= k < opts.len(),
    ensures
        options_len(opts.skip(k)) == option_len(opts[k]) + options_len(opts.skip(k + 1)),
{
    assert(opts.skip(k).drop_first() =~= opts.skip(k + 1));
}

proof fn lemma_options_encoding_skip(opts: Seq<OptionView>, k: int)
    requires
        0 <= k < opts.len(),
    ensures
        options_encoding(opts.skip(k)) == (match option_encoding(opts[k]) {
            Err(e) => Err(e),
            Ok(first) => prepend_bytes(first, options_encoding(opts.skip(k + 1))),
        }),
{
    assert(opts.skip(k).drop_first() =~= opts.skip(k + 1));
}

proof fn lemma_options_len_le(opts: Seq<OptionView>, k: int)
    requires
        0 <= k <= opts.len(),
    ensures
        options_len(opts.skip(k)) <= options_len(opts),
    decreases k,
{
    if k > 0 {
        lemma_options_len_le(opts, k - 1);
        lemma_options_len_skip(opts, k - 1);
    } else {
        assert(opts.skip(0) =~= opts);
    }
}

impl Segment {
    pub fn new(src_port: u16, dst_port: u16, seq: u32) -> (r: Self)
        ensures
            r@ == (SegmentView {
                src_port,
                dst_port,
                seq,
                ack: None,
                flags: 0,
                window: u16::MAX,
                options: Seq::empty(),
                payload: Seq::empty(),
            }),
    {
        let r = Self {
            src_port,
            dst_port,
            seq,
            ack: None,
            flags: Flags::empty(),
            window: u16::MAX,
            options: Vec::new(),
            payload: Vec::new(),
        };
        assert(r@.options =~= Seq::<OptionView>::empty());
        r
    }

    pub fn fips_version(&self) -> (r: Option<u8>)
        ensures
            r == first_fips_version(self@.options),
    {
        let mut i: usize = 0;
        assert(self@.options.skip(0) =~= self@.options);
        while i < self.options.len()
            invariant
                i <= self.options@.len(),
                first_fips_version(self@.options) == first_fips_version(
                    self@.options.skip(i as int),
                ),
            decreases self.options@.len() - i,
        {
            assert(self@.options.skip(i as int).drop_first() =~= self@.options.skip(i + 1));
            if let TcpOption::FipsVersion { version, .. } = &self.options[i] {
                return Some(*version);
            }
            i = i + 1;
        }
        None
    }

    pub fn supports_fips_version(&self, expected: u8) -> (r: bool)
        ensures
            r == announces_version(self@.options, expected),
    {
        let mut i: usize = 0;
        while i < self.options.len()
            invariant
                i <= self.options@.len(),
                forall|j: int|
                    0 <= j < i ==> self@.options[j] != (OptionView::FipsVersion {
                        version: expected,
                        reserved: 0,
                    }),
            decreases self.options@.len() - i,
        {
            if let TcpOption::FipsVersion { version, reserved } = &self.options[i] {
                if *version == expected && *reserved == 0 {
                    assert(self@.options[i as int] == (OptionView::FipsVersion {
                        version: expected,
                        reserved: 0,
                    }));
                    return true;
                }
            }
            i = i + 1;
        }
        false
    }

    pub fn max_segment_size(&self) -> (r: Option<u16>)
        ensures
            r == first_mss(self@.options),
    {
        let mut i: usize = 0;
        assert(self@.options.skip(0) =~= self@.options);
        while i < self.options.len()
            invariant
                i <= self.options@.len(),
                first_mss(self@.options) == first_mss(self@.options.skip(i as int)),
            decreases self.options@.len() - i,
        {
            assert(self@.options.skip(i as int).drop_first() =~= self@.options.skip(i + 1));
            if let TcpOption::MaxSegmentSize(value) = &self.options[i] {
                return Some(*value);
            }
            i = i + 1;
        }
        None
    }

    /// The sequence space of the segment: payload length plus one each for SYN
    /// and FIN, modulo 2^32.
    pub fn sequence_len(&self) -> (r: u32)
        ensures
            r == sequence_len_spec(self@) % 0x1_0000_0000,
    {
        let syn: u32 = if self.flags.contains(Flags::syn()) {
            1
        } else {
            0
        };
        let fin: u32 = if self.flags.contains(Flags::fin()) {
            1
        } else {
            0
        };
        let len = self.payload.len();
        let low = ((len as u64) % 0x1_0000_0000) as u32;
        assert(low == (len as int) % 0x1_0000_0000);
        low.wrapping_add(syn).wrapping_add(fin)
    }

    pub fn encode(&self) -> (r: Result<Vec<u8>, WireError>)
        ensures
            match encode_spec(self@) {
                Ok(b) => r matches Ok(v) && v@ == b,
                Err(e) => r == Err::<Vec<u8>, WireError>(e),
            },
    {
        proof {
            use_type_invariant(&self.flags);
            lemma_supported_bits(self.flags@);
        }
        if self.src_port == 0 || self.dst_port == 0 {
            return Err(WireError::ZeroPort);
        }
        if self.flags.contains(Flags::ack()) != self.ack.is_some() {
            return Err(WireError::AckFlagMismatch);
        }
        let total = match options_total(&self.options) {
            Some(t) => t,
            None => {
                return Err(WireError::HeaderTooLong);
            },
        };
        let padded_options_len = (total + 3) / 4 * 4;
        let header_len = HEADER_LEN + padded_options_len;
        let mut output: Vec<u8> = Vec::new();
        push_header(&mut output, self, header_len);
        let ghost head = output@;
        match encode_options_into(&self.options, &mut output) {
            Err(e) => {
                return Err(e);
            },
            Ok(()) => {},
        }
        proof {
            lemma_options_encoding_len(self@.options);
        }
        push_zeros(&mut output, padded_options_len - total);
        push_bytes(&mut output, self.payload.as_slice());
        Ok(output)
    }

    #[verifier::rlimit(30)]
    #[verifier::spinoff_prover]
    pub fn decode(bytes: &[u8]) -> (r: Result<Self, WireError>)
        ensures
            match decode_spec(bytes@) {
                Ok(v) => r matches Ok(s) && s@ == v,
                Err(e) => r matches Err(x) && x == e,
            },
    {
        if bytes.len() < HEADER_LEN {
            return Err(WireError::Truncated);
        }
        let src_port = read_be16(bytes, 0);
        let dst_port = read_be16(bytes, 2);
        if src_port == 0 || dst_port == 0 {
            return Err(WireError::ZeroPort);
        }
        let seq = read_be32(bytes, 4);
        let raw_ack = read_be32(bytes, 8);
        let offset_and_flags = read_be16(bytes, 12);
        let header_len = ((offset_and_flags / 4096) * 4) as usize;
        if header_len < HEADER_LEN || header_len > MAX_HEADER_LEN || header_len > bytes.len() {
            return Err(WireError::InvalidHeaderLength);
        }
        if read_be16(bytes, 16) != 0 {
            return Err(WireError::NonZeroChecksum);
        }
        if read_be16(bytes, 18) != 0 {
            return Err(WireError::UrgentUnsupported);
        }
        let flags = match Flags::from_wire(offset_and_flags % 512) {
            Ok(f) => f,
            Err(e) => {
                return Err(e);
            },
        };
        proof {
            Flags::lemma_view_of((offset_and_flags % 512) as u16);
        }
        let ack = if flags.contains(Flags::ack()) {
            Some(raw_ack)
        } else {
            None
        };
        let window = read_be16(bytes, 14);
        let options = match decode_options(bytes, HEADER_LEN, header_len) {
            Ok(o) => o,
            Err(e) => {
                return Err(e);
            },
        };
        let payload = copy_bytes(bytes, header_len, bytes.len());
        let r = Segment { src_port, dst_port, seq, ack, flags, window, options, payload };
        assert(r@ == decode_spec(bytes@)->Ok_0);
        Ok(r)
    }
}

/// Decodes the option area `bytes[start..end]`.
#[verifier::rlimit(30)]
#[verifier::spinoff_prover]
fn decode_options(bytes: &[u8], start: usize, end: usize) -> (r: Result<Vec<TcpOption>, WireError>)
    requires
        start <= end <= bytes@.len(),
    ensures
        match decode_options_spec(bytes@.subrange(start as int, end as int)) {
            Ok(v) => r matches Ok(o) && o@.map_values(|x: TcpOption| x@) == v,
            Err(e) => r matches Err(x) && x == e,
        },
{
    let ghost area = bytes@.subrange(start as int, end as int);
    let mut options: Vec<TcpOption> = Vec::new();
    let mut pos = start;
    proof {
        match decode_options_spec(area) {
            Ok(v) => {
                assert(Seq::<OptionView>::empty() + v =~= v);
            },
            Err(_) => {},
        }
    }
    assert(options@.map_values(|x: TcpOption| x@) =~= Seq::<OptionView>::empty());
    while pos < end
        invariant
            start <= pos <= end <= bytes@.len(),
            area == bytes@.subrange(start as int, end as int),
            decode_options_spec(area) == prepend_options(
                options@.map_values(|x: TcpOption| x@),
                decode_options_spec(bytes@.subrange(pos as int, end as int)),
            ),
        ensures
            start <= pos <= end <= bytes@.len(),
            decode_options_spec(area) == prepend_options(
                options@.map_values(|x: TcpOption| x@),
                decode_options_spec(bytes@.subrange(pos as int, end as int)),
            ),
            pos == end || bytes@[pos as int] == 0,
        decreases end - pos,
    {
        let ghost cur = bytes@.subrange(pos as int, end as int);
        let ghost acc = options@.map_values(|x: TcpOption| x@);
        let kind = bytes[pos];
        assert(cur[0] == kind);
        if kind == 0 {
            break;
        }
        if kind == 1 {
            assert(cur.drop_first() =~= bytes@.subrange(pos + 1, end as int));
            options.push(TcpOption::NoOperation);
            proof {
                assert(options@.map_values(|x: TcpOption| x@) =~= acc + seq![OptionView::NoOperation]);
                match decode_options_spec(cur.drop_first()) {
                    Ok(rest) => {
                        assert(acc + (seq![OptionView::NoOperation] + rest) =~= (acc
                            + seq![OptionView::NoOperation]) + rest);
                    },
                    Err(_) => {},
                }
            }
            pos = pos + 1;
            continue;
        }
        if pos + 1 >= end {
            return Err(WireError::MalformedOption);
        }
        let len = bytes[pos + 1] as usize;
        assert(cur[1] == len);
        if len < 2 || len > end - pos {
            return Err(WireError::MalformedOption);
        }
        let ghost data = cur.subrange(2, len as int);
        assert(data =~= bytes@.subrange(pos + 2, pos + len));
        let option = if kind == 2 && len == 4 {
            TcpOption::MaxSegmentSize(read_be16(bytes, pos + 2))
        } else if kind == FIPS_OPTION_KIND && len == 4 {
            TcpOption::FipsVersion { version: bytes[pos + 2], reserved: bytes[pos + 3] }
        } else if kind == 2 || kind == FIPS_OPTION_KIND {
            return Err(WireError::MalformedOption);
        } else {
            TcpOption::Unknown { kind, data: copy_bytes(bytes, pos + 2, pos + len) }
        };
        assert(decoded_option(kind, len as nat, data) == Ok::<OptionView, WireError>(option@));
        assert(cur.skip(len as int) =~= bytes@.subrange(pos + len, end as int));
        options.push(option);
        proof {
            assert(options@.map_values(|x: TcpOption| x@) =~= acc + seq![option@]);
            match decode_options_spec(cur.skip(len as int)) {
                Ok(rest) => {
                    assert(acc + (seq![option@] + rest) =~= (acc + seq![option@]) + rest);
                },
                Err(_) => {},
            }
        }
        pos = pos + len;
    }
    proof {
        let cur = bytes@.subrange(pos as int, end as int);
        let acc = options@.map_values(|x: TcpOption| x@);
        assert(decode_options_spec(cur) == Ok::<Seq<OptionView>, WireError>(Seq::empty()));
        assert(acc + Seq::<OptionView>::empty() =~= acc);
    }
    Ok(options)
}

/// The fixed header of `s` for a header of `header_len` bytes.
fn push_header(out: &mut Vec<u8>, s: &Segment, header_len: usize)
    requires
        old(out)@.len() == 0,
        header_len <= 60,
        header_len % 4 == 0,
        s.flags@ <= 0xdf,
    ensures
        final(out)@ == header_bytes(s@, header_len as nat),
{
    push_be16(out, s.src_port);
    push_be16(out, s.dst_port);
    push_be32(out, s.seq);
    let raw_ack = match s.ack {
        Some(a) => a,
        None => 0,
    };
    push_be32(out, raw_ack);
    let offset_and_flags = ((header_len / 4) as u16) * 4096 + s.flags.bits();
    push_be16(out, offset_and_flags);
    push_be16(out, s.window);
    push_be16(out, 0);
    push_be16(out, 0);
    assert(out@ =~= header_bytes(s@, header_len as nat));
}

fn push_zeros(out: &mut Vec<u8>, n: usize)
    ensures
        final(out)@ == old(out)@ + zeros(n as nat),
{
    let mut i: usize = 0;
    while i < n
        invariant
            i <= n,
            out@ == old(out)@ + zeros(i as nat),
        decreases n - i,
    {
        out.push(0);
        i = i + 1;
        assert(out@ =~= old(out)@ + zeros(i as nat));
    }
}

fn push_bytes(out: &mut Vec<u8>, src: &[u8])
    ensures
        final(out)@ == old(out)@ + src@,
{
    let mut i: usize = 0;
    while i < src.len()
        invariant
            i <= src@.len(),
            out@ == old(out)@ + src@.subrange(0, i as int),
        decreases src@.len() - i,
    {
        out.push(src[i]);
        i = i + 1;
        assert(out@ =~= old(out)@ + src@.subrange(0, i as int));
    }
    assert(src@.subrange(0, src@.len() as int) =~= src@);
}

/// The wire length of the options if it fits a TCP header (at most 40 bytes).
fn options_total(options: &Vec<TcpOption>) -> (r: Option<usize>)
    ensures
        match r {
            Some(t) => t == options_len(options@.map_values(|o: TcpOption| o@)) && t <= 40,
            None => options_len(options@.map_values(|o: TcpOption| o@)) > 40,
        },
{
    let ghost opts = options@.map_values(|o: TcpOption| o@);
    let mut total: usize = 0;
    let mut k: usize = 0;
    assert(opts.skip(0) =~= opts);
    while k < options.len()
        invariant
            opts == options@.map_values(|o: TcpOption| o@),
            k <= opts.len(),
            total <= 40,
            options_len(opts) == total + options_len(opts.skip(k as int)),
        decreases opts.len() - k,
    {
        proof {
            lemma_options_len_skip(opts, k as int);
        }
        let this = match &options[k] {
            TcpOption::Unknown { data, .. } => {
                if data.len() > 40 {
                    41
                } else {
                    data.len() + 2
                }
            },
            TcpOption::EndOfList | TcpOption::NoOperation => 1,
            _ => 4,
        };
        assert(this <= 40 ==> this == option_len(opts[k as int]));
        assert(this > 40 ==> option_len(opts[k as int]) > 40);
        if this > 40 - total {
            return None;
        }
        total = total + this;
        k = k + 1;
    }
    assert(opts.skip(opts.len() as int) =~= Seq::<OptionView>::empty());
    Some(total)
}

/// Appends the encoding of every option in order; stops at the first that
/// cannot be encoded.
#[verifier::rlimit(30)]
#[verifier::spinoff_prover]
fn encode_options_into(options: &Vec<TcpOption>, output: &mut Vec<u8>) -> (r: Result<(), WireError>)
    ensures
        match options_encoding(options@.map_values(|o: TcpOption| o@)) {
            Ok(b) => r is Ok && final(output)@ == old(output)@ + b,
            Err(e) => r == Err::<(), WireError>(e),
        },
{
    let ghost opts = options@.map_values(|o: TcpOption| o@);
    let ghost start = output@;
    let ghost mut acc: Seq<u8> = Seq::empty();
    let mut k: usize = 0;
    assert(opts.skip(0) =~= opts);
    proof {
        match options_encoding(opts) {
            Ok(b) => {
                assert(acc + b =~= b);
            },
            Err(_) => {},
        }
    }
    while k < options.len()
        invariant
            opts == options@.map_values(|o: TcpOption| o@),
            k <= opts.len(),
            options_encoding(opts) == prepend_bytes(acc, options_encoding(opts.skip(k as int))),
            output@ == start + acc,
        decreases opts.len() - k,
    {
        proof {
            lemma_options_encoding_skip(opts, k as int);
        }
        let ghost before = output@;
        let res = options[k].encode_into(output);
        match res {
            Err(e) => {
                return Err(e);
            },
            Ok(()) => {},
        }
        proof {
            let first = option_encoding(opts[k as int])->Ok_0;
            let old_acc = acc;
            acc = acc + first;
            assert(output@ =~= start + acc);
            match options_encoding(opts.skip(k + 1)) {
                Ok(rest) => {
                    assert(old_acc + (first + rest) =~= acc + rest);
                },
                Err(_) => {},
            }
        }
        k = k + 1;
    }
    assert(opts.skip(opts.len() as int) =~= Seq::<OptionView>::empty());
    assert(acc + Seq::<u8>::empty() =~= acc);
    Ok(())
}


// ---------------------------------------------------------------------------
// Round trip.
/// An option that decoding gives back unchanged: every option but the end of
/// list marker, and unknown kinds that decoding does not interpret.
pub open spec fn option_canonical(o: OptionView) -> bool {
    match o {
        OptionView::EndOfList => false,
        OptionView::NoOperation | OptionView::MaxSegmentSize(_) | OptionView::FipsVersion {
            ..
        } => true,
        OptionView::Unknown { kind, data } => kind != 0 && kind != 1 && kind != 2 && kind
            != FIPS_OPTION_KIND && data.len() + 2 <= 255,
    }
}

/// A segment that encodes, and whose encoding decodes back to it.
pub open spec fn segment_canonical(s: SegmentView) -> bool {
    &&& s.src_port != 0
    &&& s.dst_port != 0
    &&& flag_bits_supported(s.flags)
    &&& has_flag(s.flags, ACK_BIT) == s.ack.is_some()
    &&& options_len(s.options) <= 40
    &&& forall|i: int| 0 <= i < s.options.len() ==> option_canonical(#[trigger] s.options[i])
}

proof fn lemma_decode_zeros(z: Seq<u8>)
    requires
        forall|i: int| 0 <= i < z.len() ==> z[i] == 0,
    ensures
        decode_options_spec(z) == Ok::<Seq<OptionView>, WireError>(Seq::empty()),
{
    if z.len() > 0 {
        assert(z[0] == 0);
    }
}

proof fn lemma_decode_options_encoding(opts: Seq<OptionView>, z: Seq<u8>)
    requires
        forall|i: int| 0 <= i < opts.len() ==> option_canonical(#[trigger] opts[i]),
        forall|i: int| 0 <= i < z.len() ==> z[i] == 0,
        options_encoding(opts) is Ok,
    ensures
        decode_options_spec(options_encoding(opts)->Ok_0 + z) == Ok::<Seq<OptionView>, WireError>(
            opts,
        ),
    decreases opts.len(),
{
    if opts.len() == 0 {
        assert(Seq::<u8>::empty() + z =~= z);
        lemma_decode_zeros(z);
        assert(opts =~= Seq::<OptionView>::empty());
    } else {
        let o = opts[0];
        let rest = opts.drop_first();
        assert forall|i: int| 0 <= i < rest.len() implies option_canonical(#[trigger] rest[i]) by {
            assert(rest[i] == opts[i + 1]);
        }
        assert(option_canonical(opts[0]));
        let first = option_encoding(o)->Ok_0;
        let tail = options_encoding(rest)->Ok_0;
        lemma_decode_options_encoding(rest, z);
        let b = options_encoding(opts)->Ok_0 + z;
        assert(b =~= first + (tail + z));
        match o {
            OptionView::NoOperation => {
                assert(b.drop_first() =~= tail + z);
                assert(seq![OptionView::NoOperation] + rest =~= opts);
            },
            OptionView::MaxSegmentSize(v) => {
                lemma_be16_roundtrip(v);
                assert(b.subrange(2, 4) =~= be16_bytes(v));
                assert(b.skip(4) =~= tail + z);
                assert(seq![o] + rest =~= opts);
            },
            OptionView::FipsVersion { version, reserved } => {
                assert(b.subrange(2, 4) =~= seq![version, reserved]);
                assert(b.skip(4) =~= tail + z);
                assert(seq![o] + rest =~= opts);
            },
            OptionView::Unknown { kind, data } => {
                let len = data.len() + 2;
                assert(b[1] == len);
                assert(b.subrange(2, len as int) =~= data);
                assert(b.skip(len as int) =~= tail + z);
                assert(seq![o] + rest =~= opts);
            },
            OptionView::EndOfList => {},
        }
    }
}

proof fn lemma_all_canonical_encodes(opts: Seq<OptionView>)
    requires
        forall|i: int| 0 <= i < opts.len() ==> option_canonical(#[trigger] opts[i]),
    ensures
        options_encoding(opts) is Ok,
    decreases opts.len(),
{
    if opts.len() > 0 {
        let rest = opts.drop_first();
        assert forall|i: int| 0 <= i < rest.len() implies option_canonical(#[trigger] rest[i]) by {
            assert(rest[i] == opts[i + 1]);
        }
        assert(option_canonical(opts[0]));
        lemma_all_canonical_encodes(rest);
    }
}

/// Decoding an encoded segment gives the segment back.
#[verifier::rlimit(30)]
#[verifier::spinoff_prover]
pub proof fn lemma_decode_encode(s: SegmentView)
    requires
        segment_canonical(s),
    ensures
        encode_spec(s) is Ok,
        decode_spec(encode_spec(s)->Ok_0) == Ok::<SegmentView, WireError>(s),
{
    lemma_all_canonical_encodes(s.options);
    lemma_options_encoding_len(s.options);
    lemma_supported_bits(s.flags);
    let n = options_len(s.options);
    let pad = (padded(n) - n) as nat;
    let hl = (HEADER_LEN + padded(n)) as nat;
    let ob = options_encoding(s.options)->Ok_0;
    let h = header_bytes(s, hl);
    let b = encode_spec(s)->Ok_0;
    assert(b == h + ob + zeros(pad) + s.payload);
    assert(h.len() == 20);
    let raw_ack: u32 = match s.ack {
        Some(a) => a,
        None => 0,
    };
    let oaf = ((hl / 4) * 4096 + s.flags) as u16;
    assert(20 <= hl <= 60 && hl % 4 == 0) by (nonlinear_arith)
        requires
            hl == 20 + ((n + 3) / 4) * 4,
            n <= 40,
    ;
    assert(padded(n) >= n) by (nonlinear_arith);
    lemma_be16_roundtrip(s.src_port);
    lemma_be16_roundtrip(s.dst_port);
    lemma_be32_roundtrip(s.seq);
    lemma_be32_roundtrip(raw_ack);
    lemma_be16_roundtrip(oaf);
    lemma_be16_roundtrip(s.window);
    lemma_be16_roundtrip(0);
    assert(b[0] == be16_bytes(s.src_port)[0] && b[1] == be16_bytes(s.src_port)[1]);
    assert(b[2] == be16_bytes(s.dst_port)[0] && b[3] == be16_bytes(s.dst_port)[1]);
    assert(b[4] == be32_bytes(s.seq)[0] && b[5] == be32_bytes(s.seq)[1] && b[6] == be32_bytes(
        s.seq,
    )[2] && b[7] == be32_bytes(s.seq)[3]);
    assert(b[8] == be32_bytes(raw_ack)[0] && b[9] == be32_bytes(raw_ack)[1] && b[10]
        == be32_bytes(raw_ack)[2] && b[11] == be32_bytes(raw_ack)[3]);
    assert(b[12] == be16_bytes(oaf)[0] && b[13] == be16_bytes(oaf)[1]);
    assert(b[14] == be16_bytes(s.window)[0] && b[15] == be16_bytes(s.window)[1]);
    assert(b[16] == 0 && b[17] == 0 && b[18] == 0 && b[19] == 0);
    assert(be16(b[12], b[13]) == oaf);
    assert(oaf / 4096 == hl / 4 && oaf % 512 == s.flags) by (nonlinear_arith)
        requires
            oaf == (hl / 4) * 4096 + s.flags,
            s.flags <= 0xdf,
            hl <= 60,
    ;
    assert(announced_header_len(b) == hl);
    assert(b.subrange(20, hl as int) =~= ob + zeros(pad));
    lemma_decode_options_encoding(s.options, zeros(pad));
    assert(b.subrange(hl as int, b.len() as int) =~= s.payload);
}

proof fn lemma_be16_bytes_of(x: u8, y: u8)
    ensures
        be16_bytes(be16(x, y)) == seq![x, y],
{
    assert(be16(x, y) == x * 256 + y);
    assert((x * 256 + y) / 256 == x && (x * 256 + y) % 256 == y) by (nonlinear_arith)
        requires
            0 <= x < 256,
            0 <= y < 256,
    ;
    assert(be16_bytes(be16(x, y)) =~= seq![x, y]);
}

proof fn lemma_be32_bytes_of(a: u8, b: u8, c: u8, d: u8)
    ensures
        be32_bytes(be32(a, b, c, d)) == seq![a, b, c, d],
{
    let v = a * 0x100_0000 + b * 0x1_0000 + c * 0x100 + d;
    assert(0 <= v < 0x1_0000_0000) by (nonlinear_arith)
        requires
            v == a * 0x100_0000 + b * 0x1_0000 + c * 0x100 + d,
            0 <= a < 256,
            0 <= b < 256,
            0 <= c < 256,
            0 <= d < 256,
    ;
    assert(be32(a, b, c, d) == v);
    assert(v / 0x100_0000 == a && (v / 0x1_0000) % 256 == b && (v / 0x100) % 256 == c && v % 256
        == d) by (nonlinear_arith)
        requires
            v == a * 0x100_0000 + b * 0x1_0000 + c * 0x100 + d,
            0 <= a < 256,
            0 <= b < 256,
            0 <= c < 256,
            0 <= d < 256,
    ;
    assert(be32_bytes(be32(a, b, c, d)) =~= seq![a, b, c, d]);
}

/// Encoding a decoded segment gives its bytes back, when the bytes are in the
/// form the encoder writes: reserved header bits zero, the ACK field zero when
/// the ACK flag is off, and the options area exactly the options' encodings
/// followed by fewer than four zero bytes of padding.
#[verifier::rlimit(40)]
#[verifier::spinoff_prover]
pub proof fn lemma_encode_decode(b: Seq<u8>)
    requires
        decode_spec(b) is Ok,
        (b[12] / 2) % 8 == 0,
        !has_flag(decode_spec(b)->Ok_0.flags, ACK_BIT) ==> b[8] == 0 && b[9] == 0 && b[10] == 0
            && b[11] == 0,
        options_encoding(decode_spec(b)->Ok_0.options) is Ok,
        announced_header_len(b) - HEADER_LEN - options_len(decode_spec(b)->Ok_0.options) < 4,
        b.subrange(HEADER_LEN as int, announced_header_len(b) as int) == options_encoding(
            decode_spec(b)->Ok_0.options,
        )->Ok_0 + zeros(
            (announced_header_len(b) - HEADER_LEN - options_len(decode_spec(b)->Ok_0.options)) as nat,
        ),
    ensures
        encode_spec(decode_spec(b)->Ok_0) == Ok::<Seq<u8>, WireError>(b),
{
    let s = decode_spec(b)->Ok_0;
    let hl = announced_header_len(b);
    let n = options_len(s.options);
    let ob = options_encoding(s.options)->Ok_0;
    lemma_options_encoding_len(s.options);
    let pad = (hl - HEADER_LEN - n) as nat;
    assert(b.subrange(HEADER_LEN as int, hl as int).len() == hl - 20);
    assert(ob.len() == n);
    assert(hl == (be16(b[12], b[13]) / 4096) * 4);
    assert(hl % 4 == 0 && 20 <= hl <= 60);
    assert(padded(n) == n + pad) by (nonlinear_arith)
        requires
            hl == 20 + n + pad,
            hl % 4 == 0,
            0 <= pad < 4,
            padded(n) == ((n + 3) / 4) * 4,
    ;
    assert(n <= 40);
    let h = header_bytes(s, hl);
    let raw_ack: u32 = match s.ack {
        Some(a) => a,
        None => 0,
    };
    lemma_be16_bytes_of(b[0], b[1]);
    lemma_be16_bytes_of(b[2], b[3]);
    lemma_be32_bytes_of(b[4], b[5], b[6], b[7]);
    lemma_be32_bytes_of(b[8], b[9], b[10], b[11]);
    lemma_be16_bytes_of(b[14], b[15]);
    lemma_be16_bytes_of(b[12], b[13]);
    lemma_be16_bytes_of(b[16], b[17]);
    lemma_be16_bytes_of(b[18], b[19]);
    lemma_be16_bytes_of(0, 0);
    assert(be16(0, 0) == 0);
    assert(be32_bytes(raw_ack) == seq![b[8], b[9], b[10], b[11]]) by {
        if s.ack is None {
            assert(be32(0, 0, 0, 0) == 0);
            lemma_be32_bytes_of(0, 0, 0, 0);
        }
    }
    let x = be16(b[12], b[13]);
    assert(((hl / 4) * 4096 + s.flags) as u16 == x) by (nonlinear_arith)
        requires
            x == b[12] * 256 + b[13],
            0 <= b[12] < 256,
            0 <= b[13] < 256,
            (b[12] / 2) % 8 == 0,
            hl == (x / 4096) * 4,
            s.flags == x % 512,
    ;
    assert(be16(b[16], b[17]) == 0 && be16(b[18], b[19]) == 0);
    assert(h =~= b.take(20));
    assert(b =~= b.take(20) + b.subrange(20, hl as int) + b.subrange(hl as int, b.len() as int));
    assert(s.payload == b.subrange(hl as int, b.len() as int));
    assert(encode_spec(s) == Ok::<Seq<u8>, WireError>(h + ob + zeros(pad) + s.payload));
    assert(b.subrange(20, hl as int) == ob + zeros(pad));
    assert(h + ob + zeros(pad) + s.payload =~= b.take(20) + b.subrange(20, hl as int)
        + b.subrange(hl as int, b.len() as int));
}

} // verus!
