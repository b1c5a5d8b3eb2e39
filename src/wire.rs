//! Reading and writing the RakNet primitive datatypes.
use vstd::prelude::*;
use vstd::arithmetic::power2::{lemma2_to64, pow2};
use vstd::string::StrSliceExecFns;
use vstd::utf8::{decode_utf8, encode_utf8, valid_utf8};

verus! {

/// Value of a big-endian byte string.
pub open spec fn be_value(s: Seq<u8>) -> nat
    decreases s.len(),
{
    if s.len() == 0 {
        0
    } else {
        be_value(s.drop_last()) * 256 + s.last() as nat
    }
}

/// The `n` lowest bytes of `v`, most significant first.
pub open spec fn be_bytes(v: nat, n: nat) -> Seq<u8>
    decreases n,
{
    if n == 0 {
        Seq::empty()
    } else {
        be_bytes(v / 256, (n - 1) as nat).push((v % 256) as u8)
    }
}

pub open spec fn pow256(n: nat) -> nat
    decreases n,
{
    if n == 0 {
        1
    } else {
        256 * pow256((n - 1) as nat)
    }
}

pub proof fn lemma_be_bytes_len(v: nat, n: nat)
    ensures
        be_bytes(v, n).len() == n,
    decreases n,
{
    if n > 0 {
        lemma_be_bytes_len(v / 256, (n - 1) as nat);
    }
}

pub proof fn lemma_be_value_bound(s: Seq<u8>)
    ensures
        be_value(s) < pow256(s.len()),
    decreases s.len(),
{
    if s.len() > 0 {
        lemma_be_value_bound(s.drop_last());
        let a = be_value(s.drop_last());
        let p = pow256(s.drop_last().len());
        assert(a * 256 + (s.last() as nat) < 256 * p) by (nonlinear_arith)
            requires
                a < p,
                s.last() < 256,
        ;
    }
}

/// Writing the `n` low bytes of `v` and reading them back gives `v`.
pub proof fn lemma_be_round_trip(v: nat, n: nat)
    requires
        v < pow256(n),
    ensures
        be_value(be_bytes(v, n)) == v,
        be_bytes(v, n).len() == n,
    decreases n,
{
    lemma_be_bytes_len(v, n);
    if n > 0 {
        let q = v / 256;
        let p = pow256((n - 1) as nat);
        assert(q < p) by (nonlinear_arith)
            requires
                v < 256 * p,
                q == v / 256,
        ;
        lemma_be_round_trip(q, (n - 1) as nat);
        let s = be_bytes(v, n);
        assert(s.drop_last() =~= be_bytes(q, (n - 1) as nat));
        assert(q * 256 + v % 256 == v) by (nonlinear_arith)
            requires
                q == v / 256,
        ;
    }
}

/// Two's complement reading of an unsigned value of `bits` bits.
pub open spec fn signed_of(v: nat, bits: nat) -> int {
    if v < pow2(bits) / 2 {
        v as int
    } else {
        v - pow2(bits)
    }
}

/// Unsigned value of `bits` bits that stands for `v` in two's complement.
pub open spec fn unsigned_of(v: int, bits: nat) -> nat {
    if v >= 0 {
        v as nat
    } else {
        (v + pow2(bits)) as nat
    }
}

/// Value of a three-byte little-endian string.
pub open spec fn le24_value(s: Seq<u8>) -> nat {
    s[0] as nat + 256 * (s[1] as nat) + 65536 * (s[2] as nat)
}

/// Three bytes of `v`, least significant first.
pub open spec fn le24_bytes(v: nat) -> Seq<u8> {
    seq![(v % 256) as u8, ((v / 256) % 256) as u8, ((v / 65536) % 256) as u8]
}

pub proof fn lemma_le24_round_trip(v: nat)
    requires
        v < 0x1000000,
    ensures
        le24_value(le24_bytes(v)) == v,
        le24_bytes(v).len() == 3,
{
    let a = v % 256;
    let b = (v / 256) % 256;
    let c = (v / 65536) % 256;
    assert(a + 256 * b + 65536 * c == v) by (nonlinear_arith)
        requires
            v < 0x1000000,
            a == v % 256,
            b == (v / 256) % 256,
            c == (v / 65536) % 256,
    ;
}


/// Failure to read a datatype from a buffer.
#[derive(Clone, Copy, Debug, PartialEq, Eq, Structural)]
pub enum BufError {
    /// There is no more data to read.
    NotEnoughData,
    /// Expected the offline message marker but did not get it.
    InvalidMagic,
    /// A string was not valid UTF-8.
    InvalidString,
    /// Unknown socket address family.
    InvalidAddress,
}

/// A socket address, with the IP address held as integers.
#[derive(Clone, Copy, Debug, PartialEq, Eq, Hash, Structural)]
pub enum SockAddr {
    V4 { ip: u32, port: u16 },
    /// `hi` holds the eight first octets of the address, `lo` the last eight.
    V6 { hi: u64, lo: u64, port: u16 },
}

impl SockAddr {
    pub open spec fn spec_port(&self) -> u16 {
        match *self {
            SockAddr::V4 { port, .. } => port,
            SockAddr::V6 { port, .. } => port,
        }
    }

    /// Port of the address.
    pub fn port(&self) -> (r: u16)
        ensures
            r == self.spec_port(),
    {
        match *self {
            SockAddr::V4 { port, .. } => port,
            SockAddr::V6 { port, .. } => port,
        }
    }
}

/// The offline message marker.
pub open spec fn magic() -> Seq<u8> {
    seq![
        0x00u8, 0xFF, 0xFF, 0x00, 0xFE, 0xFE, 0xFE, 0xFE, 0xFD, 0xFD, 0xFD, 0xFD, 0x12, 0x34, 0x56,
        0x78,
    ]
}

/// Each byte complemented.
pub open spec fn inverted(s: Seq<u8>) -> Seq<u8> {
    Seq::new(s.len(), |i: int| (255 - s[i]) as u8)
}

/// Encoding of a string: its byte length as a big-endian `u16`, then its UTF-8 bytes.
pub open spec fn str_bytes(s: Seq<char>) -> Seq<u8> {
    be_bytes(encode_utf8(s).len(), 2) + encode_utf8(s)
}

/// Encoding of a socket address.
pub open spec fn address_bytes(a: SockAddr) -> Seq<u8> {
    match a {
        SockAddr::V4 { ip, port } => seq![4u8] + inverted(be_bytes(ip as nat, 4)) + be_bytes(
            port as nat,
            2,
        ),
        SockAddr::V6 { hi, lo, port } => seq![6u8] + be_bytes(0, 2) + be_bytes(port as nat, 2)
            + be_bytes(0, 4) + be_bytes(hi as nat, 8) + be_bytes(lo as nat, 8) + be_bytes(0, 4),
    }
}

/// What reading a socket address from `s` gives, with the number of bytes it takes.
pub open spec fn address_parse(s: Seq<u8>) -> Result<(SockAddr, nat), BufError> {
    if s.len() < 1 {
        Err(BufError::NotEnoughData)
    } else if s[0] == 4 {
        if s.len() < 7 {
            Err(BufError::NotEnoughData)
        } else {
            Ok(
                (
                    SockAddr::V4 {
                        ip: be_value(inverted(s.subrange(1, 5))) as u32,
                        port: be_value(s.subrange(5, 7)) as u16,
                    },
                    7,
                ),
            )
        }
    } else if s[0] == 6 {
        if s.len() < 29 {
            Err(BufError::NotEnoughData)
        } else {
            Ok(
                (
                    SockAddr::V6 {
                        hi: be_value(s.subrange(9, 17)) as u64,
                        lo: be_value(s.subrange(17, 25)) as u64,
                        port: be_value(s.subrange(3, 5)) as u16,
                    },
                    29,
                ),
            )
        }
    } else {
        Err(BufError::InvalidAddress)
    }
}

/// What reading a length-prefixed string from `s` gives, with the number of bytes it takes.
pub open spec fn str_parse(s: Seq<u8>) -> Result<(Seq<char>, nat), BufError> {
    if s.len() < 2 {
        Err(BufError::NotEnoughData)
    } else {
        let n = be_value(s.subrange(0, 2));
        if s.len() < 2 + n {
            Err(BufError::NotEnoughData)
        } else if !valid_utf8(s.subrange(2, 2 + n as int)) {
            Err(BufError::InvalidString)
        } else {
            Ok((decode_utf8(s.subrange(2, 2 + n as int)), 2 + n))
        }
    }
}

/// Relies on `String::from_utf8`: it succeeds exactly on valid UTF-8, with the decoded characters.
#[verifier::external_body]
fn string_from_utf8(bytes: Vec<u8>) -> (r: Option<String>)
    ensures
        r is Some <==> valid_utf8(bytes@),
        r matches Some(s) ==> s@ == decode_utf8(bytes@),
{
    String::from_utf8(bytes).ok()
}

/// A buffer that datatypes are read from, front to back.
pub struct ReadBuf {
    data: Vec<u8>,
    pos: usize,
}

impl View for ReadBuf {
    type V = Seq<u8>;

    /// The bytes not read yet.
    closed spec fn view(&self) -> Seq<u8> {
        self.data@.subrange(self.pos as int, self.data@.len() as int)
    }
}

impl ReadBuf {
    #[verifier::type_invariant]
    closed spec fn inv(&self) -> bool {
        self.pos <= self.data@.len()
    }

    pub fn new(bytes: Vec<u8>) -> (r: Self)
        ensures
            r@ == bytes@,
    {
        let r = ReadBuf { data: bytes, pos: 0 };
        assert(r@ =~= bytes@);
        r
    }

    /// Number of bytes not read yet.
    pub fn remaining(&self) -> (r: usize)
        ensures
            r == self@.len(),
    {
        proof {
            use_type_invariant(self);
        }
        self.data.len() - self.pos
    }

    pub fn has_remaining(&self) -> (r: bool)
        ensures
            r == (self@.len() > 0),
    {
        self.remaining() > 0
    }

    /// Skips `n` bytes.
    pub fn advance(&mut self, n: usize) -> (r: Result<(), BufError>)
        ensures
            r is Ok <==> old(self)@.len() >= n,
            r is Ok ==> final(self)@ == old(self)@.skip(n as int),
            r is Err ==> r == Err::<(), BufError>(BufError::NotEnoughData) && final(self)@
                == old(self)@,
    {
        proof {
            use_type_invariant(&*self);
        }
        if self.data.len() - self.pos < n {
            return Err(BufError::NotEnoughData);
        }
        self.pos = self.pos + n;
        assert(self@ =~= old(self)@.skip(n as int));
        Ok(())
    }

    /// Reads `n` bytes as a big-endian integer.
    fn read_be(&mut self, n: usize) -> (r: Result<u64, BufError>)
        requires
            n <= 8,
        ensures
            r is Ok <==> old(self)@.len() >= n,
            r matches Ok(v) ==> v as nat == be_value(old(self)@.take(n as int)) && final(self)@
                == old(self)@.skip(n as int),
            r is Err ==> r == Err::<u64, BufError>(BufError::NotEnoughData) && final(self)@
                == old(self)@,
    {
        proof {
            use_type_invariant(&*self);
        }
        if self.data.len() - self.pos < n {
            return Err(BufError::NotEnoughData);
        }
        let start = self.pos;
        let len = self.data.len();
        let mut v: u64 = 0;
        let mut i: usize = 0;
        while i < n
            invariant
                i <= n <= 8,
                start + n <= len,
                len == self.data@.len(),
                start == old(self).pos,
                self == old(self),
                v as nat == be_value(self.data@.subrange(start as int, start + i)),
            decreases n - i,
        {
            let ghost pre = self.data@.subrange(start as int, start + i);
            let ghost next = self.data@.subrange(start as int, start + i + 1);
            proof {
                assert(next.drop_last() =~= pre);
                lemma_be_value_bound(pre);
                lemma_pow256_mono(i as nat, 7);
                reveal_with_fuel(pow256, 8);
                assert(pow256(7) == 0x100000000000000);
            }
            let b = self.data[start + i];
            v = v * 256 + b as u64;
            i = i + 1;
        }
        self.pos = start + n;
        assert(old(self)@.take(n as int) =~= self.data@.subrange(start as int, start + n));
        assert(self@ =~= old(self)@.skip(n as int));
        Ok(v)
    }

    pub fn read_u8(&mut self) -> (r: Result<u8, BufError>)
        ensures
            r is Ok <==> old(self)@.len() >= 1,
            r matches Ok(v) ==> v == old(self)@[0] && final(self)@ == old(self)@.skip(1),
            r is Err ==> r == Err::<u8, BufError>(BufError::NotEnoughData) && final(self)@
                == old(self)@,
    {
        proof {
            use_type_invariant(&*self);
        }
        if self.data.len() - self.pos < 1 {
            return Err(BufError::NotEnoughData);
        }
        let v = self.data[self.pos];
        self.pos = self.pos + 1;
        assert(self@ =~= old(self)@.skip(1));
        Ok(v)
    }

    /// Reads a byte; it stands for `true` when it is 1.
    pub fn read_bool(&mut self) -> (r: Result<bool, BufError>)
        ensures
            r is Ok <==> old(self)@.len() >= 1,
            r matches Ok(v) ==> v == (old(self)@[0] == 1) && final(self)@ == old(self)@.skip(1),
            r is Err ==> r == Err::<bool, BufError>(BufError::NotEnoughData) && final(self)@
                == old(self)@,
    {
        let b = self.read_u8()?;
        Ok(b == 1)
    }

    /// Reads the 16-byte offline message marker.
    pub fn read_magic(&mut self) -> (r: Result<(), BufError>)
        ensures
            old(self)@.len() < 16 ==> r == Err::<(), BufError>(BufError::NotEnoughData)
                && final(self)@ == old(self)@,
            old(self)@.len() >= 16 ==> final(self)@ == old(self)@.skip(16) && if old(self)@.take(16)
                == magic() {
                r is Ok
            } else {
                r == Err::<(), BufError>(BufError::InvalidMagic)
            },
    {
        proof {
            use_type_invariant(&*self);
        }
        if self.data.len() - self.pos < 16 {
            return Err(BufError::NotEnoughData);
        }
        let expected = magic_bytes();
        let start = self.pos;
        let len = self.data.len();
        let mut same = true;
        let mut i: usize = 0;
        while i < 16
            invariant
                i <= 16,
                start + 16 <= len,
                len == self.data@.len(),
                expected@ == magic(),
                start == old(self).pos,
                self == old(self),
                same <==> forall|j: int| 0 <= j < i ==> self.data@[start + j] == magic()[j],
            decreases 16 - i,
        {
            if self.data[start + i] != expected[i] {
                same = false;
            }
            i = i + 1;
        }
        self.pos = start + 16;
        let ghost got = old(self)@.take(16);
        assert(got =~= self.data@.subrange(start as int, start + 16));
        assert(same <==> got =~= magic());
        assert(self@ =~= old(self)@.skip(16));
        if same {
            Ok(())
        } else {
            Err(BufError::InvalidMagic)
        }
    }

    pub fn read_u16(&mut self) -> (r: Result<u16, BufError>)
        ensures
            r is Ok <==> old(self)@.len() >= 2,
            r matches Ok(v) ==> v as nat == be_value(old(self)@.take(2)) && final(self)@
                == old(self)@.skip(2),
            r is Err ==> r == Err::<u16, BufError>(BufError::NotEnoughData) && final(self)@
                == old(self)@,
    {
        let v = self.read_be(2)?;
        proof {
            lemma_be_value_bound(old(self)@.take(2));
            reveal_with_fuel(pow256, 3);
        }
        Ok(v as u16)
    }

    pub fn read_i16(&mut self) -> (r: Result<i16, BufError>)
        ensures
            r is Ok <==> old(self)@.len() >= 2,
            r matches Ok(v) ==> v as int == signed_of(be_value(old(self)@.take(2)), 16) && final(self)@
                == old(self)@.skip(2),
            r is Err ==> r == Err::<i16, BufError>(BufError::NotEnoughData) && final(self)@
                == old(self)@,
    {
        let v = self.read_u16()?;
        proof {
            lemma2_to64();
        }
        if v < 0x8000 {
            Ok(v as i16)
        } else {
            Ok(-((0xFFFFu16 - v) as i16) - 1)
        }
    }

    pub fn read_u32(&mut self) -> (r: Result<u32, BufError>)
        ensures
            r is Ok <==> old(self)@.len() >= 4,
            r matches Ok(v) ==> v as nat == be_value(old(self)@.take(4)) && final(self)@
                == old(self)@.skip(4),
            r is Err ==> r == Err::<u32, BufError>(BufError::NotEnoughData) && final(self)@
                == old(self)@,
    {
        let v = self.read_be(4)?;
        proof {
            lemma_be_value_bound(old(self)@.take(4));
            reveal_with_fuel(pow256, 5);
        }
        Ok(v as u32)
    }

    pub fn read_i64(&mut self) -> (r: Result<i64, BufError>)
        ensures
            r is Ok <==> old(self)@.len() >= 8,
            r matches Ok(v) ==> v as int == signed_of(be_value(old(self)@.take(8)), 64) && final(self)@
                == old(self)@.skip(8),
            r is Err ==> r == Err::<i64, BufError>(BufError::NotEnoughData) && final(self)@
                == old(self)@,
    {
        let v = self.read_be(8)?;
        proof {
            lemma2_to64();
        }
        if v < 0x8000000000000000 {
            Ok(v as i64)
        } else {
            Ok(-((0xFFFFFFFFFFFFFFFFu64 - v) as i64) - 1)
        }
    }

    /// Reads a three-byte little-endian integer.
    pub fn read_u24(&mut self) -> (r: Result<u32, BufError>)
        ensures
            r is Ok <==> old(self)@.len() >= 3,
            r matches Ok(v) ==> v as nat == le24_value(old(self)@) && final(self)@ == old(
                self,
            )@.skip(3),
            r is Err ==> r == Err::<u32, BufError>(BufError::NotEnoughData) && final(self)@
                == old(self)@,
    {
        proof {
            use_type_invariant(&*self);
        }
        if self.data.len() - self.pos < 3 {
            return Err(BufError::NotEnoughData);
        }
        let p = self.pos;
        let v = self.data[p] as u32 + 256 * (self.data[p + 1] as u32) + 65536 * (
        self.data[p + 2] as u32);
        self.pos = p + 3;
        assert(self@ =~= old(self)@.skip(3));
        Ok(v)
    }

    /// Reads `n` bytes.
    pub fn read_bytes(&mut self, n: usize) -> (r: Result<Vec<u8>, BufError>)
        ensures
            r is Ok <==> old(self)@.len() >= n,
            r matches Ok(v) ==> v@ == old(self)@.take(n as int) && final(self)@ == old(
                self,
            )@.skip(n as int),
            r is Err ==> r == Err::<Vec<u8>, BufError>(BufError::NotEnoughData) && final(self)@
                == old(self)@,
    {
        proof {
            use_type_invariant(&*self);
        }
        if self.data.len() - self.pos < n {
            return Err(BufError::NotEnoughData);
        }
        let start = self.pos;
        let len = self.data.len();
        let mut out: Vec<u8> = Vec::new();
        let mut i: usize = 0;
        while i < n
            invariant
                i <= n,
                start + n <= len,
                len == self.data@.len(),
                start == old(self).pos,
                self == old(self),
                out@ == self.data@.subrange(start as int, start + i),
            decreases n - i,
        {
            out.push(self.data[start + i]);
            i = i + 1;
            assert(out@ =~= self.data@.subrange(start as int, start + i));
        }
        self.pos = start + n;
        assert(out@ =~= old(self)@.take(n as int));
        assert(self@ =~= old(self)@.skip(n as int));
        Ok(out)
    }

    /// Reads a string: a big-endian `u16` byte length, then that many bytes of UTF-8.
    pub fn read_str(&mut self) -> (r: Result<String, BufError>)
        ensures
            match str_parse(old(self)@) {
                Ok((s, n)) => r matches Ok(v) && v@ == s && final(self)@ == old(self)@.skip(
                    n as int,
                ),
                Err(e) => r matches Err(f) && f == e,
            },
    {
        let len = self.read_u16()?;
        let ghost after_len = self@;
        let bytes = self.read_bytes(len as usize)?;
        proof {
            assert(old(self)@.take(2) =~= old(self)@.subrange(0, 2));
            assert(bytes@ =~= old(self)@.subrange(2, 2 + len as int));
            assert(final(self)@ =~= old(self)@.skip(2 + len as int)) by {
                assert(self@ =~= after_len.skip(len as int));
            }
        }
        match string_from_utf8(bytes) {
            Some(s) => Ok(s),
            None => Err(BufError::InvalidString),
        }
    }

    /// Reads a socket address: a family byte (4 or 6), then the address in that family's layout.
    pub fn read_address(&mut self) -> (r: Result<SockAddr, BufError>)
        ensures
            match address_parse(old(self)@) {
                Ok((a, n)) => r == Ok::<SockAddr, BufError>(a) && final(self)@ == old(
                    self,
                )@.skip(n as int),
                Err(e) => r == Err::<SockAddr, BufError>(e),
            },
    {
        let family = self.read_u8()?;
        let ghost s = old(self)@;
        if family == 4 {
            if self.remaining() < 6 {
                return Err(BufError::NotEnoughData);
            }
            let raw = self.read_bytes(4)?;
            let mut ip: u32 = 0;
            let mut i: usize = 0;
            while i < 4
                invariant
                    i <= 4,
                    raw@.len() == 4,
                    ip as nat == be_value(inverted(raw@).take(i as int)),
                decreases 4 - i,
            {
                proof {
                    let pre = inverted(raw@).take(i as int);
                    assert(inverted(raw@).take(i + 1).drop_last() =~= pre);
                    lemma_be_value_bound(pre);
                    lemma_pow256_mono(i as nat, 3);
                    reveal_with_fuel(pow256, 4);
                }
                ip = ip * 256 + (255 - raw[i]) as u32;
                i = i + 1;
            }
            let port = self.read_u16()?;
            proof {
                assert(inverted(raw@).take(4) =~= inverted(s.subrange(1, 5)));
                assert(s.skip(1).skip(4).take(2) =~= s.subrange(5, 7));
                assert(final(self)@ =~= s.skip(7));
            }
            Ok(SockAddr::V4 { ip, port })
        } else if family == 6 {
            if self.remaining() < 28 {
                return Err(BufError::NotEnoughData);
            }
            let _ = self.advance(2);
            let port = self.read_u16()?;
            let _ = self.advance(4);
            let hi = self.read_be(8)?;
            let lo = self.read_be(8)?;
            let _ = self.advance(4);
            proof {
                assert(s.skip(1).skip(2).take(2) =~= s.subrange(3, 5));
                assert(s.skip(1).skip(2).skip(2).skip(4).take(8) =~= s.subrange(9, 17));
                assert(s.skip(1).skip(2).skip(2).skip(4).skip(8).take(8) =~= s.subrange(17, 25));
                assert(final(self)@ =~= s.skip(29));
            }
            Ok(SockAddr::V6 { hi, lo, port })
        } else {
            Err(BufError::InvalidAddress)
        }
    }
} // impl ReadBuf

pub proof fn lemma_pow256_mono(a: nat, b: nat)
    requires
        a <= b,
    ensures
        pow256(a) <= pow256(b),
    decreases b,
{
    if a < b {
        lemma_pow256_mono(a, (b - 1) as nat);
    }
}

fn magic_bytes() -> (r: Vec<u8>)
    ensures
        r@ == magic(),
{
    let r = vec![
        0x00u8, 0xFF, 0xFF, 0x00, 0xFE, 0xFE, 0xFE, 0xFE, 0xFD, 0xFD, 0xFD, 0xFD, 0x12, 0x34, 0x56,
        0x78,
    ];
    assert(r@ =~= magic());
    r
}

/// A buffer that datatypes are appended to.
pub struct WriteBuf(pub Vec<u8>);

impl View for WriteBuf {
    type V = Seq<u8>;

    open spec fn view(&self) -> Seq<u8> {
        self.0@
    }
}

/// Appends the `n` low bytes of `v`, most significant first.
fn push_be(out: &mut Vec<u8>, v: u64, n: usize)
    requires
        n <= 8,
    ensures
        final(out)@ == old(out)@ + be_bytes(v as nat, n as nat),
    decreases n,
{
    if n > 0 {
        push_be(out, v / 256, n - 1);
        out.push((v % 256) as u8);
        assert(final(out)@ =~= old(out)@ + be_bytes(v as nat, n as nat));
    } else {
        assert(final(out)@ =~= old(out)@ + be_bytes(v as nat, n as nat));
    }
}

impl WriteBuf {
    pub fn new() -> (r: Self)
        ensures
            r@ == Seq::<u8>::empty(),
    {
        WriteBuf(Vec::new())
    }

    /// The bytes written so far.
    pub fn into_bytes(self) -> (r: Vec<u8>)
        ensures
            r@ == self@,
    {
        self.0
    }

    pub fn write_u8(&mut self, value: u8) -> (r: Result<(), BufError>)
        ensures
            r is Ok,
            final(self)@ == old(self)@.push(value),
    {
        self.0.push(value);
        Ok(())
    }

    /// Writes 1 for `true`, 0 for `false`.
    pub fn write_bool(&mut self, value: bool) -> (r: Result<(), BufError>)
        ensures
            r is Ok,
            final(self)@ == old(self)@.push(if value { 1u8 } else { 0u8 }),
    {
        self.0.push(if value { 1u8 } else { 0u8 });
        Ok(())
    }

    pub fn write_magic(&mut self) -> (r: Result<(), BufError>)
        ensures
            r is Ok,
            final(self)@ == old(self)@ + magic(),
    {
        let mut m = magic_bytes();
        self.0.append(&mut m);
        Ok(())
    }

    pub fn write_u16(&mut self, value: u16) -> (r: Result<(), BufError>)
        ensures
            r is Ok,
            final(self)@ == old(self)@ + be_bytes(value as nat, 2),
    {
        push_be(&mut self.0, value as u64, 2);
        Ok(())
    }

    pub fn write_i16(&mut self, value: i16) -> (r: Result<(), BufError>)
        ensures
            r is Ok,
            final(self)@ == old(self)@ + be_bytes(unsigned_of(value as int, 16), 2),
    {
        proof {
            lemma2_to64();
        }
        let u: u64 = if value >= 0 {
            value as u64
        } else {
            (0xFFFFi32 + (value as i32) + 1) as u64
        };
        push_be(&mut self.0, u, 2);
        Ok(())
    }

    pub fn write_u32(&mut self, value: u32) -> (r: Result<(), BufError>)
        ensures
            r is Ok,
            final(self)@ == old(self)@ + be_bytes(value as nat, 4),
    {
        push_be(&mut self.0, value as u64, 4);
        Ok(())
    }

    pub fn write_u64(&mut self, value: u64) -> (r: Result<(), BufError>)
        ensures
            r is Ok,
            final(self)@ == old(self)@ + be_bytes(value as nat, 8),
    {
        push_be(&mut self.0, value, 8);
        Ok(())
    }

    pub fn write_i64(&mut self, value: i64) -> (r: Result<(), BufError>)
        ensures
            r is Ok,
            final(self)@ == old(self)@ + be_bytes(unsigned_of(value as int, 64), 8),
    {
        proof {
            lemma2_to64();
        }
        let u: u64 = if value >= 0 {
            value as u64
        } else {
            0xFFFFFFFFFFFFFFFFu64 - ((-(value + 1)) as u64)
        };
        push_be(&mut self.0, u, 8);
        Ok(())
    }

    /// Writes a three-byte little-endian integer (the low 24 bits of `value`).
    pub fn write_u24(&mut self, value: u32) -> (r: Result<(), BufError>)
        ensures
            r is Ok,
            final(self)@ == old(self)@ + le24_bytes(value as nat),
    {
        self.0.push((value % 256) as u8);
        self.0.push(((value / 256) % 256) as u8);
        self.0.push(((value / 65536) % 256) as u8);
        assert(final(self)@ =~= old(self)@ + le24_bytes(value as nat));
        Ok(())
    }

    /// Appends raw bytes.
    pub fn write_bytes(&mut self, bytes: &Vec<u8>) -> (r: Result<(), BufError>)
        ensures
            r is Ok,
            final(self)@ == old(self)@ + bytes@,
    {
        let mut i: usize = 0;
        while i < bytes.len()
            invariant
                i <= bytes@.len(),
                self@ == old(self)@ + bytes@.take(i as int),
            decreases bytes@.len() - i,
        {
            self.0.push(bytes[i]);
            i = i + 1;
            assert(self@ =~= old(self)@ + bytes@.take(i as int));
        }
        assert(bytes@.take(i as int) =~= bytes@);
        Ok(())
    }

    /// Writes a string as a big-endian `u16` byte length, then its UTF-8 bytes.
    pub fn write_str(&mut self, value: &str) -> (r: Result<(), BufError>)
        requires
            encode_utf8(value@).len() <= 0xFFFF,
        ensures
            r is Ok,
            final(self)@ == old(self)@ + str_bytes(value@),
    {
        let bytes = value.as_bytes_vec();
        push_be(&mut self.0, bytes.len() as u64, 2);
        let _ = self.write_bytes(&bytes);
        assert(final(self)@ =~= old(self)@ + str_bytes(value@));
        Ok(())
    }

    pub fn write_address(&mut self, value: SockAddr) -> (r: Result<(), BufError>)
        ensures
            r is Ok,
            final(self)@ == old(self)@ + address_bytes(value),
    {
        match value {
            SockAddr::V4 { ip, port } => {
                self.0.push(4);
                let mut raw: Vec<u8> = Vec::new();
                push_be(&mut raw, ip as u64, 4);
                proof {
                    lemma_be_bytes_len(ip as nat, 4);
                }
                let mut i: usize = 0;
                while i < 4
                    invariant
                        i <= 4,
                        raw@ == be_bytes(ip as nat, 4),
                        raw@.len() == 4,
                        self@ == old(self)@.push(4) + inverted(raw@).take(i as int),
                    decreases 4 - i,
                {
                    self.0.push(255 - raw[i]);
                    i = i + 1;
                    assert(self@ =~= old(self)@.push(4) + inverted(raw@).take(i as int));
                }
                push_be(&mut self.0, port as u64, 2);
                assert(inverted(raw@).take(4) =~= inverted(raw@));
                assert(final(self)@ =~= old(self)@ + address_bytes(value));
            },
            SockAddr::V6 { hi, lo, port } => {
                self.0.push(6);
                push_be(&mut self.0, 0, 2);
                push_be(&mut self.0, port as u64, 2);
                push_be(&mut self.0, 0, 4);
                push_be(&mut self.0, hi, 8);
                push_be(&mut self.0, lo, 8);
                push_be(&mut self.0, 0, 4);
                assert(final(self)@ =~= old(self)@ + address_bytes(value));
            },
        }
        Ok(())
    }
}

/// A socket address read back from its encoding is the same address.
pub proof fn lemma_address_round_trip(a: SockAddr, rest: Seq<u8>)
    ensures
        address_parse(address_bytes(a) + rest) == Ok::<(SockAddr, nat), BufError>(
            (a, address_bytes(a).len()),
        ),
{
    let s = address_bytes(a) + rest;
    reveal_with_fuel(pow256, 9);
    match a {
        SockAddr::V4 { ip, port } => {
            lemma_be_round_trip(ip as nat, 4);
            lemma_be_round_trip(port as nat, 2);
            assert(inverted(s.subrange(1, 5)) =~= be_bytes(ip as nat, 4));
            assert(s.subrange(5, 7) =~= be_bytes(port as nat, 2));
        },
        SockAddr::V6 { hi, lo, port } => {
            lemma_be_round_trip(hi as nat, 8);
            lemma_be_round_trip(lo as nat, 8);
            lemma_be_round_trip(port as nat, 2);
            lemma_be_bytes_len(0, 2);
            lemma_be_bytes_len(0, 4);
            assert(s.subrange(3, 5) =~= be_bytes(port as nat, 2));
            assert(s.subrange(9, 17) =~= be_bytes(hi as nat, 8));
            assert(s.subrange(17, 25) =~= be_bytes(lo as nat, 8));
        },
    }
}

} // verus!
