use vstd::prelude::*;
use bytes::BytesMut;

use crate::buffers::{bytes_mut_contents, buf_put_u8};
use crate::error::{ErrorView, MqttError};
use crate::wire::{read_u8, read_u16, read_u32, read_bytes, read_prefixed};

verus! {

/// `128^k`.
pub open spec fn pow128(k: nat) -> nat
    decreases k,
{
    if k == 0 {
        1
    } else {
        128 * pow128((k - 1) as nat)
    }
}

/// The value carried by the first `n` bytes of a variable byte integer:
/// the low seven bits of byte `i` weigh `128^i`.
pub open spec fn var_int_value(s: Seq<u8>, n: nat) -> nat
    decreases n,
{
    if n == 0 {
        0
    } else {
        var_int_value(s, (n - 1) as nat) + (s[n - 1] % 128) as nat * pow128((n - 1) as nat)
    }
}

/// The outcome of reading a variable byte integer from the front of a buffer.
pub enum VarIntRead {
    /// The buffer ends before the last byte of the integer.
    Incomplete,
    /// A fifth byte follows four continuation bytes.
    Malformed,
    /// The value, and how many bytes encode it.
    Value(u32, nat),
}

/// Scans from byte `k` for the byte that ends the integer (high bit clear).
pub open spec fn var_int_scan(s: Seq<u8>, k: nat) -> VarIntRead
    decreases 4 - k,
{
    if k >= s.len() {
        VarIntRead::Incomplete
    } else if k >= 4 {
        VarIntRead::Malformed
    } else if s[k as int] < 128 {
        VarIntRead::Value(var_int_value(s, k + 1) as u32, k + 1)
    } else {
        var_int_scan(s, k + 1)
    }
}

/// Reading an MQTT variable byte integer from the front of `s`.
pub open spec fn spec_var_int(s: Seq<u8>) -> VarIntRead {
    var_int_scan(s, 0)
}

/// The encoding of `v` as an MQTT variable byte integer: seven bits per byte,
/// least significant group first, the high bit set on every byte but the last.
pub open spec fn var_int_bytes(v: nat) -> Seq<u8>
    decreases v,
{
    if v < 128 {
        seq![v as u8]
    } else {
        seq![(v % 128 + 128) as u8] + var_int_bytes(v / 128)
    }
}

/// The error that a malformed variable byte integer yields.
pub open spec fn bad_var_int_error() -> ErrorView {
    ErrorView::MalformedPacket("Malformed Variable Byte Integer"@)
}

pub proof fn lemma_pow128_values()
    ensures
        pow128(0) == 1,
        pow128(1) == 128,
        pow128(2) == 16384,
        pow128(3) == 2097152,
        pow128(4) == 268435456,
        pow128(5) == 34359738368,
{
    assert(pow128(0) == 1);
    assert(pow128(1) == 128);
    assert(pow128(2) == 16384);
    assert(pow128(3) == 2097152);
    assert(pow128(4) == 268435456);
    assert(pow128(5) == 34359738368);
}

pub proof fn lemma_var_int_value_bound(s: Seq<u8>, n: nat)
    ensures
        var_int_value(s, n) < pow128(n),
    decreases n,
{
    if n > 0 {
        let m = (n - 1) as nat;
        lemma_var_int_value_bound(s, m);
        let d = (s[m as int] % 128) as nat;
        let p = pow128(m);
        assert(var_int_value(s, m) + d * p < 128 * p) by (nonlinear_arith)
            requires
                var_int_value(s, m) < p,
                d < 128,
        ;
    }
}

pub proof fn lemma_var_int_value_prefix(s: Seq<u8>, t: Seq<u8>, n: nat)
    requires
        n <= s.len(),
        n <= t.len(),
        s.take(n as int) == t.take(n as int),
    ensures
        var_int_value(s, n) == var_int_value(t, n),
    decreases n,
{
    if n > 0 {
        assert(s[n - 1] == s.take(n as int)[n - 1]);
        assert(t[n - 1] == t.take(n as int)[n - 1]);
        assert(s.take(n - 1) == s.take(n as int).take(n - 1));
        assert(t.take(n - 1) == t.take(n as int).take(n - 1));
        lemma_var_int_value_prefix(s, t, (n - 1) as nat);
    }
}

/// The scan never reports more bytes than the buffer has, nor more than four.
pub proof fn lemma_var_int_scan_len(s: Seq<u8>, k: nat)
    ensures
        var_int_scan(s, k) matches VarIntRead::Value(v, n) ==> {
            &&& k < n <= s.len()
            &&& n <= 4
            &&& v == var_int_value(s, n)
            &&& v < 268435456
            &&& s[n - 1] < 128
        },
    decreases 4 - k,
{
    if k < s.len() && k < 4 {
        if s[k as int] < 128 {
            lemma_var_int_value_bound(s, k + 1);
            lemma_pow128_values();
            if k + 1 < 4 {
                assert(pow128(k + 1) <= pow128(4));
            }
        } else {
            lemma_var_int_scan_len(s, k + 1);
        }
    }
}

/// Appending bytes after a complete (or malformed) integer does not change
/// what is read.
pub proof fn lemma_var_int_scan_extend(s: Seq<u8>, t: Seq<u8>, k: nat)
    requires
        !(var_int_scan(s, k) is Incomplete),
    ensures
        var_int_scan(s + t, k) == var_int_scan(s, k),
    decreases 4 - k,
{
    if k < s.len() && k < 4 {
        if s[k as int] < 128 {
            assert((s + t).take((k + 1) as int) == s.take((k + 1) as int));
            lemma_var_int_value_prefix(s + t, s, k + 1);
        } else {
            lemma_var_int_scan_extend(s, t, k + 1);
        }
    }
}

pub proof fn lemma_var_int_bytes_len(v: nat, k: nat)
    requires
        v < pow128(k),
    ensures
        1 <= var_int_bytes(v).len() <= k || (k == 0 && var_int_bytes(v).len() == 1),
        k >= 1 ==> var_int_bytes(v).len() <= k,
    decreases v,
{
    if v >= 128 {
        if k == 0 {
            lemma_pow128_values();
        } else {
            let m = (k - 1) as nat;
            assert(v / 128 < pow128(m)) by (nonlinear_arith)
                requires
                    v < 128 * pow128(m),
            ;
            lemma_var_int_bytes_len(v / 128, m);
            if m == 0 {
                lemma_pow128_values();
            }
        }
    } else if k == 0 {
        lemma_pow128_values();
    }
}

/// Reading back an encoded integer, at position `k` of a buffer.
pub proof fn lemma_var_int_scan_bytes(s: Seq<u8>, k: nat, v: nat)
    requires
        k + var_int_bytes(v).len() <= 4,
        k + var_int_bytes(v).len() <= s.len(),
        s.subrange(k as int, (k + var_int_bytes(v).len()) as int) == var_int_bytes(v),
    ensures
        var_int_scan(s, k) matches VarIntRead::Value(x, n) && n == k + var_int_bytes(v).len()
            && var_int_value(s, n) == var_int_value(s, k) + v * pow128(k),
    decreases v,
{
    let e = var_int_bytes(v);
    assert(s[k as int] == e[0]);
    if v < 128 {
        assert(s[k as int] == v);
        assert(s[k as int] % 128 == v);
    } else {
        let rest = var_int_bytes(v / 128);
        assert(e == seq![(v % 128 + 128) as u8] + rest);
        assert(e.subrange(1, e.len() as int) =~= rest);
        assert(s.subrange((k + 1) as int, (k + 1 + rest.len()) as int) =~= e.subrange(
            1,
            e.len() as int,
        ));
        assert(v / 128 < v);
        lemma_var_int_scan_bytes(s, k + 1, v / 128);
        assert(s[k as int] % 128 == v % 128);
        let p = pow128(k);
        assert(pow128(k + 1) == 128 * p);
        assert((v % 128) * p + (v / 128) * (128 * p) == v * p) by (nonlinear_arith)
            requires
                v == 128 * (v / 128) + v % 128,
        ;
        assert(var_int_value(s, k + 1) == var_int_value(s, k) + (v % 128) * p);
    }
}

/// Writing then reading a variable byte integer gives the value back: every
/// value below `2^28` is encoded in at most four bytes, and reading those bytes,
/// whatever follows them, yields the value and the encoding's length.
pub proof fn law_var_int_round_trip(v: u32, tail: Seq<u8>)
    requires
        v < 268435456,
    ensures
        var_int_bytes(v as nat).len() <= 4,
        spec_var_int(var_int_bytes(v as nat) + tail) == VarIntRead::Value(
            v,
            var_int_bytes(v as nat).len(),
        ),
{
    lemma_pow128_values();
    lemma_var_int_bytes_len(v as nat, 4);
    let e = var_int_bytes(v as nat);
    let s = e + tail;
    assert(s.subrange(0, e.len() as int) == e);
    lemma_var_int_scan_bytes(s, 0, v as nat);
    lemma_var_int_scan_len(s, 0);
}

/// A read position over a byte slice; reads advance it.
pub struct ByteCursor<'a> {
    data: &'a [u8],
    pos: usize,
}

impl<'a> View for ByteCursor<'a> {
    /// The bytes, and the read position.
    type V = (Seq<u8>, nat);

    closed spec fn view(&self) -> (Seq<u8>, nat) {
        (self.data@, self.pos as nat)
    }
}

impl<'a> ByteCursor<'a> {
    #[verifier::type_invariant]
    spec fn position_in_bounds(self) -> bool {
        self.pos <= self.data@.len()
    }

    pub fn new(data: &'a [u8]) -> (c: Self)
        ensures
            c@ == (data@, 0nat),
    {
        ByteCursor { data, pos: 0 }
    }

    /// Another cursor over the same bytes, at the same position.
    pub fn duplicate(&self) -> (c: ByteCursor<'a>)
        ensures
            c@ == self@,
    {
        proof {
            use_type_invariant(self);
        }
        ByteCursor { data: self.data, pos: self.pos }
    }

    /// The read position; it never passes the end of the bytes.
    pub fn position(&self) -> (p: usize)
        ensures
            p == self@.1,
            p <= self@.0.len(),
    {
        proof {
            use_type_invariant(self);
        }
        self.pos
    }

    /// The bytes from the read position on.
    pub fn chunk(&self) -> (c: &'a [u8])
        ensures
            c@ == self@.0.skip(self@.1 as int),
            self@.1 <= self@.0.len(),
    {
        proof {
            use_type_invariant(self);
        }
        vstd::slice::slice_subrange(self.data, self.pos, self.data.len())
    }

    /// The number of bytes after the read position.
    pub fn remaining(&self) -> (n: usize)
        ensures
            n == self@.0.len() - self@.1,
            self@.1 <= self@.0.len(),
    {
        proof {
            use_type_invariant(self);
        }
        self.data.len() - self.pos
    }

    /// Reads one byte; `None`, with the cursor unmoved, where none is left.
    pub fn get_u8(&mut self) -> (r: Option<u8>)
        ensures
            match read_u8(old(self)@.0, old(self)@.1 as int) {
                None => r is None && *final(self) == *old(self),
                Some((v, q)) => r == Some(v) && final(self)@ == (old(self)@.0, q as nat),
            },
    {
        proof {
            use_type_invariant(&*self);
        }
        if self.pos < self.data.len() {
            let v = self.data[self.pos];
            self.pos = self.pos + 1;
            Some(v)
        } else {
            None
        }
    }

    /// Reads a big-endian 16-bit value; `None`, with the cursor unmoved, where
    /// fewer than two bytes are left.
    pub fn get_u16(&mut self) -> (r: Option<u16>)
        ensures
            match read_u16(old(self)@.0, old(self)@.1 as int) {
                None => r is None && *final(self) == *old(self),
                Some((v, q)) => r == Some(v) && final(self)@ == (old(self)@.0, q as nat),
            },
    {
        proof {
            use_type_invariant(&*self);
        }
        if self.data.len() - self.pos >= 2 {
            let hi = self.data[self.pos];
            let lo = self.data[self.pos + 1];
            self.pos = self.pos + 2;
            Some(hi as u16 * 256 + lo as u16)
        } else {
            None
        }
    }

    /// Reads a big-endian 32-bit value; `None`, with the cursor unmoved, where
    /// fewer than four bytes are left.
    pub fn get_u32(&mut self) -> (r: Option<u32>)
        ensures
            match read_u32(old(self)@.0, old(self)@.1 as int) {
                None => r is None && *final(self) == *old(self),
                Some((v, q)) => r == Some(v) && final(self)@ == (old(self)@.0, q as nat),
            },
    {
        proof {
            use_type_invariant(&*self);
        }
        if self.data.len() - self.pos >= 4 {
            let b0 = self.data[self.pos];
            let b1 = self.data[self.pos + 1];
            let b2 = self.data[self.pos + 2];
            let b3 = self.data[self.pos + 3];
            self.pos = self.pos + 4;
            Some(b0 as u32 * 16777216 + b1 as u32 * 65536 + b2 as u32 * 256 + b3 as u32)
        } else {
            None
        }
    }

    /// Reads `n` bytes; `None`, with the cursor unmoved, where fewer are left.
    pub fn get_bytes(&mut self, n: usize) -> (r: Option<&'a [u8]>)
        ensures
            match read_bytes(old(self)@.0, old(self)@.1 as int, n as int) {
                None => r is None && *final(self) == *old(self),
                Some((b, q)) => r matches Some(x) && x@ == b && final(self)@ == (
                    old(self)@.0,
                    q as nat,
                ),
            },
    {
        proof {
            use_type_invariant(&*self);
        }
        if self.data.len() - self.pos >= n {
            let b = vstd::slice::slice_subrange(self.data, self.pos, self.pos + n);
            self.pos = self.pos + n;
            Some(b)
        } else {
            None
        }
    }

    /// Reads a length-prefixed field: a big-endian 16-bit length, then that
    /// many bytes. Where the field is cut short the result is `None` and the
    /// cursor's position is not stated.
    pub fn get_prefixed(&mut self) -> (r: Option<&'a [u8]>)
        ensures
            final(self)@.0 == old(self)@.0,
            match read_prefixed(old(self)@.0, old(self)@.1 as int) {
                None => r is None,
                Some((b, q)) => r matches Some(x) && x@ == b && final(self)@ == (
                    old(self)@.0,
                    q as nat,
                ),
            },
    {
        match self.get_u16() {
            None => None,
            Some(n) => self.get_bytes(n as usize),
        }
    }

    /// Moves the read position forward by `n` bytes.
    pub fn advance(&mut self, n: usize)
        requires
            old(self)@.1 + n <= old(self)@.0.len(),
        ensures
            final(self)@ == (old(self)@.0, (old(self)@.1 + n) as nat),
    {
        let _len = self.data.len();
        self.pos = self.pos + n;
    }
}

/// Reads an MQTT variable byte integer at the cursor.
/// On success the cursor moves past it and the value comes with the number of
/// bytes it took; a buffer that ends inside the integer gives `Ok(None)`, and a
/// fifth length byte an error. In both of these cases the cursor stays put.
pub fn read_var_int(src: &mut ByteCursor) -> (r: Result<Option<(u32, usize)>, MqttError>)
    ensures
        match spec_var_int(old(src)@.0.skip(old(src)@.1 as int)) {
            VarIntRead::Incomplete => r matches Ok(None) && *final(src) == *old(src),
            VarIntRead::Malformed => r matches Err(e) && e@ == bad_var_int_error() && *final(src)
                == *old(src),
            VarIntRead::Value(v, n) => r matches Ok(Some((x, m))) && x == v && m == n
                && final(src)@ == (old(src)@.0, old(src)@.1 + n),
        },
{
    let chunk = src.chunk();
    let ghost s = chunk@;
    let mut multiplier: u32 = 1;
    let mut value: u32 = 0;
    let mut bytes_read: usize = 0;
    proof {
        lemma_pow128_values();
    }
    loop
        invariant
            s == chunk@,
            s == src@.0.skip(src@.1 as int),
            src@.1 + s.len() == src@.0.len(),
            src == old(src),
            bytes_read <= 4,
            bytes_read <= s.len(),
            multiplier == pow128(bytes_read as nat),
            value == var_int_value(s, bytes_read as nat),
            var_int_scan(s, 0) == var_int_scan(s, bytes_read as nat),
        decreases 4 - bytes_read,
    {
        if bytes_read >= chunk.len() {
            return Ok(None);
        }
        let encoded_byte = chunk[bytes_read];
        if multiplier > 128 * 128 * 128 {
            proof {
                lemma_pow128_values();
                if bytes_read < 4 {
                    assert(pow128(bytes_read as nat) <= 2097152);
                }
            }
            return Err(MqttError::MalformedPacket("Malformed Variable Byte Integer"));
        }
        proof {
            lemma_pow128_values();
            if bytes_read == 4 {
                assert(false);
            }
            lemma_var_int_value_bound(s, bytes_read as nat);
        }
        let low: u8 = encoded_byte & 127;
        assert(low == encoded_byte % 128) by (bit_vector)
            requires
                low == encoded_byte & 127,
        ;
        let ghost old_value = value;
        let ghost k = bytes_read as nat;
        assert((low as nat) * (multiplier as nat) + old_value < 128 * (multiplier as nat)) by (nonlinear_arith)
            requires
                low < 128,
                old_value < multiplier,
        ;
        value = value + low as u32 * multiplier;
        multiplier = multiplier * 128;
        bytes_read = bytes_read + 1;
        assert(value == var_int_value(s, bytes_read as nat));
        if (encoded_byte & 128) == 0 {
            assert(encoded_byte < 128) by (bit_vector)
                requires
                    encoded_byte & 128 == 0,
            ;
            src.advance(bytes_read);
            return Ok(Some((value, bytes_read)));
        }
        assert(encoded_byte >= 128) by (bit_vector)
            requires
                encoded_byte & 128 != 0,
        ;
    }
}

/// Appends the MQTT variable byte integer encoding of `value` to `dst`. A value
/// above 268,435,455 does not fit the four bytes such an integer may take: it
/// is refused and `dst` is left as it was.
pub fn write_var_int(value: u32, dst: &mut BytesMut) -> (r: Result<(), MqttError>)
    requires
        bytes_mut_contents(*old(dst)).len() + 4 <= isize::MAX,
    ensures
        value <= 268435455 ==> r is Ok && bytes_mut_contents(*final(dst)) == bytes_mut_contents(
            *old(dst),
        ) + var_int_bytes(value as nat),
        value > 268435455 ==> (r matches Err(e) && e@ == ErrorView::PayloadTooLarge
            && bytes_mut_contents(*final(dst)) == bytes_mut_contents(*old(dst))),
{
    if value > 268_435_455 {
        return Err(MqttError::PayloadTooLarge);
    }
    let ghost start = bytes_mut_contents(*dst);
    let mut value = value;
    let ghost orig = value as nat;
    proof {
        lemma_pow128_values();
        lemma_var_int_bytes_len(orig, 4);
    }
    loop
        invariant_except_break
            bytes_mut_contents(*dst) + var_int_bytes(value as nat) == start + var_int_bytes(orig),
        invariant
            var_int_bytes(orig).len() <= 4,
            start.len() + 4 <= isize::MAX,
        ensures
            bytes_mut_contents(*dst) == start + var_int_bytes(orig),
        decreases value,
    {
        let ghost v = value as nat;
        let ghost before = bytes_mut_contents(*dst);
        let mut encoded_byte: u8 = (value % 128) as u8;
        value = value / 128;
        if value > 0 {
            assert(encoded_byte | 128 == encoded_byte + 128) by (bit_vector)
                requires
                    encoded_byte < 128,
            ;
            encoded_byte = encoded_byte | 128;
        }
        proof {
            if v < 128 {
                assert(var_int_bytes(v) == seq![v as u8]);
            } else {
                assert(var_int_bytes(v) == seq![(v % 128 + 128) as u8] + var_int_bytes(v / 128));
            }
            assert(before.len() + var_int_bytes(v).len() <= start.len() + 4) by {
                assert((before + var_int_bytes(v)).len() == (start + var_int_bytes(orig)).len());
            }
        }
        buf_put_u8(dst, encoded_byte);
        proof {
            if v < 128 {
                assert(bytes_mut_contents(*dst) == before + var_int_bytes(v));
            } else {
                assert(bytes_mut_contents(*dst) + var_int_bytes(value as nat) =~= before
                    + var_int_bytes(v));
            }
        }
        if value == 0 {
            break;
        }
    }
    Ok(())
}

} // verus!
