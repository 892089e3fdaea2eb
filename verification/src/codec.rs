use vstd::prelude::*;
use vstd::utf8::*;

verus! {

/// Why bytes could not be decoded.
#[derive(Debug, Clone, Copy, PartialEq, Eq)]
pub enum DecodeError {
    /// The input ended inside a variable-length integer.
    Incomplete,
    /// The input is shorter than the length that a buffer announced.
    Eof,
    /// A variable-length integer is larger than `u64::MAX`.
    Overflow,
    /// A message starts with a tag that no message kind has.
    UnknownTag,
    /// A string's bytes are not valid UTF-8.
    InvalidUtf8,
}

// ---------------------------------------------------------------------------
// Variable-length unsigned integers
// ---------------------------------------------------------------------------

/// The encoding of `v`: seven bits per byte, least significant group first,
/// the high bit set on every byte but the last.
pub open spec fn var_u64_bytes(v: nat) -> Seq<u8>
    decreases v,
{
    if v < 128 {
        seq![v as u8]
    } else {
        seq![(v % 128 + 128) as u8] + var_u64_bytes(v / 128)
    }
}

/// The length of the integer at the front of `s`: up to and including the
/// first byte whose high bit is clear.
pub open spec fn var_end(s: Seq<u8>) -> Option<nat>
    decreases s.len(),
{
    if s.len() == 0 {
        None
    } else if s[0] < 128 {
        Some(1)
    } else {
        match var_end(s.drop_first()) {
            Some(n) => Some(n + 1),
            None => None,
        }
    }
}

/// The number whose seven-bit groups, least significant first, are the low
/// bits of the bytes of `s`.
pub open spec fn var_value(s: Seq<u8>) -> nat
    decreases s.len(),
{
    if s.len() == 0 {
        0
    } else {
        (s[0] % 128) as nat + 128 * var_value(s.drop_first())
    }
}

/// What reading a variable-length integer from `s` gives: the bytes after it
/// and its value.
pub open spec fn parse_var_u64(s: Seq<u8>) -> Result<(Seq<u8>, u64), DecodeError> {
    match var_end(s) {
        None => Err(DecodeError::Incomplete),
        Some(n) => if var_value(s.take(n as int)) <= u64::MAX {
            Ok((s.skip(n as int), var_value(s.take(n as int)) as u64))
        } else {
            Err(DecodeError::Overflow)
        },
    }
}

/// The value of an exec parse result, with the tail taken by its view.
pub open spec fn tail_view<T>(r: Result<(&[u8], T), DecodeError>) -> Result<
    (Seq<u8>, T),
    DecodeError,
> {
    match r {
        Ok((tail, v)) => Ok((tail@, v)),
        Err(e) => Err(e),
    }
}

proof fn lemma_var_end_scan(s: Seq<u8>, i: int)
    requires
        0 <= i <= s.len(),
        forall|k: int| 0 <= k < i ==> s[k] >= 128,
    ensures
        i < s.len() && s[i] < 128 ==> var_end(s) == Some((i + 1) as nat),
        i == s.len() ==> var_end(s) is None,
    decreases i,
{
    if i > 0 {
        let t = s.drop_first();
        assert forall|k: int| 0 <= k < i - 1 implies t[k] >= 128 by {
            assert(t[k] == s[k + 1]);
        }
        lemma_var_end_scan(t, i - 1);
        if i < s.len() {
            assert(t[i - 1] == s[i]);
        }
    }
}

proof fn lemma_var_value_step(s: Seq<u8>, j: int, n: int)
    requires
        0 <= j < n <= s.len(),
    ensures
        var_value(s.subrange(j, n)) == (s[j] % 128) as nat + 128 * var_value(s.subrange(j + 1, n)),
{
    let t = s.subrange(j, n);
    assert(t[0] == s[j]);
    assert(t.drop_first() =~= s.subrange(j + 1, n));
}

proof fn lemma_var_value_grows(s: Seq<u8>, j: int, n: int)
    requires
        0 <= j <= n <= s.len(),
    ensures
        var_value(s.subrange(0, n)) >= var_value(s.subrange(j, n)),
    decreases j,
{
    if j > 0 {
        lemma_var_value_step(s, j - 1, n);
        lemma_var_value_grows(s, j - 1, n);
    }
}

/// Reading an encoded integer gives back the integer and the bytes after it.
pub proof fn lemma_var_u64_roundtrip(v: u64, rest: Seq<u8>)
    ensures
        parse_var_u64(var_u64_bytes(v as nat) + rest) == Ok::<(Seq<u8>, u64), DecodeError>(
            (rest, v),
        ),
{
    let b = var_u64_bytes(v as nat);
    lemma_var_bytes_parse(v as nat, rest);
    assert((b + rest).take(b.len() as int) =~= b);
    assert((b + rest).skip(b.len() as int) =~= rest);
}

proof fn lemma_var_bytes_parse(v: nat, rest: Seq<u8>)
    ensures
        var_end(var_u64_bytes(v) + rest) == Some(var_u64_bytes(v).len()),
        var_value(var_u64_bytes(v)) == v,
        var_u64_bytes(v).len() >= 1,
    decreases v,
{
    let b = var_u64_bytes(v);
    if v < 128 {
        assert((b + rest)[0] == v as u8);
        let t = b.drop_first();
        assert(t =~= Seq::<u8>::empty());
        assert(var_value(t) == 0);
        assert(b[0] == v as u8);
        assert((v as u8) % 128 == v % 128);
    } else {
        let b0 = (v % 128 + 128) as u8;
        let t = var_u64_bytes(v / 128);
        lemma_var_bytes_parse(v / 128, rest);
        assert(b =~= seq![b0] + t);
        assert((b + rest)[0] == b0);
        assert((b + rest).drop_first() =~= t + rest);
        assert(b.drop_first() =~= t);
        assert(b[0] == b0);
        assert(b0 as nat == v % 128 + 128);
        assert(b0 % 128 == v % 128);
        assert(v == 128 * (v / 128) + v % 128);
    }
}

/// A number below 128 takes one byte, itself; one below 16384 takes two:
/// its low seven bits with the high bit set, then the rest.
pub proof fn lemma_var_u64_bytes_short(v: u64)
    ensures
        v < 128 ==> var_u64_bytes(v as nat) == seq![v as u8],
        128 <= v < 16384 ==> var_u64_bytes(v as nat) == seq![(v % 128 + 128) as u8, (v / 128) as u8],
{
    if 128 <= v < 16384 {
        assert(var_u64_bytes((v / 128) as nat) == seq![(v / 128) as u8]);
        assert(var_u64_bytes(v as nat) =~= seq![(v % 128 + 128) as u8, (v / 128) as u8]);
    }
}

/// A first byte below 128 is a whole integer: its own value.
pub proof fn lemma_var_u64_one_byte(s: Seq<u8>)
    requires
        s.len() > 0,
        s[0] < 128,
    ensures
        parse_var_u64(s) == Ok::<(Seq<u8>, u64), DecodeError>((s.skip(1), s[0] as u64)),
{
    let t = s.take(1);
    assert(t[0] == s[0]);
    assert(t.drop_first() =~= Seq::<u8>::empty());
    assert(var_value(t.drop_first()) == 0);
    assert(var_value(t) == s[0] as nat);
}

/// Reads a variable-length integer from the front of `input`, and returns
/// the bytes after it with its value.
pub fn read_var_u64(input: &[u8]) -> (r: Result<(&[u8], u64), DecodeError>)
    ensures
        tail_view(r) == parse_var_u64(input@),
{
    let ghost s = input@;
    let len = input.len();
    let mut i: usize = 0;
    while i < len && input[i] >= 128
        invariant
            len == s.len(),
            input@ == s,
            i <= len,
            forall|k: int| 0 <= k < i ==> s[k] >= 128,
        decreases len - i,
    {
        i += 1;
    }
    proof {
        lemma_var_end_scan(s, i as int);
    }
    if i == len {
        return Err(DecodeError::Incomplete);
    }
    let n = i + 1;
    let mut acc: u64 = 0;
    let mut j: usize = n;
    proof {
        assert(s.subrange(n as int, n as int) =~= Seq::<u8>::empty());
    }
    while j > 0
        invariant
            n <= len,
            len == s.len(),
            input@ == s,
            var_end(s) == Some(n as nat),
            j <= n,
            acc as nat == var_value(s.subrange(j as int, n as int)),
        decreases j,
    {
        j -= 1;
        let d = (input[j] % 128) as u64;
        proof {
            lemma_var_value_step(s, j as int, n as int);
        }
        if acc > (u64::MAX - d) / 128 {
            proof {
                let q = (u64::MAX - d) / 128;
                assert(q * 128 + 128 > u64::MAX - d);
                assert(acc * 128 >= q * 128 + 128);
                assert(var_value(s.subrange(j as int, n as int)) > u64::MAX);
                lemma_var_value_grows(s, j as int, n as int);
                assert(s.take(n as int) =~= s.subrange(0, n as int));
            }
            return Err(DecodeError::Overflow);
        }
        acc = acc * 128 + d;
    }
    proof {
        assert(s.take(n as int) =~= s.subrange(0, n as int));
    }
    let (_, tail) = input.split_at(n);
    Ok((tail, acc))
}

/// Appends the encoding of `num` to `buffer`.
pub fn write_var_u64(buffer: &mut Vec<u8>, num: u64)
    ensures
        final(buffer)@ == old(buffer)@ + var_u64_bytes(num as nat),
        num < 128 ==> final(buffer)@ == old(buffer)@.push(num as u8),
        128 <= num < 16384 ==> final(buffer)@ == old(buffer)@.push((num % 128 + 128) as u8).push(
            (num / 128) as u8,
        ),
{
    proof {
        lemma_var_u64_bytes_short(num);
        assert(old(buffer)@ + seq![num as u8] =~= old(buffer)@.push(num as u8));
        assert(old(buffer)@ + seq![(num % 128 + 128) as u8, (num / 128) as u8] =~= old(
            buffer,
        )@.push((num % 128 + 128) as u8).push((num / 128) as u8));
    }
    let mut num = num;
    let ghost orig = num;
    proof {
        assert(buffer@ + var_u64_bytes(num as nat) =~= old(buffer)@ + var_u64_bytes(orig as nat));
    }
    while num >= 128
        invariant
            buffer@ + var_u64_bytes(num as nat) == old(buffer)@ + var_u64_bytes(orig as nat),
        decreases num,
    {
        let ghost b = buffer@;
        let ghost m = num;
        buffer.push((num % 128 + 128) as u8);
        num = num / 128;
        assert(buffer@ + var_u64_bytes(num as nat) =~= b + var_u64_bytes(m as nat));
    }
    let ghost b = buffer@;
    buffer.push(num as u8);
    assert(buffer@ =~= b + var_u64_bytes(num as nat));
}

// ---------------------------------------------------------------------------
// Length-prefixed buffers and strings
// ---------------------------------------------------------------------------

/// The encoding of a buffer: its length, then its bytes.
pub open spec fn var_buffer_bytes(data: Seq<u8>) -> Seq<u8> {
    var_u64_bytes(data.len()) + data
}

/// What reading a buffer from `s` gives: the bytes after it and its bytes.
pub open spec fn parse_var_buffer(s: Seq<u8>) -> Result<(Seq<u8>, Seq<u8>), DecodeError> {
    match parse_var_u64(s) {
        Err(e) => Err(e),
        Ok((tail, len)) => if len <= tail.len() {
            Ok((tail.skip(len as int), tail.take(len as int)))
        } else {
            Err(DecodeError::Eof)
        },
    }
}

/// Reads a length-prefixed buffer from the front of `input`, and returns the
/// bytes after it with the buffer's bytes.
pub fn read_var_buffer(input: &[u8]) -> (r: Result<(&[u8], &[u8]), DecodeError>)
    ensures
        match r {
            Ok((tail, val)) => parse_var_buffer(input@) == Ok::<(Seq<u8>, Seq<u8>), DecodeError>(
                (tail@, val@),
            ),
            Err(e) => parse_var_buffer(input@) == Err::<(Seq<u8>, Seq<u8>), DecodeError>(e),
        },
{
    let (tail, len) = read_var_u64(input)?;
    if len > tail.len() as u64 {
        return Err(DecodeError::Eof);
    }
    let (val, rest) = tail.split_at(len as usize);
    Ok((rest, val))
}

/// Appends `data`, prefixed by its length, to `buffer`.
pub fn write_var_buffer(buffer: &mut Vec<u8>, data: &[u8])
    ensures
        final(buffer)@ == old(buffer)@ + var_buffer_bytes(data@),
{
    write_var_u64(buffer, data.len() as u64);
    let ghost b = buffer@;
    let mut i: usize = 0;
    while i < data.len()
        invariant
            i <= data@.len(),
            buffer@ == b + data@.take(i as int),
        decreases data@.len() - i,
    {
        buffer.push(data[i]);
        i += 1;
        assert(buffer@ =~= b + data@.take(i as int));
    }
    assert(data@.take(i as int) =~= data@);
    assert(buffer@ =~= old(buffer)@ + var_buffer_bytes(data@));
}

/// The text that valid UTF-8 bytes spell, as `String::from_utf8` gives it.
#[verifier::external_body]
fn string_from_utf8(bytes: Vec<u8>) -> (r: Option<String>)
    ensures
        r is Some <==> valid_utf8(bytes@),
        r matches Some(s) ==> s@ == decode_utf8(bytes@),
{
    String::from_utf8(bytes).ok()
}

/// The encoding of a string: its UTF-8 bytes as a length-prefixed buffer.
pub open spec fn var_string_bytes(text: Seq<char>) -> Seq<u8> {
    var_buffer_bytes(encode_utf8(text))
}

/// What reading a string from `s` gives: the bytes after it and its text.
pub open spec fn parse_var_string(s: Seq<u8>) -> Result<(Seq<u8>, Seq<char>), DecodeError> {
    match parse_var_buffer(s) {
        Err(e) => Err(e),
        Ok((tail, bytes)) => if valid_utf8(bytes) {
            Ok((tail, decode_utf8(bytes)))
        } else {
            Err(DecodeError::InvalidUtf8)
        },
    }
}

/// Reads a length-prefixed UTF-8 string from the front of `input`, and
/// returns the bytes after it with the string.
pub fn read_var_string(input: &[u8]) -> (r: Result<(&[u8], String), DecodeError>)
    ensures
        match r {
            Ok((tail, text)) => parse_var_string(input@) == Ok::<
                (Seq<u8>, Seq<char>),
                DecodeError,
            >((tail@, text@)),
            Err(e) => parse_var_string(input@) == Err::<(Seq<u8>, Seq<char>), DecodeError>(e),
        },
{
    let (tail, bytes) = read_var_buffer(input)?;
    let owned = vstd::slice::slice_to_vec(bytes);
    match string_from_utf8(owned) {
        Some(text) => Ok((tail, text)),
        None => Err(DecodeError::InvalidUtf8),
    }
}

/// Appends the UTF-8 bytes of `input`, prefixed by their length, to `buffer`.
pub fn write_var_string(buffer: &mut Vec<u8>, input: &str)
    ensures
        final(buffer)@ == old(buffer)@ + var_string_bytes(input@),
{
    let bytes = input.as_bytes();
    write_var_buffer(buffer, bytes);
}

/// Reading a written buffer gives back its bytes and the bytes after it.
pub proof fn lemma_var_buffer_roundtrip(data: Seq<u8>, rest: Seq<u8>)
    requires
        data.len() <= u64::MAX,
    ensures
        parse_var_buffer(var_buffer_bytes(data) + rest) == Ok::<(Seq<u8>, Seq<u8>), DecodeError>(
            (rest, data),
        ),
{
    let v = data.len() as u64;
    lemma_var_u64_roundtrip(v, data + rest);
    assert(var_buffer_bytes(data) + rest =~= var_u64_bytes(v as nat) + (data + rest));
    assert((data + rest).take(data.len() as int) =~= data);
    assert((data + rest).skip(data.len() as int) =~= rest);
}

/// Reading a written string gives back its text and the bytes after it.
pub proof fn lemma_var_string_roundtrip(text: Seq<char>, rest: Seq<u8>)
    requires
        encode_utf8(text).len() <= u64::MAX,
    ensures
        parse_var_string(var_string_bytes(text) + rest) == Ok::<
            (Seq<u8>, Seq<char>),
            DecodeError,
        >((rest, text)),
{
    lemma_var_buffer_roundtrip(encode_utf8(text), rest);
    encode_utf8_valid_utf8(text);
    encode_utf8_decode_utf8(text);
}

} // verus!
