use vstd::prelude::*;

verus! {

/// Minimal big-endian bytes of `n`: no leading zero byte, and empty for zero.
pub open spec fn be_bytes(n: nat) -> Seq<u8>
    decreases n,
{
    if n == 0 {
        Seq::empty()
    } else {
        be_bytes(n / 256).push((n % 256) as u8)
    }
}

/// The unsigned integer that big-endian bytes stand for.
pub open spec fn be_value(b: Seq<u8>) -> nat
    decreases b.len(),
{
    if b.len() == 0 {
        0
    } else {
        be_value(b.drop_last()) * 256 + b.last() as nat
    }
}

/// Header of a string (`offset` 0x80) or list (`offset` 0xc0) whose payload
/// is `len` bytes long.
pub open spec fn length_header(len: nat, offset: nat) -> Seq<u8> {
    if len < 56 {
        seq![(offset + len) as u8]
    } else {
        seq![(offset + 55 + be_bytes(len).len()) as u8] + be_bytes(len)
    }
}

/// Encoding of one byte string: a byte below 0x80 stands for itself,
/// anything else follows its header.
pub open spec fn string_encoding(s: Seq<u8>) -> Seq<u8> {
    if s.len() == 1 && s[0] < 0x80 {
        s
    } else {
        length_header(s.len(), 0x80) + s
    }
}

/// Encoding of an unsigned integer: its minimal big-endian bytes as a string.
pub open spec fn uint_encoding(n: nat) -> Seq<u8> {
    string_encoding(be_bytes(n))
}

/// Encoding of a list whose items, already encoded, make up `payload`.
pub open spec fn list_encoding(payload: Seq<u8>) -> Seq<u8> {
    length_header(payload.len(), 0xc0) + payload
}

/// A value below `256^k` takes at most `k` bytes.
pub proof fn lemma_be_bytes_len_bound(n: nat, k: nat)
    requires
        n < pow256(k),
    ensures
        be_bytes(n).len() <= k,
    decreases n,
{
    if n > 0 {
        assert(k > 0);
        assert(pow256(k) == 256 * pow256((k - 1) as nat));
        assert(n / 256 < pow256((k - 1) as nat));
        lemma_be_bytes_len_bound(n / 256, (k - 1) as nat);
    }
}

/// `256^k`.
pub open spec fn pow256(k: nat) -> nat
    decreases k,
{
    if k == 0 {
        1
    } else {
        256 * pow256((k - 1) as nat)
    }
}

/// `256^8` is `2^64`.
proof fn lemma_pow256_8()
    ensures
        pow256(8) == 0x1_0000_0000_0000_0000,
{
    reveal_with_fuel(pow256, 9);
}

/// Minimal integer encoding: zero alone has no bytes, no other value has a
/// leading zero byte, and the bytes read back as the value.
pub proof fn lemma_be_bytes_minimal(n: nat)
    ensures
        be_bytes(n).len() == 0 <==> n == 0,
        be_bytes(n).len() > 0 ==> be_bytes(n)[0] != 0,
        be_value(be_bytes(n)) == n,
    decreases n,
{
    if n > 0 {
        lemma_be_bytes_minimal(n / 256);
        let b = be_bytes(n);
        assert(b.drop_last() =~= be_bytes(n / 256));
        if n / 256 == 0 {
            assert(b[0] == (n % 256) as u8);
        } else {
            assert(b[0] == be_bytes(n / 256)[0]);
        }
    }
}

/// The string that starts `b`, and how many bytes its encoding takes; none
/// where `b` does not start with a complete string.
pub open spec fn decode_string(b: Seq<u8>) -> Option<(Seq<u8>, nat)> {
    if b.len() == 0 {
        None
    } else if b[0] < 0x80 {
        Some((b.subrange(0, 1), 1))
    } else if b[0] < 0xb8 {
        let n = b[0] - 0x80;
        if 1 + n <= b.len() {
            Some((b.subrange(1, 1 + n), (1 + n) as nat))
        } else {
            None
        }
    } else if b[0] < 0xc0 {
        let ll = b[0] - 0xb7;
        if 1 + ll <= b.len() {
            let n = be_value(b.subrange(1, 1 + ll));
            if 1 + ll + n <= b.len() {
                Some((b.subrange(1 + ll, 1 + ll + n), (1 + ll + n) as nat))
            } else {
                None
            }
        } else {
            None
        }
    } else {
        None
    }
}

/// The payload of `b` where `b` is exactly one list.
pub open spec fn decode_list(b: Seq<u8>) -> Option<Seq<u8>> {
    if b.len() == 0 || b[0] < 0xc0 {
        None
    } else if b[0] < 0xf8 {
        let n = b[0] - 0xc0;
        if 1 + n == b.len() {
            Some(b.subrange(1, b.len() as int))
        } else {
            None
        }
    } else {
        let ll = b[0] - 0xf7;
        if 1 + ll <= b.len() && 1 + ll + be_value(b.subrange(1, 1 + ll)) == b.len() {
            Some(b.subrange(1 + ll, b.len() as int))
        } else {
            None
        }
    }
}

/// The strings that, encoded one after another, make up `p`.
pub open spec fn decode_items(p: Seq<u8>) -> Option<Seq<Seq<u8>>>
    decreases p.len(),
{
    if p.len() == 0 {
        Some(Seq::empty())
    } else {
        match decode_string(p) {
            Some((x, k)) => if 0 < k <= p.len() {
                match decode_items(p.subrange(k as int, p.len() as int)) {
                    Some(xs) => Some(seq![x] + xs),
                    None => None,
                }
            } else {
                None
            },
            None => None,
        }
    }
}

/// Shape of the header of a payload of 56 bytes or more.
proof fn lemma_long_header(len: nat, offset: nat)
    requires
        56 <= len < pow256(8),
        offset == 0x80 || offset == 0xc0,
    ensures
        ({
            let h = length_header(len, offset);
            let ll = be_bytes(len).len();
            &&& 1 <= ll <= 8
            &&& h.len() == 1 + ll
            &&& h[0] == offset + 55 + ll
            &&& h.subrange(1, 1 + ll as int) == be_bytes(len)
            &&& be_value(be_bytes(len)) == len
        }),
{
    lemma_be_bytes_len_bound(len, 8);
    lemma_be_bytes_minimal(len);
    let h = length_header(len, offset);
    assert(h.subrange(1, h.len() as int) =~= be_bytes(len));
}

/// Decoding the encoding of a string, followed by anything, gives back the
/// string and the length of its encoding.
pub proof fn lemma_string_round_trip(s: Seq<u8>, rest: Seq<u8>)
    requires
        s.len() < pow256(8),
    ensures
        string_encoding(s).len() > 0,
        decode_string(string_encoding(s) + rest) == Some((s, string_encoding(s).len())),
{
    let e = string_encoding(s);
    let b = e + rest;
    if s.len() == 1 && s[0] < 0x80 {
        assert(b.subrange(0, 1) =~= s);
    } else if s.len() < 56 {
        assert(b.subrange(1, 1 + s.len() as int) =~= s);
    } else {
        lemma_pow256_8();
        lemma_long_header(s.len(), 0x80);
        let ll = be_bytes(s.len()).len();
        assert(b.subrange(1, 1 + ll as int) =~= be_bytes(s.len()));
        assert(b.subrange(1 + ll as int, 1 + ll + s.len() as int) =~= s);
    }
}

/// Decoding the encoding of a list gives back its payload.
pub proof fn lemma_list_round_trip(payload: Seq<u8>)
    requires
        payload.len() < pow256(8),
    ensures
        decode_list(list_encoding(payload)) == Some(payload),
{
    let b = list_encoding(payload);
    if payload.len() < 56 {
        assert(b.subrange(1, b.len() as int) =~= payload);
    } else {
        lemma_pow256_8();
        lemma_long_header(payload.len(), 0xc0);
        let ll = be_bytes(payload.len()).len();
        assert(b.subrange(1, 1 + ll as int) =~= be_bytes(payload.len()));
        assert(b.subrange(1 + ll as int, b.len() as int) =~= payload);
    }
}

/// A string's encoding in front of `rest` decodes to the string in front
/// of what `rest` decodes to.
pub proof fn lemma_items_cons(x: Seq<u8>, rest: Seq<u8>)
    requires
        x.len() < pow256(8),
    ensures
        decode_items(string_encoding(x) + rest) == match decode_items(rest) {
            Some(xs) => Some(seq![x] + xs),
            None => None::<Seq<Seq<u8>>>,
        },
{
    lemma_string_round_trip(x, rest);
    let b = string_encoding(x) + rest;
    let k = string_encoding(x).len();
    assert(b.subrange(k as int, b.len() as int) =~= rest);
}

/// The encodings of the strings `fs`, one after another.
pub open spec fn concat_encodings(fs: Seq<Seq<u8>>) -> Seq<u8>
    decreases fs.len(),
{
    if fs.len() == 0 {
        Seq::empty()
    } else {
        string_encoding(fs[0]) + concat_encodings(fs.drop_first())
    }
}

/// The encodings from the `k`-th string on start with that string's.
pub proof fn lemma_concat_step(fs: Seq<Seq<u8>>, k: int)
    requires
        0 <= k < fs.len(),
    ensures
        concat_encodings(fs.subrange(k, fs.len() as int)) == string_encoding(fs[k])
            + concat_encodings(fs.subrange(k + 1, fs.len() as int)),
{
    let tk = fs.subrange(k, fs.len() as int);
    assert(tk.drop_first() =~= fs.subrange(k + 1, fs.len() as int));
}

/// Each string is no longer than the encodings of all of them.
pub proof fn lemma_concat_len(fs: Seq<Seq<u8>>, i: int)
    requires
        0 <= i < fs.len(),
    ensures
        fs[i].len() <= concat_encodings(fs).len(),
    decreases fs.len(),
{
    if i > 0 {
        lemma_concat_len(fs.drop_first(), i - 1);
    }
}

/// Strings encoded one after another decode back to the same strings.
pub proof fn lemma_items_round_trip(fs: Seq<Seq<u8>>)
    requires
        forall|i: int| 0 <= i < fs.len() ==> #[trigger] fs[i].len() < pow256(8),
    ensures
        decode_items(concat_encodings(fs)) == Some(fs),
    decreases fs.len(),
{
    if fs.len() > 0 {
        let tail = fs.drop_first();
        assert forall|i: int| 0 <= i < tail.len() implies #[trigger] tail[i].len() < pow256(8) by {
            assert(tail[i] == fs[i + 1]);
        }
        lemma_items_round_trip(tail);
        lemma_items_cons(fs[0], concat_encodings(tail));
        assert(seq![fs[0]] + tail =~= fs);
    }
}

/// A leading zero byte adds nothing to the value.
pub proof fn lemma_be_value_leading_zero(s: Seq<u8>)
    requires
        s.len() > 0,
        s[0] == 0,
    ensures
        be_value(s) == be_value(s.subrange(1, s.len() as int)),
    decreases s.len(),
{
    let t = s.subrange(1, s.len() as int);
    if s.len() == 1 {
        assert(s.drop_last().len() == 0);
        assert(s.last() == 0);
        assert(t.len() == 0);
        assert(be_value(s.drop_last()) == 0);
        assert(be_value(s) == be_value(s.drop_last()) * 256 + s.last() as nat);
    } else {
        let d = s.drop_last();
        assert(d[0] == 0);
        lemma_be_value_leading_zero(d);
        assert(d.subrange(1, d.len() as int) =~= t.drop_last());
        assert(s.last() == t.last());
        assert(be_value(s) == be_value(d) * 256 + s.last() as nat);
        assert(be_value(t) == be_value(t.drop_last()) * 256 + t.last() as nat);
    }
}

/// Big-endian bytes with every leading zero byte removed: the minimal
/// bytes of the same value.
pub open spec fn stripped(s: Seq<u8>) -> Seq<u8>
    decreases s.len(),
{
    if s.len() > 0 && s[0] == 0 {
        stripped(s.subrange(1, s.len() as int))
    } else {
        s
    }
}

/// Stripping keeps the value and leaves the minimal bytes of it.
pub proof fn lemma_stripped(s: Seq<u8>)
    ensures
        be_value(stripped(s)) == be_value(s),
        stripped(s) == be_bytes(be_value(s)),
        stripped(s).len() <= s.len(),
    decreases s.len(),
{
    if s.len() > 0 && s[0] == 0 {
        lemma_be_value_leading_zero(s);
        lemma_stripped(s.subrange(1, s.len() as int));
    } else {
        lemma_minimal_is_be_bytes(s);
    }
}

/// Bytes without a leading zero are the minimal bytes of their value.
proof fn lemma_minimal_is_be_bytes(s: Seq<u8>)
    requires
        s.len() == 0 || s[0] != 0,
    ensures
        s == be_bytes(be_value(s)),
    decreases s.len(),
{
    if s.len() > 0 {
        let d = s.drop_last();
        if d.len() > 0 {
            assert(d[0] == s[0]);
            lemma_minimal_is_be_bytes(d);
        }
        let n = be_value(s);
        assert(n == be_value(d) * 256 + s.last() as nat);
        assert(n / 256 == be_value(d) && n % 256 == s.last() as nat) by (nonlinear_arith)
            requires
                n == be_value(d) * 256 + s.last() as nat,
                s.last() < 256,
        ;
        if d.len() == 0 {
            assert(be_value(d) == 0);
            assert(n > 0);
        } else {
            lemma_be_value_positive(d);
        }
        assert(s =~= be_bytes(n / 256).push((n % 256) as u8));
    }
}

/// Bytes that start with a non-zero byte stand for a positive value.
proof fn lemma_be_value_positive(s: Seq<u8>)
    requires
        s.len() > 0,
        s[0] != 0,
    ensures
        be_value(s) > 0,
    decreases s.len(),
{
    if s.len() > 1 {
        let d = s.drop_last();
        assert(d[0] == s[0]);
        lemma_be_value_positive(d);
    }
}

/// The minimal big-endian bytes of `n`.
pub fn uint_be_bytes(n: u128) -> (r: Vec<u8>)
    ensures
        r@ == be_bytes(n as nat),
{
    let mut out: Vec<u8> = Vec::new();
    let mut x: u128 = n;
    while x > 0
        invariant
            be_bytes(n as nat) == be_bytes(x as nat) + out@,
        decreases x,
    {
        let low = (x % 256) as u8;
        let ghost before = out@;
        out.insert(0, low);
        assert(be_bytes(x as nat) == be_bytes((x / 256) as nat).push(low));
        assert(be_bytes(x as nat) + before == be_bytes((x / 256) as nat) + out@);
        x = x / 256;
    }
    assert(be_bytes(0) + out@ == out@);
    out
}

/// Appends the header for a payload of `len` bytes.
fn append_header(out: &mut Vec<u8>, len: usize, offset: u8)
    requires
        offset == 0x80 || offset == 0xc0,
    ensures
        final(out)@ == old(out)@ + length_header(len as nat, offset as nat),
{
    if len < 56 {
        out.push(offset + len as u8);
    } else {
        let len_bytes = uint_be_bytes(len as u128);
        proof {
            lemma_pow256_8();
            lemma_be_bytes_len_bound(len as nat, 8);
        }
        out.push(offset + 55 + len_bytes.len() as u8);
        out.extend_from_slice(len_bytes.as_slice());
    }
}

/// Appends the encoding of the byte string `s`.
pub fn append_bytes(out: &mut Vec<u8>, s: &[u8])
    ensures
        final(out)@ == old(out)@ + string_encoding(s@),
{
    if s.len() == 1 && s[0] < 0x80 {
        out.push(s[0]);
        assert(s@ == seq![s[0]]);
    } else {
        append_header(out, s.len(), 0x80);
        out.extend_from_slice(s);
    }
}

/// Appends the encoding of the unsigned integer `n`.
pub fn append_uint(out: &mut Vec<u8>, n: u128)
    ensures
        final(out)@ == old(out)@ + uint_encoding(n as nat),
{
    let b = uint_be_bytes(n);
    append_bytes(out, b.as_slice());
}

/// Appends the encoding of the unsigned integer whose big-endian bytes are
/// `s`, leading zero bytes and all.
pub fn append_uint_bytes(out: &mut Vec<u8>, s: &[u8])
    ensures
        final(out)@ == old(out)@ + string_encoding(stripped(s@)),
{
    let mut i: usize = 0;
    assert(s@.subrange(0, s@.len() as int) =~= s@);
    while i < s.len() && s[i] == 0
        invariant
            i <= s@.len(),
            stripped(s@) == stripped(s@.subrange(i as int, s@.len() as int)),
        decreases s.len() - i,
    {
        let ghost t = s@.subrange(i as int, s@.len() as int);
        assert(t.subrange(1, t.len() as int) =~= s@.subrange(i + 1, s@.len() as int));
        i = i + 1;
    }
    append_bytes(out, s.split_at(i).1);
}

/// The encoding of the byte string `s`.
pub fn encode_bytes(s: &[u8]) -> (r: Vec<u8>)
    ensures
        r@ == string_encoding(s@),
{
    let mut out: Vec<u8> = Vec::new();
    append_bytes(&mut out, s);
    out
}

/// The encoding of the unsigned integer `n`.
pub fn encode_uint(n: u128) -> (r: Vec<u8>)
    ensures
        r@ == uint_encoding(n as nat),
{
    let mut out: Vec<u8> = Vec::new();
    append_uint(&mut out, n);
    out
}

/// The encoding of a list whose encoded items, in order, are `payload`.
pub fn encode_list(payload: &[u8]) -> (r: Vec<u8>)
    ensures
        r@ == list_encoding(payload@),
{
    let mut out: Vec<u8> = Vec::new();
    append_header(&mut out, payload.len(), 0xc0);
    out.extend_from_slice(payload);
    out
}

} // verus!
