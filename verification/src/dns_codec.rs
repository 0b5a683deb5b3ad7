//! DNS wire-protocol codec: encodes a minimal query message and decodes the
//! CNAME answers of a response message, including compressed name pointers.
//!
//! All access to the message buffer is bounds-checked; a malformed or
//! truncated message yields an error instead of a panic.

use vstd::prelude::*;

verus! {

#[derive(Clone, Copy, Debug, PartialEq, Eq, Structural)]
pub enum CodecError {
    /// The domain cannot be encoded: a label longer than 63 bytes, or an
    /// encoded name longer than 255 bytes.
    Encoding,
    /// The response message is malformed or truncated.
    Decoding,
}

/// The big-endian 16-bit value at offset `i`.
pub open spec fn spec_read16(buf: Seq<u8>, i: int) -> int {
    buf[i] * 256 + buf[i + 1]
}

/// Reads the big-endian 16-bit value at offset `start`.
pub fn read(buf: &[u8], start: usize) -> (r: usize)
    requires
        start + 1 < buf@.len(),
    ensures
        r == spec_read16(buf@, start as int),
        r < 65536,
{
    (buf[start] as usize) * 256 + (buf[start + 1] as usize)
}

/// The size in bytes that the (possibly compressed) name at offset `start`
/// occupies in the message: the labels up to and including a zero terminator,
/// or up to and including a 2-byte compression pointer.  `None` when the walk
/// runs past the end of the buffer.
pub open spec fn spec_url_length(buf: Seq<u8>, start: int) -> Option<int>
    decreases buf.len() - start,
{
    if !(0 <= start < buf.len()) {
        None
    } else {
        let len = buf[start] as int;
        if len == 0 {
            Some(1)
        } else if len >= 192 {
            if start + 1 < buf.len() {
                Some(2)
            } else {
                None
            }
        } else if start + len + 1 <= buf.len() {
            match spec_url_length(buf, start + len + 1) {
                Some(rest) => Some(len + 1 + rest),
                None => None,
            }
        } else {
            None
        }
    }
}

pub proof fn lemma_url_length_bounds(buf: Seq<u8>, start: int)
    requires
        spec_url_length(buf, start) is Some,
    ensures
        1 <= spec_url_length(buf, start)->Some_0,
        start + spec_url_length(buf, start)->Some_0 <= buf.len(),
    decreases buf.len() - start,
{
    let len = buf[start] as int;
    if len == 0 || len >= 192 {
    } else {
        lemma_url_length_bounds(buf, start + len + 1);
    }
}

/// Computes the in-message size of the name at offset `start`, walking labels
/// until a zero terminator or a compression pointer.
pub fn compute_url_length(buf: &[u8], start: usize) -> (r: Result<usize, CodecError>)
    ensures
        match r {
            Ok(ul) => spec_url_length(buf@, start as int) == Some(ul as int),
            Err(e) => spec_url_length(buf@, start as int) is None && e == CodecError::Decoding,
        },
{
    let mut crt: usize = start;
    loop
        invariant
            start <= crt,
            spec_url_length(buf@, start as int) is Some <==> spec_url_length(
                buf@,
                crt as int,
            ) is Some,
            spec_url_length(buf@, crt as int) is Some ==> spec_url_length(
                buf@,
                start as int,
            )->Some_0 == crt - start + spec_url_length(buf@, crt as int)->Some_0,
        decreases buf@.len() - crt,
    {
        if crt >= buf.len() {
            return Err(CodecError::Decoding);
        }
        let len = buf[crt] as usize;
        if len == 0 {
            return Ok(crt + 1 - start);
        }
        if len >= 192 {
            if crt + 1 < buf.len() {
                return Ok(crt + 2 - start);
            } else {
                return Err(CodecError::Decoding);
            }
        }
        if len + 1 > buf.len() - crt {
            return Err(CodecError::Decoding);
        }
        crt = crt + len + 1;
    }
}

/// The domain name encoded at offset `pos`, with labels joined by `'.'` and no
/// trailing dot.  A length byte of 192 or more is a compression pointer: the
/// low 6 bits and the following byte give the offset the walk continues from.
/// `fuel` bounds the number of steps, so a pointer cycle yields `None`; a walk
/// that terminates at all visits each offset at most once, so `buf.len()`
/// steps are always enough.
pub open spec fn spec_name_at(buf: Seq<u8>, pos: int, fuel: nat) -> Option<Seq<u8>>
    decreases fuel,
{
    if fuel == 0 {
        None
    } else if !(0 <= pos < buf.len()) {
        None
    } else {
        let len = buf[pos] as int;
        if len == 0 {
            Some(Seq::empty())
        } else if len >= 192 {
            if pos + 1 < buf.len() {
                spec_name_at(buf, (len - 192) * 256 + buf[pos + 1], (fuel - 1) as nat)
            } else {
                None
            }
        } else if pos + len < buf.len() {
            match spec_name_at(buf, pos + len + 1, (fuel - 1) as nat) {
                Some(rest) => Some(
                    buf.subrange(pos + 1, pos + len + 1) + if rest.len() > 0 {
                        seq![46u8] + rest
                    } else {
                        Seq::empty()
                    },
                ),
                None => None,
            }
        } else {
            None
        }
    }
}

/// The domain name encoded at offset `pos`, or `None` for a malformed message.
pub open spec fn name_at(buf: Seq<u8>, pos: int) -> Option<Seq<u8>> {
    spec_name_at(buf, pos, buf.len())
}

fn extract_name_rec(buf: &[u8], pos: usize, fuel: usize) -> (r: Result<Vec<u8>, CodecError>)
    ensures
        match r {
            Ok(v) => spec_name_at(buf@, pos as int, fuel as nat) == Some(v@),
            Err(e) => spec_name_at(buf@, pos as int, fuel as nat) is None && e
                == CodecError::Decoding,
        },
    decreases fuel,
{
    if fuel == 0 {
        return Err(CodecError::Decoding);
    }
    if pos >= buf.len() {
        return Err(CodecError::Decoding);
    }
    let len = buf[pos] as usize;
    if len == 0 {
        return Ok(Vec::new());
    }
    if len >= 192 {
        if pos + 1 < buf.len() {
            let target = (len - 192) * 256 + (buf[pos + 1] as usize);
            return extract_name_rec(buf, target, fuel - 1);
        } else {
            return Err(CodecError::Decoding);
        }
    }
    if len >= buf.len() - pos {
        return Err(CodecError::Decoding);
    }
    let mut label: Vec<u8> = Vec::new();
    let end: usize = pos + len + 1;
    let mut j: usize = pos + 1;
    while j < end
        invariant
            pos + 1 <= j <= end,
            end == pos + len + 1,
            pos + len < buf@.len(),
            label@ == buf@.subrange(pos + 1, j as int),
        decreases end - j,
    {
        label.push(buf[j]);
        proof {
            assert(buf@.subrange(pos + 1, j as int).push(buf@[j as int]) =~= buf@.subrange(
                pos + 1,
                j + 1,
            ));
        }
        j = j + 1;
    }
    match extract_name_rec(buf, end, fuel - 1) {
        Ok(rest) => {
            let ghost pre = label@;
            let ghost r0 = rest@;
            let mut rest = rest;
            if rest.len() > 0 {
                label.push(46u8);
                label.append(&mut rest);
                proof {
                    assert(label@ =~= pre + (seq![46u8] + r0));
                }
            } else {
                proof {
                    assert(label@ =~= pre + Seq::<u8>::empty());
                }
            }
            Ok(label)
        },
        Err(e) => Err(e),
    }
}

/// Decodes the (possibly compressed) domain name at offset `start`, as raw
/// bytes with labels joined by `'.'`.
pub fn extract_name(buf: &[u8], start: usize) -> (r: Result<Vec<u8>, CodecError>)
    ensures
        match r {
            Ok(v) => name_at(buf@, start as int) == Some(v@),
            Err(e) => name_at(buf@, start as int) is None && e == CodecError::Decoding,
        },
{
    extract_name_rec(buf, start, buf.len())
}

/// Index of the first `'.'` byte of `d`, if any.
pub open spec fn first_dot(d: Seq<u8>) -> Option<int>
    decreases d.len(),
{
    if d.len() == 0 {
        None
    } else if d[0] == 46 {
        Some(0)
    } else {
        match first_dot(d.subrange(1, d.len() as int)) {
            Some(i) => Some(i + 1),
            None => None,
        }
    }
}

pub proof fn lemma_first_dot(d: Seq<u8>)
    ensures
        match first_dot(d) {
            Some(l) => 0 <= l < d.len() && d[l] == 46 && forall|j: int| 0 <= j < l ==> d[j] != 46,
            None => forall|j: int| 0 <= j < d.len() ==> d[j] != 46,
        },
    decreases d.len(),
{
    if d.len() == 0 {
    } else if d[0] == 46 {
    } else {
        let t = d.subrange(1, d.len() as int);
        lemma_first_dot(t);
        assert(forall|j: int| 0 <= j < t.len() ==> t[j] == d[j + 1]);
        match first_dot(t) {
            Some(i) => {
                assert(d[i + 1] == t[i]);
                assert forall|j: int| 0 <= j < i + 1 implies d[j] != 46 by {
                    if j > 0 {
                        assert(t[j - 1] != 46);
                    }
                }
            },
            None => {
                assert forall|j: int| 0 <= j < d.len() implies d[j] != 46 by {
                    if j > 0 {
                        assert(t[j - 1] != 46);
                    }
                }
            },
        }
    }
}

/// The DNS wire encoding of a domain name: each dot-separated label preceded
/// by its byte length, terminated by a zero-length label.
pub open spec fn name_enc(d: Seq<u8>) -> Seq<u8>
    decreases d.len(),
    via name_enc_decreases
{
    match first_dot(d) {
        None => seq![d.len() as u8] + d + seq![0u8],
        Some(l) => seq![l as u8] + d.subrange(0, l) + name_enc(d.subrange(l + 1, d.len() as int)),
    }
}

#[via_fn]
proof fn name_enc_decreases(d: Seq<u8>) {
    lemma_first_dot(d);
}

/// Every dot-separated label of `d` is at most 63 bytes long.
pub open spec fn labels_ok(d: Seq<u8>) -> bool
    decreases d.len(),
    via labels_ok_decreases
{
    match first_dot(d) {
        None => d.len() <= 63,
        Some(l) => l <= 63 && labels_ok(d.subrange(l + 1, d.len() as int)),
    }
}

#[via_fn]
proof fn labels_ok_decreases(d: Seq<u8>) {
    lemma_first_dot(d);
}

/// The fixed 12-byte header of an outgoing query: the transaction id in big
/// endian, the recursion-desired flag, and a question count of one.
pub open spec fn query_header(id: u16) -> Seq<u8> {
    seq![
        (id / 256) as u8,
        (id % 256) as u8,
        1u8,
        0u8,
        0u8,
        1u8,
        0u8,
        0u8,
        0u8,
        0u8,
        0u8,
        0u8,
    ]
}

/// Builds the wire-format query message for `domain` (as raw bytes) with
/// transaction id `id`: the fixed header, the length-prefixed labels, and the
/// type A / class IN trailer.  Fails when a label is longer than 63 bytes or
/// the encoded name would exceed 255 bytes.
pub fn create_request(domain: &[u8], id: u16) -> (r: Result<Vec<u8>, CodecError>)
    ensures
        match r {
            Ok(v) => labels_ok(domain@) && domain@.len() + 2 <= 255 && v@ == query_header(id)
                + name_enc(domain@) + seq![0u8, 1u8, 0u8, 1u8],
            Err(e) => (!labels_ok(domain@) || domain@.len() + 2 > 255) && e
                == CodecError::Encoding,
        },
{
    if domain.len() > 253 {
        return Err(CodecError::Encoding);
    }
    let n = domain.len();
    let mut v: Vec<u8> = Vec::new();
    v.push((id / 256) as u8);
    v.push((id % 256) as u8);
    v.push(1u8);
    v.push(0u8);
    v.push(0u8);
    v.push(1u8);
    v.push(0u8);
    v.push(0u8);
    v.push(0u8);
    v.push(0u8);
    v.push(0u8);
    v.push(0u8);
    proof {
        assert(v@ =~= query_header(id));
        assert(domain@.subrange(0, n as int) =~= domain@);
    }
    let mut pos: usize = 0;
    loop
        invariant
            pos <= n,
            n == domain@.len(),
            n <= 253,
            labels_ok(domain@) <==> labels_ok(domain@.subrange(pos as int, n as int)),
            v@ + name_enc(domain@.subrange(pos as int, n as int)) =~= query_header(id) + name_enc(
                domain@,
            ),
        decreases n - pos,
    {
        let ghost rem = domain@.subrange(pos as int, n as int);
        let mut j: usize = pos;
        while j < n && domain[j] != 46u8
            invariant
                pos <= j <= n,
                n == domain@.len(),
                forall|m: int| pos <= m < j ==> domain@[m] != 46,
            decreases n - j,
        {
            j = j + 1;
        }
        proof {
            lemma_first_dot(rem);
            assert(forall|m: int| 0 <= m < rem.len() ==> rem[m] == domain@[m + pos]);
            if j < n {
                assert(rem[j - pos] == 46);
                if first_dot(rem) is Some {
                    let l = first_dot(rem)->Some_0;
                    if l < j - pos {
                        assert(domain@[l + pos] != 46);
                        assert(false);
                    }
                    if l > j - pos {
                        assert(rem[j - pos] != 46);
                        assert(false);
                    }
                } else {
                    assert(rem[j - pos] != 46);
                    assert(false);
                }
                assert(first_dot(rem) == Some(j - pos as int));
            } else {
                if first_dot(rem) is Some {
                    let l = first_dot(rem)->Some_0;
                    assert(rem[l] == 46);
                    assert(domain@[l + pos] != 46);
                    assert(false);
                }
                assert(first_dot(rem) is None);
            }
        }
        let llen = j - pos;
        if llen > 63 {
            proof {
                assert(!labels_ok(rem));
            }
            return Err(CodecError::Encoding);
        }
        let ghost v0 = v@;
        v.push(llen as u8);
        let mut m: usize = pos;
        while m < j
            invariant
                pos <= m <= j <= n,
                n == domain@.len(),
                llen == j - pos,
                llen <= 63,
                v@ == v0 + seq![llen as u8] + domain@.subrange(pos as int, m as int),
            decreases j - m,
        {
            v.push(domain[m]);
            proof {
                assert(domain@.subrange(pos as int, m as int).push(domain@[m as int])
                    =~= domain@.subrange(pos as int, m + 1));
                assert(v@ =~= v0 + seq![llen as u8] + domain@.subrange(pos as int, m + 1));
            }
            m = m + 1;
        }
        if j == n {
            v.push(0u8);
            proof {
                assert(name_enc(rem) == seq![rem.len() as u8] + rem + seq![0u8]);
                assert(rem.len() == n - pos);
                assert(domain@.subrange(pos as int, n as int) =~= rem);
                assert(v@ =~= v0 + name_enc(rem));
                assert(v@ =~= query_header(id) + name_enc(domain@));
                assert(labels_ok(rem));
            }
            v.push(0u8);
            v.push(1u8);
            v.push(0u8);
            v.push(1u8);
            proof {
                assert(v@ =~= query_header(id) + name_enc(domain@) + seq![0u8, 1u8, 0u8, 1u8]);
            }
            return Ok(v);
        }
        proof {
            let l = j - pos as int;
            let rem2 = domain@.subrange(j + 1, n as int);
            assert(rem.subrange(l + 1, rem.len() as int) =~= rem2);
            assert(rem.subrange(0, l) =~= domain@.subrange(pos as int, j as int));
            assert(name_enc(rem) == seq![l as u8] + rem.subrange(0, l) + name_enc(rem2));
            assert(labels_ok(rem) <==> labels_ok(rem2));
            assert(v@ + name_enc(rem2) =~= v0 + name_enc(rem));
        }
        pos = j + 1;
    }
}

/// The CNAME targets among `count` resource records starting at offset `pos`:
/// for each record the owner name is skipped, the type and rdlength fields are
/// read, and for a CNAME record (type 5) the name in the record data is
/// decoded.  `None` when any record is malformed or truncated.
pub open spec fn spec_cnames(buf: Seq<u8>, pos: int, count: int) -> Option<Seq<Seq<u8>>>
    decreases count,
{
    if count <= 0 {
        Some(Seq::empty())
    } else {
        match spec_url_length(buf, pos) {
            None => None,
            Some(ul) => {
                let tpos = pos + ul;
                if tpos + 10 > buf.len() {
                    None
                } else {
                    let typ = spec_read16(buf, tpos);
                    let rdlen = spec_read16(buf, tpos + 8);
                    let rest = spec_cnames(buf, tpos + 10 + rdlen, count - 1);
                    if typ == 5 {
                        match (name_at(buf, tpos + 10), rest) {
                            (Some(nm), Some(tail)) => Some(seq![nm] + tail),
                            _ => None,
                        }
                    } else {
                        rest
                    }
                }
            },
        }
    }
}

/// The CNAME targets of a whole response message: the answer count is at
/// offset 6, and the answer section starts after the 12-byte header, the
/// question name, and the 4-byte question type/class trailer.
pub open spec fn spec_decode_cnames(buf: Seq<u8>) -> Option<Seq<Seq<u8>>> {
    if buf.len() < 12 {
        None
    } else {
        match spec_url_length(buf, 12) {
            None => None,
            Some(q) => spec_cnames(buf, 12 + q + 4, spec_read16(buf, 6)),
        }
    }
}

/// Decodes a response message into the CNAME targets found in its answer
/// records, in record order.
pub fn extract_data(buf: &[u8]) -> (r: Result<Vec<Vec<u8>>, CodecError>)
    ensures
        match r {
            Ok(v) => spec_decode_cnames(buf@) == Some(v.deep_view()),
            Err(e) => spec_decode_cnames(buf@) is None && e == CodecError::Decoding,
        },
{
    if buf.len() < 12 {
        return Err(CodecError::Decoding);
    }
    let qlen = match compute_url_length(buf, 12) {
        Ok(u) => u,
        Err(e) => {
            return Err(e);
        },
    };
    proof {
        lemma_url_length_bounds(buf@, 12);
    }
    let answer_count = read(buf, 6);
    let mut result: Vec<Vec<u8>> = Vec::new();
    if answer_count == 0 {
        proof {
            assert(result.deep_view() =~= Seq::<Seq<u8>>::empty());
        }
        return Ok(result);
    }
    if 4 > buf.len() - (12 + qlen) {
        // the question trailer runs past the end, so the first record cannot
        // be read
        return Err(CodecError::Decoding);
    }
    let mut pos: usize = 12 + qlen + 4;
    let mut i: usize = 0;
    while i < answer_count
        invariant
            i <= answer_count,
            pos <= buf@.len(),
            answer_count < 65536,
            spec_decode_cnames(buf@) == (match spec_cnames(
                buf@,
                pos as int,
                answer_count - i,
            ) {
                None => None::<Seq<Seq<u8>>>,
                Some(tail) => Some(result.deep_view() + tail),
            }),
        decreases answer_count - i,
    {
        let ghost cnt = answer_count - i;
        let blen = buf.len();
        let ul = match compute_url_length(buf, pos) {
            Ok(u) => u,
            Err(e) => {
                return Err(e);
            },
        };
        proof {
            lemma_url_length_bounds(buf@, pos as int);
        }
        let tpos = pos + ul;
        if 10 > blen - tpos {
            return Err(CodecError::Decoding);
        }
        let typ = read(buf, tpos);
        let rdlen = read(buf, tpos + 8);
        let ghost result0 = result.deep_view();
        let ghost mut nmv: Seq<u8> = Seq::empty();
        if typ == 5 {
            match extract_name(buf, tpos + 10) {
                Ok(nm) => {
                    proof {
                        assert(nm.deep_view() =~= nm@);
                        nmv = nm@;
                    }
                    result.push(nm);
                    proof {
                        assert(result.deep_view() =~~= result0.push(nmv));
                    }
                },
                Err(e) => {
                    return Err(e);
                },
            }
        }
        i = i + 1;
        if i < answer_count {
            if rdlen > blen - (tpos + 10) {
                // the next record would start past the end of the buffer
                return Err(CodecError::Decoding);
            }
            pos = tpos + 10 + rdlen;
        } else {
            // all records are consumed; the offset no longer matters
            pos = blen;
        }
        proof {
            let rest = spec_cnames(buf@, tpos + 10 + rdlen, cnt - 1);
            assert(spec_cnames(buf@, pos as int, cnt - 1) == rest);
            if rest is Some && typ == 5 {
                assert(result.deep_view() + rest->Some_0 =~~= result0 + (seq![nmv]
                    + rest->Some_0));
            }
        }
    }
    proof {
        assert(result.deep_view() + Seq::<Seq<u8>>::empty() =~~= result.deep_view());
    }
    Ok(result)
}

} // verus!
