//! The wire format. Each message is a frame: a little-endian `u32` length,
//! the message's variant tag, then its fields as a count followed by each
//! field with its own length. Integers are little-endian, flags and filter
//! bits one byte each; every filter is preceded by its parameters.
use vstd::prelude::*;
use crate::arc::{ArcInterval, ArcSet};
use crate::bloom::{key_views, Bloom, BLOOM_BITS, BLOOM_HASHES};
use crate::cert::{bytes_equal, PeerCert};
use crate::types::{agent_views, op_views, AgentInfoSigned, StoredOp};
use crate::wire::{
    wire_tag, Accept, Agents, Initiate, MissingAgents, MissingOps, Ops, ShardedGossipWire,
};

verus! {

/// The four little-endian bytes of `x`.
pub open spec fn u32_le(x: u32) -> Seq<u8> {
    seq![
        (x & 0xff) as u8,
        ((x >> 8u32) & 0xff) as u8,
        ((x >> 16u32) & 0xff) as u8,
        ((x >> 24u32) & 0xff) as u8,
    ]
}

/// The `u32` whose little-endian bytes are `b0 b1 b2 b3`.
pub open spec fn u32_of(b0: u8, b1: u8, b2: u8, b3: u8) -> u32 {
    (b0 as u32) | ((b1 as u32) << 8u32) | ((b2 as u32) << 16u32) | ((b3 as u32) << 24u32)
}

proof fn lemma_u32_round_trip(x: u32)
    ensures
        u32_of(u32_le(x)[0], u32_le(x)[1], u32_le(x)[2], u32_le(x)[3]) == x,
{
    assert((x & 0xff) < 256 && ((x >> 8u32) & 0xff) < 256 && ((x >> 16u32) & 0xff) < 256 && ((x
        >> 24u32) & 0xff) < 256) by (bit_vector);
    assert(((x & 0xff) | (((x >> 8u32) & 0xff) << 8u32) | (((x >> 16u32) & 0xff) << 16u32) | (((x
        >> 24u32) & 0xff) << 24u32)) == x) by (bit_vector);
}

proof fn lemma_u32_bytes(b0: u8, b1: u8, b2: u8, b3: u8)
    ensures
        u32_le(u32_of(b0, b1, b2, b3)) == seq![b0, b1, b2, b3],
{
    let x = u32_of(b0, b1, b2, b3);
    let (c0, c1, c2, c3) = (b0 as u32, b1 as u32, b2 as u32, b3 as u32);
    assert(c0 < 256 && c1 < 256 && c2 < 256 && c3 < 256);
    assert(x == (c0 | (c1 << 8u32) | (c2 << 16u32) | (c3 << 24u32)));
    assert((c0 < 256 && c1 < 256 && c2 < 256 && c3 < 256) ==> (((c0 | (c1 << 8u32) | (c2 << 16u32) | (c3 << 24u32)) & 0xff) == c0)) by (bit_vector);
    assert((c0 < 256 && c1 < 256 && c2 < 256 && c3 < 256) ==> ((((c0 | (c1 << 8u32) | (c2 << 16u32) | (c3 << 24u32)) >> 8u32) & 0xff) == c1)) by (bit_vector);
    assert((c0 < 256 && c1 < 256 && c2 < 256 && c3 < 256) ==> ((((c0 | (c1 << 8u32) | (c2 << 16u32) | (c3 << 24u32)) >> 16u32) & 0xff) == c2)) by (bit_vector);
    assert((c0 < 256 && c1 < 256 && c2 < 256 && c3 < 256) ==> ((((c0 | (c1 << 8u32) | (c2 << 16u32) | (c3 << 24u32)) >> 24u32) & 0xff) == c3)) by (bit_vector);
    assert(u32_le(x) =~= seq![b0, b1, b2, b3]);
}

/// Appends the little-endian bytes of `x`.
pub fn put_u32(out: &mut Vec<u8>, x: u32)
    ensures
        final(out)@ == old(out)@ + u32_le(x),
{
    out.push((x & 0xff) as u8);
    out.push(((x >> 8) & 0xff) as u8);
    out.push(((x >> 16) & 0xff) as u8);
    out.push(((x >> 24) & 0xff) as u8);
    proof {
        assert(out@ =~= old(out)@ + u32_le(x));
    }
}

/// Reads a little-endian `u32` at `pos`: the value and the position after it.
pub fn get_u32(buf: &Vec<u8>, pos: usize) -> (r: Option<(u32, usize)>)
    ensures
        match r {
            Some((x, p)) => p == pos + 4 && p <= buf@.len() && buf@.subrange(pos as int, p as int)
                == u32_le(x),
            None => pos + 4 > buf@.len(),
        },
        forall|y: u32|
            pos + 4 <= buf@.len() && #[trigger] u32_le(y) == buf@.subrange(pos as int, pos + 4)
                ==> r == Some((y, (pos + 4) as usize)),
{
    if pos > buf.len() || buf.len() - pos < 4 {
        return None;
    }
    let (b0, b1, b2, b3) = (buf[pos], buf[pos + 1], buf[pos + 2], buf[pos + 3]);
    let x = (b0 as u32) | ((b1 as u32) << 8) | ((b2 as u32) << 16) | ((b3 as u32) << 24);
    proof {
        assert(x == u32_of(b0, b1, b2, b3));
        lemma_u32_bytes(b0, b1, b2, b3);
        assert(buf@.subrange(pos as int, pos + 4) =~= seq![b0, b1, b2, b3]);
        assert forall|y: u32| #[trigger] u32_le(y) == buf@.subrange(pos as int, pos + 4) implies y == x by {
            lemma_u32_round_trip(y);
            assert(u32_le(y)[0] == b0 && u32_le(y)[1] == b1 && u32_le(y)[2] == b2 && u32_le(y)[3] == b3);
        }
    }
    Some((x, pos + 4))
}

/// A frame: the length of what follows (the tag and the body), the tag, the body.
pub open spec fn frame_bytes(tag: u8, body: Seq<u8>) -> Seq<u8> {
    u32_le((body.len() + 1) as u32) + seq![tag] + body
}

/// Appends a frame holding `tag` and `body`.
pub fn write_frame(out: &mut Vec<u8>, tag: u8, body: &Vec<u8>)
    requires
        body@.len() < u32::MAX,
    ensures
        final(out)@ == old(out)@ + frame_bytes(tag, body@),
{
    put_u32(out, (body.len() + 1) as u32);
    out.push(tag);
    let ghost mid = out@;
    let mut i: usize = 0;
    while i < body.len()
        invariant
            0 <= i <= body@.len(),
            out@ == mid + body@.take(i as int),
        decreases body@.len() - i,
    {
        out.push(body[i]);
        proof {
            assert(body@.take(i + 1) =~= body@.take(i as int).push(body@[i as int]));
        }
        i = i + 1;
    }
    proof {
        assert(body@.take(i as int) =~= body@);
        assert(out@ =~= old(out)@ + frame_bytes(tag, body@));
    }
}

/// Reads the frame that starts at `pos`: its tag, its body, and the position
/// after it. `None` when the bytes there are not a whole frame.
pub fn read_frame(buf: &Vec<u8>, pos: usize) -> (r: Option<(u8, Vec<u8>, usize)>)
    ensures
        match r {
            Some((tag, body, end)) => pos <= end <= buf@.len() && buf@.subrange(pos as int, end as int)
                == frame_bytes(tag, body@),
            None => true,
        },
        forall|tag: u8, body: Seq<u8>|
            body.len() < u32::MAX && pos + frame_bytes(tag, body).len() <= buf@.len()
                && #[trigger] frame_bytes(tag, body) == buf@.subrange(
                pos as int,
                pos + frame_bytes(tag, body).len(),
            ) ==> (r matches Some((t, b, e)) && t == tag && b@ == body && e == pos + frame_bytes(
                tag,
                body,
            ).len()),
{
    let (n, p) = match get_u32(buf, pos) {
        Some(x) => x,
        None => {
            proof {
                assert forall|tag: u8, body: Seq<u8>|
                    body.len() < u32::MAX && pos + frame_bytes(tag, body).len() <= buf@.len()
                        && #[trigger] frame_bytes(tag, body) == buf@.subrange(
                        pos as int,
                        pos + frame_bytes(tag, body).len(),
                    ) implies false by {}
            }
            return None;
        },
    };
    if n == 0 || p > buf.len() || buf.len() - p < n as usize {
        proof {
            assert forall|tag: u8, body: Seq<u8>|
                body.len() < u32::MAX && pos + frame_bytes(tag, body).len() <= buf@.len()
                    && #[trigger] frame_bytes(tag, body) == buf@.subrange(
                    pos as int,
                    pos + frame_bytes(tag, body).len(),
                ) implies false by {
                let f = frame_bytes(tag, body);
                assert(f.subrange(0, 4) =~= u32_le((body.len() + 1) as u32));
                assert(buf@.subrange(pos as int, pos + 4) =~= f.subrange(0, 4));
            }
        }
        return None;
    }
    let tag = buf[p];
    let start = p + 1;
    let end = p + n as usize;
    let mut body: Vec<u8> = Vec::new();
    let mut i: usize = start;
    while i < end
        invariant
            start <= i <= end <= buf@.len(),
            body@ == buf@.subrange(start as int, i as int),
        decreases end - i,
    {
        body.push(buf[i]);
        proof {
            assert(buf@.subrange(start as int, i + 1) =~= buf@.subrange(start as int, i as int).push(
                buf@[i as int],
            ));
        }
        i = i + 1;
    }
    proof {
        assert(body@.len() == n - 1);
        assert(buf@.subrange(pos as int, end as int) =~= frame_bytes(tag, body@));
        assert forall|t: u8, b: Seq<u8>|
            b.len() < u32::MAX && pos + frame_bytes(t, b).len() <= buf@.len()
                && #[trigger] frame_bytes(t, b) == buf@.subrange(
                pos as int,
                pos + frame_bytes(t, b).len(),
            ) implies t == tag && body@ == b && end == pos + frame_bytes(t, b).len() by {
            let f = frame_bytes(t, b);
            assert(f.subrange(0, 4) =~= u32_le((b.len() + 1) as u32));
            assert(buf@.subrange(pos as int, pos + 4) =~= f.subrange(0, 4));
            assert(n == (b.len() + 1) as u32);
            assert(f[4] == t);
            assert(buf@[p as int] == f[4]);
            assert(b =~= f.subrange(5, f.len() as int));
            assert(body@ =~= b);
        }
    }
    Some((tag, body, end))
}

/// One field: its length as a little-endian `u32`, then its bytes.
pub open spec fn field_bytes(f: Seq<u8>) -> Seq<u8> {
    u32_le(f.len() as u32) + f
}

/// The fields, one after another.
pub open spec fn fields_concat(fs: Seq<Seq<u8>>) -> Seq<u8>
    decreases fs.len(),
{
    if fs.len() == 0 {
        Seq::empty()
    } else {
        fields_concat(fs.drop_last()) + field_bytes(fs.last())
    }
}

/// A list of fields: how many there are, then each field.
pub open spec fn fields_bytes(fs: Seq<Seq<u8>>) -> Seq<u8> {
    u32_le(fs.len() as u32) + fields_concat(fs)
}

/// Every field, and the number of fields, fits a `u32` length.
pub open spec fn fields_fit(fs: Seq<Seq<u8>>) -> bool {
    fs.len() <= u32::MAX && forall|i: int| 0 <= i < fs.len() ==> (#[trigger] fs[i]).len() <= u32::MAX
}

/// Appends the bytes of `src` from `start` up to `end`.
fn put_slice(out: &mut Vec<u8>, src: &Vec<u8>, start: usize, end: usize)
    requires
        start <= end <= src@.len(),
    ensures
        final(out)@ == old(out)@ + src@.subrange(start as int, end as int),
{
    let ghost before = out@;
    let mut i: usize = start;
    while i < end
        invariant
            start <= i <= end <= src@.len(),
            out@ == before + src@.subrange(start as int, i as int),
        decreases end - i,
    {
        out.push(src[i]);
        proof {
            assert(src@.subrange(start as int, i + 1) =~= src@.subrange(start as int, i as int).push(
                src@[i as int],
            ));
        }
        i = i + 1;
    }
}

/// Appends one field.
pub fn put_field(out: &mut Vec<u8>, f: &Vec<u8>)
    requires
        f@.len() <= u32::MAX,
    ensures
        final(out)@ == old(out)@ + field_bytes(f@),
{
    put_u32(out, f.len() as u32);
    put_slice(out, f, 0, f.len());
    proof {
        assert(f@.subrange(0, f@.len() as int) =~= f@);
        assert(out@ =~= old(out)@ + field_bytes(f@));
    }
}

/// Appends a list of fields.
pub fn put_fields(out: &mut Vec<u8>, fs: &Vec<Vec<u8>>)
    requires
        fields_fit(key_views(fs@)),
    ensures
        final(out)@ == old(out)@ + fields_bytes(key_views(fs@)),
{
    let ghost v = key_views(fs@);
    put_u32(out, fs.len() as u32);
    let ghost start = out@;
    let mut i: usize = 0;
    proof {
        assert(v.take(0) =~= Seq::<Seq<u8>>::empty());
        assert(start =~= start + fields_concat(v.take(0)));
    }
    while i < fs.len()
        invariant
            v == key_views(fs@),
            fields_fit(v),
            0 <= i <= fs@.len(),
            out@ == start + fields_concat(v.take(i as int)),
        decreases fs@.len() - i,
    {
        proof {
            assert(v[i as int] == fs@[i as int]@);
            assert(v.take(i + 1).drop_last() =~= v.take(i as int));
        }
        put_field(out, &fs[i]);
        proof {
            assert(out@ =~= start + fields_concat(v.take(i + 1)));
        }
        i = i + 1;
    }
    proof {
        assert(v.take(i as int) =~= v);
        assert(out@ =~= old(out)@ + fields_bytes(v));
    }
}

/// `buf` holds `x` at `pos`.
pub open spec fn holds_at(buf: Seq<u8>, pos: int, x: Seq<u8>) -> bool {
    0 <= pos && pos + x.len() <= buf.len() && buf.subrange(pos, pos + x.len()) == x
}

proof fn lemma_holds_split(buf: Seq<u8>, pos: int, x: Seq<u8>, y: Seq<u8>)
    requires
        holds_at(buf, pos, x + y),
    ensures
        holds_at(buf, pos, x),
        holds_at(buf, pos + x.len(), y),
{
    assert(buf.subrange(pos, pos + x.len()) =~= (x + y).subrange(0, x.len() as int));
    assert((x + y).subrange(0, x.len() as int) =~= x);
    assert(buf.subrange(pos + x.len(), pos + x.len() + y.len()) =~= (x + y).subrange(
        x.len() as int,
        (x + y).len() as int,
    ));
    assert((x + y).subrange(x.len() as int, (x + y).len() as int) =~= y);
}

/// Reads the field at `pos`: its bytes and the position after it.
pub fn get_field(buf: &Vec<u8>, pos: usize) -> (r: Option<(Vec<u8>, usize)>)
    ensures
        match r {
            Some((f, end)) => pos <= end <= buf@.len() && buf@.subrange(pos as int, end as int)
                == field_bytes(f@) && f@.len() <= u32::MAX,
            None => true,
        },
        forall|f: Seq<u8>|
            f.len() <= u32::MAX && #[trigger] holds_at(buf@, pos as int, field_bytes(f)) ==> (r matches Some((
                g,
                e,
            )) && g@ == f && e == pos + field_bytes(f).len()),
{
    let (n, p) = match get_u32(buf, pos) {
        Some(x) => x,
        None => {
            return None;
        },
    };
    if p > buf.len() || buf.len() - p < n as usize {
        proof {
            assert forall|f: Seq<u8>|
                f.len() <= u32::MAX && #[trigger] holds_at(buf@, pos as int, field_bytes(f)) implies false by {
                lemma_holds_split(buf@, pos as int, u32_le(f.len() as u32), f);
            }
        }
        return None;
    }
    let end = p + n as usize;
    let mut f: Vec<u8> = Vec::new();
    put_slice(&mut f, buf, p, end);
    proof {
        assert(f@ =~= buf@.subrange(p as int, end as int));
        assert(buf@.subrange(pos as int, end as int) =~= field_bytes(f@));
        assert forall|g: Seq<u8>|
            g.len() <= u32::MAX && #[trigger] holds_at(buf@, pos as int, field_bytes(g)) implies f@ == g
                && end == pos + field_bytes(g).len() by {
            lemma_holds_split(buf@, pos as int, u32_le(g.len() as u32), g);
            assert(n == g.len() as u32);
            assert(f@ =~= g);
        }
    }
    Some((f, end))
}

/// Reads the list of fields at `pos`: the fields and the position after them.
pub fn get_fields(buf: &Vec<u8>, pos: usize) -> (r: Option<(Vec<Vec<u8>>, usize)>)
    ensures
        match r {
            Some((fs, end)) => pos <= end <= buf@.len() && buf@.subrange(pos as int, end as int)
                == fields_bytes(key_views(fs@)) && fields_fit(key_views(fs@)),
            None => true,
        },
        forall|fs: Seq<Seq<u8>>|
            fields_fit(fs) && #[trigger] holds_at(buf@, pos as int, fields_bytes(fs)) ==> (r matches Some((
                gs,
                e,
            )) && key_views(gs@) == fs && e == pos + fields_bytes(fs).len()),
{
    let (n, p) = match get_u32(buf, pos) {
        Some(x) => x,
        None => {
            return None;
        },
    };
    let mut out: Vec<Vec<u8>> = Vec::new();
    let mut q: usize = p;
    let mut i: u32 = 0;
    proof {
        assert(key_views(out@) =~= Seq::<Seq<u8>>::empty());
        assert(buf@.subrange(p as int, q as int) =~= fields_concat(Seq::<Seq<u8>>::empty()));
        assert forall|fs: Seq<Seq<u8>>|
            fields_fit(fs) && #[trigger] holds_at(buf@, pos as int, fields_bytes(fs)) implies fs.len() == n
                && key_views(out@) == fs.take(0) && holds_at(
                buf@,
                q as int,
                fields_concat(fs).subrange(
                    fields_concat(fs.take(0)).len() as int,
                    fields_concat(fs).len() as int,
                ),
            ) by {
            lemma_holds_split(buf@, pos as int, u32_le(fs.len() as u32), fields_concat(fs));
            assert(fs.take(0) =~= Seq::<Seq<u8>>::empty());
            assert(key_views(out@) =~= fs.take(0));
            assert(fields_concat(fs).subrange(0, fields_concat(fs).len() as int) =~= fields_concat(fs));
        }
    }
    while i < n
        invariant
            p == pos + 4,
            p <= q <= buf@.len(),
            i <= n,
            out@.len() == i,
            fields_fit(key_views(out@)),
            buf@.subrange(p as int, q as int) == fields_concat(key_views(out@)),
            buf@.subrange(pos as int, p as int) == u32_le(n),
            forall|fs: Seq<Seq<u8>>|
                fields_fit(fs) && #[trigger] holds_at(buf@, pos as int, fields_bytes(fs)) ==> fs.len() == n
                    && key_views(out@) == fs.take(i as int) && holds_at(
                    buf@,
                    q as int,
                    fields_concat(fs).subrange(
                        fields_concat(fs.take(i as int)).len() as int,
                        fields_concat(fs).len() as int,
                    ),
                ),
        decreases n - i,
    {
        let ghost q0 = q;
        let got = get_field(buf, q);
        match got {
            Some((f, e)) => {
                let ghost prev = key_views(out@);
                out.push(f);
                proof {
                    assert(key_views(out@) =~= prev.push(f@));
                    assert(key_views(out@).drop_last() =~= prev);
                    assert(buf@.subrange(p as int, e as int) =~= buf@.subrange(p as int, q0 as int)
                        + buf@.subrange(q0 as int, e as int));
                    assert(fields_fit(key_views(out@))) by {
                        assert forall|j: int| 0 <= j < key_views(out@).len() implies (#[trigger] key_views(out@)[j]).len() <= u32::MAX by {
                            if j < prev.len() {
                                assert(key_views(out@)[j] == prev[j]);
                            }
                        }
                    }
                }
                q = e;
                proof {
                    assert forall|fs: Seq<Seq<u8>>|
                        fields_fit(fs) && #[trigger] holds_at(buf@, pos as int, fields_bytes(fs)) implies fs.len() == n
                            && key_views(out@) == fs.take(i + 1) && holds_at(
                            buf@,
                            q as int,
                            fields_concat(fs).subrange(
                                fields_concat(fs.take(i + 1)).len() as int,
                                fields_concat(fs).len() as int,
                            ),
                        ) by {
                        lemma_fields_step(fs, i as int);
                        let rest = fields_concat(fs).subrange(
                            fields_concat(fs.take(i as int)).len() as int,
                            fields_concat(fs).len() as int,
                        );
                        let tail = rest.subrange(field_bytes(fs[i as int]).len() as int, rest.len() as int);
                        assert(field_bytes(fs[i as int]) + tail =~= rest);
                        lemma_holds_split(buf@, q0 as int, field_bytes(fs[i as int]), tail);
                        assert(fs[i as int].len() <= u32::MAX);
                        assert(f@ == fs[i as int]);
                        assert(e == q0 + field_bytes(fs[i as int]).len());
                        assert(prev == fs.take(i as int));
                        assert(key_views(out@) =~= fs.take(i + 1));
                        let x = fields_concat(fs).subrange(
                            fields_concat(fs.take(i + 1)).len() as int,
                            fields_concat(fs).len() as int,
                        );
                        assert(tail =~= x);
                    }
                }
            },
            None => {
                proof {
                    assert forall|fs: Seq<Seq<u8>>|
                        fields_fit(fs) && #[trigger] holds_at(buf@, pos as int, fields_bytes(fs)) implies false by {
                        lemma_fields_step(fs, i as int);
                        let rest = fields_concat(fs).subrange(
                            fields_concat(fs.take(i as int)).len() as int,
                            fields_concat(fs).len() as int,
                        );
                        let tail = rest.subrange(field_bytes(fs[i as int]).len() as int, rest.len() as int);
                        assert(field_bytes(fs[i as int]) + tail =~= rest);
                        lemma_holds_split(buf@, q0 as int, field_bytes(fs[i as int]), tail);
                        assert(fs[i as int].len() <= u32::MAX);
                    }
                }
                return None;
            },
        }
        i = i + 1;
    }
    proof {
        assert(buf@.subrange(pos as int, q as int) =~= buf@.subrange(pos as int, p as int)
            + buf@.subrange(p as int, q as int));
        assert(key_views(out@).len() == n);
        assert forall|fs: Seq<Seq<u8>>|
            fields_fit(fs) && #[trigger] holds_at(buf@, pos as int, fields_bytes(fs)) implies key_views(out@) == fs
                && q == pos + fields_bytes(fs).len() by {
            assert(fs.take(n as int) =~= fs);
        }
    }
    Some((out, q))
}

/// The fields after the first `i` start right after those `i`: the next one,
/// then the rest.
proof fn lemma_fields_step(fs: Seq<Seq<u8>>, i: int)
    requires
        0 <= i < fs.len(),
    ensures
        fields_concat(fs.take(i + 1)) == fields_concat(fs.take(i)) + field_bytes(fs[i]),
        fields_concat(fs.take(i)).len() + field_bytes(fs[i]).len() <= fields_concat(fs).len(),
        fields_concat(fs).subrange(fields_concat(fs.take(i)).len() as int, fields_concat(fs).len() as int)
            == field_bytes(fs[i]) + fields_concat(fs).subrange(
            fields_concat(fs.take(i + 1)).len() as int,
            fields_concat(fs).len() as int,
        ),
{
    assert(fs.take(i + 1).drop_last() =~= fs.take(i));
    lemma_concat_prefix(fs, i + 1);
    let whole = fields_concat(fs);
    let a = fields_concat(fs.take(i)).len() as int;
    let b = fields_concat(fs.take(i + 1)).len() as int;
    assert(whole.subrange(0, b) == fields_concat(fs.take(i)) + field_bytes(fs[i]));
    assert(whole.subrange(a, whole.len() as int) =~= whole.subrange(0, b).subrange(a, b) + whole.subrange(b, whole.len() as int));
    assert(whole.subrange(0, b).subrange(a, b) =~= field_bytes(fs[i]));
}

/// The fields of a prefix are a prefix of the fields.
proof fn lemma_concat_prefix(fs: Seq<Seq<u8>>, k: int)
    requires
        0 <= k <= fs.len(),
    ensures
        fields_concat(fs.take(k)).len() <= fields_concat(fs).len(),
        fields_concat(fs).subrange(0, fields_concat(fs.take(k)).len() as int) == fields_concat(fs.take(k)),
    decreases fs.len() - k,
{
    if k == fs.len() {
        assert(fs.take(k) =~= fs);
        assert(fields_concat(fs).subrange(0, fields_concat(fs).len() as int) =~= fields_concat(fs));
    } else {
        lemma_concat_prefix(fs, k + 1);
        assert(fs.take(k + 1).drop_last() =~= fs.take(k));
        let big = fields_concat(fs.take(k + 1));
        let small = fields_concat(fs.take(k));
        assert(big == small + field_bytes(fs[k]));
        assert(fields_concat(fs).subrange(0, small.len() as int) =~= fields_concat(fs).subrange(0, big.len() as int).subrange(0, small.len() as int));
        assert(big.subrange(0, small.len() as int) =~= small);
    }
}

/// The eight little-endian bytes of `x`.
pub open spec fn u64_le(x: u64) -> Seq<u8> {
    u32_le((x % 0x1_0000_0000) as u32) + u32_le((x / 0x1_0000_0000) as u32)
}

/// One byte for a flag: 1 when set, 0 when clear.
pub open spec fn bool_byte(b: bool) -> Seq<u8> {
    seq![if b { 1u8 } else { 0u8 }]
}

/// Segments as the bytes of their bounds, each bound in eight bytes.
pub open spec fn segments_bytes(segs: Seq<(u64, u64)>) -> Seq<u8>
    decreases segs.len(),
{
    if segs.len() == 0 {
        Seq::empty()
    } else {
        segments_bytes(segs.drop_last()) + u64_le(segs.last().0) + u64_le(segs.last().1)
    }
}

/// Bits as bytes, one byte per bit.
pub open spec fn bits_bytes(bits: Seq<bool>) -> Seq<u8> {
    bits.map_values(|b: bool| if b { 1u8 } else { 0u8 })
}

proof fn lemma_segments_bytes_len(segs: Seq<(u64, u64)>)
    ensures
        segments_bytes(segs).len() == 16 * segs.len(),
    decreases segs.len(),
{
    if segs.len() > 0 {
        lemma_segments_bytes_len(segs.drop_last());
    }
}

/// Appends the little-endian bytes of `x`.
fn put_u64(out: &mut Vec<u8>, x: u64)
    ensures
        final(out)@ == old(out)@ + u64_le(x),
{
    put_u32(out, (x % 0x1_0000_0000) as u32);
    put_u32(out, (x / 0x1_0000_0000) as u32);
    proof {
        assert(out@ =~= old(out)@ + u64_le(x));
    }
}

/// The `u32` held by a field of four bytes.
fn read_u32_field(f: &Vec<u8>) -> (r: Option<u32>)
    ensures
        match r {
            Some(x) => u32_le(x) == f@,
            None => f@.len() != 4,
        },
{
    if f.len() != 4 {
        return None;
    }
    match get_u32(f, 0) {
        Some((x, _)) => {
            proof {
                assert(f@.subrange(0, 4) =~= f@);
            }
            Some(x)
        },
        None => None,
    }
}

/// The `u64` held by a field of eight bytes.
fn read_u64_field(f: &Vec<u8>) -> (r: Option<u64>)
    ensures
        match r {
            Some(x) => u64_le(x) == f@,
            None => f@.len() != 8,
        },
{
    if f.len() != 8 {
        return None;
    }
    let (lo, _) = match get_u32(f, 0) {
        Some(v) => v,
        None => {
            return None;
        },
    };
    let (hi, _) = match get_u32(f, 4) {
        Some(v) => v,
        None => {
            return None;
        },
    };
    let x: u64 = lo as u64 + (hi as u64) * 0x1_0000_0000;
    proof {
        let (l, h) = (lo as int, hi as int);
        assert(x % 0x1_0000_0000 == l && x / 0x1_0000_0000 == h) by (nonlinear_arith)
            requires
                0 <= l < 0x1_0000_0000,
                0 <= h < 0x1_0000_0000,
                x == l + h * 0x1_0000_0000,
        ;
        assert(f@ =~= f@.subrange(0, 4) + f@.subrange(4, 8));
    }
    Some(x)
}

/// The flag held by a field of one byte, 0 or 1.
fn read_bool_field(f: &Vec<u8>) -> (r: Option<bool>)
    ensures
        match r {
            Some(b) => bool_byte(b) == f@,
            None => f@ != bool_byte(true) && f@ != bool_byte(false),
        },
{
    if f.len() != 1 || f[0] > 1 {
        return None;
    }
    let b = f[0] == 1;
    proof {
        assert(f@ =~= bool_byte(b));
    }
    Some(b)
}

/// The bytes of a list of segments.
fn segments_to_bytes(segs: &Vec<(u64, u64)>) -> (r: Vec<u8>)
    ensures
        r@ == segments_bytes(segs@),
{
    let mut out: Vec<u8> = Vec::new();
    let mut i: usize = 0;
    proof {
        assert(segs@.take(0) =~= Seq::<(u64, u64)>::empty());
    }
    while i < segs.len()
        invariant
            0 <= i <= segs@.len(),
            out@ == segments_bytes(segs@.take(i as int)),
        decreases segs@.len() - i,
    {
        let (lo, hi) = segs[i];
        put_u64(&mut out, lo);
        put_u64(&mut out, hi);
        proof {
            assert(segs@.take(i + 1).drop_last() =~= segs@.take(i as int));
        }
        i = i + 1;
    }
    proof {
        assert(segs@.take(i as int) =~= segs@);
    }
    out
}

/// The segments held by a field whose length is a multiple of sixteen.
fn read_segments(f: &Vec<u8>) -> (r: Option<Vec<(u64, u64)>>)
    ensures
        match r {
            Some(segs) => segments_bytes(segs@) == f@,
            None => f@.len() % 16 != 0,
        },
{
    if f.len() % 16 != 0 {
        return None;
    }
    let n = f.len() / 16;
    let mut out: Vec<(u64, u64)> = Vec::new();
    let mut i: usize = 0;
    while i < n
        invariant
            n * 16 == f@.len(),
            0 <= i <= n,
            segments_bytes(out@) == f@.subrange(0, 16 * i),
        decreases n - i,
    {
        let total = f.len();
        proof {
            let (ii, nn, len) = (i as int, n as int, total as int);
            assert(16 * ii + 16 <= len) by (nonlinear_arith)
                requires
                    ii < nn,
                    nn * 16 == len,
            ;
        }
        let mut lo_bytes: Vec<u8> = Vec::new();
        put_slice(&mut lo_bytes, f, 16 * i, 16 * i + 8);
        let mut hi_bytes: Vec<u8> = Vec::new();
        put_slice(&mut hi_bytes, f, 16 * i + 8, 16 * i + 16);
        let lo = match read_u64_field(&lo_bytes) {
            Some(v) => v,
            None => {
                return None;
            },
        };
        let hi = match read_u64_field(&hi_bytes) {
            Some(v) => v,
            None => {
                return None;
            },
        };
        let ghost before = out@;
        out.push((lo, hi));
        proof {
            assert(out@.drop_last() =~= before);
            assert(f@.subrange(0, 16 * (i + 1)) =~= f@.subrange(0, 16 * i) + f@.subrange(
                16 * i,
                16 * i + 8,
            ) + f@.subrange(16 * i + 8, 16 * i + 16));
        }
        i = i + 1;
    }
    proof {
        assert(f@.subrange(0, 16 * n) =~= f@);
    }
    Some(out)
}

/// The bytes of a list of bits.
fn bits_to_bytes(bits: &Vec<bool>) -> (r: Vec<u8>)
    ensures
        r@ == bits_bytes(bits@),
{
    let mut out: Vec<u8> = Vec::new();
    let mut i: usize = 0;
    while i < bits.len()
        invariant
            0 <= i <= bits@.len(),
            out@ == bits_bytes(bits@.take(i as int)),
        decreases bits@.len() - i,
    {
        out.push(if bits[i] { 1u8 } else { 0u8 });
        proof {
            assert(bits_bytes(bits@.take(i + 1)) =~= bits_bytes(bits@.take(i as int)).push(
                if bits@[i as int] { 1u8 } else { 0u8 },
            ));
        }
        i = i + 1;
    }
    proof {
        assert(bits@.take(i as int) =~= bits@);
    }
    out
}

/// The bits held by a field of bytes that are each 0 or 1.
fn read_bits(f: &Vec<u8>) -> (r: Option<Vec<bool>>)
    ensures
        match r {
            Some(bits) => bits_bytes(bits@) == f@,
            None => exists|i: int| 0 <= i < f@.len() && f@[i] > 1,
        },
{
    let mut out: Vec<bool> = Vec::new();
    let mut i: usize = 0;
    while i < f.len()
        invariant
            0 <= i <= f@.len(),
            bits_bytes(out@) == f@.take(i as int),
        decreases f@.len() - i,
    {
        if f[i] > 1 {
            return None;
        }
        let ghost before = out@;
        out.push(f[i] == 1);
        proof {
            assert(bits_bytes(out@) =~= bits_bytes(before).push(f@[i as int]));
            assert(f@.take(i + 1) =~= f@.take(i as int).push(f@[i as int]));
        }
        i = i + 1;
    }
    proof {
        assert(f@.take(i as int) =~= f@);
    }
    Some(out)
}

/// The fields of one agent info: key, arc start, arc length, host, signature.
pub open spec fn agent_info_fields(a: (Seq<u8>, ArcInterval, Seq<u8>, Seq<u8>)) -> Seq<Seq<u8>> {
    seq![a.0, u32_le(a.1.start), u64_le(a.1.len), a.2, a.3]
}

/// The fields of a list of agent infos, five per info.
pub open spec fn agents_fields(infos: Seq<(Seq<u8>, ArcInterval, Seq<u8>, Seq<u8>)>) -> Seq<Seq<u8>>
    decreases infos.len(),
{
    if infos.len() == 0 {
        Seq::empty()
    } else {
        agents_fields(infos.drop_last()) + agent_info_fields(infos.last())
    }
}

/// The fields of a list of ops, hash then payload for each.
pub open spec fn ops_fields(ops: Seq<(Seq<u8>, Seq<u8>)>) -> Seq<Seq<u8>>
    decreases ops.len(),
{
    if ops.len() == 0 {
        Seq::empty()
    } else {
        ops_fields(ops.drop_last()) + seq![ops.last().0, ops.last().1]
    }
}

/// The parameters of every filter: its number of bits, then its number of
/// positions per key.
pub open spec fn bloom_header() -> Seq<u8> {
    u32_le(BLOOM_BITS as u32) + u32_le(BLOOM_HASHES as u32)
}

fn bloom_header_bytes() -> (r: Vec<u8>)
    ensures
        r@ == bloom_header(),
{
    let mut out: Vec<u8> = Vec::new();
    put_u32(&mut out, BLOOM_BITS as u32);
    put_u32(&mut out, BLOOM_HASHES as u32);
    proof {
        assert(out@ =~= bloom_header());
    }
    out
}

/// The fields of a message, after its tag.
pub open spec fn wire_fields(m: ShardedGossipWire) -> Seq<Seq<u8>> {
    match m {
        ShardedGossipWire::Initiate(i) => seq![segments_bytes(i.intended_arc_set.segment_seq())]
            + key_views(i.agent_list@),
        ShardedGossipWire::Accept(a) => seq![segments_bytes(a.intended_arc_set.segment_seq())]
            + key_views(a.agent_list@),
        ShardedGossipWire::Agents(a) => seq![bloom_header(), bits_bytes(a.filter@)],
        ShardedGossipWire::MissingAgents(a) => agents_fields(agent_views(a.agents@)),
        ShardedGossipWire::Ops(o) => seq![
            segments_bytes(o.arc_set.segment_seq()),
            bloom_header(),
            bits_bytes(o.missing_hashes@),
            bool_byte(o.finished),
        ],
        ShardedGossipWire::MissingOps(o) => seq![bool_byte(o.finished)] + ops_fields(
            op_views(o.ops@),
        ),
    }
}

/// Every filter of the message has `BLOOM_BITS` bits.
pub open spec fn wire_wf(m: ShardedGossipWire) -> bool {
    match m {
        ShardedGossipWire::Agents(a) => a.filter@.len() == BLOOM_BITS,
        ShardedGossipWire::Ops(o) => o.missing_hashes@.len() == BLOOM_BITS,
        _ => true,
    }
}

/// The bytes of the frame of a message.
pub open spec fn wire_frame(m: ShardedGossipWire) -> Seq<u8> {
    frame_bytes(wire_tag(m), fields_bytes(wire_fields(m)))
}

/// Whether a list of fields can be read as agent infos: five per info, with
/// a four-byte arc start and an eight-byte arc length.
pub open spec fn agents_shaped(fs: Seq<Seq<u8>>) -> bool {
    &&& fs.len() % 5 == 0
    &&& forall|k: int|
        0 <= k < fs.len() / 5 ==> (#[trigger] fs[5 * k + 1]).len() == 4 && fs[5 * k + 2].len() == 8
}

proof fn lemma_agents_fields_shape(infos: Seq<(Seq<u8>, ArcInterval, Seq<u8>, Seq<u8>)>)
    ensures
        agents_fields(infos).len() == 5 * infos.len(),
        agents_shaped(agents_fields(infos)),
    decreases infos.len(),
{
    if infos.len() > 0 {
        let rest = infos.drop_last();
        lemma_agents_fields_shape(rest);
        assert(agents_fields(infos).len() == agents_fields(rest).len() + 5);
        let fs = agents_fields(infos);
        let n = rest.len() as int;
        let m = infos.len() as int;
        assert((5 * m) % 5 == 0 && (5 * m) / 5 == m && (5 * n) / 5 == n) by (nonlinear_arith);
        assert forall|k: int| 0 <= k < fs.len() / 5 implies (#[trigger] fs[5 * k + 1]).len() == 4
            && fs[5 * k + 2].len() == 8 by {
            if k < n {
                assert(5 * k + 2 < 5 * n);
                assert(fs[5 * k + 1] == agents_fields(rest)[5 * k + 1]);
                assert(fs[5 * k + 2] == agents_fields(rest)[5 * k + 2]);
            } else {
                assert(k == n);
                assert(fs[5 * k + 1] == u32_le(infos.last().1.start));
                assert(fs[5 * k + 2] == u64_le(infos.last().1.len));
            }
        }
        assert(fs.len() == 5 * m);
        assert(fs.len() % 5 == 0);
        assert(agents_shaped(fs));
    } else {
        assert(agents_fields(infos).len() == 0);
        assert(agents_shaped(agents_fields(infos)));
    }
}

proof fn lemma_ops_fields_len(ops: Seq<(Seq<u8>, Seq<u8>)>)
    ensures
        ops_fields(ops).len() == 2 * ops.len(),
    decreases ops.len(),
{
    if ops.len() > 0 {
        lemma_ops_fields_len(ops.drop_last());
    }
}

proof fn lemma_bits_bytes_small(bits: Seq<bool>)
    ensures
        forall|i: int| 0 <= i < bits_bytes(bits).len() ==> #[trigger] bits_bytes(bits)[i] <= 1,
{
}

/// Copies a list of byte strings.
fn copy_all(fs: &Vec<Vec<u8>>, start: usize) -> (r: Vec<Vec<u8>>)
    requires
        start <= fs@.len(),
    ensures
        key_views(r@) == key_views(fs@).skip(start as int),
{
    let mut out: Vec<Vec<u8>> = Vec::new();
    let mut i: usize = start;
    while i < fs.len()
        invariant
            start <= i <= fs@.len(),
            key_views(out@) == key_views(fs@).subrange(start as int, i as int),
        decreases fs@.len() - i,
    {
        let f = fs[i].clone();
        proof {
            assert(f@ =~= fs@[i as int]@);
        }
        let ghost before = out@;
        out.push(f);
        proof {
            assert(key_views(out@) =~= key_views(before).push(f@));
            assert(key_views(fs@).subrange(start as int, i + 1) =~= key_views(fs@).subrange(
                start as int,
                i as int,
            ).push(f@));
        }
        i = i + 1;
    }
    proof {
        assert(key_views(fs@).subrange(start as int, i as int) =~= key_views(fs@).skip(start as int));
    }
    out
}

fn copy_bytes(f: &Vec<u8>) -> (r: Vec<u8>)
    ensures
        r@ == f@,
{
    let r = f.clone();
    proof {
        assert(r@ =~= f@);
    }
    r
}

/// The fields of a list of agent infos.
fn agents_to_fields(infos: &Vec<AgentInfoSigned>, out: &mut Vec<Vec<u8>>)
    ensures
        key_views(final(out)@) == key_views(old(out)@) + agents_fields(agent_views(infos@)),
{
    let ghost v = agent_views(infos@);
    let ghost start = key_views(out@);
    let mut i: usize = 0;
    proof {
        assert(v.take(0) =~= Seq::<(Seq<u8>, ArcInterval, Seq<u8>, Seq<u8>)>::empty());
        assert(key_views(out@) =~= start + agents_fields(v.take(0)));
    }
    while i < infos.len()
        invariant
            v == agent_views(infos@),
            0 <= i <= infos@.len(),
            key_views(out@) == start + agents_fields(v.take(i as int)),
        decreases infos@.len() - i,
    {
        let a = &infos[i];
        let ghost before = out@;
        let mut start_bytes: Vec<u8> = Vec::new();
        put_u32(&mut start_bytes, a.storage_arc.start);
        let mut len_bytes: Vec<u8> = Vec::new();
        put_u64(&mut len_bytes, a.storage_arc.len);
        out.push(copy_bytes(&a.agent));
        out.push(start_bytes);
        out.push(len_bytes);
        out.push(copy_bytes(a.cert.as_bytes()));
        out.push(copy_bytes(&a.signature));
        proof {
            assert(v.take(i + 1).drop_last() =~= v.take(i as int));
            assert(v[i as int] == infos@[i as int]@);
            assert(key_views(out@) =~= key_views(before) + agent_info_fields(v[i as int]));
        }
        i = i + 1;
    }
    proof {
        assert(v.take(i as int) =~= v);
    }
}

/// The fields of a list of ops.
fn ops_to_fields(ops: &Vec<StoredOp>, out: &mut Vec<Vec<u8>>)
    ensures
        key_views(final(out)@) == key_views(old(out)@) + ops_fields(op_views(ops@)),
{
    let ghost v = op_views(ops@);
    let ghost start = key_views(out@);
    let mut i: usize = 0;
    proof {
        assert(v.take(0) =~= Seq::<(Seq<u8>, Seq<u8>)>::empty());
        assert(key_views(out@) =~= start + ops_fields(v.take(0)));
    }
    while i < ops.len()
        invariant
            v == op_views(ops@),
            0 <= i <= ops@.len(),
            key_views(out@) == start + ops_fields(v.take(i as int)),
        decreases ops@.len() - i,
    {
        let ghost before = out@;
        out.push(copy_bytes(&ops[i].hash));
        out.push(copy_bytes(&ops[i].data));
        proof {
            assert(v.take(i + 1).drop_last() =~= v.take(i as int));
            assert(v[i as int] == ops@[i as int]@);
            assert(key_views(out@) =~= key_views(before) + seq![v[i as int].0, v[i as int].1]);
        }
        i = i + 1;
    }
    proof {
        assert(v.take(i as int) =~= v);
    }
}

/// The fields of a message, after its tag.
pub fn to_fields(m: &ShardedGossipWire) -> (r: Vec<Vec<u8>>)
    ensures
        key_views(r@) == wire_fields(*m),
        wire_wf(*m),
{
    let mut out: Vec<Vec<u8>> = Vec::new();
    match m {
        ShardedGossipWire::Initiate(i) => {
            let seg = segments_to_bytes(&i.intended_arc_set.segments());
            out.push(seg);
            let mut rest = copy_all(&i.agent_list, 0);
            let ghost rv = rest@;
            out.append(&mut rest);
            proof {
                assert(key_views(i.agent_list@).skip(0) =~= key_views(i.agent_list@));
                assert(key_views(out@) =~= seq![seg@] + key_views(rv));
            }
        },
        ShardedGossipWire::Accept(a) => {
            let seg = segments_to_bytes(&a.intended_arc_set.segments());
            out.push(seg);
            let mut rest = copy_all(&a.agent_list, 0);
            let ghost rv = rest@;
            out.append(&mut rest);
            proof {
                assert(key_views(a.agent_list@).skip(0) =~= key_views(a.agent_list@));
                assert(key_views(out@) =~= seq![seg@] + key_views(rv));
            }
        },
        ShardedGossipWire::Agents(a) => {
            // Establishes that the filter has `BLOOM_BITS` bits.
            let _ = a.filter.bit_count();
            let header = bloom_header_bytes();
            let bits = bits_to_bytes(&a.filter.to_bits());
            out.push(header);
            out.push(bits);
            proof {
                assert(key_views(out@) =~= seq![header@, bits@]);
            }
        },
        ShardedGossipWire::MissingAgents(a) => {
            agents_to_fields(&a.agents, &mut out);
            proof {
                assert(key_views(out@) =~= agents_fields(agent_views(a.agents@)));
            }
        },
        ShardedGossipWire::Ops(o) => {
            // Establishes that the filter has `BLOOM_BITS` bits.
            let _ = o.missing_hashes.bit_count();
            let seg = segments_to_bytes(&o.arc_set.segments());
            let bits = bits_to_bytes(&o.missing_hashes.to_bits());
            let mut flag: Vec<u8> = Vec::new();
            flag.push(if o.finished { 1u8 } else { 0u8 });
            proof {
                assert(flag@ =~= bool_byte(o.finished));
            }
            let header = bloom_header_bytes();
            out.push(seg);
            out.push(header);
            out.push(bits);
            out.push(flag);
            proof {
                assert(key_views(out@) =~= seq![seg@, header@, bits@, flag@]);
            }
        },
        ShardedGossipWire::MissingOps(o) => {
            let mut flag: Vec<u8> = Vec::new();
            flag.push(if o.finished { 1u8 } else { 0u8 });
            proof {
                assert(flag@ =~= bool_byte(o.finished));
            }
            out.push(flag);
            proof {
                assert(key_views(out@) =~= seq![flag@]);
            }
            ops_to_fields(&o.ops, &mut out);
        },
    }
    out
}

/// Reads agent infos from fields laid out five per info.
fn agents_from_fields(fs: &Vec<Vec<u8>>) -> (r: Option<Vec<AgentInfoSigned>>)
    ensures
        match r {
            Some(a) => agents_fields(agent_views(a@)) == key_views(fs@),
            None => !agents_shaped(key_views(fs@)),
        },
{
    let ghost v = key_views(fs@);
    if fs.len() % 5 != 0 {
        return None;
    }
    let n = fs.len() / 5;
    let mut out: Vec<AgentInfoSigned> = Vec::new();
    let mut k: usize = 0;
    proof {
        assert(agent_views(out@) =~= Seq::<(Seq<u8>, ArcInterval, Seq<u8>, Seq<u8>)>::empty());
        assert(v.take(0) =~= Seq::<Seq<u8>>::empty());
    }
    while k < n
        invariant
            v == key_views(fs@),
            n * 5 == fs@.len(),
            0 <= k <= n,
            agents_fields(agent_views(out@)) == v.take(5 * k),
        decreases n - k,
    {
        let total = fs.len();
        proof {
            let (kk, nn, len) = (k as int, n as int, total as int);
            assert(5 * kk + 5 <= len) by (nonlinear_arith)
                requires
                    kk < nn,
                    nn * 5 == len,
            ;
        }
        let start = match read_u32_field(&fs[5 * k + 1]) {
            Some(x) => x,
            None => {
                proof {
                    assert(v[5 * k + 1] == fs@[5 * k + 1]@);
                    assert(k < v.len() / 5);
                }
                return None;
            },
        };
        let len = match read_u64_field(&fs[5 * k + 2]) {
            Some(x) => x,
            None => {
                proof {
                    assert(v[5 * k + 2] == fs@[5 * k + 2]@);
                    assert(k < v.len() / 5);
                    assert(v[5 * k + 1] == fs@[5 * k + 1]@);
                }
                return None;
            },
        };
        let info = AgentInfoSigned {
            agent: copy_bytes(&fs[5 * k]),
            storage_arc: ArcInterval { start, len },
            cert: PeerCert::new(copy_bytes(&fs[5 * k + 3])),
            signature: copy_bytes(&fs[5 * k + 4]),
        };
        let ghost before = out@;
        out.push(info);
        proof {
            assert(agent_views(out@) =~= agent_views(before).push(info@));
            assert(agent_views(out@).drop_last() =~= agent_views(before));
            assert(v.take(5 * (k + 1)) =~= v.take(5 * k) + seq![
                v[5 * k as int],
                v[5 * k + 1],
                v[5 * k + 2],
                v[5 * k + 3],
                v[5 * k + 4],
            ]);
            assert(agent_info_fields(info@) =~= seq![
                v[5 * k as int],
                v[5 * k + 1],
                v[5 * k + 2],
                v[5 * k + 3],
                v[5 * k + 4],
            ]);
        }
        k = k + 1;
    }
    proof {
        assert(v.take(5 * n) =~= v);
    }
    Some(out)
}

/// Reads ops from fields laid out hash then payload, from `start` on.
fn ops_from_fields(fs: &Vec<Vec<u8>>, start: usize) -> (r: Option<Vec<StoredOp>>)
    requires
        start <= fs@.len(),
    ensures
        match r {
            Some(o) => ops_fields(op_views(o@)) == key_views(fs@).skip(start as int),
            None => (fs@.len() - start) % 2 != 0,
        },
{
    let ghost v = key_views(fs@).skip(start as int);
    if (fs.len() - start) % 2 != 0 {
        return None;
    }
    let n = (fs.len() - start) / 2;
    let mut out: Vec<StoredOp> = Vec::new();
    let mut k: usize = 0;
    proof {
        assert(op_views(out@) =~= Seq::<(Seq<u8>, Seq<u8>)>::empty());
        assert(v.take(0) =~= Seq::<Seq<u8>>::empty());
    }
    while k < n
        invariant
            v == key_views(fs@).skip(start as int),
            start <= fs@.len(),
            n * 2 == fs@.len() - start,
            0 <= k <= n,
            ops_fields(op_views(out@)) == v.take(2 * k),
        decreases n - k,
    {
        let total = fs.len();
        proof {
            let (kk, nn, len) = (k as int, n as int, total as int - start as int);
            assert(2 * kk + 2 <= len) by (nonlinear_arith)
                requires
                    kk < nn,
                    nn * 2 == len,
            ;
        }
        let o = StoredOp { hash: copy_bytes(&fs[start + 2 * k]), data: copy_bytes(&fs[start + 2 * k + 1]) };
        let ghost before = out@;
        out.push(o);
        proof {
            assert(op_views(out@) =~= op_views(before).push(o@));
            assert(op_views(out@).drop_last() =~= op_views(before));
            assert(v[2 * k as int] == fs@[start + 2 * k]@);
            assert(v[2 * k + 1] == fs@[start + 2 * k + 1]@);
            assert(v.take(2 * (k + 1)) =~= v.take(2 * k) + seq![v[2 * k as int], v[2 * k + 1]]);
        }
        k = k + 1;
    }
    proof {
        assert(v.take(2 * n) =~= v);
    }
    Some(out)
}

/// Reads the arc set and agent keys that open `Initiate` and `Accept`.
fn offer_from_fields(fs: &Vec<Vec<u8>>) -> (r: Option<(ArcSet, Vec<Vec<u8>>)>)
    ensures
        match r {
            Some((set, keys)) => seq![segments_bytes(set.segment_seq())] + key_views(keys@)
                == key_views(fs@),
            None => fs@.len() == 0 || fs@[0]@.len() % 16 != 0,
        },
{
    if fs.len() == 0 {
        return None;
    }
    let segs = match read_segments(&fs[0]) {
        Some(x) => x,
        None => {
            return None;
        },
    };
    let set = ArcSet::from_segments(segs);
    let keys = copy_all(fs, 1);
    proof {
        assert(seq![segments_bytes(set.segment_seq())] + key_views(keys@) =~= key_views(fs@));
    }
    Some((set, keys))
}

/// Reads a filter from a field of one byte per bit.
fn bloom_from_field(f: &Vec<u8>) -> (r: Option<Bloom>)
    ensures
        match r {
            Some(b) => bits_bytes(b@) == f@ && b@.len() == BLOOM_BITS,
            None => forall|bits: Seq<bool>| bits.len() == BLOOM_BITS ==> bits_bytes(bits) != f@,
        },
{
    match read_bits(f) {
        Some(bits) => {
            let ghost bv = bits@;
            match Bloom::from_bits(bits) {
                Some(b) => Some(b),
                None => {
                    proof {
                        assert forall|other: Seq<bool>| other.len() == BLOOM_BITS implies bits_bytes(other) != f@ by {
                            if bits_bytes(other) == f@ {
                                assert(bits_bytes(other).len() == bits_bytes(bv).len());
                            }
                        }
                    }
                    None
                },
            }
        },
        None => {
            proof {
                assert forall|other: Seq<bool>| other.len() == BLOOM_BITS implies bits_bytes(other) != f@ by {
                    lemma_bits_bytes_small(other);
                    if bits_bytes(other) == f@ {
                        let i = choose|i: int| 0 <= i < f@.len() && f@[i] > 1;
                        assert(bits_bytes(other)[i] <= 1);
                    }
                }
            }
            None
        },
    }
}

/// The message with the given tag held by the given fields.
pub fn from_fields(tag: u8, fs: &Vec<Vec<u8>>) -> (r: Option<ShardedGossipWire>)
    ensures
        match r {
            Some(m) => wire_tag(m) == tag && wire_fields(m) == key_views(fs@) && wire_wf(m),
            None => true,
        },
        forall|m: ShardedGossipWire|
            wire_tag(m) == tag && #[trigger] wire_fields(m) == key_views(fs@) && wire_wf(m) ==> r is Some,
{
    let ghost v = key_views(fs@);
    if tag == 0 || tag == 1 {
        match offer_from_fields(fs) {
            Some((set, keys)) => {
                if tag == 0 {
                    Some(ShardedGossipWire::Initiate(Initiate { intended_arc_set: set, agent_list: keys }))
                } else {
                    Some(ShardedGossipWire::Accept(Accept { intended_arc_set: set, agent_list: keys }))
                }
            },
            None => {
                proof {
                    assert forall|m: ShardedGossipWire|
                        wire_tag(m) == tag && #[trigger] wire_fields(m) == v && wire_wf(m) implies false by {
                        match m {
                            ShardedGossipWire::Initiate(i) => {
                                lemma_segments_bytes_len(i.intended_arc_set.segment_seq());
                                assert(wire_fields(m).len() >= 1);
                                assert(v[0] == fs@[0]@);
                            },
                            ShardedGossipWire::Accept(a) => {
                                lemma_segments_bytes_len(a.intended_arc_set.segment_seq());
                                assert(wire_fields(m).len() >= 1);
                                assert(v[0] == fs@[0]@);
                            },
                            _ => {},
                        }
                    }
                }
                None
            },
        }
    } else if tag == 2 {
        if fs.len() != 2 {
            proof {
                assert forall|m: ShardedGossipWire|
                    wire_tag(m) == tag && #[trigger] wire_fields(m) == v && wire_wf(m) implies false by {
                    assert(wire_fields(m).len() == 2);
                }
            }
            return None;
        }
        if !bytes_equal(&fs[0], &bloom_header_bytes()) {
            proof {
                assert(v[0] == fs@[0]@);
            }
            return None;
        }
        match bloom_from_field(&fs[1]) {
            Some(filter) => {
                proof {
                    assert(seq![bloom_header(), bits_bytes(filter@)] =~= v);
                }
                Some(ShardedGossipWire::Agents(Agents { filter }))
            },
            None => {
                proof {
                    assert(v[1] == fs@[1]@);
                }
                None
            },
        }
    } else if tag == 3 {
        match agents_from_fields(fs) {
            Some(agents) => Some(ShardedGossipWire::MissingAgents(MissingAgents { agents })),
            None => {
                proof {
                    assert forall|m: ShardedGossipWire|
                        wire_tag(m) == tag && #[trigger] wire_fields(m) == v && wire_wf(m) implies false by {
                        match m {
                            ShardedGossipWire::MissingAgents(a) => {
                                lemma_agents_fields_shape(agent_views(a.agents@));
                            },
                            _ => {},
                        }
                    }
                }
                None
            },
        }
    } else if tag == 4 {
        if fs.len() != 4 {
            proof {
                assert forall|m: ShardedGossipWire|
                    wire_tag(m) == tag && #[trigger] wire_fields(m) == v && wire_wf(m) implies false by {
                    assert(wire_fields(m).len() == 4);
                }
            }
            return None;
        }
        let segs = match read_segments(&fs[0]) {
            Some(x) => x,
            None => {
                proof {
                    assert forall|m: ShardedGossipWire|
                        wire_tag(m) == tag && #[trigger] wire_fields(m) == v && wire_wf(m) implies false by {
                        match m {
                            ShardedGossipWire::Ops(o) => {
                                lemma_segments_bytes_len(o.arc_set.segment_seq());
                                assert(v[0] == fs@[0]@);
                            },
                            _ => {},
                        }
                    }
                }
                return None;
            },
        };
        if !bytes_equal(&fs[1], &bloom_header_bytes()) {
            proof {
                assert(v[1] == fs@[1]@);
            }
            return None;
        }
        let missing_hashes = match bloom_from_field(&fs[2]) {
            Some(b) => b,
            None => {
                proof {
                    assert(v[2] == fs@[2]@);
                }
                return None;
            },
        };
        let finished = match read_bool_field(&fs[3]) {
            Some(b) => b,
            None => {
                proof {
                    assert(v[3] == fs@[3]@);
                }
                return None;
            },
        };
        let arc_set = ArcSet::from_segments(segs);
        proof {
            assert(seq![
                segments_bytes(arc_set.segment_seq()),
                bloom_header(),
                bits_bytes(missing_hashes@),
                bool_byte(finished),
            ] =~= v);
        }
        Some(ShardedGossipWire::Ops(Ops { arc_set, missing_hashes, finished }))
    } else if tag == 5 {
        if fs.len() == 0 {
            proof {
                assert forall|m: ShardedGossipWire|
                    wire_tag(m) == tag && #[trigger] wire_fields(m) == v && wire_wf(m) implies false by {
                    assert(wire_fields(m).len() >= 1);
                }
            }
            return None;
        }
        let finished = match read_bool_field(&fs[0]) {
            Some(b) => b,
            None => {
                proof {
                    assert(v[0] == fs@[0]@);
                }
                return None;
            },
        };
        match ops_from_fields(fs, 1) {
            Some(ops) => {
                proof {
                    assert(seq![bool_byte(finished)] + ops_fields(op_views(ops@)) =~= v);
                }
                Some(ShardedGossipWire::MissingOps(MissingOps { ops, finished }))
            },
            None => {
                proof {
                    assert forall|m: ShardedGossipWire|
                        wire_tag(m) == tag && #[trigger] wire_fields(m) == v && wire_wf(m) implies false by {
                        match m {
                            ShardedGossipWire::MissingOps(o) => {
                                lemma_ops_fields_len(op_views(o.ops@));
                                assert(wire_fields(m).len() == 1 + ops_fields(op_views(o.ops@)).len());
                                assert(v.len() == fs@.len());
                            },
                            _ => {},
                        }
                    }
                }
                None
            },
        }
    } else {
        None
    }
}

/// Whether a message fits its frame: every length fits a `u32`.
pub open spec fn wire_fits(m: ShardedGossipWire) -> bool {
    fields_fit(wire_fields(m)) && fields_bytes(wire_fields(m)).len() < u32::MAX
}

/// The frame of a message; `None` when the message is too large for one.
pub fn encode_message(m: &ShardedGossipWire) -> (r: Option<Vec<u8>>)
    ensures
        wire_wf(*m),
        match r {
            Some(bytes) => bytes@ == wire_frame(*m),
            None => !wire_fits(*m),
        },
{
    let fs = to_fields(m);
    if fs.len() > u32::MAX as usize {
        return None;
    }
    let mut i: usize = 0;
    while i < fs.len()
        invariant
            0 <= i <= fs@.len(),
            fs@.len() <= u32::MAX,
            key_views(fs@) == wire_fields(*m),
            wire_wf(*m),
            forall|j: int| 0 <= j < i ==> (#[trigger] key_views(fs@)[j]).len() <= u32::MAX,
        decreases fs@.len() - i,
    {
        if fs[i].len() > u32::MAX as usize {
            proof {
                assert(key_views(fs@)[i as int] == fs@[i as int]@);
            }
            return None;
        }
        proof {
            assert(key_views(fs@)[i as int] == fs@[i as int]@);
        }
        i = i + 1;
    }
    let mut body: Vec<u8> = Vec::new();
    put_fields(&mut body, &fs);
    proof {
        assert(body@ =~= fields_bytes(key_views(fs@)));
    }
    if body.len() >= u32::MAX as usize {
        return None;
    }
    let mut out: Vec<u8> = Vec::new();
    write_frame(&mut out, m.tag(), &body);
    proof {
        assert(out@ =~= wire_frame(*m));
    }
    Some(out)
}

/// Reads the message whose frame starts at `pos`: the message and the
/// position after its frame. Any message that fits a frame is read back from
/// its frame.
pub fn decode_message(buf: &Vec<u8>, pos: usize) -> (r: Option<(ShardedGossipWire, usize)>)
    ensures
        match r {
            Some((m, end)) => pos <= end <= buf@.len() && buf@.subrange(pos as int, end as int)
                == wire_frame(m) && wire_wf(m),
            None => true,
        },
        forall|m: ShardedGossipWire|
            wire_wf(m) && wire_fits(m) && #[trigger] holds_at(buf@, pos as int, wire_frame(m)) ==> (r matches Some((
                m2,
                end,
            )) && wire_frame(m2) == wire_frame(m) && end == pos + wire_frame(m).len()),
{
    let (tag, body, end) = match read_frame(buf, pos) {
        Some(x) => x,
        None => {
            return None;
        },
    };
    let (fs, used) = match get_fields(&body, 0) {
        Some(x) => x,
        None => {
            proof {
                assert forall|m: ShardedGossipWire|
                    wire_wf(m) && wire_fits(m) && #[trigger] holds_at(buf@, pos as int, wire_frame(m)) implies false by {
                    assert(body@ == fields_bytes(wire_fields(m)));
                    assert(body@.subrange(0, fields_bytes(wire_fields(m)).len() as int) =~= body@);
                    assert(holds_at(body@, 0, fields_bytes(wire_fields(m))));
                }
            }
            return None;
        },
    };
    if used != body.len() {
        proof {
            assert forall|m: ShardedGossipWire|
                wire_wf(m) && wire_fits(m) && #[trigger] holds_at(buf@, pos as int, wire_frame(m)) implies false by {
                assert(body@ == fields_bytes(wire_fields(m)));
                assert(body@.subrange(0, fields_bytes(wire_fields(m)).len() as int) =~= body@);
                assert(holds_at(body@, 0, fields_bytes(wire_fields(m))));
            }
        }
        return None;
    }
    match from_fields(tag, &fs) {
        Some(m) => {
            proof {
                assert(body@.subrange(0, used as int) =~= body@);
                assert(buf@.subrange(pos as int, end as int) == wire_frame(m));
                assert forall|m1: ShardedGossipWire|
                    wire_wf(m1) && wire_fits(m1) && #[trigger] holds_at(buf@, pos as int, wire_frame(m1)) implies wire_frame(m) == wire_frame(m1)
                        && end == pos + wire_frame(m1).len() by {
                    assert(body@ == fields_bytes(wire_fields(m1)));
                    assert(body@.subrange(0, fields_bytes(wire_fields(m1)).len() as int) =~= body@);
                    assert(holds_at(body@, 0, fields_bytes(wire_fields(m1))));
                }
            }
            Some((m, end))
        },
        None => {
            proof {
                assert forall|m: ShardedGossipWire|
                    wire_wf(m) && wire_fits(m) && #[trigger] holds_at(buf@, pos as int, wire_frame(m)) implies false by {
                    assert(body@ == fields_bytes(wire_fields(m)));
                    assert(body@.subrange(0, fields_bytes(wire_fields(m)).len() as int) =~= body@);
                    assert(holds_at(body@, 0, fields_bytes(wire_fields(m))));
                    assert(key_views(fs@) == wire_fields(m));
                }
            }
            None
        },
    }
}

} // verus!
