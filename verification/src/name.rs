//! Domain names on the wire: how a name is read, following compression
//! pointers, and how it is written, label by label.

use vstd::prelude::*;
use vstd::utf8::*;

use crate::bpb::{plain, chain, Emission, MAX_JUMPS};
use crate::error::DnsError;

verus! {

/// What a name walk ends with: the labels read, in order, the cursor
/// position, and the error that stopped it, if one did.
pub struct NameWalk {
    pub labels: Seq<Seq<u8>>,
    pub cursor: int,
    pub error: Option<DnsError>,
}

/// Reading a name whose labels continue at `pos`, with `fuel` compression
/// pointers left to follow. `cursor` is where the cursor stands while the name
/// is read: where the name starts, until a pointer is followed; then, for
/// good, just past that first pointer (`jumped` tells which).
///
/// A zero byte ends the name; the cursor is then just past it, unless a
/// pointer was followed. A byte with both top bits set starts a pointer: its
/// low six bits and the next byte give the offset at which the rest of the name
/// starts, and the first such pointer puts the cursor just past its two bytes.
/// Any other byte is the length of a label that follows it, which must be valid
/// UTF-8. On an error the cursor stays where it stands.
pub open spec fn walk_name(buf: Seq<u8>, cursor: int, jumped: bool, pos: int, fuel: nat) -> NameWalk
    decreases fuel, 512 - pos,
{
    if pos < 0 || pos >= 512 || buf.len() != 512 {
        NameWalk { labels: seq![], cursor, error: Some(DnsError::BufferOverflow) }
    } else {
        let len = buf[pos];
        if len == 0 {
            NameWalk { labels: seq![], cursor: if jumped { cursor } else { pos + 1 }, error: None }
        } else if len >= 0xC0 {
            if pos + 1 >= 512 {
                NameWalk { labels: seq![], cursor, error: Some(DnsError::BufferOverflow) }
            } else {
                let offset = (len - 0xC0) * 0x100 + buf[pos + 1];
                let after = if jumped { cursor } else { pos + 2 };
                if offset > 512 {
                    NameWalk { labels: seq![], cursor, error: Some(DnsError::BufferOverflow) }
                } else if fuel == 0 {
                    NameWalk { labels: seq![], cursor: after, error: Some(DnsError::PointerLoop) }
                } else {
                    walk_name(buf, after, true, offset, (fuel - 1) as nat)
                }
            }
        } else if pos + 1 + len > 512 {
            NameWalk { labels: seq![], cursor, error: Some(DnsError::BufferOverflow) }
        } else {
            let label = buf.subrange(pos + 1, pos + 1 + len);
            if !valid_utf8(label) {
                NameWalk { labels: seq![], cursor, error: Some(DnsError::InvalidUtf8Label) }
            } else {
                let rest = walk_name(buf, cursor, jumped, pos + 1 + len, fuel);
                NameWalk { labels: seq![label] + rest.labels, cursor: rest.cursor, error: rest.error }
            }
        }
    }
}

/// Reading a name from the cursor position `pos` of `buf`.
pub open spec fn read_name(buf: Seq<u8>, pos: int) -> NameWalk {
    walk_name(buf, pos, false, pos, MAX_JUMPS as nat)
}

/// What a walk reads, and the error it ends with, do not depend on where the
/// cursor stands.
proof fn lemma_walk_cursor_free(
    buf: Seq<u8>,
    c1: int,
    j1: bool,
    c2: int,
    j2: bool,
    pos: int,
    fuel: nat,
)
    ensures
        walk_name(buf, c1, j1, pos, fuel).labels == walk_name(buf, c2, j2, pos, fuel).labels,
        walk_name(buf, c1, j1, pos, fuel).error == walk_name(buf, c2, j2, pos, fuel).error,
    decreases fuel, 512 - pos,
{
    if 0 <= pos < 512 && buf.len() == 512 {
        let len = buf[pos];
        if len >= 0xC0 {
            if pos + 1 < 512 && fuel > 0 {
                let offset = (len - 0xC0) * 0x100 + buf[pos + 1];
                let a1 = if j1 { c1 } else { pos + 2 };
                let a2 = if j2 { c2 } else { pos + 2 };
                lemma_walk_cursor_free(buf, a1, true, a2, true, offset, (fuel - 1) as nat);
            }
        } else if len != 0 && pos + 1 + len <= 512 {
            lemma_walk_cursor_free(buf, c1, j1, c2, j2, pos + 1 + len, fuel);
        }
    }
}

/// The characters of the labels, each followed by a dot.
pub open spec fn dotted(labels: Seq<Seq<u8>>) -> Seq<char>
    decreases labels.len(),
{
    if labels.len() == 0 {
        seq![]
    } else {
        decode_utf8(labels[0]) + seq!['.'] + dotted(labels.drop_first())
    }
}

/// One more label adds its characters and a dot at the end.
pub proof fn lemma_dotted_push(labels: Seq<Seq<u8>>, label: Seq<u8>)
    ensures
        dotted(labels.push(label)) == dotted(labels) + decode_utf8(label) + seq!['.'],
    decreases labels.len(),
{
    if labels.len() == 0 {
        let one = labels.push(label);
        assert(one.drop_first() =~= Seq::<Seq<u8>>::empty());
        assert(one[0] == label);
        assert(dotted(one.drop_first()) == Seq::<char>::empty());
        assert(dotted(labels) == Seq::<char>::empty());
        assert(dotted(one) =~= dotted(labels) + decode_utf8(label) + seq!['.']);
    } else {
        assert(labels.push(label).drop_first() =~= labels.drop_first().push(label));
        lemma_dotted_push(labels.drop_first(), label);
        assert(dotted(labels.push(label)) =~= dotted(labels) + decode_utf8(label) + seq!['.']);
    }
}

/// `s` without its last character, if it has one.
pub open spec fn drop_last_char(s: Seq<char>) -> Seq<char> {
    if s.len() > 0 {
        s.drop_last()
    } else {
        s
    }
}

/// The text that reading a name appends to `before`: each label followed by a
/// dot, and the last character then removed when the name was read whole.
pub open spec fn name_text(before: Seq<char>, walk: NameWalk) -> Seq<char> {
    if walk.error is None {
        drop_last_char(before + dotted(walk.labels))
    } else {
        before + dotted(walk.labels)
    }
}

/// The index of the first '.' byte in `s`, or its length when it has none.
pub open spec fn first_dot(s: Seq<u8>) -> nat
    decreases s.len(),
{
    if s.len() == 0 {
        0
    } else if s[0] == 0x2E {
        0
    } else {
        1 + first_dot(s.drop_first())
    }
}

/// The labels of a name: its bytes split at each '.'. An empty name has no
/// labels, and a '.' at the end closes the last label without opening another.
pub open spec fn split_labels(s: Seq<u8>) -> Seq<Seq<u8>>
    decreases s.len(),
{
    if s.len() == 0 {
        seq![]
    } else {
        let i = first_dot(s);
        if i >= s.len() {
            seq![s]
        } else {
            seq![s.take(i as int)] + split_labels(s.skip(i + 1 as int))
        }
    }
}

/// The wire form of a name made of `labels`: each label after a byte that
/// holds its length, then a zero byte. A label longer than 63 bytes is refused,
/// and writing stops before it.
pub open spec fn name_emission(labels: Seq<Seq<u8>>) -> Emission
    decreases labels.len(),
{
    if labels.len() == 0 {
        plain(seq![0u8])
    } else if labels[0].len() > 63 {
        Emission { bytes: seq![], label_too_long: true }
    } else {
        chain(
            plain(seq![labels[0].len() as u8] + labels[0]),
            name_emission(labels.drop_first()),
        )
    }
}

/// The first '.' of `s` is at `j` when no byte before `j` is one and `j` is
/// the end or holds one.
pub proof fn lemma_first_dot(s: Seq<u8>, j: int)
    requires
        0 <= j <= s.len(),
        forall|k: int| 0 <= k < j ==> s[k] != 0x2E,
        j == s.len() || s[j] == 0x2E,
    ensures
        first_dot(s) == j,
    decreases j,
{
    if j > 0 {
        lemma_first_dot(s.drop_first(), j - 1);
    }
}

/// The labels of the bytes of `all` from `start` on: the one up to `end`, the
/// first '.' or the end, and then those after that '.'.
pub proof fn lemma_split_first(all: Seq<u8>, start: int, end: int)
    requires
        0 <= start < end <= all.len() || 0 <= start == end < all.len(),
        forall|k: int| start <= k < end ==> all[k] != 0x2E,
        end == all.len() || all[end] == 0x2E,
    ensures
        split_labels(all.skip(start)) == seq![all.subrange(start, end)] + (if end == all.len() {
            seq![]
        } else {
            split_labels(all.skip(end + 1))
        }),
{
    let s = all.skip(start);
    lemma_first_dot(s, end - start);
    if end == all.len() {
        assert(s =~= all.subrange(start, end));
        assert(seq![s] + seq![] =~= seq![s]);
    } else {
        assert(s.take(end - start) =~= all.subrange(start, end));
        assert(s.skip(end - start + 1) =~= all.skip(end + 1));
    }
}


/// Where the first '.' is: no byte before it is one, and it is the end or
/// holds one.
pub proof fn lemma_first_dot_bounds(s: Seq<u8>)
    ensures
        first_dot(s) <= s.len(),
        first_dot(s) < s.len() ==> s[first_dot(s) as int] == 0x2E,
        forall|k: int| 0 <= k < first_dot(s) ==> s[k] != 0x2E,
    decreases s.len(),
{
    if s.len() > 0 && s[0] != 0x2E {
        lemma_first_dot_bounds(s.drop_first());
        assert forall|k: int| 0 <= k < first_dot(s) implies s[k] != 0x2E by {
            if k > 0 {
                assert(s[k] == s.drop_first()[k - 1]);
            }
        }
    }
}

/// A '.' byte in valid UTF-8 splits it into two valid halves, and its text into
/// the text before, a '.', and the text after.
pub proof fn lemma_dot_splits_utf8(b: Seq<u8>, i: int)
    requires
        valid_utf8(b),
        0 <= i < b.len(),
        b[i] == 0x2E,
    ensures
        valid_utf8(b.take(i)),
        valid_utf8(b.skip(i + 1)),
        decode_utf8(b) == decode_utf8(b.take(i)) + seq!['.'] + decode_utf8(b.skip(i + 1)),
{
    is_char_boundary_iff_not_is_continuation_byte(b, i);
    valid_utf8_split(b, i);
    decode_utf8_split(b, i);
    let t = b.subrange(i, b.len() as int);
    assert(t[0] == 0x2E);
    assert(b.take(i) =~= b.subrange(0, i));
    assert(pop_first_scalar(t) =~= b.skip(i + 1));
    let x = t[0];
    assert((x & 0x7F) as u32 == 0x2E) by (bit_vector)
        requires
            x == 0x2E,
    ;
    assert(decode_first_scalar(t) == 0x2E);
    assert(decode_utf8(t) =~= seq!['.'] + decode_utf8(b.skip(i + 1)));
}

/// The labels of valid UTF-8 are valid UTF-8, and their text with a dot after
/// each is the whole text with a dot after it, when it does not end with '.'.
pub proof fn lemma_split_text(b: Seq<u8>)
    requires
        valid_utf8(b),
        b.len() == 0 || b.last() != 0x2E,
    ensures
        forall|k: int|
            0 <= k < split_labels(b).len() ==> valid_utf8(#[trigger] split_labels(b)[k]),
        b.len() > 0 ==> dotted(split_labels(b)) == decode_utf8(b) + seq!['.'],
        b.len() == 0 ==> split_labels(b).len() == 0,
    decreases b.len(),
{
    if b.len() > 0 {
        let i = first_dot(b) as int;
        lemma_first_dot_bounds(b);
        let ls = split_labels(b);
        if i >= b.len() {
            assert(ls == seq![b]);
            assert(ls.drop_first() =~= Seq::<Seq<u8>>::empty());
            assert(dotted(ls.drop_first()) == Seq::<char>::empty());
            assert(dotted(ls) =~= decode_utf8(b) + seq!['.']);
        } else {
            lemma_dot_splits_utf8(b, i);
            let rest = b.skip(i + 1);
            assert(rest.len() > 0);
            assert(rest.last() == b.last());
            lemma_split_text(rest);
            assert(ls == seq![b.take(i)] + split_labels(rest));
            assert(ls[0] == b.take(i));
            assert(ls.drop_first() =~= split_labels(rest));
            assert forall|k: int| 0 <= k < ls.len() implies valid_utf8(#[trigger] ls[k]) by {
                if k > 0 {
                    assert(ls[k] == split_labels(rest)[k - 1]);
                }
            }
            assert(dotted(ls) =~= decode_utf8(b) + seq!['.']);
        }
    }
}

/// Labels of 1 to 63 bytes each.
pub open spec fn labels_fit(labels: Seq<Seq<u8>>) -> bool {
    forall|k: int| 0 <= k < labels.len() ==> 0 < #[trigger] labels[k].len() <= 63
}

/// The bytes a name is written as.
pub open spec fn name_wire(s: Seq<char>) -> Seq<u8> {
    name_emission(split_labels(encode_utf8(s))).bytes
}

/// A name whose labels each hold 1 to 63 bytes, and which does not end with '.':
/// the names that read back as they were written.
pub open spec fn plain_name(s: Seq<char>) -> bool {
    let b = encode_utf8(s);
    labels_fit(split_labels(b)) && (b.len() == 0 || b.last() != 0x2E)
}

/// Reading the wire form of labels that fit, each valid UTF-8, gives those
/// labels back, with the cursor just past the wire form.
pub proof fn lemma_walk_wire(buf: Seq<u8>, cursor: int, pos: int, fuel: nat, labels: Seq<Seq<u8>>)
    requires
        buf.len() == 512,
        0 <= pos,
        labels_fit(labels),
        forall|k: int| 0 <= k < labels.len() ==> valid_utf8(#[trigger] labels[k]),
        pos + name_emission(labels).bytes.len() <= 512,
        buf.subrange(pos, pos + name_emission(labels).bytes.len()) == name_emission(labels).bytes,
    ensures
        walk_name(buf, cursor, false, pos, fuel) == (NameWalk {
            labels,
            cursor: pos + name_emission(labels).bytes.len(),
            error: None,
        }),
        !name_emission(labels).label_too_long,
    decreases labels.len(),
{
    let w = name_emission(labels).bytes;
    assert(buf[pos] == w[0]) by {
        assert(buf.subrange(pos, pos + w.len())[0] == buf[pos]);
    }
    if labels.len() == 0 {
        assert(labels =~= Seq::<Seq<u8>>::empty());
    } else {
        let l = labels[0];
        let rest = labels.drop_first();
        let wr = name_emission(rest).bytes;
        let len = l.len() as int;
        assert(0 < len <= 63);
        assert forall|k: int| 0 <= k < rest.len() implies 0 < #[trigger] rest[k].len() <= 63
            && valid_utf8(rest[k]) by {
            assert(rest[k] == labels[k + 1]);
        }
        assert(w =~= seq![len as u8] + l + wr);
        let p1 = pos + 1 + len;
        assert(buf.subrange(pos + 1, p1) =~= l) by {
            assert forall|k: int| 0 <= k < len implies buf.subrange(pos + 1, p1)[k] == l[k] by {
                assert(buf.subrange(pos, pos + w.len())[1 + k] == w[1 + k]);
            }
        }
        assert(buf.subrange(p1, p1 + wr.len()) =~= wr) by {
            assert forall|k: int| 0 <= k < wr.len() implies buf.subrange(p1, p1 + wr.len())[k]
                == wr[k] by {
                assert(buf.subrange(pos, pos + w.len())[1 + len + k] == w[1 + len + k]);
            }
        }
        lemma_walk_wire(buf, cursor, p1, fuel, rest);
        assert(seq![l] + rest =~= labels);
    }
}

/// A plain name written at `p` reads back from `p` as the same name, with
/// the cursor just past it; writing it refuses no label.
pub proof fn lemma_name_roundtrip(s: Seq<char>, buf: Seq<u8>, p: int)
    requires
        plain_name(s),
        buf.len() == 512,
        0 <= p,
        p + name_wire(s).len() <= 512,
        buf.subrange(p, p + name_wire(s).len()) == name_wire(s),
    ensures
        read_name(buf, p) == (NameWalk {
            labels: split_labels(encode_utf8(s)),
            cursor: p + name_wire(s).len(),
            error: None,
        }),
        name_text(seq![], read_name(buf, p)) == s,
        !name_emission(split_labels(encode_utf8(s))).label_too_long,
{
    let b = encode_utf8(s);
    encode_utf8_valid_utf8(s);
    encode_utf8_decode_utf8(s);
    lemma_split_text(b);
    lemma_walk_wire(buf, p, p, MAX_JUMPS as nat, split_labels(b));
    if b.len() == 0 {
        assert(split_labels(b) =~= Seq::<Seq<u8>>::empty());
        assert(s =~= Seq::<char>::empty()) by {
            assert(b =~= Seq::<u8>::empty());
        }
    } else {
        assert(seq![] + dotted(split_labels(b)) =~= s + seq!['.']);
        assert((s + seq!['.']).drop_last() =~= s);
    }
}


/// Labels that fit are written without a refusal.
pub proof fn lemma_fit_accepted(labels: Seq<Seq<u8>>)
    requires
        labels_fit(labels),
    ensures
        !name_emission(labels).label_too_long,
    decreases labels.len(),
{
    if labels.len() > 0 {
        let rest = labels.drop_first();
        assert forall|k: int| 0 <= k < rest.len() implies 0 < #[trigger] rest[k].len() <= 63 by {
            assert(rest[k] == labels[k + 1]);
        }
        lemma_fit_accepted(rest);
    }
}


/// How the labels of a name from `pos` on end: at a zero byte, on an error, or
/// at a compression pointer to the given offset.
pub enum SegmentEnd {
    Done,
    Fail(DnsError),
    Jump(int),
}

/// How the labels of a name from `pos` on end, up to the next pointer.
pub open spec fn segment_end(buf: Seq<u8>, pos: int) -> SegmentEnd
    decreases 512 - pos,
{
    if pos < 0 || pos >= 512 || buf.len() != 512 {
        SegmentEnd::Fail(DnsError::BufferOverflow)
    } else {
        let len = buf[pos];
        if len == 0 {
            SegmentEnd::Done
        } else if len >= 0xC0 {
            if pos + 1 >= 512 {
                SegmentEnd::Fail(DnsError::BufferOverflow)
            } else {
                let offset = (len - 0xC0) * 0x100 + buf[pos + 1];
                if offset > 512 {
                    SegmentEnd::Fail(DnsError::BufferOverflow)
                } else {
                    SegmentEnd::Jump(offset)
                }
            }
        } else if pos + 1 + len > 512 {
            SegmentEnd::Fail(DnsError::BufferOverflow)
        } else if !valid_utf8(buf.subrange(pos + 1, pos + 1 + len)) {
            SegmentEnd::Fail(DnsError::InvalidUtf8Label)
        } else {
            segment_end(buf, pos + 1 + len)
        }
    }
}

/// Whether `k` pointers can be followed one after another from `t`.
pub open spec fn hops(buf: Seq<u8>, t: int, k: nat) -> bool
    decreases k,
{
    k == 0 || match segment_end(buf, t) {
        SegmentEnd::Jump(u) => hops(buf, u, (k - 1) as nat),
        _ => false,
    }
}

/// Where the name continues after `k` pointers followed from `t`.
pub open spec fn nth_hop(buf: Seq<u8>, t: int, k: nat) -> int
    decreases k,
{
    if k == 0 {
        t
    } else {
        match segment_end(buf, t) {
            SegmentEnd::Jump(u) => nth_hop(buf, u, (k - 1) as nat),
            _ => t,
        }
    }
}

/// The error a name walk ends with depends only on how its segments end.
proof fn lemma_walk_error(buf: Seq<u8>, cursor: int, jumped: bool, pos: int, fuel: nat)
    ensures
        walk_name(buf, cursor, jumped, pos, fuel).error == match segment_end(buf, pos) {
            SegmentEnd::Done => None,
            SegmentEnd::Fail(e) => Some(e),
            SegmentEnd::Jump(t) => if fuel == 0 {
                Some(DnsError::PointerLoop)
            } else {
                walk_name(buf, t, false, t, (fuel - 1) as nat).error
            },
        },
    decreases 512 - pos,
{
    if 0 <= pos < 512 && buf.len() == 512 {
        let len = buf[pos];
        if len >= 0xC0 {
            if pos + 1 < 512 && fuel > 0 {
                let offset = (len - 0xC0) * 0x100 + buf[pos + 1];
                let after = if jumped { cursor } else { pos + 2 };
                lemma_walk_cursor_free(buf, after, true, offset, false, offset, (fuel - 1) as nat);
            }
        } else if len != 0 && pos + 1 + len <= 512 && valid_utf8(
            buf.subrange(pos + 1, pos + 1 + len),
        ) {
            lemma_walk_error(buf, cursor, jumped, pos + 1 + len, fuel);
        }
    }
}

/// A walk from a segment start is refused as a loop exactly when one more
/// pointer than it may follow can be followed from there.
proof fn lemma_loop_hops(buf: Seq<u8>, t: int, fuel: nat)
    ensures
        walk_name(buf, t, false, t, fuel).error == Some(DnsError::PointerLoop) <==> hops(
            buf,
            t,
            fuel + 1,
        ),
    decreases fuel,
{
    lemma_walk_error(buf, t, false, t, fuel);
    lemma_segment_fails_plainly(buf, t);
    if let SegmentEnd::Jump(u) = segment_end(buf, t) {
        assert(hops(buf, t, fuel + 1) == hops(buf, u, fuel));
        if fuel > 0 {
            lemma_loop_hops(buf, u, (fuel - 1) as nat);
            assert((fuel - 1) as nat + 1 == fuel);
        }
    }
}

/// Following `a` pointers and then `b` is following `a + b`.
proof fn lemma_hops_split(buf: Seq<u8>, t: int, a: nat, b: nat)
    requires
        hops(buf, t, a),
    ensures
        hops(buf, t, a + b) == hops(buf, nth_hop(buf, t, a), b),
        nth_hop(buf, t, a + b) == nth_hop(buf, nth_hop(buf, t, a), b),
    decreases a,
{
    if a > 0 {
        if let SegmentEnd::Jump(u) = segment_end(buf, t) {
            lemma_hops_split(buf, u, (a - 1) as nat, b);
            assert((a + b - 1) as nat == ((a - 1) as nat + b) as nat);
        }
    }
}

/// Where `n` pointers can be followed, fewer can too.
proof fn lemma_hops_fewer(buf: Seq<u8>, t: int, n: nat, m: nat)
    requires
        hops(buf, t, n),
        m <= n,
    ensures
        hops(buf, t, m),
    decreases m,
{
    if m > 0 {
        if let SegmentEnd::Jump(u) = segment_end(buf, t) {
            lemma_hops_fewer(buf, u, (n - 1) as nat, (m - 1) as nat);
        }
    }
}

/// Pointers that lead back to where they started can be followed without end.
proof fn lemma_cycle_hops(buf: Seq<u8>, u: int, d: nat, n: nat)
    requires
        d > 0,
        hops(buf, u, d),
        nth_hop(buf, u, d) == u,
    ensures
        hops(buf, u, n),
    decreases n,
{
    if n <= d {
        lemma_hops_fewer(buf, u, d, n);
    } else {
        lemma_cycle_hops(buf, u, d, (n - d) as nat);
        lemma_hops_split(buf, u, d, (n - d) as nat);
    }
}

/// Each place a followed pointer leads to lies in the buffer.
proof fn lemma_hop_targets(buf: Seq<u8>, t: int, n: nat, k: nat)
    requires
        hops(buf, t, n),
        1 <= k <= n,
    ensures
        0 <= nth_hop(buf, t, k) <= 512,
    decreases k,
{
    if let SegmentEnd::Jump(u) = segment_end(buf, t) {
        lemma_segment_target(buf, t);
        assert(nth_hop(buf, t, k) == nth_hop(buf, u, (k - 1) as nat));
        if k > 1 {
            lemma_hop_targets(buf, u, (n - 1) as nat, (k - 1) as nat);
        }
    }
}

/// Labels fail only for running past the buffer or for invalid UTF-8.
proof fn lemma_segment_fails_plainly(buf: Seq<u8>, pos: int)
    ensures
        segment_end(buf, pos) matches SegmentEnd::Fail(e) ==> e != DnsError::PointerLoop,
    decreases 512 - pos,
{
    if 0 <= pos < 512 && buf.len() == 512 {
        let len = buf[pos];
        if len != 0 && len < 0xC0 && pos + 1 + len <= 512 {
            lemma_segment_fails_plainly(buf, pos + 1 + len);
        }
    }
}

/// A pointer leads to an offset in the buffer.
proof fn lemma_segment_target(buf: Seq<u8>, pos: int)
    ensures
        segment_end(buf, pos) matches SegmentEnd::Jump(u) ==> 0 <= u <= 512,
    decreases 512 - pos,
{
    if 0 <= pos < 512 && buf.len() == 512 {
        let len = buf[pos];
        if len != 0 && len < 0xC0 && pos + 1 + len <= 512 {
            lemma_segment_target(buf, pos + 1 + len);
        }
    }
}

/// A name refused for its pointers leads round in a circle: however many
/// pointers a reader were allowed to follow, it would be refused all the same,
/// so following its pointers never ends.
pub proof fn lemma_pointer_loop_endless(buf: Seq<u8>, pos: int, fuel: nat)
    requires
        read_name(buf, pos).error == Some(DnsError::PointerLoop),
    ensures
        walk_name(buf, pos, false, pos, fuel).error == Some(DnsError::PointerLoop),
{
    let n: nat = (MAX_JUMPS + 1) as nat;
    lemma_loop_hops(buf, pos, MAX_JUMPS as nat);
    // The places the first n pointers lead to lie in 0..=512, so two are the same.
    let targets = Seq::new(n, |k: int| nth_hop(buf, pos, (k + 1) as nat));
    assert forall|k: int| 0 <= k < n implies 0 <= #[trigger] targets[k] <= 512 by {
        lemma_hop_targets(buf, pos, n, (k + 1) as nat);
    }
    assert(!targets.no_duplicates()) by {
        if targets.no_duplicates() {
            targets.unique_seq_to_set();
            vstd::set_lib::lemma_int_range(0, 513);
            assert(targets.to_set().subset_of(vstd::set_lib::set_int_range(0, 513)));
            vstd::set_lib::lemma_len_subset(
                targets.to_set(),
                vstd::set_lib::set_int_range(0, 513),
            );
        }
    }
    let (i, j) = choose|i: int, j: int|
        0 <= i < n && 0 <= j < n && i != j && targets[i] == targets[j];
    let a: nat = if i < j {
        (i + 1) as nat
    } else {
        (j + 1) as nat
    };
    let b: nat = if i < j {
        (j + 1) as nat
    } else {
        (i + 1) as nat
    };
    let u = nth_hop(buf, pos, a);
    lemma_hops_fewer(buf, pos, n, a);
    lemma_hops_fewer(buf, pos, n, b);
    lemma_hops_split(buf, pos, a, (b - a) as nat);
    assert(a + (b - a) as nat == b);
    assert(nth_hop(buf, pos, a) == targets[a - 1]);
    assert(nth_hop(buf, pos, b) == targets[b - 1]);
    lemma_cycle_hops(buf, u, (b - a) as nat, fuel + 1);
    if fuel + 1 <= a {
        lemma_hops_fewer(buf, pos, a, fuel + 1);
    } else {
        lemma_cycle_hops(buf, u, (b - a) as nat, (fuel + 1 - a) as nat);
        lemma_hops_split(buf, pos, a, (fuel + 1 - a) as nat);
    }
    lemma_loop_hops(buf, pos, fuel);
}



/// The bytes of `labels` as they stand in a name, each after the byte that
/// holds its length, with nothing to end them.
pub open spec fn label_run(labels: Seq<Seq<u8>>) -> Seq<u8>
    decreases labels.len(),
{
    if labels.len() == 0 {
        seq![]
    } else {
        seq![labels[0].len() as u8] + labels[0] + label_run(labels.drop_first())
    }
}

/// Labels a reader takes as labels: each non-empty, shorter than 0xC0 bytes
/// (so that its length byte is no pointer), and valid UTF-8.
pub open spec fn labels_readable(labels: Seq<Seq<u8>>) -> bool {
    forall|k: int|
        0 <= k < labels.len() ==> 0 < #[trigger] labels[k].len() < 0xC0 && valid_utf8(labels[k])
}

/// A walk from a place in the buffer leaves the cursor in it or past it.
pub(crate) proof fn lemma_walk_cursor_nonneg(buf: Seq<u8>, cursor: int, jumped: bool, pos: int, fuel: nat)
    requires
        0 <= cursor,
        0 <= pos,
    ensures
        0 <= walk_name(buf, cursor, jumped, pos, fuel).cursor,
    decreases fuel, 512 - pos,
{
    if 0 <= pos < 512 && buf.len() == 512 {
        let len = buf[pos];
        if len >= 0xC0 {
            if pos + 1 < 512 && fuel > 0 {
                let offset = (len - 0xC0) * 0x100 + buf[pos + 1];
                let after = if jumped { cursor } else { pos + 2 };
                lemma_walk_cursor_nonneg(buf, after, true, offset, (fuel - 1) as nat);
            }
        } else if len != 0 && pos + 1 + len <= 512 {
            lemma_walk_cursor_nonneg(buf, cursor, jumped, pos + 1 + len, fuel);
        }
    }
}

/// A walk that has followed a pointer leaves the cursor where that pointer put it.
proof fn lemma_jumped_cursor(buf: Seq<u8>, cursor: int, pos: int, fuel: nat)
    ensures
        walk_name(buf, cursor, true, pos, fuel).cursor == cursor,
    decreases fuel, 512 - pos,
{
    if 0 <= pos < 512 && buf.len() == 512 {
        let len = buf[pos];
        if len >= 0xC0 {
            if pos + 1 < 512 && fuel > 0 {
                let offset = (len - 0xC0) * 0x100 + buf[pos + 1];
                lemma_jumped_cursor(buf, cursor, offset, (fuel - 1) as nat);
            }
        } else if len != 0 && pos + 1 + len <= 512 {
            lemma_jumped_cursor(buf, cursor, pos + 1 + len, fuel);
        }
    }
}

/// Two walks from the same place that are not refused as loops read the same
/// labels and end the same way, whatever pointers each could still follow.
proof fn lemma_walk_fuel_free(
    buf: Seq<u8>,
    c1: int,
    j1: bool,
    c2: int,
    j2: bool,
    pos: int,
    f1: nat,
    f2: nat,
)
    requires
        walk_name(buf, c1, j1, pos, f1).error != Some(DnsError::PointerLoop),
        walk_name(buf, c2, j2, pos, f2).error != Some(DnsError::PointerLoop),
    ensures
        walk_name(buf, c1, j1, pos, f1).labels == walk_name(buf, c2, j2, pos, f2).labels,
        walk_name(buf, c1, j1, pos, f1).error == walk_name(buf, c2, j2, pos, f2).error,
    decreases f1, 512 - pos,
{
    if 0 <= pos < 512 && buf.len() == 512 {
        let len = buf[pos];
        if len >= 0xC0 {
            if pos + 1 < 512 {
                let offset = (len - 0xC0) * 0x100 + buf[pos + 1];
                if offset <= 512 {
                    let a1 = if j1 { c1 } else { pos + 2 };
                    let a2 = if j2 { c2 } else { pos + 2 };
                    lemma_walk_fuel_free(
                        buf,
                        a1,
                        true,
                        a2,
                        true,
                        offset,
                        (f1 - 1) as nat,
                        (f2 - 1) as nat,
                    );
                }
            }
        } else if len != 0 && pos + 1 + len <= 512 && valid_utf8(
            buf.subrange(pos + 1, pos + 1 + len),
        ) {
            lemma_walk_fuel_free(buf, c1, j1, c2, j2, pos + 1 + len, f1, f2);
        }
    }
}

/// A walk over a run of labels reads them, then goes on as a walk from the
/// end of the run.
proof fn lemma_walk_run(
    buf: Seq<u8>,
    cursor: int,
    jumped: bool,
    pos: int,
    fuel: nat,
    labels: Seq<Seq<u8>>,
)
    requires
        buf.len() == 512,
        0 <= pos,
        labels_readable(labels),
        pos + label_run(labels).len() <= 512,
        buf.subrange(pos, pos + label_run(labels).len()) == label_run(labels),
    ensures
        ({
            let after = walk_name(buf, cursor, jumped, pos + label_run(labels).len(), fuel);
            walk_name(buf, cursor, jumped, pos, fuel) == NameWalk {
                labels: labels + after.labels,
                cursor: after.cursor,
                error: after.error,
            }
        }),
    decreases labels.len(),
{
    let run = label_run(labels);
    if labels.len() == 0 {
        assert(labels + walk_name(buf, cursor, jumped, pos, fuel).labels =~= walk_name(
            buf,
            cursor,
            jumped,
            pos,
            fuel,
        ).labels);
    } else {
        let l = labels[0];
        let rest = labels.drop_first();
        let rr = label_run(rest);
        let len = l.len() as int;
        assert(0 < len < 0xC0 && valid_utf8(l));
        assert forall|k: int| 0 <= k < rest.len() implies 0 < #[trigger] rest[k].len() < 0xC0
            && valid_utf8(rest[k]) by {
            assert(rest[k] == labels[k + 1]);
        }
        assert(run =~= seq![len as u8] + l + rr);
        assert(buf[pos] == len) by {
            assert(buf.subrange(pos, pos + run.len())[0] == buf[pos]);
        }
        let p1 = pos + 1 + len;
        assert(buf.subrange(pos + 1, p1) =~= l) by {
            assert forall|k: int| 0 <= k < len implies buf.subrange(pos + 1, p1)[k] == l[k] by {
                assert(buf.subrange(pos, pos + run.len())[1 + k] == run[1 + k]);
            }
        }
        assert(buf.subrange(p1, p1 + rr.len()) =~= rr) by {
            assert forall|k: int| 0 <= k < rr.len() implies buf.subrange(p1, p1 + rr.len())[k]
                == rr[k] by {
                assert(buf.subrange(pos, pos + run.len())[1 + len + k] == run[1 + len + k]);
            }
        }
        lemma_walk_run(buf, cursor, jumped, p1, fuel, rest);
        let after = walk_name(buf, cursor, jumped, p1 + rr.len(), fuel);
        assert(p1 + rr.len() == pos + run.len());
        assert(seq![l] + (rest + after.labels) =~= labels + after.labels);
    }
}

/// However the pointers from `t` run, they cannot be followed exactly as many
/// times as a reader allows and then stop: followed that often, they must have
/// come round in a circle.
proof fn lemma_hops_past_limit(buf: Seq<u8>, t: int)
    requires
        0 <= t <= 512,
        hops(buf, t, MAX_JUMPS as nat),
    ensures
        hops(buf, t, (MAX_JUMPS + 1) as nat),
{
    let m: nat = MAX_JUMPS as nat;
    let n: nat = (MAX_JUMPS + 1) as nat;
    // The places reached after 0, 1, ..., m pointers lie in 0..=512, so two are the same.
    let places = Seq::new(n, |k: int| nth_hop(buf, t, k as nat));
    assert forall|k: int| 0 <= k < n implies 0 <= #[trigger] places[k] <= 512 by {
        if k > 0 {
            lemma_hop_targets(buf, t, m, k as nat);
        }
    }
    assert(!places.no_duplicates()) by {
        if places.no_duplicates() {
            places.unique_seq_to_set();
            vstd::set_lib::lemma_int_range(0, 513);
            assert(places.to_set().subset_of(vstd::set_lib::set_int_range(0, 513)));
            vstd::set_lib::lemma_len_subset(
                places.to_set(),
                vstd::set_lib::set_int_range(0, 513),
            );
        }
    }
    let (i, j) = choose|i: int, j: int|
        0 <= i < n && 0 <= j < n && i != j && places[i] == places[j];
    let a: nat = if i < j {
        i as nat
    } else {
        j as nat
    };
    let b: nat = if i < j {
        j as nat
    } else {
        i as nat
    };
    let u = nth_hop(buf, t, a);
    lemma_hops_fewer(buf, t, m, a);
    lemma_hops_fewer(buf, t, m, b);
    lemma_hops_split(buf, t, a, (b - a) as nat);
    assert(a + (b - a) as nat == b);
    assert(nth_hop(buf, t, a) == places[a as int]);
    assert(nth_hop(buf, t, b) == places[b as int]);
    lemma_cycle_hops(buf, u, (b - a) as nat, (n - a) as nat);
    lemma_hops_split(buf, t, a, (n - a) as nat);
    assert(a + (n - a) as nat == n);
}

/// Following a compression pointer loses no labels. Where the name at `pos`
/// is the labels `labels` and then a pointer, whose target `t` is the low six
/// bits of its first byte times 256 plus its second byte, the name reads as
/// those labels followed by all that the name at `t` reads, however many
/// pointers that one follows in turn; it ends as the name at `t` ends, and
/// leaves the cursor just past the pointer.
pub proof fn lemma_pointer_keeps_labels(
    buf: Seq<u8>,
    pos: int,
    labels: Seq<Seq<u8>>,
    q: int,
    t: int,
)
    requires
        buf.len() == 512,
        0 <= pos,
        labels_readable(labels),
        q == pos + label_run(labels).len(),
        q + 2 <= 512,
        buf.subrange(pos, q) == label_run(labels),
        buf[q] >= 0xC0,
        t == (buf[q] - 0xC0) * 256 + buf[q + 1],
        t <= 512,
    ensures
        read_name(buf, pos).cursor == q + 2,
        read_name(buf, pos).error == read_name(buf, t).error,
        read_name(buf, t).error != Some(DnsError::PointerLoop) ==> read_name(buf, pos).labels
            == labels + read_name(buf, t).labels,
{
    let m: nat = MAX_JUMPS as nat;
    lemma_walk_run(buf, pos, false, pos, m, labels);
    let from_t = walk_name(buf, q + 2, true, t, (m - 1) as nat);
    assert(walk_name(buf, pos, false, q, m) == from_t);
    lemma_jumped_cursor(buf, q + 2, t, (m - 1) as nat);
    lemma_walk_cursor_free(buf, q + 2, true, t, false, t, (m - 1) as nat);
    if read_name(buf, t).error == Some(DnsError::PointerLoop) {
        lemma_pointer_loop_endless(buf, t, (m - 1) as nat);
    } else {
        lemma_loop_hops(buf, t, m);
        lemma_loop_hops(buf, t, (m - 1) as nat);
        assert((m - 1) as nat + 1 == m);
        if hops(buf, t, m) {
            lemma_hops_past_limit(buf, t);
        }
        lemma_walk_fuel_free(buf, q + 2, true, t, false, t, (m - 1) as nat, m);
    }
}

/// A pointer leads to the name written where it points: where `pos` holds a
/// pointer whose target `t` is the low six bits of its first byte times 256
/// plus its second byte, and a plain name is written at `t`, the name read at
/// `pos` is that name, and the cursor ends just past the pointer.
pub proof fn lemma_pointer_reads_target(buf: Seq<u8>, pos: int, t: int, s: Seq<char>)
    requires
        buf.len() == 512,
        0 <= pos,
        pos + 2 <= 512,
        buf[pos] >= 0xC0,
        t == (buf[pos] - 0xC0) * 256 + buf[pos + 1],
        plain_name(s),
        t + name_wire(s).len() <= 512,
        buf.subrange(t, t + name_wire(s).len()) == name_wire(s),
    ensures
        read_name(buf, pos) == (NameWalk {
            labels: split_labels(encode_utf8(s)),
            cursor: pos + 2,
            error: None,
        }),
        name_text(seq![], read_name(buf, pos)) == s,
{
    let none: Seq<Seq<u8>> = seq![];
    assert(label_run(none) =~= seq![]);
    assert(buf.subrange(pos, pos) =~= label_run(none));
    lemma_name_roundtrip(s, buf, t);
    lemma_pointer_keeps_labels(buf, pos, none, pos, t);
    assert(none + read_name(buf, t).labels =~= read_name(buf, t).labels);
}

} // verus!
