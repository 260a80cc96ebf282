//! The binary form of stored values: a subset of CBOR with definite lengths
//! and shortest heads. Texts, unsigned numbers, and records and lists built
//! from them are written here; reading accepts exactly what writing produces.

use vstd::prelude::*;
use vstd::utf8::*;
use crate::text::{from_utf8, starts_with};
use crate::tree::has_prefix;

verus! {

/// Major type of an unsigned number.
pub const MAJOR_UINT: u8 = 0;

/// Major type of a text.
pub const MAJOR_TEXT: u8 = 3;

/// Major type of a list.
pub const MAJOR_LIST: u8 = 4;

/// Major type of a record.
pub const MAJOR_RECORD: u8 = 5;

/// A number without its lowest byte.
pub open spec fn upper(n: u64) -> u64 {
    n / 0x100
}

/// The lowest byte of a number.
pub open spec fn lowest(n: u64) -> u8 {
    (n % 0x100) as u8
}

/// A number without its `k` lowest bytes.
pub open spec fn shifted(n: u64, k: nat) -> u64
    decreases k,
{
    if k == 0 {
        n
    } else {
        upper(shifted(n, (k - 1) as nat))
    }
}

/// Byte `k` of a number, counted from the lowest.
pub open spec fn byte_at(n: u64, k: nat) -> u8 {
    lowest(shifted(n, k))
}

/// The number made of the bytes of `n` followed by the byte `b`.
pub open spec fn join(n: int, b: u8) -> int {
    n * 0x100 + b
}

/// The head of a data item: its major type in the upper three bits of the
/// first byte, and its argument `n` in the shortest of the five forms, the
/// highest byte first.
#[verifier::opaque]
pub open spec fn head(major: u8, n: u64) -> Seq<u8> {
    let m = major as int * 32;
    if n < 24 {
        seq![(m + n) as u8]
    } else if n < 0x100 {
        seq![(m + 24) as u8, lowest(n)]
    } else if n < 0x1_0000 {
        seq![(m + 25) as u8, byte_at(n, 1), byte_at(n, 0)]
    } else if n < 0x1_0000_0000 {
        seq![(m + 26) as u8, byte_at(n, 3), byte_at(n, 2), byte_at(n, 1), byte_at(n, 0)]
    } else {
        seq![
            (m + 27) as u8,
            byte_at(n, 7),
            byte_at(n, 6),
            byte_at(n, 5),
            byte_at(n, 4),
            byte_at(n, 3),
            byte_at(n, 2),
            byte_at(n, 1),
            byte_at(n, 0),
        ]
    }
}

/// The number that the bytes `b[1..=count]` stand for, the highest first.
pub open spec fn argument(b: Seq<u8>, count: int) -> int
    decreases count,
{
    if count <= 0 {
        0
    } else {
        join(argument(b, count - 1), b[count])
    }
}

/// Reads a head: the major type, the argument, and the bytes that follow.
/// A head that is cut short, that uses a reserved form, or that is longer
/// than its argument needs, is refused.
#[verifier::opaque]
pub open spec fn parse_head(b: Seq<u8>) -> Option<(u8, u64, Seq<u8>)> {
    if b.len() == 0 {
        None
    } else {
        let major = b[0] / 32;
        let info = b[0] % 32;
        if info < 24 {
            Some((major, info as u64, b.skip(1)))
        } else if info == 24 {
            if b.len() >= 2 && b[1] >= 24 {
                Some((major, b[1] as u64, b.skip(2)))
            } else {
                None
            }
        } else if info == 25 {
            if b.len() >= 3 && argument(b, 2) >= 0x100 {
                Some((major, argument(b, 2) as u64, b.skip(3)))
            } else {
                None
            }
        } else if info == 26 {
            if b.len() >= 5 && argument(b, 4) >= 0x1_0000 {
                Some((major, argument(b, 4) as u64, b.skip(5)))
            } else {
                None
            }
        } else if info == 27 {
            if b.len() >= 9 && argument(b, 8) >= 0x1_0000_0000 {
                Some((major, argument(b, 8) as u64, b.skip(9)))
            } else {
                None
            }
        } else {
            None
        }
    }
}

/// The argument of a head is below 256 to the power of its length.
pub proof fn lemma_argument_bound(b: Seq<u8>)
    ensures
        0 <= argument(b, 1) < 0x100,
        0 <= argument(b, 2) < 0x1_0000,
        0 <= argument(b, 3) < 0x100_0000,
        0 <= argument(b, 4) < 0x1_0000_0000,
        0 <= argument(b, 5) < 0x100_0000_0000,
        0 <= argument(b, 6) < 0x1_0000_0000_0000,
        0 <= argument(b, 7) < 0x100_0000_0000_0000,
        0 <= argument(b, 8) < 0x1_0000_0000_0000_0000,
{
    reveal_with_fuel(argument, 9);
}

/// A head that was written is read back, with what follows it.
pub proof fn lemma_head_round_trip(major: u8, n: u64, rest: Seq<u8>)
    requires
        major < 8,
    ensures
        parse_head(head(major, n) + rest) == Some((major, n, rest)),
{
    reveal(head);
    reveal(parse_head);
    let b = head(major, n) + rest;
    let h = head(major, n);
    assert(b[0] == h[0]);
    assert(b.skip(h.len() as int) =~= rest);
    assert forall|i: int| 0 <= i < h.len() implies b[i] == h[i] by {}
    if n < 24 {
    } else if n < 0x100 {
        assert(b[1] == h[1]);
    } else if n < 0x1_0000 {
        assert(b[1] == h[1] && b[2] == h[2]);
        reveal_with_fuel(argument, 3);
        reveal_with_fuel(shifted, 3);
        assert(argument(b, 1) == shifted(n, 1));
        assert(argument(b, 2) == n);
    } else if n < 0x1_0000_0000 {
        assert(b[1] == h[1] && b[2] == h[2] && b[3] == h[3] && b[4] == h[4]);
        reveal_with_fuel(argument, 5);
        reveal_with_fuel(shifted, 5);
        assert(argument(b, 1) == shifted(n, 3));
        assert(argument(b, 2) == shifted(n, 2));
        assert(argument(b, 3) == shifted(n, 1));
        assert(argument(b, 4) == n);
    } else {
        assert(b[1] == h[1] && b[2] == h[2] && b[3] == h[3] && b[4] == h[4]);
        assert(b[5] == h[5] && b[6] == h[6] && b[7] == h[7] && b[8] == h[8]);
        reveal_with_fuel(argument, 9);
        reveal_with_fuel(shifted, 9);
        assert(argument(b, 1) == shifted(n, 7));
        assert(argument(b, 2) == shifted(n, 6));
        assert(argument(b, 3) == shifted(n, 5));
        assert(argument(b, 4) == shifted(n, 4));
        assert(argument(b, 5) == shifted(n, 3));
        assert(argument(b, 6) == shifted(n, 2));
        assert(argument(b, 7) == shifted(n, 1));
        assert(argument(b, 8) == n);
    }
}

/// Appends the head of a data item.
pub fn write_head(out: &mut Vec<u8>, major: u8, n: u64)
    requires
        major < 8,
    ensures
        final(out)@ == old(out)@ + head(major, n),
{
    proof {
        reveal(head);
    }
    let m: u8 = major * 32;
    if n < 24 {
        out.push(m + (n as u8));
    } else if n < 0x100 {
        out.push(m + 24);
        out.push(n as u8);
    } else if n < 0x1_0000 {
        out.push(m + 25);
        out.push((n / 0x100 % 0x100) as u8);
        out.push((n % 0x100) as u8);
    } else if n < 0x1_0000_0000 {
        let n1 = n / 0x100;
        let n2 = n1 / 0x100;
        let n3 = n2 / 0x100;
        out.push(m + 26);
        out.push((n3 % 0x100) as u8);
        out.push((n2 % 0x100) as u8);
        out.push((n1 % 0x100) as u8);
        out.push((n % 0x100) as u8);
    } else {
        let n1 = n / 0x100;
        let n2 = n1 / 0x100;
        let n3 = n2 / 0x100;
        let n4 = n3 / 0x100;
        let n5 = n4 / 0x100;
        let n6 = n5 / 0x100;
        let n7 = n6 / 0x100;
        out.push(m + 27);
        out.push((n7 % 0x100) as u8);
        out.push((n6 % 0x100) as u8);
        out.push((n5 % 0x100) as u8);
        out.push((n4 % 0x100) as u8);
        out.push((n3 % 0x100) as u8);
        out.push((n2 % 0x100) as u8);
        out.push((n1 % 0x100) as u8);
        out.push((n % 0x100) as u8);
    }
    proof {
        reveal_with_fuel(shifted, 9);
        assert(final(out)@ =~= old(out)@ + head(major, n));
    }
}

/// Reads the argument bytes `b[pos + 1..=pos + count]` of a head.
fn read_argument(b: &[u8], pos: usize, count: usize) -> (r: u64)
    requires
        count <= 8,
        pos + count < b@.len(),
    ensures
        r == argument(b@.skip(pos as int), count as int),
{
    let ghost s = b@.skip(pos as int);
    let len = b.len();
    let mut n: u64 = 0;
    let mut i: usize = 0;
    proof {
        lemma_argument_bound(s);
        reveal_with_fuel(argument, 9);
    }
    while i < count
        invariant
            i <= count <= 8,
            pos + count < b@.len(),
            len == b@.len(),
            s == b@.skip(pos as int),
            n == argument(s, i as int),
        decreases count - i,
    {
        proof {
            lemma_argument_bound(s);
            reveal_with_fuel(argument, 9);
            assert(s[i as int + 1] == b@[pos + i + 1]);
            assert(argument(s, i as int + 1) == join(argument(s, i as int), s[i as int + 1]));
        }
        n = n * 0x100 + (b[pos + i + 1] as u64);
        i += 1;
    }
    n
}

/// Reads the head at `pos`: the major type, the argument, and the position
/// after the head.
pub fn read_head(b: &[u8], pos: usize) -> (r: Option<(u8, u64, usize)>)
    requires
        pos <= b@.len(),
    ensures
        match r {
            Some((major, n, next)) => pos < next <= b@.len() && parse_head(b@.skip(pos as int))
                == Some((major, n, b@.skip(next as int))),
            None => parse_head(b@.skip(pos as int)) is None,
        },
{
    proof {
        reveal(parse_head);
    }
    let ghost s = b@.skip(pos as int);
    let left = b.len() - pos;
    if left == 0 {
        return None;
    }
    let first = b[pos];
    let major = first / 32;
    let info = first % 32;
    proof {
        assert(s[0] == first);
        assert forall|k: int| 0 <= k <= s.len() implies #[trigger] s.skip(k) =~= b@.skip(pos + k) by {}
        lemma_argument_bound(s);
    }
    if info < 24 {
        Some((major, info as u64, pos + 1))
    } else if info == 24 {
        if left >= 2 && b[pos + 1] >= 24 {
            assert(s[1] == b@[pos + 1]);
            Some((major, b[pos + 1] as u64, pos + 2))
        } else {
            assert(left >= 2 ==> s[1] == b@[pos + 1]);
            None
        }
    } else if info <= 27 {
        let count: usize = if info == 25 {
            2
        } else if info == 26 {
            4
        } else {
            8
        };
        let least: u64 = if info == 25 {
            0x100
        } else if info == 26 {
            0x1_0000
        } else {
            0x1_0000_0000
        };
        if left > count {
            let n = read_argument(b, pos, count);
            if n >= least {
                Some((major, n, pos + 1 + count))
            } else {
                None
            }
        } else {
            None
        }
    } else {
        None
    }
}

/// What is left of `b` after the bytes `prefix`, if `b` starts with them.
pub open spec fn skip_bytes(b: Seq<u8>, prefix: Seq<u8>) -> Option<Seq<u8>> {
    if starts_with(b, prefix) {
        Some(b.skip(prefix.len() as int))
    } else {
        None
    }
}

/// What is left after a value that was read.
pub open spec fn rest<T>(read: Option<(T, Seq<u8>)>) -> Option<Seq<u8>> {
    match read {
        Some((_, r)) => Some(r),
        None => None,
    }
}

/// The binary form of a text: a head with the number of its UTF-8 bytes, then
/// the bytes.
#[verifier::opaque]
pub open spec fn text(s: Seq<char>) -> Seq<u8> {
    head(MAJOR_TEXT, encode_utf8(s).len() as u64) + encode_utf8(s)
}

/// Reads a text and gives what follows it.
#[verifier::opaque]
pub open spec fn parse_text(b: Seq<u8>) -> Option<(Seq<char>, Seq<u8>)> {
    match parse_head(b) {
        Some((major, n, after)) => if major == MAJOR_TEXT && n <= after.len() && valid_utf8(
            after.take(n as int),
        ) {
            Some((decode_utf8(after.take(n as int)), after.skip(n as int)))
        } else {
            None
        },
        None => None,
    }
}

/// Reads the text that stands under the key `key`.
pub open spec fn parse_field(from: Option<Seq<u8>>, key: Seq<char>) -> Option<
    (Seq<char>, Seq<u8>),
> {
    match from {
        Some(b) => match skip_bytes(b, text(key)) {
            Some(after) => parse_text(after),
            None => None,
        },
        None => None,
    }
}

/// Reads the unsigned number that stands under the key `key`.
pub open spec fn parse_number(from: Option<Seq<u8>>, key: Seq<char>) -> Option<(u64, Seq<u8>)> {
    match from {
        Some(b) => match skip_bytes(b, text(key)) {
            Some(after) => match parse_head(after) {
                Some((major, n, r)) => if major == MAJOR_UINT {
                    Some((n, r))
                } else {
                    None
                },
                None => None,
            },
            None => None,
        },
        None => None,
    }
}

/// The binary form of a record of two texts under the keys `k1` and `k2`.
#[verifier::opaque]
pub open spec fn pair(k1: Seq<char>, k2: Seq<char>, p: (Seq<char>, Seq<char>)) -> Seq<u8> {
    head(MAJOR_RECORD, 2) + text(k1) + text(p.0) + text(k2) + text(p.1)
}

/// Reads a record of two texts.
#[verifier::opaque]
pub open spec fn parse_pair(k1: Seq<char>, k2: Seq<char>, b: Seq<u8>) -> Option<
    ((Seq<char>, Seq<char>), Seq<u8>),
> {
    let first = parse_field(skip_bytes(b, head(MAJOR_RECORD, 2)), k1);
    let second = parse_field(rest(first), k2);
    if second is Some {
        Some(((first.unwrap().0, second.unwrap().0), second.unwrap().1))
    } else {
        None
    }
}

/// The binary forms of some records of two texts, one after the other.
pub open spec fn pairs(k1: Seq<char>, k2: Seq<char>, ps: Seq<(Seq<char>, Seq<char>)>) -> Seq<u8>
    decreases ps.len(),
{
    if ps.len() == 0 {
        Seq::empty()
    } else {
        pairs(k1, k2, ps.drop_last()) + pair(k1, k2, ps.last())
    }
}

/// Reads `count` records of two texts.
pub open spec fn parse_pairs(k1: Seq<char>, k2: Seq<char>, b: Seq<u8>, count: nat) -> Option<
    (Seq<(Seq<char>, Seq<char>)>, Seq<u8>),
>
    decreases count,
{
    if count == 0 {
        Some((Seq::empty(), b))
    } else {
        match parse_pair(k1, k2, b) {
            Some((p, after)) => match parse_pairs(k1, k2, after, (count - 1) as nat) {
                Some((more, r)) => Some((seq![p] + more, r)),
                None => None,
            },
            None => None,
        }
    }
}

/// The binary form of a list of records of two texts: a head with their
/// number, then the records.
pub open spec fn pair_list(k1: Seq<char>, k2: Seq<char>, ps: Seq<(Seq<char>, Seq<char>)>) -> Seq<
    u8,
> {
    head(MAJOR_LIST, ps.len() as u64) + pairs(k1, k2, ps)
}

/// Reads a list of records of two texts.
pub open spec fn parse_pair_list(k1: Seq<char>, k2: Seq<char>, from: Option<Seq<u8>>) -> Option<
    (Seq<(Seq<char>, Seq<char>)>, Seq<u8>),
> {
    match from {
        Some(b) => match parse_head(b) {
            Some((major, n, after)) => if major == MAJOR_LIST {
                parse_pairs(k1, k2, after, n as nat)
            } else {
                None
            },
            None => None,
        },
        None => None,
    }
}

/// Bytes that were written are skipped.
pub proof fn lemma_skip_round_trip(prefix: Seq<u8>, after: Seq<u8>)
    ensures
        skip_bytes(prefix + after, prefix) == Some(after),
{
    assert((prefix + after).subrange(0, prefix.len() as int) =~= prefix);
    assert((prefix + after).skip(prefix.len() as int) =~= after);
}

/// A text that was written is read back, with what follows it.
pub proof fn lemma_text_round_trip(s: Seq<char>, after: Seq<u8>)
    requires
        encode_utf8(s).len() <= u64::MAX,
    ensures
        parse_text(text(s) + after) == Some((s, after)),
{
    reveal(text);
    reveal(parse_text);
    let bytes = encode_utf8(s);
    let n = bytes.len() as u64;
    assert(text(s) + after =~= head(MAJOR_TEXT, n) + (bytes + after));
    lemma_head_round_trip(MAJOR_TEXT, n, bytes + after);
    assert((bytes + after).take(n as int) =~= bytes);
    assert((bytes + after).skip(n as int) =~= after);
    encode_utf8_valid_utf8(s);
    encode_utf8_decode_utf8(s);
}

/// A key, the text under it, and what follows.
pub open spec fn field(key: Seq<char>, s: Seq<char>, after: Seq<u8>) -> Seq<u8> {
    text(key) + text(s) + after
}

/// A key, the unsigned number under it, and what follows.
pub open spec fn number(key: Seq<char>, n: u64, after: Seq<u8>) -> Seq<u8> {
    text(key) + head(MAJOR_UINT, n) + after
}

/// A key, the list of records under it, and what follows.
pub open spec fn listed(
    key: Seq<char>,
    k1: Seq<char>,
    k2: Seq<char>,
    ps: Seq<(Seq<char>, Seq<char>)>,
    after: Seq<u8>,
) -> Seq<u8> {
    text(key) + pair_list(k1, k2, ps) + after
}

/// A text under a key that was written is read back.
pub proof fn lemma_field_round_trip(key: Seq<char>, s: Seq<char>, after: Seq<u8>)
    requires
        encode_utf8(s).len() <= u64::MAX,
    ensures
        parse_field(Some(field(key, s, after)), key) == Some((s, after)),
{
    assert(text(key) + text(s) + after =~= text(key) + (text(s) + after));
    lemma_skip_round_trip(text(key), text(s) + after);
    lemma_text_round_trip(s, after);
}

/// A number under a key that was written is read back.
pub proof fn lemma_number_round_trip(key: Seq<char>, n: u64, after: Seq<u8>)
    ensures
        parse_number(Some(number(key, n, after)), key) == Some((n, after)),
{
    assert(text(key) + head(MAJOR_UINT, n) + after =~= text(key) + (head(MAJOR_UINT, n) + after));
    lemma_skip_round_trip(text(key), head(MAJOR_UINT, n) + after);
    lemma_head_round_trip(MAJOR_UINT, n, after);
}

/// Whether both texts of each record are short enough to be written.
pub open spec fn writable(ps: Seq<(Seq<char>, Seq<char>)>) -> bool {
    &&& ps.len() <= u64::MAX
    &&& forall|i: int| 0 <= i < ps.len() ==> #[trigger] short(ps[i])
}

/// Whether both texts of a record are short enough to be written.
pub open spec fn short(p: (Seq<char>, Seq<char>)) -> bool {
    encode_utf8(p.0).len() <= u64::MAX && encode_utf8(p.1).len() <= u64::MAX
}

/// A record of two texts that was written is read back.
pub proof fn lemma_pair_round_trip(
    k1: Seq<char>,
    k2: Seq<char>,
    p: (Seq<char>, Seq<char>),
    after: Seq<u8>,
)
    requires
        encode_utf8(p.0).len() <= u64::MAX,
        encode_utf8(p.1).len() <= u64::MAX,
    ensures
        parse_pair(k1, k2, pair(k1, k2, p) + after) == Some((p, after)),
{
    reveal(pair);
    reveal(parse_pair);
    let tail2 = field(k2, p.1, after);
    let tail1 = field(k1, p.0, tail2);
    assert(pair(k1, k2, p) + after =~= head(MAJOR_RECORD, 2) + tail1);
    lemma_skip_round_trip(head(MAJOR_RECORD, 2), tail1);
    lemma_field_round_trip(k1, p.0, tail2);
    lemma_field_round_trip(k2, p.1, after);
}

/// The records of a list, written one after the other, start with the first.
pub proof fn lemma_pairs_front(k1: Seq<char>, k2: Seq<char>, ps: Seq<(Seq<char>, Seq<char>)>)
    requires
        ps.len() > 0,
    ensures
        pairs(k1, k2, ps) == pair(k1, k2, ps[0]) + pairs(k1, k2, ps.drop_first()),
    decreases ps.len(),
{
    if ps.len() == 1 {
        assert(ps.drop_last() =~= Seq::empty());
        assert(ps.drop_first() =~= Seq::empty());
        assert(pairs(k1, k2, ps) =~= pair(k1, k2, ps[0]) + pairs(k1, k2, ps.drop_first()));
    } else {
        lemma_pairs_front(k1, k2, ps.drop_last());
        assert(ps.drop_last().drop_first() =~= ps.drop_first().drop_last());
        assert(ps.drop_first().last() == ps.last());
        assert(ps.drop_last()[0] == ps[0]);
        assert(pairs(k1, k2, ps) =~= pair(k1, k2, ps[0]) + pairs(k1, k2, ps.drop_first()));
    }
}

/// What holds of a list of records holds of its first and of the others.
proof fn lemma_writable_rest(ps: Seq<(Seq<char>, Seq<char>)>)
    requires
        writable(ps),
        ps.len() > 0,
    ensures
        short(ps[0]),
        writable(ps.drop_first()),
{
    let more = ps.drop_first();
    assert forall|i: int| 0 <= i < more.len() implies #[trigger] short(more[i]) by {
        assert(more[i] == ps[i + 1]);
        assert(short(ps[i + 1]));
    }
}

/// Records that were written one after the other are read back.
pub proof fn lemma_pairs_round_trip(
    k1: Seq<char>,
    k2: Seq<char>,
    ps: Seq<(Seq<char>, Seq<char>)>,
    after: Seq<u8>,
)
    requires
        writable(ps),
    ensures
        parse_pairs(k1, k2, pairs(k1, k2, ps) + after, ps.len()) == Some((ps, after)),
    decreases ps.len(),
{
    if ps.len() == 0 {
        assert(pairs(k1, k2, ps) + after =~= after);
        assert(ps =~= Seq::empty());
    } else {
        let more = ps.drop_first();
        let tail = pairs(k1, k2, more) + after;
        lemma_pairs_front(k1, k2, ps);
        assert(pairs(k1, k2, ps) + after == pair(k1, k2, ps[0]) + tail) by {
            assert(pair(k1, k2, ps[0]) + pairs(k1, k2, more) + after =~= pair(k1, k2, ps[0])
                + tail);
        }
        lemma_writable_rest(ps);
        lemma_pair_round_trip(k1, k2, ps[0], tail);
        lemma_pairs_round_trip(k1, k2, more, after);
        assert(seq![ps[0]] + more =~= ps);
    }
}

/// A list of records under a key that was written is read back.
pub proof fn lemma_listed_round_trip(
    key: Seq<char>,
    k1: Seq<char>,
    k2: Seq<char>,
    ps: Seq<(Seq<char>, Seq<char>)>,
    after: Seq<u8>,
)
    requires
        writable(ps),
    ensures
        parse_pair_list(k1, k2, skip_bytes(listed(key, k1, k2, ps, after), text(key))) == Some(
            (ps, after),
        ),
{
    assert(listed(key, k1, k2, ps, after) =~= text(key) + (pair_list(k1, k2, ps) + after));
    lemma_skip_round_trip(text(key), pair_list(k1, k2, ps) + after);
    lemma_pair_list_round_trip(k1, k2, ps, after);
}

/// A list of records that was written is read back.
pub proof fn lemma_pair_list_round_trip(
    k1: Seq<char>,
    k2: Seq<char>,
    ps: Seq<(Seq<char>, Seq<char>)>,
    after: Seq<u8>,
)
    requires
        writable(ps),
    ensures
        parse_pair_list(k1, k2, Some(pair_list(k1, k2, ps) + after)) == Some((ps, after)),
{
    let n = ps.len() as u64;
    assert(pair_list(k1, k2, ps) + after =~= head(MAJOR_LIST, n) + (pairs(k1, k2, ps) + after));
    lemma_head_round_trip(MAJOR_LIST, n, pairs(k1, k2, ps) + after);
    lemma_pairs_round_trip(k1, k2, ps, after);
}

/// The texts of some pairs of strings.
pub open spec fn texts(v: Seq<(String, String)>) -> Seq<(Seq<char>, Seq<char>)> {
    Seq::new(v.len(), |i: int| (v[i].0@, v[i].1@))
}

/// Appends bytes.
pub fn write_bytes(out: &mut Vec<u8>, bytes: &[u8])
    ensures
        final(out)@ == old(out)@ + bytes@,
{
    let mut i: usize = 0;
    while i < bytes.len()
        invariant
            i <= bytes@.len(),
            out@ == old(out)@ + bytes@.take(i as int),
        decreases bytes@.len() - i,
    {
        out.push(bytes[i]);
        proof {
            assert(bytes@.take(i as int + 1) =~= bytes@.take(i as int).push(bytes@[i as int]));
            assert(out@ =~= old(out)@ + bytes@.take(i as int + 1));
        }
        i += 1;
    }
    proof {
        assert(bytes@.take(i as int) =~= bytes@);
    }
}

/// Appends the binary form of a text.
pub fn write_text(out: &mut Vec<u8>, s: &str)
    ensures
        final(out)@ == old(out)@ + text(s@),
        encode_utf8(s@).len() <= usize::MAX,
{
    proof {
        reveal(text);
    }
    let bytes = s.as_bytes();
    write_head(out, MAJOR_TEXT, bytes.len() as u64);
    write_bytes(out, bytes);
    proof {
        assert(final(out)@ =~= old(out)@ + text(s@));
    }
}

/// Appends the binary form of a record of two texts.
pub fn write_pair(out: &mut Vec<u8>, k1: &str, k2: &str, first: &str, second: &str)
    ensures
        final(out)@ == old(out)@ + pair(k1@, k2@, (first@, second@)),
        short((first@, second@)),
{
    proof {
        reveal(pair);
    }
    write_head(out, MAJOR_RECORD, 2);
    write_text(out, k1);
    write_text(out, first);
    write_text(out, k2);
    write_text(out, second);
    proof {
        assert(final(out)@ =~= old(out)@ + pair(k1@, k2@, (first@, second@)));
    }
}

/// Skips `expected` at `pos`, if it stands there.
pub fn read_skip(b: &[u8], pos: usize, expected: &[u8]) -> (r: Option<usize>)
    requires
        pos <= b@.len(),
    ensures
        match r {
            Some(next) => pos <= next <= b@.len() && skip_bytes(b@.skip(pos as int), expected@)
                == Some(b@.skip(next as int)),
            None => skip_bytes(b@.skip(pos as int), expected@) is None,
        },
{
    let here = vstd::slice::slice_subrange(b, pos, b.len());
    proof {
        assert(here@ =~= b@.skip(pos as int));
    }
    if has_prefix(here, expected) {
        proof {
            assert(b@.skip(pos as int).skip(expected@.len() as int) =~= b@.skip(
                pos + expected@.len(),
            ));
        }
        Some(pos + expected.len())
    } else {
        None
    }
}

/// Reads the text at `pos`.
pub fn read_text(b: &[u8], pos: usize) -> (r: Option<(String, usize)>)
    requires
        pos <= b@.len(),
    ensures
        match r {
            Some((s, next)) => pos <= next <= b@.len() && parse_text(b@.skip(pos as int)) == Some(
                (s@, b@.skip(next as int)),
            ),
            None => parse_text(b@.skip(pos as int)) is None,
        },
{
    proof {
        reveal(parse_text);
    }
    match read_head(b, pos) {
        None => None,
        Some((major, n, start)) => {
            if major != MAJOR_TEXT {
                return None;
            }
            let left = b.len() - start;
            if n > left as u64 {
                return None;
            }
            let end = start + n as usize;
            let raw = vstd::slice::slice_to_vec(vstd::slice::slice_subrange(b, start, end));
            proof {
                assert(raw@ =~= b@.skip(start as int).take(n as int));
                assert(b@.skip(start as int).skip(n as int) =~= b@.skip(end as int));
            }
            match from_utf8(raw) {
                Ok(s) => Some((s, end)),
                Err(_) => None,
            }
        },
    }
}

/// Reads the text that stands at `pos` under the key `key`.
pub fn read_field(b: &[u8], pos: usize, key: &str) -> (r: Option<(String, usize)>)
    requires
        pos <= b@.len(),
    ensures
        match r {
            Some((s, next)) => pos <= next <= b@.len() && parse_field(
                Some(b@.skip(pos as int)),
                key@,
            ) == Some((s@, b@.skip(next as int))),
            None => parse_field(Some(b@.skip(pos as int)), key@) is None,
        },
{
    let mut expected: Vec<u8> = Vec::new();
    write_text(&mut expected, key);
    proof {
        assert(expected@ =~= text(key@));
    }
    match read_skip(b, pos, expected.as_slice()) {
        Some(after) => read_text(b, after),
        None => None,
    }
}

/// Reads the unsigned number that stands at `pos` under the key `key`.
pub fn read_number(b: &[u8], pos: usize, key: &str) -> (r: Option<(u64, usize)>)
    requires
        pos <= b@.len(),
    ensures
        match r {
            Some((n, next)) => pos <= next <= b@.len() && parse_number(
                Some(b@.skip(pos as int)),
                key@,
            ) == Some((n, b@.skip(next as int))),
            None => parse_number(Some(b@.skip(pos as int)), key@) is None,
        },
{
    let mut expected: Vec<u8> = Vec::new();
    write_text(&mut expected, key);
    proof {
        assert(expected@ =~= text(key@));
    }
    match read_skip(b, pos, expected.as_slice()) {
        Some(after) => match read_head(b, after) {
            Some((major, n, next)) => if major == MAJOR_UINT {
                Some((n, next))
            } else {
                None
            },
            None => None,
        },
        None => None,
    }
}

/// Reads the record of two texts at `pos`.
pub fn read_pair(b: &[u8], pos: usize, k1: &str, k2: &str) -> (r: Option<((String, String), usize)>)
    requires
        pos <= b@.len(),
    ensures
        match r {
            Some((p, next)) => pos <= next <= b@.len() && parse_pair(
                k1@,
                k2@,
                b@.skip(pos as int),
            ) == Some(((p.0@, p.1@), b@.skip(next as int))),
            None => parse_pair(k1@, k2@, b@.skip(pos as int)) is None,
        },
{
    proof {
        reveal(parse_pair);
    }
    let mut opening: Vec<u8> = Vec::new();
    write_head(&mut opening, MAJOR_RECORD, 2);
    proof {
        assert(opening@ =~= head(MAJOR_RECORD, 2));
    }
    let after = match read_skip(b, pos, opening.as_slice()) {
        Some(after) => after,
        None => {
            return None;
        },
    };
    let (first, middle) = match read_field(b, after, k1) {
        Some(found) => found,
        None => {
            return None;
        },
    };
    match read_field(b, middle, k2) {
        Some((second, next)) => Some(((first, second), next)),
        None => None,
    }
}

/// How reading records goes on after the records read so far: `done` are the
/// records read so far, and `left` is what reading the others gives.
pub open spec fn read_on(
    done: Seq<(Seq<char>, Seq<char>)>,
    left: Option<(Seq<(Seq<char>, Seq<char>)>, Seq<u8>)>,
) -> Option<(Seq<(Seq<char>, Seq<char>)>, Seq<u8>)> {
    match left {
        Some((more, r)) => Some((done + more, r)),
        None => None,
    }
}

/// Reading a record and then the others is reading them all.
proof fn lemma_read_on_step(
    k1: Seq<char>,
    k2: Seq<char>,
    done: Seq<(Seq<char>, Seq<char>)>,
    b: Seq<u8>,
    count: nat,
)
    requires
        count > 0,
    ensures
        parse_pair(k1, k2, b) is None ==> read_on(done, parse_pairs(k1, k2, b, count)) is None,
        parse_pair(k1, k2, b) matches Some((p, after)) ==> read_on(
            done,
            parse_pairs(k1, k2, b, count),
        ) == read_on(done.push(p), parse_pairs(k1, k2, after, (count - 1) as nat)),
{
    if let Some((p, after)) = parse_pair(k1, k2, b) {
        if let Some((more, r)) = parse_pairs(k1, k2, after, (count - 1) as nat) {
            assert(done + (seq![p] + more) =~= done.push(p) + more);
        }
    }
}

/// Reads the list of records of two texts at `pos`.
pub fn read_pair_list(b: &[u8], pos: usize, k1: &str, k2: &str) -> (r: Option<
    (Vec<(String, String)>, usize),
>)
    requires
        pos <= b@.len(),
    ensures
        match r {
            Some((ps, next)) => pos <= next <= b@.len() && parse_pair_list(
                k1@,
                k2@,
                Some(b@.skip(pos as int)),
            ) == Some((texts(ps@), b@.skip(next as int))),
            None => parse_pair_list(k1@, k2@, Some(b@.skip(pos as int))) is None,
        },
{
    let (count, start) = match read_head(b, pos) {
        Some((major, n, start)) => {
            if major != MAJOR_LIST {
                return None;
            }
            (n, start)
        },
        None => {
            return None;
        },
    };
    let ghost whole = parse_pair_list(k1@, k2@, Some(b@.skip(pos as int)));
    let mut found: Vec<(String, String)> = Vec::new();
    let mut at = start;
    let mut i: u64 = 0;
    proof {
        assert(texts(found@) =~= Seq::empty());
        let all = parse_pairs(k1@, k2@, b@.skip(start as int), count as nat);
        if all is Some {
            assert(Seq::<(Seq<char>, Seq<char>)>::empty() + all.unwrap().0 =~= all.unwrap().0);
        }
        assert(whole == read_on(texts(found@), all));
    }
    while i < count
        invariant
            i <= count,
            pos <= start <= at <= b@.len(),
            whole == parse_pair_list(k1@, k2@, Some(b@.skip(pos as int))),
            whole == read_on(
                texts(found@),
                parse_pairs(k1@, k2@, b@.skip(at as int), (count - i) as nat),
            ),
        decreases count - i,
    {
        proof {
            lemma_read_on_step(k1@, k2@, texts(found@), b@.skip(at as int), (count - i) as nat);
        }
        match read_pair(b, at, k1, k2) {
            Some((p, next)) => {
                let ghost earlier = texts(found@);
                let ghost item = (p.0@, p.1@);
                found.push(p);
                proof {
                    assert(texts(found@) =~= earlier.push(item));
                }
                at = next;
            },
            None => {
                return None;
            },
        }
        i += 1;
    }
    proof {
        assert(texts(found@) + Seq::<(Seq<char>, Seq<char>)>::empty() =~= texts(found@));
    }
    Some((found, at))
}

} // verus!
