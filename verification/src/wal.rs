//! The write-ahead log's record framing and segment naming.
//!
//! A record is its length as four little-endian bytes followed by that many
//! bytes of payload.  The active segment is `wal.log`; rotated segments are
//! `wal.NNN.log`, replayed in index order before the active one.

use vstd::prelude::*;
use vstd::multiset::Multiset;
use crate::text::{
    chars_of, concat, decimal, decimal_string, has_prefix, parse_usize, parse_usize_spec, slice_range,
    starts_with, str_eq, string_from_chars,
};

verus! {

/// Errors of the write-ahead log.
#[derive(Debug)]
pub enum WalError {
    Io(String),
    Serialization(String),
    RecordTooLarge(usize),
}

impl WalError {
    /// The error's message.
    pub fn message(&self) -> (r: String)
        ensures
            r@ == match self {
                WalError::Io(m) => "io error: "@ + m@,
                WalError::Serialization(m) => "serialization error: "@ + m@,
                WalError::RecordTooLarge(n) => "record too large to store in wal: "@ + decimal(*n as nat) + " bytes"@,
            },
    {
        match self {
            WalError::Io(m) => concat("io error: ", m.as_str()),
            WalError::Serialization(m) => concat("serialization error: ", m.as_str()),
            WalError::RecordTooLarge(n) => {
                let d = decimal_string(*n as u64);
                let a = concat("record too large to store in wal: ", d.as_str());
                concat(a.as_str(), " bytes")
            },
        }
    }
}

/// The value of four little-endian bytes.
pub open spec fn le32(b: Seq<u8>) -> nat {
    b[0] as nat + b[1] as nat * 256 + b[2] as nat * 65536 + b[3] as nat * 16777216
}

/// The four little-endian bytes of `n`.
pub open spec fn le32_bytes(n: nat) -> Seq<u8> {
    seq![(n % 256) as u8, ((n / 256) % 256) as u8, ((n / 65536) % 256) as u8, ((n / 16777216) % 256) as u8]
}

/// One framed record.
pub open spec fn frame(p: Seq<u8>) -> Seq<u8> {
    le32_bytes(p.len()) + p
}

/// Records framed one after another.
pub open spec fn frames(ps: Seq<Seq<u8>>) -> Seq<u8>
    decreases ps.len(),
{
    if ps.len() == 0 {
        Seq::empty()
    } else {
        frames(ps.drop_last()) + frame(ps.last())
    }
}

/// The complete records at the front of `b`, in order; reading stops at the
/// first record whose length or payload is cut short.
pub open spec fn records(b: Seq<u8>) -> Seq<Seq<u8>>
    decreases b.len(),
{
    if b.len() < 4 {
        Seq::empty()
    } else {
        let n = le32(b);
        if b.len() - 4 < n {
            Seq::empty()
        } else {
            seq![b.subrange(4, 4 + n as int)] + records(b.skip(4 + n as int))
        }
    }
}

/// The contents of byte vectors.
pub open spec fn payloads(s: Seq<Vec<u8>>) -> Seq<Seq<u8>> {
    s.map_values(|v: Vec<u8>| v@)
}

/// Frames one record, failing when its length does not fit in four bytes.
pub fn encode_record(payload: &[u8]) -> (r: Result<Vec<u8>, WalError>)
    ensures
        payload@.len() > u32::MAX ==> (r matches Err(WalError::RecordTooLarge(n)) && n == payload@.len()),
        payload@.len() <= u32::MAX ==> (r matches Ok(v) && v@ == frame(payload@)),
{
    let len = payload.len();
    if len > 4294967295usize {
        return Err(WalError::RecordTooLarge(len));
    }
    let n = len as u32;
    let mut out: Vec<u8> = Vec::new();
    out.push((n % 256) as u8);
    out.push(((n / 256) % 256) as u8);
    out.push(((n / 65536) % 256) as u8);
    out.push(((n / 16777216) % 256) as u8);
    let ghost head = out@;
    assert(head =~= le32_bytes(len as nat));
    let mut i: usize = 0;
    while i < len
        invariant
            i <= len,
            len == payload@.len(),
            out@ == head + payload@.take(i as int),
        decreases len - i,
    {
        out.push(payload[i]);
        assert(payload@.take(i + 1) =~= payload@.take(i as int).push(payload@[i as int]));
        i = i + 1;
    }
    assert(payload@.take(len as int) =~= payload@);
    Ok(out)
}

/// Splits log bytes into the payloads of their complete records.
pub fn split_records(bytes: &[u8]) -> (r: Vec<Vec<u8>>)
    ensures
        payloads(r@) == records(bytes@),
{
    let total = bytes.len();
    let mut out: Vec<Vec<u8>> = Vec::new();
    let mut pos: usize = 0;
    assert(bytes@.skip(0) =~= bytes@);
    while pos <= total && total - pos >= 4
        invariant
            pos <= total,
            total == bytes@.len(),
            payloads(out@) + records(bytes@.skip(pos as int)) == records(bytes@),
        decreases total - pos,
    {
        let ghost rest = bytes@.skip(pos as int);
        let n: usize = bytes[pos] as usize + bytes[pos + 1] as usize * 256 + bytes[pos + 2] as usize
            * 65536 + bytes[pos + 3] as usize * 16777216;
        assert(n == le32(rest));
        if total - pos - 4 < n {
            assert(records(rest) =~= Seq::<Seq<u8>>::empty());
            pos = total;
            assert(records(bytes@.skip(pos as int)) =~= Seq::<Seq<u8>>::empty());
            assert(payloads(out@) + records(bytes@.skip(pos as int)) =~= payloads(out@));
            assert(payloads(out@) + records(rest) =~= payloads(out@));
        } else {
            let start = pos + 4;
            let mut p: Vec<u8> = Vec::new();
            let mut k: usize = 0;
            while k < n
                invariant
                    k <= n,
                    start + n <= total,
                    total == bytes@.len(),
                    p@ == bytes@.subrange(start as int, start + k),
                decreases n - k,
            {
                p.push(bytes[start + k]);
                assert(bytes@.subrange(start as int, start + k + 1) =~= bytes@.subrange(start as int, start + k).push(bytes@[start + k]));
                k = k + 1;
            }
            let ghost before = payloads(out@);
            out.push(p);
            proof {
                assert(rest.subrange(4, 4 + n as int) =~= p@);
                assert(rest.skip(4 + n as int) =~= bytes@.skip(start + n));
                assert(records(rest) == seq![p@] + records(bytes@.skip(start + n)));
                assert(payloads(out@) =~= before.push(p@));
                assert(before.push(p@) + records(bytes@.skip(start + n)) =~= before + (seq![p@] + records(
                    bytes@.skip(start + n),
                )));
            }
            pos = start + n;
        }
    }
    proof {
        if pos <= total && total - pos < 4 {
            let rest = bytes@.skip(pos as int);
            assert(records(rest) =~= Seq::<Seq<u8>>::empty());
            assert(payloads(out@) + records(rest) =~= payloads(out@));
        }
    }
    out
}

proof fn lemma_le32_round_trip(n: nat)
    requires
        n <= u32::MAX,
    ensures
        le32(le32_bytes(n)) == n,
{
    let b = le32_bytes(n);
    let q1 = n / 256;
    let q2 = n / 65536;
    let q3 = n / 16777216;
    vstd::arithmetic::div_mod::lemma_fundamental_div_mod(n as int, 256);
    vstd::arithmetic::div_mod::lemma_fundamental_div_mod(q1 as int, 256);
    vstd::arithmetic::div_mod::lemma_fundamental_div_mod(q2 as int, 256);
    vstd::arithmetic::div_mod::lemma_div_denominator(n as int, 256, 256);
    vstd::arithmetic::div_mod::lemma_div_denominator(n as int, 65536, 256);
    assert(q3 < 256) by {
        vstd::arithmetic::div_mod::lemma_div_is_ordered(n as int, u32::MAX as int, 16777216);
    }
    assert(q3 % 256 == q3) by {
        vstd::arithmetic::div_mod::lemma_small_mod(q3, 256);
    }
    assert(b[0] as nat == n % 256);
    assert(b[1] as nat == q1 % 256);
    assert(b[2] as nat == q2 % 256);
    assert(b[3] as nat == q3);
    assert(q1 / 256 == q2);
    assert(q2 / 256 == q3);
    assert(le32(b) == n) by (nonlinear_arith)
        requires
            le32(b) == b[0] as nat + b[1] as nat * 256 + b[2] as nat * 65536 + b[3] as nat * 16777216,
            n == 256 * q1 + b[0] as nat,
            q1 == 256 * q2 + b[1] as nat,
            q2 == 256 * q3 + b[2] as nat,
            b[3] as nat == q3,
    ;
}

proof fn lemma_frames_front(ps: Seq<Seq<u8>>)
    requires
        ps.len() > 0,
    ensures
        frames(ps) == frame(ps[0]) + frames(ps.drop_first()),
    decreases ps.len(),
{
    if ps.len() > 1 {
        lemma_frames_front(ps.drop_last());
        assert(ps.drop_last().drop_first() =~= ps.drop_first().drop_last());
        assert(ps.drop_last()[0] == ps[0]);
        assert(ps.drop_first().last() == ps.last());
        assert(frames(ps) =~= frame(ps[0]) + frames(ps.drop_first()));
    } else {
        assert(ps.drop_last() =~= Seq::<Seq<u8>>::empty());
        assert(ps.drop_first() =~= Seq::<Seq<u8>>::empty());
        assert(frames(ps) =~= frame(ps[0]) + frames(ps.drop_first()));
    }
}

proof fn lemma_records_frame(p: Seq<u8>, rest: Seq<u8>)
    requires
        p.len() <= u32::MAX,
    ensures
        records(frame(p) + rest) == seq![p] + records(rest),
{
    let b = frame(p) + rest;
    lemma_le32_round_trip(p.len());
    assert(b.subrange(0, 4) =~= le32_bytes(p.len()));
    assert(le32(b) == le32(le32_bytes(p.len())));
    assert(b.subrange(4, 4 + p.len() as int) =~= p);
    assert(b.skip(4 + p.len() as int) =~= rest);
}

/// Reading back a log gives exactly the complete records written to it, in
/// order, however much of a last record was cut short after them.
pub proof fn replay_ignores_truncated_tail(ps: Seq<Seq<u8>>, p: Seq<u8>, k: int)
    requires
        forall|i: int| 0 <= i < ps.len() ==> (#[trigger] ps[i]).len() <= u32::MAX,
        p.len() <= u32::MAX,
        0 <= k < frame(p).len(),
    ensures
        records(frames(ps) + frame(p).take(k)) == ps,
    decreases ps.len(),
{
    let t = frame(p).take(k);
    if ps.len() == 0 {
        assert(frames(ps) + t =~= t);
        if t.len() >= 4 {
            lemma_le32_round_trip(p.len());
            assert(t.subrange(0, 4) =~= le32_bytes(p.len()));
            assert(le32(t) == le32(le32_bytes(p.len())));
        }
    } else {
        lemma_frames_front(ps);
        replay_ignores_truncated_tail(ps.drop_first(), p, k);
        assert(frames(ps) + t =~= frame(ps[0]) + (frames(ps.drop_first()) + t));
        lemma_records_frame(ps[0], frames(ps.drop_first()) + t);
        assert(seq![ps[0]] + ps.drop_first() =~= ps);
    }
}

/// Reading back a log gives exactly the records written to it, in order.
pub proof fn replay_reads_back_records(ps: Seq<Seq<u8>>)
    requires
        forall|i: int| 0 <= i < ps.len() ==> (#[trigger] ps[i]).len() <= u32::MAX,
    ensures
        records(frames(ps)) == ps,
{
    replay_ignores_truncated_tail(ps, Seq::empty(), 0);
    assert(frame(Seq::<u8>::empty()).take(0) =~= Seq::<u8>::empty());
    assert(frames(ps) + Seq::<u8>::empty() =~= frames(ps));
}

/// The name of the active segment.
pub open spec fn active_segment() -> Seq<char> {
    "wal.log"@
}

/// std's `str::parse::<u32>`.
pub open spec fn parse_u32_spec(s: Seq<char>) -> Option<u32> {
    match parse_usize_spec(s) {
        Some(n) => if n <= u32::MAX {
            Some(n as u32)
        } else {
            None
        },
        None => None,
    }
}

/// The index of a rotated segment named `wal.NNN.log`.
pub open spec fn segment_index(name: Seq<char>) -> Option<u32> {
    if name.len() >= 8 && has_prefix(name, "wal."@) && name.skip(name.len() - 4) == ".log"@ {
        parse_u32_spec(name.subrange(4, name.len() - 4))
    } else {
        None
    }
}

/// The index of a rotated segment named `wal.NNN.log`, if `name` is one.
pub fn parse_segment_index(name: &str) -> (r: Option<u32>)
    ensures
        r == segment_index(name@),
{
    let cs = chars_of(name);
    let n = cs.len();
    if n < 8 {
        return None;
    }
    let pre: Vec<char> = vec!['w', 'a', 'l', '.'];
    let suf: Vec<char> = vec!['.', 'l', 'o', 'g'];
    proof {
        reveal_strlit("wal.");
        reveal_strlit(".log");
    }
    assert(pre@ =~= "wal."@);
    assert(suf@ =~= ".log"@);
    if !starts_with(cs.as_slice(), pre.as_slice()) {
        return None;
    }
    let tail = slice_range(cs.as_slice(), n - 4, n);
    if !crate::text::chars_eq(tail.as_slice(), suf.as_slice()) {
        return None;
    }
    let mid = slice_range(cs.as_slice(), 4, n - 4);
    match parse_usize(mid.as_slice()) {
        Some(v) => if v <= 4294967295usize {
            Some(v as u32)
        } else {
            None
        },
        None => None,
    }
}

/// True for the names of log segments: the active one and rotated ones.
pub fn is_segment_name(name: &str) -> (r: bool)
    ensures
        r == (name@ == active_segment() || segment_index(name@) is Some),
{
    str_eq(name, "wal.log") || parse_segment_index(name).is_some()
}

/// The replay order key of a segment: rotated segments by index, the
/// active one last, then by name.
pub open spec fn sort_key(name: Seq<char>) -> u32 {
    if name == active_segment() {
        u32::MAX
    } else {
        match segment_index(name) {
            Some(i) => i,
            None => 0,
        }
    }
}

/// The replay order key of a segment, with its name.
pub fn segment_sort_key(name: &str) -> (r: (u32, String))
    ensures
        r.0 == sort_key(name@),
        r.1@ == name@,
{
    if str_eq(name, "wal.log") {
        (4294967295u32, name.to_string())
    } else {
        match parse_segment_index(name) {
            Some(i) => (i, name.to_string()),
            None => (0u32, name.to_string()),
        }
    }
}

/// Lexicographic order of character sequences (that of `str`'s `Ord`).
pub open spec fn chars_lt(a: Seq<char>, b: Seq<char>) -> bool
    decreases a.len(),
{
    if a.len() == 0 {
        b.len() > 0
    } else if b.len() == 0 {
        false
    } else if a[0] != b[0] {
        a[0] < b[0]
    } else {
        chars_lt(a.drop_first(), b.drop_first())
    }
}

/// Compares strings lexicographically.
pub fn str_lt(a: &str, b: &str) -> (r: bool)
    ensures
        r == chars_lt(a@, b@),
{
    let ca = chars_of(a);
    let cb = chars_of(b);
    let mut i: usize = 0;
    assert(ca@.skip(0) =~= ca@);
    assert(cb@.skip(0) =~= cb@);
    while i < ca.len() && i < cb.len() && ca[i] == cb[i]
        invariant
            i <= ca@.len(),
            i <= cb@.len(),
            chars_lt(a@, b@) == chars_lt(ca@.skip(i as int), cb@.skip(i as int)),
            ca@ == a@,
            cb@ == b@,
        decreases ca@.len() - i,
    {
        assert(ca@.skip(i as int).drop_first() =~= ca@.skip(i + 1));
        assert(cb@.skip(i as int).drop_first() =~= cb@.skip(i + 1));
        i = i + 1;
    }
    if i == ca.len() {
        i < cb.len()
    } else if i == cb.len() {
        false
    } else {
        ca[i] < cb[i]
    }
}

/// True when segment `a` is replayed strictly before segment `b`.
pub open spec fn segment_before(a: Seq<char>, b: Seq<char>) -> bool {
    sort_key(a) < sort_key(b) || (sort_key(a) == sort_key(b) && chars_lt(a, b))
}

/// The names of a sequence of strings.
pub open spec fn names(s: Seq<String>) -> Seq<Seq<char>> {
    s.map_values(|x: String| x@)
}

/// The segment names among `s`, in order.
pub open spec fn segment_names(s: Seq<Seq<char>>) -> Seq<Seq<char>> {
    s.filter(|n: Seq<char>| n == active_segment() || segment_index(n) is Some)
}

/// Picks the log segments out of a directory listing, in replay order.
pub fn order_segments(listing: &Vec<String>) -> (r: Vec<String>)
    ensures
        names(r@).to_multiset() == segment_names(names(listing@)).to_multiset(),
        forall|i: int| 0 <= i < r@.len() - 1 ==> !segment_before(#[trigger] r@[i + 1]@, r@[i]@),
{
    let ghost ls = names(listing@);
    let mut out: Vec<String> = Vec::new();
    let mut keys: Vec<u32> = Vec::new();
    let mut i: usize = 0;
    assert(ls.take(0) =~= Seq::<Seq<char>>::empty());
    proof {
        reveal(Seq::filter);
        assert(names(out@) =~= Seq::<Seq<char>>::empty());
        assert(segment_names(ls.take(0)) =~= Seq::<Seq<char>>::empty());
    }
    while i < listing.len()
        invariant
            i <= listing@.len(),
            ls == names(listing@),
            keys@.len() == out@.len(),
            forall|j: int| 0 <= j < out@.len() ==> keys@[j] == sort_key(#[trigger] out@[j]@),
            names(out@).to_multiset() == segment_names(ls.take(i as int)).to_multiset(),
            forall|j: int| 0 <= j < out@.len() - 1 ==> !segment_before(#[trigger] out@[j + 1]@, out@[j]@),
        decreases listing@.len() - i,
    {
        let name = &listing[i];
        proof {
            assert(ls.take(i + 1) =~= ls.take(i as int).push(name@));
            lemma_filter_push(ls.take(i as int), name@);
        }
        if is_segment_name(name.as_str()) {
            let key = segment_sort_key(name.as_str());
            let mut k: usize = 0;
            let mut found = false;
            while k < out.len() && !found
                invariant
                    k <= out@.len(),
                    keys@.len() == out@.len(),
                    forall|j: int| 0 <= j < out@.len() ==> keys@[j] == sort_key(#[trigger] out@[j]@),
                    key.0 == sort_key(name@),
                    k > 0 ==> !segment_before(name@, out@[k - 1]@),
                    found ==> k < out@.len() && segment_before(name@, out@[k as int]@),
                decreases out@.len() - k, if found { 0int } else { 1int },
            {
                if key.0 < keys[k] || (key.0 == keys[k] && str_lt(name.as_str(), out[k].as_str())) {
                    found = true;
                } else {
                    k = k + 1;
                }
            }
            let ghost before = out@;
            out.insert(k, name.clone());
            keys.insert(k, key.0);
            proof {
                assert(names(out@) =~= names(before).insert(k as int, name@));
                lemma_multiset_insert(names(before), k as int, name@);
                if k < before.len() {
                    lemma_chars_lt_asym(name@, before[k as int]@);
                }
                segment_names(ls.take(i as int)).to_multiset_ensures();
                assert forall|j: int| 0 <= j < out@.len() implies keys@[j] == sort_key(#[trigger] out@[j]@) by {
                    if j < k {
                        assert(out@[j] == before[j]);
                    } else if j > k {
                        assert(out@[j] == before[j - 1]);
                    }
                }
                assert forall|j: int| 0 <= j < out@.len() - 1 implies !segment_before(
                    #[trigger] out@[j + 1]@,
                    out@[j]@,
                ) by {
                    if j + 1 < k {
                        assert(out@[j] == before[j] && out@[j + 1] == before[j + 1]);
                        assert(!segment_before(before[j + 1]@, before[j]@));
                    } else if j + 1 == k {
                        assert(out@[j] == before[j]);
                    } else if j == k {
                        assert(out@[j + 1] == before[j]);
                        assert(segment_before(name@, before[j]@));
                    } else {
                        assert(out@[j] == before[j - 1] && out@[j + 1] == before[j]);
                        assert(!segment_before(before[(j - 1) + 1]@, before[j - 1]@));
                    }
                }
            }
        }
        i = i + 1;
    }
    assert(ls.take(listing@.len() as int) =~= ls);
    out
}

pub proof fn lemma_chars_lt_asym(a: Seq<char>, b: Seq<char>)
    ensures
        chars_lt(a, b) ==> !chars_lt(b, a),
    decreases a.len(),
{
    if a.len() > 0 && b.len() > 0 && a[0] == b[0] {
        lemma_chars_lt_asym(a.drop_first(), b.drop_first());
    }
}

proof fn lemma_filter_push(s: Seq<Seq<char>>, x: Seq<char>)
    ensures
        segment_names(s.push(x)) == if x == active_segment() || segment_index(x) is Some {
            segment_names(s).push(x)
        } else {
            segment_names(s)
        },
{
    reveal(Seq::filter);
    assert(s.push(x).drop_last() =~= s);
}

pub proof fn lemma_multiset_insert<T>(s: Seq<T>, k: int, x: T)
    requires
        0 <= k <= s.len(),
    ensures
        s.insert(k, x).to_multiset() == s.to_multiset().insert(x),
{
    let a = s.take(k);
    let b = s.skip(k);
    assert(s.insert(k, x) =~= a.push(x) + b);
    assert(s =~= a + b);
    vstd::seq_lib::lemma_multiset_commutative(a.push(x), b);
    vstd::seq_lib::lemma_multiset_commutative(a, b);
    a.to_multiset_ensures();
    assert(a.to_multiset().insert(x).add(b.to_multiset()) =~= a.to_multiset().add(b.to_multiset()).insert(x));
}

/// Decimal digits padded with leading zeros to at least three.
pub open spec fn pad3(d: Seq<char>) -> Seq<char> {
    if d.len() >= 3 {
        d
    } else {
        Seq::new((3 - d.len()) as nat, |i: int| '0') + d
    }
}

/// The name of rotated segment `index`: `wal.NNN.log`.
pub open spec fn segment_name(index: nat) -> Seq<char> {
    "wal."@ + pad3(decimal(index)) + ".log"@
}

/// The name for the segment after the one with index `highest`.
pub fn next_segment_name(highest: u32) -> (r: String)
    requires
        highest < u32::MAX,
    ensures
        r@ == segment_name(highest as nat + 1),
{
    let d = decimal_string((highest + 1) as u64);
    let mut padded: Vec<char> = Vec::new();
    let dl = chars_of(d.as_str());
    let mut z: usize = 0;
    let zeros: usize = if dl.len() >= 3 { 0 } else { 3 - dl.len() };
    while z < zeros
        invariant
            z <= zeros,
            padded@ == Seq::new(z as nat, |i: int| '0'),
        decreases zeros - z,
    {
        padded.push('0');
        assert(padded@ =~= Seq::new((z + 1) as nat, |i: int| '0'));
        z = z + 1;
    }
    let body = string_from_chars(padded.as_slice());
    let num = concat(body.as_str(), d.as_str());
    assert(num@ =~= pad3(decimal(highest as nat + 1)));
    let a = concat("wal.", num.as_str());
    concat(a.as_str(), ".log")
}

/// The largest rotated-segment index among `s` (0 when there is none).
pub open spec fn max_index(s: Seq<Seq<char>>) -> u32
    decreases s.len(),
{
    if s.len() == 0 {
        0
    } else {
        let m = max_index(s.drop_last());
        match segment_index(s.last()) {
            Some(i) => if i > m {
                i
            } else {
                m
            },
            None => m,
        }
    }
}

/// The largest rotated-segment index in a directory listing.
pub fn highest_segment_index(listing: &Vec<String>) -> (r: u32)
    ensures
        r == max_index(names(listing@)),
{
    let ghost ls = names(listing@);
    let mut highest: u32 = 0;
    let mut i: usize = 0;
    while i < listing.len()
        invariant
            i <= listing@.len(),
            ls == names(listing@),
            highest == max_index(ls.take(i as int)),
        decreases listing@.len() - i,
    {
        proof {
            assert(ls.take(i + 1).drop_last() =~= ls.take(i as int));
            assert(ls.take(i + 1).last() == listing@[i as int]@);
        }
        match parse_segment_index(listing[i].as_str()) {
            Some(idx) => {
                if idx > highest {
                    highest = idx;
                }
            },
            None => {},
        }
        i = i + 1;
    }
    assert(ls.take(listing@.len() as int) =~= ls);
    highest
}

} // verus!
