//! Snapshot persistence: the whole store serialized to one structured
//! text blob and parsed back. Numbers are fixed-width chunks of eight
//! base-256 character codes; character data is length-prefixed. Parsing
//! accepts exactly the serializer's output, so a snapshot round-trips to
//! an equal store.
use vstd::prelude::*;
use vstd::arithmetic::div_mod::lemma_breakdown;
use vstd::utf8::char_u32_cast;
use vstd::string::StrSliceExecFns;
use crate::{distinct_terms, wf_postings, wf_store, Index, Posting, SearchError, StoreM};

verus! {

/// One base-256 digit as a character.
pub open spec fn byte_char(d: nat) -> char {
    ((d % 256) as u8) as char
}

/// 256 raised to `w`.
pub open spec fn pow256(w: nat) -> nat
    decreases w,
{
    if w == 0 {
        1
    } else {
        256 * pow256((w - 1) as nat)
    }
}

/// The `w` low-order base-256 digits of `n`, most significant first.
pub open spec fn chunk_digits(w: nat, n: nat) -> Seq<char>
    decreases w,
{
    if w == 0 {
        Seq::empty()
    } else {
        chunk_digits((w - 1) as nat, n / 256).push(byte_char(n % 256))
    }
}

/// A number as eight base-256 digit characters.
pub open spec fn ser_u64(n: nat) -> Seq<char> {
    chunk_digits(8, n)
}

/// The numeric value of a digit sequence, most significant first.
pub open spec fn digits_val(s: Seq<char>) -> nat
    decreases s.len(),
{
    if s.len() == 0 {
        0
    } else {
        digits_val(s.drop_last()) * 256 + (s.last() as u32) as nat
    }
}

/// Character data: its length, then the characters themselves.
pub open spec fn ser_chars(cs: Seq<char>) -> Seq<char> {
    ser_u64(cs.len()) + cs
}

/// pow256 is positive.
proof fn lemma_pow256_pos(w: nat)
    ensures
        pow256(w) >= 1,
    decreases w,
{
    if w > 0 {
        lemma_pow256_pos((w - 1) as nat);
    }
}

/// A digit chunk has the claimed width.
proof fn lemma_chunk_len(w: nat, n: nat)
    ensures
        chunk_digits(w, n).len() == w,
    decreases w,
{
    if w > 0 {
        lemma_chunk_len((w - 1) as nat, n / 256);
    }
}

/// Every character of a digit chunk has a code below 256.
proof fn lemma_chunk_codes(w: nat, n: nat)
    ensures
        forall|j: int| 0 <= j < chunk_digits(w, n).len()
            ==> (#[trigger] chunk_digits(w, n)[j] as u32) < 256,
    decreases w,
{
    if w > 0 {
        lemma_chunk_codes((w - 1) as nat, n / 256);
        lemma_chunk_len((w - 1) as nat, n / 256);
        let c = chunk_digits(w, n);
        let c0 = chunk_digits((w - 1) as nat, n / 256);
        assert forall|j: int| 0 <= j < c.len() implies (#[trigger] c[j] as u32) < 256 by {
            if j < c0.len() {
                assert(c[j] == c0[j]);
                assert((c0[j] as u32) < 256);
            } else {
                assert(c[j] == byte_char(n % 256));
            }
        }
    }
}

/// Reading a digit chunk back yields the number, modulo the chunk's range.
proof fn lemma_chunk_val(w: nat, n: nat)
    ensures
        digits_val(chunk_digits(w, n)) == n % pow256(w),
    decreases w,
{
    if w == 0 {
        assert(pow256(0) == 1);
    } else {
        let w1 = (w - 1) as nat;
        lemma_chunk_val(w1, n / 256);
        lemma_chunk_len(w1, n / 256);
        let c = chunk_digits(w, n);
        assert(c.drop_last() =~= chunk_digits(w1, n / 256));
        assert(c.last() == byte_char(n % 256));
        assert((byte_char(n % 256) as u32) as nat == n % 256);
        lemma_pow256_pos(w1);
        lemma_breakdown(n as int, 256, pow256(w1) as int);
        assert(pow256(w) == 256 * pow256(w1));
    }
}

/// A digit sequence's value stays below the width's range.
proof fn lemma_digits_val_bound(s: Seq<char>)
    requires
        forall|j: int| 0 <= j < s.len() ==> (#[trigger] s[j] as u32) < 256,
    ensures
        digits_val(s) < pow256(s.len()),
    decreases s.len(),
{
    if s.len() > 0 {
        let s0 = s.drop_last();
        assert(forall|j: int| 0 <= j < s0.len() ==> (#[trigger] s0[j] as u32) < 256);
        lemma_digits_val_bound(s0);
        assert((s.last() as u32) < 256);
        assert(pow256(s.len()) == 256 * pow256(s0.len()));
    }
}

/// A sequence of digit characters is the chunk of its own value: base-256
/// representations of a given width are unique.
proof fn lemma_digits_unique(s: Seq<char>)
    requires
        forall|j: int| 0 <= j < s.len() ==> (#[trigger] s[j] as u32) < 256,
    ensures
        chunk_digits(s.len(), digits_val(s)) == s,
    decreases s.len(),
{
    if s.len() > 0 {
        let s0 = s.drop_last();
        assert(forall|j: int| 0 <= j < s0.len() ==> (#[trigger] s0[j] as u32) < 256);
        lemma_digits_unique(s0);
        let v = digits_val(s);
        let d = (s.last() as u32) as nat;
        assert(v == digits_val(s0) * 256 + d);
        assert(v / 256 == digits_val(s0) && v % 256 == d) by (nonlinear_arith)
            requires
                v == digits_val(s0) * 256 + d,
                d < 256,
        ;
        assert((byte_char(v % 256) as u32) as nat == d);
        char_u32_cast(byte_char(v % 256), byte_char(v % 256) as u32);
        char_u32_cast(s.last(), s.last() as u32);
        assert(byte_char(v % 256) == s.last());
        assert(chunk_digits(s.len(), v) =~= s);
    }
}

/// pow256 of eight is the range of sixty-four bit numbers.
proof fn lemma_pow256_8()
    ensures
        pow256(0) == 1,
        pow256(1) == 0x100,
        pow256(2) == 0x10000,
        pow256(3) == 0x1000000,
        pow256(4) == 0x100000000,
        pow256(5) == 0x10000000000,
        pow256(6) == 0x1000000000000,
        pow256(7) == 0x100000000000000,
        pow256(8) == 0x10000000000000000,
{
    assert(pow256(0) == 1);
    assert(pow256(1) == 0x100);
    assert(pow256(2) == 0x10000);
    assert(pow256(3) == 0x1000000);
    assert(pow256(4) == 0x100000000);
    assert(pow256(5) == 0x10000000000);
    assert(pow256(6) == 0x1000000000000);
    assert(pow256(7) == 0x100000000000000);
    assert(pow256(8) == 0x10000000000000000);
}

/// Two adjacent windows of a sequence join to one window.
proof fn lemma_join(s: Seq<char>, x: int, y: int, z: int, a: Seq<char>, b: Seq<char>)
    requires
        0 <= x <= y <= z <= s.len(),
        s.subrange(x, y) == a,
        s.subrange(y, z) == b,
    ensures
        s.subrange(x, z) == a + b,
{
    assert(s.subrange(x, z) =~= a + b);
}

/// A window equal to a concatenation splits at the seam.
proof fn lemma_split(s: Seq<char>, x: int, a: Seq<char>, b: Seq<char>)
    requires
        0 <= x,
        x + a.len() + b.len() <= s.len(),
        s.subrange(x, x + a.len() + b.len()) == a + b,
    ensures
        s.subrange(x, x + a.len()) == a,
        s.subrange(x + a.len(), x + a.len() + b.len()) == b,
{
    assert forall|j: int| 0 <= j < a.len() implies s.subrange(x, x + a.len())[j] == a[j] by {
        assert(s.subrange(x, x + a.len() + b.len())[j] == (a + b)[j]);
    }
    assert(s.subrange(x, x + a.len()) =~= a);
    assert forall|j: int| 0 <= j < b.len() implies
        s.subrange(x + a.len(), x + a.len() + b.len())[j] == b[j] by {
        assert(s.subrange(x, x + a.len() + b.len())[a.len() + j] == (a + b)[a.len() + j]);
        assert(s.subrange(x, x + a.len() + b.len())[a.len() + j] == s[x + a.len() + j]);
        assert(s.subrange(x + a.len(), x + a.len() + b.len())[j] == s[x + a.len() + j]);
        assert((a + b)[a.len() + j] == b[j]);
    }
    assert(s.subrange(x + a.len(), x + a.len() + b.len()) =~= b);
}

/// Appends the `w` low-order base-256 digits of `n`.
fn push_chunk(out: &mut Vec<char>, w: u8, n: u64)
    ensures
        final(out)@ == old(out)@ + chunk_digits(w as nat, n as nat),
    decreases w,
{
    if w == 0 {
        proof {
            assert(out@ =~= out@ + chunk_digits(0, n as nat));
        }
    } else {
        push_chunk(out, w - 1, n / 256);
        out.push(((n % 256) as u8) as char);
        proof {
            assert(((n % 256) as u8) as char == byte_char((n % 256) as nat));
            assert((n / 256) as nat == n as nat / 256);
            assert((n % 256) as nat == n as nat % 256);
            assert(out@ =~= old(out)@ + chunk_digits(w as nat, n as nat));
        }
    }
}

/// Appends a number as eight base-256 digits.
fn push_u64(out: &mut Vec<char>, v: usize)
    ensures
        final(out)@ == old(out)@ + ser_u64(v as nat),
{
    push_chunk(out, 8, v as u64);
    proof {
        assert((v as u64) as nat == v as nat);
    }
}

/// Reads eight base-256 digits as a number. Returns exactly the value a
/// serialized number carries, and accepts nothing else.
fn parse_u64(s: &Vec<char>, pos: usize) -> (r: Option<(u64, usize)>)
    requires
        pos <= s@.len(),
    ensures
        r matches Some(v) ==> v.1 == pos + 8 && pos + 8 <= s@.len()
            && s@.subrange(pos as int, pos as int + 8) == ser_u64(v.0 as nat),
        forall|n: u64| pos + 8 <= s@.len()
            && s@.subrange(pos as int, pos as int + 8) == ser_u64(n as nat)
            ==> r == Some((n, (pos + 8) as usize)),
{
    proof {
        lemma_pow256_8();
    }
    let total = s.len();
    if total - pos < 8 {
        return None;
    }
    proof {
        assert(s@.len() == total as nat);
    }
    let mut acc: u64 = 0;
    let mut k: usize = 0;
    proof {
        assert(s@.subrange(pos as int, pos as int) =~= Seq::<char>::empty());
    }
    while k < 8
        invariant
            0 <= k <= 8,
            pos + 8 <= s@.len(),
            acc as nat == digits_val(s@.subrange(pos as int, pos as int + k)),
            forall|j: int| pos <= j < pos + k ==> (#[trigger] s@[j] as u32) < 256,
            (acc as nat) < pow256(k as nat),
            pow256(8) == 0x10000000000000000,
            pow256(7) == 0x100000000000000,
            s@.len() <= usize::MAX,
        decreases 8 - k,
    {
        proof {
            lemma_pow256_8();
            assert(pow256(k as nat) <= pow256(7)) by {
                lemma_pow256_8();
                assert(pow256(0) <= pow256(7) && pow256(1) <= pow256(7)
                    && pow256(2) <= pow256(7) && pow256(3) <= pow256(7)
                    && pow256(4) <= pow256(7) && pow256(5) <= pow256(7)
                    && pow256(6) <= pow256(7));
            }
        }
        let c = s[pos + k];
        let code = c as u32;
        if code >= 256 {
            proof {
                assert forall|n: u64| pos + 8 <= s@.len()
                    && s@.subrange(pos as int, pos as int + 8) == ser_u64(n as nat)
                    implies false by {
                    lemma_chunk_codes(8, n as nat);
                    lemma_chunk_len(8, n as nat);
                    assert(s@[pos + k] == ser_u64(n as nat)[k as int]);
                }
            }
            return None;
        }
        let ghost pre = s@.subrange(pos as int, pos as int + k);
        acc = acc * 256 + (code as u64);
        proof {
            assert(s@.subrange(pos as int, pos as int + k + 1) =~= pre.push(s@[pos + k]));
            let ext = pre.push(s@[pos + k]);
            assert(ext.drop_last() =~= pre);
            assert(ext.last() == s@[pos + k]);
            assert(digits_val(ext) == digits_val(pre) * 256 + (s@[pos + k] as u32) as nat);
            lemma_digits_val_bound(s@.subrange(pos as int, pos as int + k + 1));
        }
        k = k + 1;
    }
    let ghost window = s@.subrange(pos as int, pos as int + 8);
    proof {
        lemma_digits_unique(window);
        assert(ser_u64(acc as nat) == window);
    }
    proof {
        assert forall|n: u64| pos + 8 <= s@.len()
            && s@.subrange(pos as int, pos as int + 8) == ser_u64(n as nat)
            implies acc == n by {
            lemma_chunk_val(8, n as nat);
            assert(n as nat % pow256(8) == n as nat);
        }
    }
    Some((acc, pos + 8))
}


/// Relies on str::chars, which yields exactly the characters of the
/// string, in order.
#[verifier::external_body]
fn chars_vec(s: &str) -> (r: Vec<char>)
    ensures
        r@ == s@,
{
    s.chars().collect()
}

/// Relies on String's FromIterator<char>: collecting characters forms
/// exactly the string of those characters, in order.
#[verifier::external_body]
fn string_from_chars(v: &Vec<char>) -> (r: String)
    ensures
        r@ == v@,
{
    v.iter().collect()
}

/// One posting: document id, then count.
pub open spec fn ser_posting(p: (nat, nat)) -> Seq<char> {
    ser_u64(p.0) + ser_u64(p.1)
}

/// A posting list's items, in order.
pub open spec fn ser_postings_items(ps: Seq<(nat, nat)>) -> Seq<char>
    decreases ps.len(),
{
    if ps.len() == 0 {
        Seq::empty()
    } else {
        ser_postings_items(ps.drop_last()) + ser_posting(ps.last())
    }
}

/// A posting list: its length, then its items.
pub open spec fn ser_postings(ps: Seq<(nat, nat)>) -> Seq<char> {
    ser_u64(ps.len()) + ser_postings_items(ps)
}

/// Serialized numbers of equal widths and equal text hold equal values.
proof fn lemma_ser_u64_injective(a: nat, b: nat)
    requires
        a < 0x10000000000000000,
        b < 0x10000000000000000,
        ser_u64(a) == ser_u64(b),
    ensures
        a == b,
{
    lemma_chunk_val(8, a);
    lemma_chunk_val(8, b);
    lemma_pow256_8();
}

/// Posting items occupy sixteen characters each.
proof fn lemma_postings_items_len(ps: Seq<(nat, nat)>)
    ensures
        ser_postings_items(ps).len() == 16 * ps.len(),
    decreases ps.len(),
{
    if ps.len() > 0 {
        lemma_postings_items_len(ps.drop_last());
        lemma_chunk_len(8, ps.last().0);
        lemma_chunk_len(8, ps.last().1);
    }
}

/// Posting items split at any position.
proof fn lemma_postings_items_split(ps: Seq<(nat, nat)>, k: int)
    requires
        0 <= k <= ps.len(),
    ensures
        ser_postings_items(ps)
            == ser_postings_items(ps.take(k)) + ser_postings_items(ps.skip(k)),
    decreases ps.len(),
{
    if k == ps.len() {
        assert(ps.take(k) =~= ps);
        assert(ps.skip(k) =~= Seq::<(nat, nat)>::empty());
        assert(ser_postings_items(ps)
            =~= ser_postings_items(ps.take(k)) + ser_postings_items(ps.skip(k)));
    } else {
        let d = ps.drop_last();
        lemma_postings_items_split(d, k);
        assert(d.take(k) =~= ps.take(k));
        assert(ps.skip(k).drop_last() =~= d.skip(k));
        assert(ps.skip(k).last() == ps.last());
        assert(ser_postings_items(ps.skip(k))
            == ser_postings_items(d.skip(k)) + ser_posting(ps.last()));
        assert(ser_postings_items(ps)
            =~= ser_postings_items(ps.take(k)) + ser_postings_items(ps.skip(k)));
    }
}

/// The leading item of a posting-list suffix.
proof fn lemma_postings_items_first(ps: Seq<(nat, nat)>, k: int)
    requires
        0 <= k < ps.len(),
    ensures
        ser_postings_items(ps.skip(k))
            == ser_posting(ps[k]) + ser_postings_items(ps.skip(k + 1)),
{
    let tail = ps.skip(k);
    lemma_postings_items_split(tail, 1);
    assert(tail.take(1) =~= seq![ps[k]]);
    assert(tail.skip(1) =~= ps.skip(k + 1));
    assert(seq![ps[k]].drop_last() =~= Seq::<(nat, nat)>::empty());
    assert(seq![ps[k]].last() == ps[k]);
    assert(ser_postings_items(Seq::<(nat, nat)>::empty()) == Seq::<char>::empty());
    assert(ser_postings_items(seq![ps[k]]) =~= ser_posting(ps[k]));
}

/// Every posting value fits a machine word.
pub open spec fn bounded_postings(ps: Seq<(nat, nat)>) -> bool {
    forall|a: int| 0 <= a < ps.len()
        ==> (#[trigger] ps[a]).0 <= usize::MAX && ps[a].1 <= usize::MAX
}

/// Reads length-prefixed character data. Returns exactly the text a
/// serialized character sequence carries, and accepts nothing else.
fn parse_chars(s: &Vec<char>, pos: usize) -> (r: Option<(String, usize)>)
    requires
        pos <= s@.len(),
    ensures
        r matches Some(v) ==> pos <= v.1 <= s@.len()
            && s@.subrange(pos as int, v.1 as int) == ser_chars(v.0@),
        forall|cs: Seq<char>| pos + ser_chars(cs).len() <= s@.len()
            && s@.subrange(pos as int, pos + ser_chars(cs).len() as int)
                == #[trigger] ser_chars(cs)
            ==> r is Some && r->Some_0.0@ == cs
                && r->Some_0.1 == pos + ser_chars(cs).len(),
{
    let total = s.len();
    proof {
        assert(s@.len() == total as nat);
        lemma_chunk_len(8, 0);
    }
    let parsed = parse_u64(s, pos);
    proof {
        if parsed is None {
            assert forall|cs: Seq<char>| pos + ser_chars(cs).len() <= s@.len()
                && s@.subrange(pos as int, pos + ser_chars(cs).len() as int)
                    == #[trigger] ser_chars(cs)
                implies false by {
                lemma_chunk_len(8, cs.len());
                lemma_split(s@, pos as int, ser_u64(cs.len()), cs);
                assert(cs.len() <= usize::MAX);
                let n0: u64 = cs.len() as u64;
                assert(ser_u64(n0 as nat) == ser_u64(cs.len()));
                assert(s@.subrange(pos as int, pos as int + 8) == ser_u64(n0 as nat));
            }
        }
    }
    let (n, p1) = match parsed {
        Some(v) => v,
        None => {
            return None;
        },
    };
    proof {
        lemma_chunk_len(8, n as nat);
    }
    if n > (total - p1) as u64 {
        proof {
            assert forall|cs: Seq<char>| pos + ser_chars(cs).len() <= s@.len()
                && s@.subrange(pos as int, pos + ser_chars(cs).len() as int)
                    == #[trigger] ser_chars(cs)
                implies false by {
                lemma_chunk_len(8, cs.len());
                lemma_split(s@, pos as int, ser_u64(cs.len()), cs);
                assert(cs.len() <= usize::MAX);
                let n0: u64 = cs.len() as u64;
                assert(ser_u64(n0 as nat) == ser_u64(cs.len()));
                assert(s@.subrange(pos as int, pos as int + 8) == ser_u64(n0 as nat));
                assert(n0 == n);
            }
        }
        return None;
    }
    let len = n as usize;
    let mut sub: Vec<char> = Vec::new();
    let mut t: usize = 0;
    proof {
        assert(sub@ =~= s@.subrange(p1 as int, p1 as int));
    }
    while t < len
        invariant
            0 <= t <= len,
            p1 + len <= s@.len(),
            s@.len() <= usize::MAX,
            sub@ == s@.subrange(p1 as int, p1 + t),
        decreases len - t,
    {
        sub.push(s[p1 + t]);
        proof {
            assert(sub@ =~= s@.subrange(p1 as int, p1 + t + 1));
        }
        t = t + 1;
    }
    let text = string_from_chars(&sub);
    proof {
        assert(text@ == s@.subrange(p1 as int, p1 + len));
        assert(text@.len() == len as nat);
        assert(ser_u64(text@.len()) == s@.subrange(pos as int, pos as int + 8));
        lemma_join(
            s@,
            pos as int,
            p1 as int,
            p1 + len,
            ser_u64(text@.len()),
            text@,
        );
        assert forall|cs: Seq<char>| pos + ser_chars(cs).len() <= s@.len()
            && s@.subrange(pos as int, pos + ser_chars(cs).len() as int)
                == #[trigger] ser_chars(cs)
            implies cs == text@ && pos + ser_chars(cs).len() == p1 + len by {
            lemma_chunk_len(8, cs.len());
            lemma_split(s@, pos as int, ser_u64(cs.len()), cs);
            assert(cs.len() <= usize::MAX);
            let n0: u64 = cs.len() as u64;
            assert(ser_u64(n0 as nat) == ser_u64(cs.len()));
            assert(s@.subrange(pos as int, pos as int + 8) == ser_u64(n0 as nat));
            assert(n0 == n);
            assert(cs.len() == len as nat);
            assert(cs == s@.subrange(p1 as int, p1 + len));
        }
    }
    Some((text, p1 + len))
}

/// Reads a posting list. Returns exactly the list a serialized posting
/// list carries, and accepts nothing else.
fn parse_postings(s: &Vec<char>, pos: usize) -> (r: Option<(Vec<Posting>, usize)>)
    requires
        pos <= s@.len(),
    ensures
        r matches Some(v) ==> pos <= v.1 <= s@.len()
            && s@.subrange(pos as int, v.1 as int) == ser_postings(v.0.deep_view()),
        forall|ps: Seq<(nat, nat)>| bounded_postings(ps)
            && pos + ser_postings(ps).len() <= s@.len()
            && s@.subrange(pos as int, pos + ser_postings(ps).len() as int)
                == #[trigger] ser_postings(ps)
            ==> r is Some && r->Some_0.0.deep_view() == ps
                && r->Some_0.1 == pos + ser_postings(ps).len(),
{
    let total = s.len();
    proof {
        assert(s@.len() == total as nat);
    }
    let parsed = parse_u64(s, pos);
    proof {
        if parsed is None {
            assert forall|ps: Seq<(nat, nat)>| bounded_postings(ps)
                && pos + ser_postings(ps).len() <= s@.len()
                && s@.subrange(pos as int, pos + ser_postings(ps).len() as int)
                    == #[trigger] ser_postings(ps)
                implies false by {
                lemma_chunk_len(8, ps.len());
                lemma_postings_items_len(ps);
                lemma_split(s@, pos as int, ser_u64(ps.len()), ser_postings_items(ps));
                let n0: u64 = ps.len() as u64;
                assert(ser_u64(n0 as nat) == ser_u64(ps.len()));
                assert(s@.subrange(pos as int, pos as int + 8) == ser_u64(n0 as nat));
            }
        }
    }
    let (n, p1) = match parsed {
        Some(v) => v,
        None => {
            return None;
        },
    };
    proof {
        lemma_chunk_len(8, n as nat);
    }
    let mut out: Vec<Posting> = Vec::new();
    let mut cur: usize = p1;
    let mut k: u64 = 0;
    proof {
        assert(out.deep_view() =~= Seq::<(nat, nat)>::empty());
        assert(ser_postings_items(Seq::<(nat, nat)>::empty()) == Seq::<char>::empty());
        assert(s@.subrange(p1 as int, p1 as int)
            =~= ser_postings_items(out.deep_view()));
        assert forall|ps: Seq<(nat, nat)>| bounded_postings(ps)
            && pos + ser_postings(ps).len() <= s@.len()
            && s@.subrange(pos as int, pos + ser_postings(ps).len() as int)
                == #[trigger] ser_postings(ps)
            implies ps.len() == n as nat && out.deep_view() == ps.take(0)
                && p1 as int == p1 + ser_postings_items(ps.take(0)).len() by {
            lemma_chunk_len(8, ps.len());
            lemma_postings_items_len(ps);
            lemma_split(s@, pos as int, ser_u64(ps.len()), ser_postings_items(ps));
            lemma_pow256_8();
            lemma_ser_u64_injective(ps.len(), n as nat);
            assert(ps.take(0) =~= Seq::<(nat, nat)>::empty());
            assert(out.deep_view() =~= ps.take(0));
            assert(ser_postings_items(ps.take(0)) == Seq::<char>::empty());
        }
    }
    while k < n
        invariant
            0 <= k <= n,
            out.deep_view().len() == k as nat,
            out@.len() == k as nat,
            pos + 8 == p1,
            p1 <= cur <= s@.len(),
            s@.len() <= usize::MAX,
            s@.subrange(pos as int, pos as int + 8) == ser_u64(n as nat),
            s@.subrange(p1 as int, cur as int) == ser_postings_items(out.deep_view()),
            forall|ps: Seq<(nat, nat)>| bounded_postings(ps)
                && pos + ser_postings(ps).len() <= s@.len()
                && s@.subrange(pos as int, pos + ser_postings(ps).len() as int)
                    == #[trigger] ser_postings(ps)
                ==> ps.len() == n as nat && out.deep_view() == ps.take(k as int)
                    && cur == p1 + ser_postings_items(ps.take(k as int)).len(),
        decreases n - k,
    {
        let ghost dv0 = out.deep_view();
        proof {
            assert forall|ps: Seq<(nat, nat)>| bounded_postings(ps)
                && pos + ser_postings(ps).len() <= s@.len()
                && s@.subrange(pos as int, pos + ser_postings(ps).len() as int)
                    == #[trigger] ser_postings(ps)
                implies s@.subrange(cur as int, cur as int + 16)
                    == ser_u64(ps[k as int].0) + ser_u64(ps[k as int].1)
                    && (cur as int + 16 <= pos + ser_postings(ps).len()) by {
                lemma_chunk_len(8, ps.len());
                lemma_postings_items_len(ps);
                lemma_split(s@, pos as int, ser_u64(ps.len()), ser_postings_items(ps));
                lemma_postings_items_split(ps, k as int);
                lemma_postings_items_len(ps.take(k as int));
                lemma_postings_items_len(ps.skip(k as int));
                lemma_split(
                    s@,
                    p1 as int,
                    ser_postings_items(ps.take(k as int)),
                    ser_postings_items(ps.skip(k as int)),
                );
                lemma_postings_items_first(ps, k as int);
                lemma_postings_items_len(ps.skip(k as int + 1));
                lemma_chunk_len(8, ps[k as int].0);
                lemma_chunk_len(8, ps[k as int].1);
                lemma_split(
                    s@,
                    cur as int,
                    ser_posting(ps[k as int]),
                    ser_postings_items(ps.skip(k as int + 1)),
                );
            }
        }
        let pa = parse_u64(s, cur);
        let (du, p2) = match pa {
            Some(v) => v,
            None => {
                proof {
                    assert forall|ps: Seq<(nat, nat)>| bounded_postings(ps)
                        && pos + ser_postings(ps).len() <= s@.len()
                        && s@.subrange(pos as int, pos + ser_postings(ps).len() as int)
                            == #[trigger] ser_postings(ps)
                        implies false by {
                        lemma_chunk_len(8, ps[k as int].0);
                        lemma_chunk_len(8, ps[k as int].1);
                        lemma_split(
                            s@,
                            cur as int,
                            ser_u64(ps[k as int].0),
                            ser_u64(ps[k as int].1),
                        );
                        let n0: u64 = ps[k as int].0 as u64;
                        assert(ser_u64(n0 as nat) == ser_u64(ps[k as int].0));
                        assert(s@.subrange(cur as int, cur as int + 8) == ser_u64(n0 as nat));
                    }
                }
                return None;
            },
        };
        let pb = parse_u64(s, p2);
        let (cu, p3) = match pb {
            Some(v) => v,
            None => {
                proof {
                    assert forall|ps: Seq<(nat, nat)>| bounded_postings(ps)
                        && pos + ser_postings(ps).len() <= s@.len()
                        && s@.subrange(pos as int, pos + ser_postings(ps).len() as int)
                            == #[trigger] ser_postings(ps)
                        implies false by {
                        lemma_chunk_len(8, ps[k as int].0);
                        lemma_chunk_len(8, ps[k as int].1);
                        lemma_split(
                            s@,
                            cur as int,
                            ser_u64(ps[k as int].0),
                            ser_u64(ps[k as int].1),
                        );
                        let n0: u64 = ps[k as int].0 as u64;
                        let n1: u64 = ps[k as int].1 as u64;
                        assert(ser_u64(n0 as nat) == ser_u64(ps[k as int].0));
                        assert(ser_u64(n1 as nat) == ser_u64(ps[k as int].1));
                        assert(s@.subrange(cur as int, cur as int + 8) == ser_u64(n0 as nat));
                        assert(s@.subrange(cur as int + 8, cur as int + 16)
                            == ser_u64(n1 as nat));
                    }
                }
                return None;
            },
        };
        if du > usize::MAX as u64 || cu > usize::MAX as u64 {
            proof {
                assert forall|ps: Seq<(nat, nat)>| bounded_postings(ps)
                    && pos + ser_postings(ps).len() <= s@.len()
                    && s@.subrange(pos as int, pos + ser_postings(ps).len() as int)
                        == #[trigger] ser_postings(ps)
                    implies false by {
                    lemma_chunk_len(8, ps[k as int].0);
                    lemma_chunk_len(8, ps[k as int].1);
                    lemma_split(
                        s@,
                        cur as int,
                        ser_u64(ps[k as int].0),
                        ser_u64(ps[k as int].1),
                    );
                    let n0: u64 = ps[k as int].0 as u64;
                    let n1: u64 = ps[k as int].1 as u64;
                    assert(ser_u64(n0 as nat) == ser_u64(ps[k as int].0));
                    assert(ser_u64(n1 as nat) == ser_u64(ps[k as int].1));
                    assert(s@.subrange(cur as int, cur as int + 8) == ser_u64(n0 as nat));
                    assert(s@.subrange(cur as int + 8, cur as int + 16)
                        == ser_u64(n1 as nat));
                    assert(du == n0 && cu == n1);
                }
            }
            return None;
        }
        out.push(Posting { doc_id: du as usize, count: cu as usize });
        proof {
            assert(out@[k as int]@ == (du as nat, cu as nat));
            assert forall|j: int| 0 <= j < out@.len() implies
                #[trigger] out.deep_view()[j] == dv0.push((du as nat, cu as nat))[j] by {
                assert(out.deep_view()[j] == out@[j].deep_view());
                if j < k as int {
                    assert(out@[j].deep_view() == dv0[j]);
                }
            }
            assert(out.deep_view() =~= dv0.push((du as nat, cu as nat)));
            assert(dv0.push((du as nat, cu as nat)).drop_last() =~= dv0);
            assert(dv0.push((du as nat, cu as nat)).last() == (du as nat, cu as nat));
            assert(ser_postings_items(dv0.push((du as nat, cu as nat)))
                == ser_postings_items(dv0) + ser_posting((du as nat, cu as nat)));
            lemma_join(
                s@,
                cur as int,
                p2 as int,
                p3 as int,
                ser_u64(du as nat),
                ser_u64(cu as nat),
            );
            lemma_join(
                s@,
                p1 as int,
                cur as int,
                p3 as int,
                ser_postings_items(dv0),
                ser_posting((du as nat, cu as nat)),
            );
            assert forall|ps: Seq<(nat, nat)>| bounded_postings(ps)
                && pos + ser_postings(ps).len() <= s@.len()
                && s@.subrange(pos as int, pos + ser_postings(ps).len() as int)
                    == #[trigger] ser_postings(ps)
                implies out.deep_view() == ps.take(k as int + 1)
                    && p3 == p1 + ser_postings_items(ps.take(k as int + 1)).len() by {
                lemma_chunk_len(8, ps[k as int].0);
                lemma_chunk_len(8, ps[k as int].1);
                lemma_split(
                    s@,
                    cur as int,
                    ser_u64(ps[k as int].0),
                    ser_u64(ps[k as int].1),
                );
                let n0: u64 = ps[k as int].0 as u64;
                let n1: u64 = ps[k as int].1 as u64;
                assert(ser_u64(n0 as nat) == ser_u64(ps[k as int].0));
                assert(ser_u64(n1 as nat) == ser_u64(ps[k as int].1));
                assert(s@.subrange(cur as int, cur as int + 8) == ser_u64(n0 as nat));
                assert(s@.subrange(cur as int + 8, cur as int + 16) == ser_u64(n1 as nat));
                assert(du == n0 && cu == n1);
                assert(ps[k as int] == (du as nat, cu as nat));
                assert(ps.take(k as int + 1).drop_last() =~= ps.take(k as int));
                assert(ps.take(k as int + 1) =~= ps.take(k as int).push(ps[k as int]));
                assert(out.deep_view() =~= ps.take(k as int + 1));
                lemma_postings_items_len(ps.take(k as int));
                lemma_postings_items_len(ps.take(k as int + 1));
            }
        }
        cur = p3;
        k = k + 1;
    }
    proof {
        lemma_join(
            s@,
            pos as int,
            p1 as int,
            cur as int,
            ser_u64(n as nat),
            ser_postings_items(out.deep_view()),
        );
        assert(out.deep_view().len() == n as nat);
        assert(ser_postings(out.deep_view())
            == ser_u64(n as nat) + ser_postings_items(out.deep_view()));
        assert forall|ps: Seq<(nat, nat)>| bounded_postings(ps)
            && pos + ser_postings(ps).len() <= s@.len()
            && s@.subrange(pos as int, pos + ser_postings(ps).len() as int)
                == #[trigger] ser_postings(ps)
            implies out.deep_view() == ps
                && cur == pos + ser_postings(ps).len() by {
            assert(ps.take(ps.len() as int) =~= ps);
            lemma_chunk_len(8, ps.len());
            lemma_postings_items_len(ps);
        }
    }
    Some((out, cur))
}


/// One term entry: the term's characters, then its posting list.
pub open spec fn ser_term(t: crate::TermM) -> Seq<char> {
    ser_chars(t.term) + ser_postings(t.postings)
}

/// The index's term entries, in order.
pub open spec fn ser_terms_items(ts: Seq<crate::TermM>) -> Seq<char>
    decreases ts.len(),
{
    if ts.len() == 0 {
        Seq::empty()
    } else {
        ser_terms_items(ts.drop_last()) + ser_term(ts.last())
    }
}

/// The whole index: its term count, then its term entries.
pub open spec fn ser_terms(ts: Seq<crate::TermM>) -> Seq<char> {
    ser_u64(ts.len()) + ser_terms_items(ts)
}

/// One document: its name, then its length.
pub open spec fn ser_doc(d: crate::DocM) -> Seq<char> {
    ser_chars(d.name) + ser_u64(d.length)
}

/// The document table's entries, in order.
pub open spec fn ser_docs_items(ds: Seq<crate::DocM>) -> Seq<char>
    decreases ds.len(),
{
    if ds.len() == 0 {
        Seq::empty()
    } else {
        ser_docs_items(ds.drop_last()) + ser_doc(ds.last())
    }
}

/// The whole document table: its count, then its entries.
pub open spec fn ser_docs(ds: Seq<crate::DocM>) -> Seq<char> {
    ser_u64(ds.len()) + ser_docs_items(ds)
}

/// A whole store as one text: the index, then the document table.
pub open spec fn spec_snapshot(m: StoreM) -> Seq<char> {
    ser_terms(m.terms) + ser_docs(m.docs)
}

/// Every posting value of every term fits a machine word.
pub open spec fn bounded_terms(ts: Seq<crate::TermM>) -> bool {
    forall|i: int| 0 <= i < ts.len() ==> bounded_postings((#[trigger] ts[i]).postings)
}

/// Every document length fits a machine word.
pub open spec fn bounded_docs(ds: Seq<crate::DocM>) -> bool {
    forall|i: int| 0 <= i < ds.len() ==> (#[trigger] ds[i]).length <= usize::MAX
}

/// Every number the store holds fits a machine word.
pub open spec fn bounded_store(m: StoreM) -> bool {
    bounded_terms(m.terms) && bounded_docs(m.docs)
}

/// Term entries take at least one character each.
proof fn lemma_terms_items_len_lb(ts: Seq<crate::TermM>)
    ensures
        ser_terms_items(ts).len() >= ts.len(),
    decreases ts.len(),
{
    if ts.len() > 0 {
        lemma_terms_items_len_lb(ts.drop_last());
        lemma_chunk_len(8, ts.last().term.len());
        lemma_chunk_len(8, ts.last().postings.len());
    }
}

/// Term entries split at any position.
proof fn lemma_terms_items_split(ts: Seq<crate::TermM>, k: int)
    requires
        0 <= k <= ts.len(),
    ensures
        ser_terms_items(ts) == ser_terms_items(ts.take(k)) + ser_terms_items(ts.skip(k)),
    decreases ts.len(),
{
    if k == ts.len() {
        assert(ts.take(k) =~= ts);
        assert(ts.skip(k) =~= Seq::<crate::TermM>::empty());
        assert(ser_terms_items(ts)
            =~= ser_terms_items(ts.take(k)) + ser_terms_items(ts.skip(k)));
    } else {
        let d = ts.drop_last();
        lemma_terms_items_split(d, k);
        assert(d.take(k) =~= ts.take(k));
        assert(ts.skip(k).drop_last() =~= d.skip(k));
        assert(ts.skip(k).last() == ts.last());
        assert(ser_terms_items(ts.skip(k))
            == ser_terms_items(d.skip(k)) + ser_term(ts.last()));
        assert(ser_terms_items(ts)
            =~= ser_terms_items(ts.take(k)) + ser_terms_items(ts.skip(k)));
    }
}

/// The leading entry of a term-list suffix.
proof fn lemma_terms_items_first(ts: Seq<crate::TermM>, k: int)
    requires
        0 <= k < ts.len(),
    ensures
        ser_terms_items(ts.skip(k)) == ser_term(ts[k]) + ser_terms_items(ts.skip(k + 1)),
{
    let tail = ts.skip(k);
    lemma_terms_items_split(tail, 1);
    assert(tail.take(1) =~= seq![ts[k]]);
    assert(tail.skip(1) =~= ts.skip(k + 1));
    assert(seq![ts[k]].drop_last() =~= Seq::<crate::TermM>::empty());
    assert(seq![ts[k]].last() == ts[k]);
    assert(ser_terms_items(Seq::<crate::TermM>::empty()) == Seq::<char>::empty());
    assert(ser_terms_items(seq![ts[k]]) =~= ser_term(ts[k]));
}

/// Document entries take at least one character each.
proof fn lemma_docs_items_len_lb(ds: Seq<crate::DocM>)
    ensures
        ser_docs_items(ds).len() >= ds.len(),
    decreases ds.len(),
{
    if ds.len() > 0 {
        lemma_docs_items_len_lb(ds.drop_last());
        lemma_chunk_len(8, ds.last().name.len());
        lemma_chunk_len(8, ds.last().length);
    }
}

/// Document entries split at any position.
proof fn lemma_docs_items_split(ds: Seq<crate::DocM>, k: int)
    requires
        0 <= k <= ds.len(),
    ensures
        ser_docs_items(ds) == ser_docs_items(ds.take(k)) + ser_docs_items(ds.skip(k)),
    decreases ds.len(),
{
    if k == ds.len() {
        assert(ds.take(k) =~= ds);
        assert(ds.skip(k) =~= Seq::<crate::DocM>::empty());
        assert(ser_docs_items(ds)
            =~= ser_docs_items(ds.take(k)) + ser_docs_items(ds.skip(k)));
    } else {
        let d = ds.drop_last();
        lemma_docs_items_split(d, k);
        assert(d.take(k) =~= ds.take(k));
        assert(ds.skip(k).drop_last() =~= d.skip(k));
        assert(ds.skip(k).last() == ds.last());
        assert(ser_docs_items(ds.skip(k))
            == ser_docs_items(d.skip(k)) + ser_doc(ds.last()));
        assert(ser_docs_items(ds)
            =~= ser_docs_items(ds.take(k)) + ser_docs_items(ds.skip(k)));
    }
}

/// The leading entry of a document-list suffix.
proof fn lemma_docs_items_first(ds: Seq<crate::DocM>, k: int)
    requires
        0 <= k < ds.len(),
    ensures
        ser_docs_items(ds.skip(k)) == ser_doc(ds[k]) + ser_docs_items(ds.skip(k + 1)),
{
    let tail = ds.skip(k);
    lemma_docs_items_split(tail, 1);
    assert(tail.take(1) =~= seq![ds[k]]);
    assert(tail.skip(1) =~= ds.skip(k + 1));
    assert(seq![ds[k]].drop_last() =~= Seq::<crate::DocM>::empty());
    assert(seq![ds[k]].last() == ds[k]);
    assert(ser_docs_items(Seq::<crate::DocM>::empty()) == Seq::<char>::empty());
    assert(ser_docs_items(seq![ds[k]]) =~= ser_doc(ds[k]));
}


/// Reads the index: a term count, then that many term entries. Returns
/// exactly the entries a serialized index carries, and accepts nothing
/// else.
fn parse_terms(s: &Vec<char>, pos: usize) -> (r: Option<(Vec<crate::TermPostings>, usize)>)
    requires
        pos <= s@.len(),
    ensures
        r matches Some(v) ==> pos <= v.1 <= s@.len()
            && s@.subrange(pos as int, v.1 as int) == ser_terms(v.0.deep_view()),
        forall|ms: Seq<crate::TermM>| bounded_terms(ms)
            && pos + ser_terms(ms).len() <= s@.len()
            && s@.subrange(pos as int, pos + ser_terms(ms).len() as int)
                == #[trigger] ser_terms(ms)
            ==> r is Some && r->Some_0.0.deep_view() == ms
                && r->Some_0.1 == pos + ser_terms(ms).len(),
{
    let total = s.len();
    proof {
        assert(s@.len() == total as nat);
    }
    let parsed = parse_u64(s, pos);
    proof {
        if parsed is None {
            assert forall|ms: Seq<crate::TermM>| bounded_terms(ms)
                && pos + ser_terms(ms).len() <= s@.len()
                && s@.subrange(pos as int, pos + ser_terms(ms).len() as int)
                    == #[trigger] ser_terms(ms)
                implies false by {
                lemma_chunk_len(8, ms.len());
                lemma_terms_items_len_lb(ms);
                lemma_split(s@, pos as int, ser_u64(ms.len()), ser_terms_items(ms));
                let n0: u64 = ms.len() as u64;
                assert(ser_u64(n0 as nat) == ser_u64(ms.len()));
                assert(s@.subrange(pos as int, pos as int + 8) == ser_u64(n0 as nat));
            }
        }
    }
    let (n, p1) = match parsed {
        Some(v) => v,
        None => {
            return None;
        },
    };
    proof {
        lemma_chunk_len(8, n as nat);
    }
    let mut out: Vec<crate::TermPostings> = Vec::new();
    let mut cur: usize = p1;
    let mut k: u64 = 0;
    proof {
        assert(out.deep_view() =~= Seq::<crate::TermM>::empty());
        assert(ser_terms_items(Seq::<crate::TermM>::empty()) == Seq::<char>::empty());
        assert(s@.subrange(p1 as int, p1 as int) =~= ser_terms_items(out.deep_view()));
        assert forall|ms: Seq<crate::TermM>| bounded_terms(ms)
            && pos + ser_terms(ms).len() <= s@.len()
            && s@.subrange(pos as int, pos + ser_terms(ms).len() as int)
                == #[trigger] ser_terms(ms)
            implies ms.len() == n as nat && out.deep_view() == ms.take(0)
                && p1 as int == p1 + ser_terms_items(ms.take(0)).len() by {
            lemma_chunk_len(8, ms.len());
            lemma_terms_items_len_lb(ms);
            lemma_split(s@, pos as int, ser_u64(ms.len()), ser_terms_items(ms));
            lemma_pow256_8();
            lemma_ser_u64_injective(ms.len(), n as nat);
            assert(ms.take(0) =~= Seq::<crate::TermM>::empty());
            assert(out.deep_view() =~= ms.take(0));
            assert(ser_terms_items(ms.take(0)) == Seq::<char>::empty());
        }
    }
    while k < n
        invariant
            0 <= k <= n,
            out.deep_view().len() == k as nat,
            out@.len() == k as nat,
            pos + 8 == p1,
            p1 <= cur <= s@.len(),
            s@.len() <= usize::MAX,
            s@.subrange(pos as int, pos as int + 8) == ser_u64(n as nat),
            s@.subrange(p1 as int, cur as int) == ser_terms_items(out.deep_view()),
            forall|ms: Seq<crate::TermM>| bounded_terms(ms)
                && pos + ser_terms(ms).len() <= s@.len()
                && s@.subrange(pos as int, pos + ser_terms(ms).len() as int)
                    == #[trigger] ser_terms(ms)
                ==> ms.len() == n as nat && out.deep_view() == ms.take(k as int)
                    && cur == p1 + ser_terms_items(ms.take(k as int)).len(),
        decreases n - k,
    {
        let ghost dv0 = out.deep_view();
        proof {
            assert forall|ms: Seq<crate::TermM>| bounded_terms(ms)
                && pos + ser_terms(ms).len() <= s@.len()
                && s@.subrange(pos as int, pos + ser_terms(ms).len() as int)
                    == #[trigger] ser_terms(ms)
                implies cur + ser_term(ms[k as int]).len() <= s@.len()
                    && s@.subrange(cur as int, cur + ser_chars(ms[k as int].term).len())
                        == ser_chars(ms[k as int].term)
                    && s@.subrange(
                        cur + ser_chars(ms[k as int].term).len(),
                        cur + ser_term(ms[k as int]).len(),
                    ) == ser_postings(ms[k as int].postings) by {
                lemma_chunk_len(8, ms.len());
                lemma_split(s@, pos as int, ser_u64(ms.len()), ser_terms_items(ms));
                lemma_terms_items_split(ms, k as int);
                lemma_split(
                    s@,
                    p1 as int,
                    ser_terms_items(ms.take(k as int)),
                    ser_terms_items(ms.skip(k as int)),
                );
                lemma_terms_items_first(ms, k as int);
                lemma_split(
                    s@,
                    cur as int,
                    ser_term(ms[k as int]),
                    ser_terms_items(ms.skip(k as int + 1)),
                );
                lemma_split(
                    s@,
                    cur as int,
                    ser_chars(ms[k as int].term),
                    ser_postings(ms[k as int].postings),
                );
            }
        }
        let pc = parse_chars(s, cur);
        let (text, q1) = match pc {
            Some(v) => v,
            None => {
                proof {
                    assert forall|ms: Seq<crate::TermM>| bounded_terms(ms)
                        && pos + ser_terms(ms).len() <= s@.len()
                        && s@.subrange(pos as int, pos + ser_terms(ms).len() as int)
                            == #[trigger] ser_terms(ms)
                        implies false by {
                        assert(s@.subrange(
                            cur as int,
                            cur + ser_chars(ms[k as int].term).len(),
                        ) == ser_chars(ms[k as int].term));
                    }
                }
                return None;
            },
        };
        let pp = parse_postings(s, q1);
        let (plist, q2) = match pp {
            Some(v) => v,
            None => {
                proof {
                    assert forall|ms: Seq<crate::TermM>| bounded_terms(ms)
                        && pos + ser_terms(ms).len() <= s@.len()
                        && s@.subrange(pos as int, pos + ser_terms(ms).len() as int)
                            == #[trigger] ser_terms(ms)
                        implies false by {
                        assert(s@.subrange(
                            cur as int,
                            cur + ser_chars(ms[k as int].term).len(),
                        ) == ser_chars(ms[k as int].term));
                        assert(q1 == cur + ser_chars(ms[k as int].term).len());
                        assert(s@.subrange(q1 as int, q1 + ser_postings(ms[k as int].postings).len())
                            == ser_postings(ms[k as int].postings));
                        assert(bounded_postings(ms[k as int].postings));
                    }
                }
                return None;
            },
        };
        out.push(crate::TermPostings { term: text, postings: plist });
        proof {
            let newm = crate::TermM {
                term: out@[k as int].term@,
                postings: out@[k as int].postings.deep_view(),
            };
            assert forall|j: int| 0 <= j < out@.len() implies
                #[trigger] out.deep_view()[j] == dv0.push(newm)[j] by {
                assert(out.deep_view()[j] == out@[j].deep_view());
                if j < k as int {
                    assert(out@[j].deep_view() == dv0[j]);
                }
            }
            assert(out.deep_view() =~= dv0.push(newm));
            assert(dv0.push(newm).drop_last() =~= dv0);
            assert(dv0.push(newm).last() == newm);
            assert(ser_terms_items(dv0.push(newm))
                == ser_terms_items(dv0) + ser_term(newm));
            assert(newm.term == text@ && newm.postings == plist.deep_view());
            lemma_join(
                s@,
                cur as int,
                q1 as int,
                q2 as int,
                ser_chars(text@),
                ser_postings(plist.deep_view()),
            );
            assert(ser_term(newm) == ser_chars(text@) + ser_postings(plist.deep_view()));
            lemma_join(
                s@,
                p1 as int,
                cur as int,
                q2 as int,
                ser_terms_items(dv0),
                ser_term(newm),
            );
            assert forall|ms: Seq<crate::TermM>| bounded_terms(ms)
                && pos + ser_terms(ms).len() <= s@.len()
                && s@.subrange(pos as int, pos + ser_terms(ms).len() as int)
                    == #[trigger] ser_terms(ms)
                implies out.deep_view() == ms.take(k as int + 1)
                    && q2 == p1 + ser_terms_items(ms.take(k as int + 1)).len() by {
                assert(s@.subrange(cur as int, cur + ser_chars(ms[k as int].term).len())
                    == ser_chars(ms[k as int].term));
                assert(text@ == ms[k as int].term);
                assert(q1 == cur + ser_chars(ms[k as int].term).len());
                assert(s@.subrange(q1 as int, q1 + ser_postings(ms[k as int].postings).len())
                    == ser_postings(ms[k as int].postings));
                assert(bounded_postings(ms[k as int].postings));
                assert(plist.deep_view() == ms[k as int].postings);
                assert(q2 == q1 + ser_postings(ms[k as int].postings).len());
                assert(newm == ms[k as int]);
                assert(ms.take(k as int + 1).drop_last() =~= ms.take(k as int));
                assert(ms.take(k as int + 1).last() == ms[k as int]);
                assert(out.deep_view() =~= ms.take(k as int + 1));
                assert(ser_terms_items(ms.take(k as int + 1))
                    == ser_terms_items(ms.take(k as int)) + ser_term(ms[k as int]));
            }
        }
        cur = q2;
        k = k + 1;
    }
    proof {
        lemma_join(
            s@,
            pos as int,
            p1 as int,
            cur as int,
            ser_u64(n as nat),
            ser_terms_items(out.deep_view()),
        );
        assert(out.deep_view().len() == n as nat);
        assert(ser_terms(out.deep_view())
            == ser_u64(n as nat) + ser_terms_items(out.deep_view()));
        assert forall|ms: Seq<crate::TermM>| bounded_terms(ms)
            && pos + ser_terms(ms).len() <= s@.len()
            && s@.subrange(pos as int, pos + ser_terms(ms).len() as int)
                == #[trigger] ser_terms(ms)
            implies out.deep_view() == ms && cur == pos + ser_terms(ms).len() by {
            assert(ms.take(ms.len() as int) =~= ms);
            lemma_chunk_len(8, ms.len());
        }
    }
    Some((out, cur))
}

/// Reads the document table: a count, then that many documents. Returns
/// exactly the documents a serialized table carries, and accepts nothing
/// else.
fn parse_docs(s: &Vec<char>, pos: usize) -> (r: Option<(Vec<crate::Document>, usize)>)
    requires
        pos <= s@.len(),
    ensures
        r matches Some(v) ==> pos <= v.1 <= s@.len()
            && s@.subrange(pos as int, v.1 as int) == ser_docs(v.0.deep_view()),
        forall|ds: Seq<crate::DocM>| bounded_docs(ds)
            && pos + ser_docs(ds).len() <= s@.len()
            && s@.subrange(pos as int, pos + ser_docs(ds).len() as int)
                == #[trigger] ser_docs(ds)
            ==> r is Some && r->Some_0.0.deep_view() == ds
                && r->Some_0.1 == pos + ser_docs(ds).len(),
{
    let total = s.len();
    proof {
        assert(s@.len() == total as nat);
    }
    let parsed = parse_u64(s, pos);
    proof {
        if parsed is None {
            assert forall|ds: Seq<crate::DocM>| bounded_docs(ds)
                && pos + ser_docs(ds).len() <= s@.len()
                && s@.subrange(pos as int, pos + ser_docs(ds).len() as int)
                    == #[trigger] ser_docs(ds)
                implies false by {
                lemma_chunk_len(8, ds.len());
                lemma_docs_items_len_lb(ds);
                lemma_split(s@, pos as int, ser_u64(ds.len()), ser_docs_items(ds));
                let n0: u64 = ds.len() as u64;
                assert(ser_u64(n0 as nat) == ser_u64(ds.len()));
                assert(s@.subrange(pos as int, pos as int + 8) == ser_u64(n0 as nat));
            }
        }
    }
    let (n, p1) = match parsed {
        Some(v) => v,
        None => {
            return None;
        },
    };
    proof {
        lemma_chunk_len(8, n as nat);
    }
    let mut out: Vec<crate::Document> = Vec::new();
    let mut cur: usize = p1;
    let mut k: u64 = 0;
    proof {
        assert(out.deep_view() =~= Seq::<crate::DocM>::empty());
        assert(ser_docs_items(Seq::<crate::DocM>::empty()) == Seq::<char>::empty());
        assert(s@.subrange(p1 as int, p1 as int) =~= ser_docs_items(out.deep_view()));
        assert forall|ds: Seq<crate::DocM>| bounded_docs(ds)
            && pos + ser_docs(ds).len() <= s@.len()
            && s@.subrange(pos as int, pos + ser_docs(ds).len() as int)
                == #[trigger] ser_docs(ds)
            implies ds.len() == n as nat && out.deep_view() == ds.take(0)
                && p1 as int == p1 + ser_docs_items(ds.take(0)).len() by {
            lemma_chunk_len(8, ds.len());
            lemma_docs_items_len_lb(ds);
            lemma_split(s@, pos as int, ser_u64(ds.len()), ser_docs_items(ds));
            lemma_pow256_8();
            lemma_ser_u64_injective(ds.len(), n as nat);
            assert(ds.take(0) =~= Seq::<crate::DocM>::empty());
            assert(out.deep_view() =~= ds.take(0));
            assert(ser_docs_items(ds.take(0)) == Seq::<char>::empty());
        }
    }
    while k < n
        invariant
            0 <= k <= n,
            out.deep_view().len() == k as nat,
            out@.len() == k as nat,
            pos + 8 == p1,
            p1 <= cur <= s@.len(),
            s@.len() <= usize::MAX,
            s@.subrange(pos as int, pos as int + 8) == ser_u64(n as nat),
            s@.subrange(p1 as int, cur as int) == ser_docs_items(out.deep_view()),
            forall|ds: Seq<crate::DocM>| bounded_docs(ds)
                && pos + ser_docs(ds).len() <= s@.len()
                && s@.subrange(pos as int, pos + ser_docs(ds).len() as int)
                    == #[trigger] ser_docs(ds)
                ==> ds.len() == n as nat && out.deep_view() == ds.take(k as int)
                    && cur == p1 + ser_docs_items(ds.take(k as int)).len(),
        decreases n - k,
    {
        let ghost dv0 = out.deep_view();
        proof {
            assert forall|ds: Seq<crate::DocM>| bounded_docs(ds)
                && pos + ser_docs(ds).len() <= s@.len()
                && s@.subrange(pos as int, pos + ser_docs(ds).len() as int)
                    == #[trigger] ser_docs(ds)
                implies cur + ser_doc(ds[k as int]).len() <= s@.len()
                    && s@.subrange(cur as int, cur + ser_chars(ds[k as int].name).len())
                        == ser_chars(ds[k as int].name)
                    && s@.subrange(
                        cur + ser_chars(ds[k as int].name).len(),
                        cur + ser_doc(ds[k as int]).len(),
                    ) == ser_u64(ds[k as int].length) by {
                lemma_chunk_len(8, ds.len());
                lemma_split(s@, pos as int, ser_u64(ds.len()), ser_docs_items(ds));
                lemma_docs_items_split(ds, k as int);
                lemma_split(
                    s@,
                    p1 as int,
                    ser_docs_items(ds.take(k as int)),
                    ser_docs_items(ds.skip(k as int)),
                );
                lemma_docs_items_first(ds, k as int);
                lemma_split(
                    s@,
                    cur as int,
                    ser_doc(ds[k as int]),
                    ser_docs_items(ds.skip(k as int + 1)),
                );
                lemma_split(
                    s@,
                    cur as int,
                    ser_chars(ds[k as int].name),
                    ser_u64(ds[k as int].length),
                );
            }
        }
        let pc = parse_chars(s, cur);
        let (name, q1) = match pc {
            Some(v) => v,
            None => {
                proof {
                    assert forall|ds: Seq<crate::DocM>| bounded_docs(ds)
                        && pos + ser_docs(ds).len() <= s@.len()
                        && s@.subrange(pos as int, pos + ser_docs(ds).len() as int)
                            == #[trigger] ser_docs(ds)
                        implies false by {
                        assert(s@.subrange(
                            cur as int,
                            cur + ser_chars(ds[k as int].name).len(),
                        ) == ser_chars(ds[k as int].name));
                    }
                }
                return None;
            },
        };
        let pl = parse_u64(s, q1);
        let (lu, q2) = match pl {
            Some(v) => v,
            None => {
                proof {
                    assert forall|ds: Seq<crate::DocM>| bounded_docs(ds)
                        && pos + ser_docs(ds).len() <= s@.len()
                        && s@.subrange(pos as int, pos + ser_docs(ds).len() as int)
                            == #[trigger] ser_docs(ds)
                        implies false by {
                        assert(s@.subrange(
                            cur as int,
                            cur + ser_chars(ds[k as int].name).len(),
                        ) == ser_chars(ds[k as int].name));
                        assert(q1 == cur + ser_chars(ds[k as int].name).len());
                        lemma_chunk_len(8, ds[k as int].length);
                        let n0: u64 = ds[k as int].length as u64;
                        assert(ser_u64(n0 as nat) == ser_u64(ds[k as int].length));
                        assert(s@.subrange(q1 as int, q1 as int + 8) == ser_u64(n0 as nat));
                    }
                }
                return None;
            },
        };
        if lu > usize::MAX as u64 {
            proof {
                assert forall|ds: Seq<crate::DocM>| bounded_docs(ds)
                    && pos + ser_docs(ds).len() <= s@.len()
                    && s@.subrange(pos as int, pos + ser_docs(ds).len() as int)
                        == #[trigger] ser_docs(ds)
                    implies false by {
                    assert(s@.subrange(
                        cur as int,
                        cur + ser_chars(ds[k as int].name).len(),
                    ) == ser_chars(ds[k as int].name));
                    assert(q1 == cur + ser_chars(ds[k as int].name).len());
                    lemma_chunk_len(8, ds[k as int].length);
                    let n0: u64 = ds[k as int].length as u64;
                    assert(ser_u64(n0 as nat) == ser_u64(ds[k as int].length));
                    assert(s@.subrange(q1 as int, q1 as int + 8) == ser_u64(n0 as nat));
                    assert(lu == n0);
                }
            }
            return None;
        }
        out.push(crate::Document { name, length: lu as usize });
        proof {
            let newm = crate::DocM {
                name: out@[k as int].name@,
                length: lu as nat,
            };
            assert forall|j: int| 0 <= j < out@.len() implies
                #[trigger] out.deep_view()[j] == dv0.push(newm)[j] by {
                assert(out.deep_view()[j] == out@[j].deep_view());
                if j < k as int {
                    assert(out@[j].deep_view() == dv0[j]);
                }
            }
            assert(out.deep_view() =~= dv0.push(newm));
            assert(dv0.push(newm).drop_last() =~= dv0);
            assert(dv0.push(newm).last() == newm);
            assert(ser_docs_items(dv0.push(newm)) == ser_docs_items(dv0) + ser_doc(newm));
            lemma_join(
                s@,
                cur as int,
                q1 as int,
                q2 as int,
                ser_chars(newm.name),
                ser_u64(newm.length),
            );
            assert(ser_doc(newm) == ser_chars(newm.name) + ser_u64(newm.length));
            lemma_join(
                s@,
                p1 as int,
                cur as int,
                q2 as int,
                ser_docs_items(dv0),
                ser_doc(newm),
            );
            assert forall|ds: Seq<crate::DocM>| bounded_docs(ds)
                && pos + ser_docs(ds).len() <= s@.len()
                && s@.subrange(pos as int, pos + ser_docs(ds).len() as int)
                    == #[trigger] ser_docs(ds)
                implies out.deep_view() == ds.take(k as int + 1)
                    && q2 == p1 + ser_docs_items(ds.take(k as int + 1)).len() by {
                assert(s@.subrange(cur as int, cur + ser_chars(ds[k as int].name).len())
                    == ser_chars(ds[k as int].name));
                assert(newm.name == ds[k as int].name);
                assert(q1 == cur + ser_chars(ds[k as int].name).len());
                lemma_chunk_len(8, ds[k as int].length);
                let n0: u64 = ds[k as int].length as u64;
                assert(ser_u64(n0 as nat) == ser_u64(ds[k as int].length));
                assert(s@.subrange(q1 as int, q1 as int + 8) == ser_u64(n0 as nat));
                assert(lu == n0);
                assert(newm.length == ds[k as int].length);
                assert(newm == ds[k as int]);
                assert(ds.take(k as int + 1).drop_last() =~= ds.take(k as int));
                assert(ds.take(k as int + 1).last() == ds[k as int]);
                assert(out.deep_view() =~= ds.take(k as int + 1));
                assert(ser_docs_items(ds.take(k as int + 1))
                    == ser_docs_items(ds.take(k as int)) + ser_doc(ds[k as int]));
            }
        }
        cur = q2;
        k = k + 1;
    }
    proof {
        lemma_join(
            s@,
            pos as int,
            p1 as int,
            cur as int,
            ser_u64(n as nat),
            ser_docs_items(out.deep_view()),
        );
        assert(out.deep_view().len() == n as nat);
        assert(ser_docs(out.deep_view())
            == ser_u64(n as nat) + ser_docs_items(out.deep_view()));
        assert forall|ds: Seq<crate::DocM>| bounded_docs(ds)
            && pos + ser_docs(ds).len() <= s@.len()
            && s@.subrange(pos as int, pos + ser_docs(ds).len() as int)
                == #[trigger] ser_docs(ds)
            implies out.deep_view() == ds && cur == pos + ser_docs(ds).len() by {
            assert(ds.take(ds.len() as int) =~= ds);
            lemma_chunk_len(8, ds.len());
        }
    }
    Some((out, cur))
}


/// Appends length-prefixed character data.
fn push_chars(out: &mut Vec<char>, text: &str)
    ensures
        final(out)@ == old(out)@ + ser_chars(text@),
{
    let n = text.unicode_len();
    push_u64(out, n);
    let cv = chars_vec(text);
    let ghost base = out@;
    let mut t: usize = 0;
    proof {
        assert(out@ =~= base + cv@.take(0));
    }
    while t < cv.len()
        invariant
            0 <= t <= cv@.len(),
            out@ == base + cv@.take(t as int),
        decreases cv@.len() - t,
    {
        out.push(cv[t]);
        proof {
            assert(out@ =~= base + cv@.take(t + 1));
        }
        t = t + 1;
    }
    proof {
        assert(cv@.take(cv@.len() as int) =~= cv@);
        assert(out@ =~= old(out)@ + ser_chars(text@));
    }
}

/// Checks the store invariant of parsed data: distinct terms, and each
/// posting list non-empty, strictly increasing, in range, with positive
/// counts.
fn check_wf(ix: &Index) -> (b: bool)
    ensures
        b == wf_store(ix@),
{
    let ghost m = ix@;
    let nd = ix.documents.len();
    proof {
        assert(m.docs.len() == nd as nat);
    }
    let mut i: usize = 0;
    while i < ix.index.len()
        invariant
            m == ix@,
            0 <= i <= ix.index@.len(),
            m.terms.len() == ix.index@.len(),
            m.docs.len() == nd as nat,
            forall|k0: int| 0 <= k0 < m.terms.len()
                ==> #[trigger] m.terms[k0].term == ix.index@[k0].term@,
            forall|k0: int| 0 <= k0 < m.terms.len()
                ==> #[trigger] m.terms[k0].postings == ix.index@[k0].postings.deep_view(),
            forall|a: int, b0: int| 0 <= a < b0 < i
                ==> #[trigger] m.terms[a].term != #[trigger] m.terms[b0].term,
            forall|a: int| 0 <= a < i
                ==> wf_postings(#[trigger] m.terms[a].postings, m.docs.len()),
        decreases ix.index@.len() - i,
    {
        let entry = &ix.index[i];
        let ghost ps = m.terms[i as int].postings;
        proof {
            assert(ps.len() == entry.postings@.len());
            assert(forall|a0: int| 0 <= a0 < ps.len()
                ==> #[trigger] ps[a0] == entry.postings@[a0]@);
        }
        let pn = entry.postings.len();
        if pn == 0 {
            proof {
                assert(m.terms[i as int].postings.len() == 0);
                assert(!wf_postings(m.terms[i as int].postings, m.docs.len()));
                assert(!wf_store(m));
                    assert(!wf_store(ix@));
            }
            return false;
        }
        let mut a: usize = 0;
        while a < pn
            invariant
                m == ix@,
                0 <= a <= pn,
                i < m.terms.len(),
                m.terms.len() == ix.index@.len(),
                i < ix.index@.len(),
                *entry == ix.index@[i as int],
                ps == m.terms[i as int].postings,
                ps.len() == pn as nat,
                pn == entry.postings@.len(),
                m.docs.len() == nd as nat,
                forall|a0: int| 0 <= a0 < ps.len()
                    ==> #[trigger] ps[a0] == entry.postings@[a0]@,
                forall|a0: int| 0 <= a0 < a
                    ==> (#[trigger] ps[a0]).0 < nd as nat && ps[a0].1 >= 1,
                forall|a0: int, b0: int| 0 <= a0 < b0 < ps.len() && a0 < a
                    ==> (#[trigger] ps[a0]).0 < (#[trigger] ps[b0]).0,
            decreases pn - a,
        {
            let p = entry.postings[a];
            if p.doc_id >= nd || p.count == 0 {
                proof {
                    assert(ps[a as int] == entry.postings@[a as int]@);
                    assert(!(ps[a as int].0 < m.docs.len() && ps[a as int].1 >= 1));
                    assert(!wf_postings(m.terms[i as int].postings, m.docs.len()));
                    assert(!wf_store(m));
                    assert(!wf_store(ix@));
                }
                return false;
            }
            let mut b: usize = a + 1;
            while b < pn
                invariant
                    m == ix@,
                    a < b <= pn,
                    i < m.terms.len(),
                    m.terms.len() == ix.index@.len(),
                    i < ix.index@.len(),
                    *entry == ix.index@[i as int],
                    ps == m.terms[i as int].postings,
                    ps.len() == pn as nat,
                    pn == entry.postings@.len(),
                    p == entry.postings@[a as int],
                    a < ps.len(),
                    forall|a0: int| 0 <= a0 < ps.len()
                        ==> #[trigger] ps[a0] == entry.postings@[a0]@,
                    forall|b0: int| a < b0 < b ==> ps[a as int].0 < (#[trigger] ps[b0]).0,
                decreases pn - b,
            {
                if entry.postings[b].doc_id <= p.doc_id {
                    proof {
                        assert(ps[b as int].0 <= ps[a as int].0);
                        assert(!(ps[a as int].0 < ps[b as int].0));
                        assert(!wf_postings(m.terms[i as int].postings, m.docs.len()));
                        assert(!wf_store(m));
                    assert(!wf_store(ix@));
                    }
                    return false;
                }
                b = b + 1;
            }
            a = a + 1;
        }
        let mut c: usize = 0;
        while c < i
            invariant
                m == ix@,
                0 <= c <= i,
                i < m.terms.len(),
                m.terms.len() == ix.index@.len(),
                i < ix.index@.len(),
                *entry == ix.index@[i as int],
                forall|k0: int| 0 <= k0 < m.terms.len()
                    ==> #[trigger] m.terms[k0].term == ix.index@[k0].term@,
                forall|c0: int| 0 <= c0 < c
                    ==> #[trigger] m.terms[c0].term != m.terms[i as int].term,
            decreases i - c,
        {
            if ix.index[c].term == entry.term {
                proof {
                    assert(m.terms[c as int].term == m.terms[i as int].term);
                    assert(!distinct_terms(m.terms));
                    assert(!wf_store(m));
                    assert(!wf_store(ix@));
                }
                return false;
            }
            c = c + 1;
        }
        i = i + 1;
    }
    proof {
        assert(distinct_terms(m.terms));
    }
    true
}

impl Index {
    /// Serializes the whole store — inverted index and document table —
    /// to one text blob.
    pub fn to_snapshot(&self) -> (r: String)
        ensures
            r@ == spec_snapshot(self@),
            bounded_store(self@),
    {
        let ghost m = self@;
        let mut out: Vec<char> = Vec::new();
        push_u64(&mut out, self.index.len());
        proof {
            assert(m.terms.take(0) =~= Seq::<crate::TermM>::empty());
            assert(ser_terms_items(m.terms.take(0)) == Seq::<char>::empty());
            assert(out@ =~= ser_u64(m.terms.len()) + ser_terms_items(m.terms.take(0)));
        }
        let mut i: usize = 0;
        while i < self.index.len()
            invariant
                m == self@,
                0 <= i <= self.index@.len(),
                m.terms.len() == self.index@.len(),
                out@ == ser_u64(m.terms.len()) + ser_terms_items(m.terms.take(i as int)),
            decreases self.index@.len() - i,
        {
            let entry = &self.index[i];
            let ghost tm = m.terms[i as int];
            let ghost ps = tm.postings;
            proof {
                assert(tm.term == entry.term@);
                assert(ps == entry.postings.deep_view());
                assert(ps.len() == entry.postings@.len());
                assert(forall|a0: int| 0 <= a0 < ps.len()
                    ==> #[trigger] ps[a0] == entry.postings@[a0]@);
            }
            let ghost base = out@;
            push_chars(&mut out, entry.term.as_str());
            push_u64(&mut out, entry.postings.len());
            proof {
                assert(ps.take(0) =~= Seq::<(nat, nat)>::empty());
                assert(ser_postings_items(ps.take(0)) == Seq::<char>::empty());
                assert(out@ =~= base + ser_chars(tm.term) + ser_u64(ps.len())
                    + ser_postings_items(ps.take(0)));
            }
            let mut a: usize = 0;
            while a < entry.postings.len()
                invariant
                    0 <= a <= entry.postings@.len(),
                    i < self.index@.len(),
                    *entry == self.index@[i as int],
                    tm.term == entry.term@,
                    ps.len() == entry.postings@.len(),
                    forall|a0: int| 0 <= a0 < ps.len()
                        ==> #[trigger] ps[a0] == entry.postings@[a0]@,
                    out@ == base + ser_chars(tm.term) + ser_u64(ps.len())
                        + ser_postings_items(ps.take(a as int)),
                decreases entry.postings@.len() - a,
            {
                push_u64(&mut out, entry.postings[a].doc_id);
                push_u64(&mut out, entry.postings[a].count);
                proof {
                    assert(ps.take(a + 1).drop_last() =~= ps.take(a as int));
                    assert(ps.take(a + 1).last() == ps[a as int]);
                    assert(ser_postings_items(ps.take(a + 1))
                        == ser_postings_items(ps.take(a as int)) + ser_posting(ps[a as int]));
                    assert(ser_posting(ps[a as int])
                        == ser_u64(ps[a as int].0) + ser_u64(ps[a as int].1));
                    assert(out@ =~= base + ser_chars(tm.term) + ser_u64(ps.len())
                        + ser_postings_items(ps.take(a + 1)));
                }
                a = a + 1;
            }
            proof {
                assert(ps.take(ps.len() as int) =~= ps);
                assert(ser_term(tm)
                    == ser_chars(tm.term) + (ser_u64(ps.len()) + ser_postings_items(ps)));
                assert(out@ =~= base + ser_term(tm));
                assert(m.terms.take(i + 1).drop_last() =~= m.terms.take(i as int));
                assert(m.terms.take(i + 1).last() == tm);
                assert(ser_terms_items(m.terms.take(i + 1))
                    == ser_terms_items(m.terms.take(i as int)) + ser_term(tm));
                assert(out@ =~= ser_u64(m.terms.len())
                    + ser_terms_items(m.terms.take(i + 1)));
            }
            i = i + 1;
        }
        proof {
            assert(m.terms.take(m.terms.len() as int) =~= m.terms);
        }
        let ghost half = out@;
        push_u64(&mut out, self.documents.len());
        proof {
            assert(m.docs.take(0) =~= Seq::<crate::DocM>::empty());
            assert(ser_docs_items(m.docs.take(0)) == Seq::<char>::empty());
            assert(out@ =~= half + ser_u64(m.docs.len()) + ser_docs_items(m.docs.take(0)));
        }
        let mut d: usize = 0;
        while d < self.documents.len()
            invariant
                m == self@,
                0 <= d <= self.documents@.len(),
                m.docs.len() == self.documents@.len(),
                half == ser_u64(m.terms.len()) + ser_terms_items(m.terms),
                out@ == half + ser_u64(m.docs.len()) + ser_docs_items(m.docs.take(d as int)),
            decreases self.documents@.len() - d,
        {
            let doc = &self.documents[d];
            let ghost dm = m.docs[d as int];
            proof {
                assert(dm.name == doc.name@);
                assert(dm.length == doc.length as nat);
            }
            push_chars(&mut out, doc.name.as_str());
            push_u64(&mut out, doc.length);
            proof {
                assert(ser_doc(dm) == ser_chars(dm.name) + ser_u64(dm.length));
                assert(m.docs.take(d + 1).drop_last() =~= m.docs.take(d as int));
                assert(m.docs.take(d + 1).last() == dm);
                assert(ser_docs_items(m.docs.take(d + 1))
                    == ser_docs_items(m.docs.take(d as int)) + ser_doc(dm));
                assert(out@ =~= half + ser_u64(m.docs.len())
                    + ser_docs_items(m.docs.take(d + 1)));
            }
            d = d + 1;
        }
        proof {
            assert(m.docs.take(m.docs.len() as int) =~= m.docs);
            assert(out@ =~= spec_snapshot(m));
            assert forall|k0: int| 0 <= k0 < m.terms.len() implies
                bounded_postings((#[trigger] m.terms[k0]).postings) by {
                let psk = m.terms[k0].postings;
                assert(psk == self.index@[k0].postings.deep_view());
                assert forall|a0: int| 0 <= a0 < psk.len() implies
                    (#[trigger] psk[a0]).0 <= usize::MAX && psk[a0].1 <= usize::MAX by {
                    assert(psk[a0] == self.index@[k0].postings@[a0]@);
                }
            }
            assert forall|k0: int| 0 <= k0 < m.docs.len() implies
                (#[trigger] m.docs[k0]).length <= usize::MAX by {
                assert(m.docs[k0] == self.documents@[k0]@);
            }
        }
        string_from_chars(&out)
    }

    /// Parses a snapshot back into a store. Succeeds exactly on the
    /// serializer's output and yields an equal store, so that loading a
    /// saved store gives the store back; anything else is a parse error.
    pub fn from_snapshot(s: &str) -> (r: Result<Index, SearchError>)
        ensures
            r matches Ok(ix) ==> ix.wf() && s@ == spec_snapshot(ix@),
            r matches Err(e) ==> e == SearchError::Parse,
            forall|m: StoreM| wf_store(m) && bounded_store(m)
                && s@ == #[trigger] spec_snapshot(m)
                ==> r is Ok && r->Ok_0@ == m,
    {
        let v = chars_vec(s);
        let total = v.len();
        proof {
            assert(v@.len() == total as nat);
        }
        let pt = parse_terms(&v, 0);
        proof {
            assert forall|m: StoreM| wf_store(m) && bounded_store(m)
                && s@ == #[trigger] spec_snapshot(m)
                implies ser_terms(m.terms).len() <= v@.len()
                    && v@.subrange(0, ser_terms(m.terms).len() as int) == ser_terms(m.terms)
                    && bounded_terms(m.terms) by {
                assert(v@ == ser_terms(m.terms) + ser_docs(m.docs));
                assert(v@.subrange(0, v@.len() as int) =~= v@);
                lemma_split(v@, 0, ser_terms(m.terms), ser_docs(m.docs));
            }
        }
        let (terms, p1) = match pt {
            Some(x) => x,
            None => {
                return Err(SearchError::Parse);
            },
        };
        let pd = parse_docs(&v, p1);
        proof {
            assert forall|m: StoreM| wf_store(m) && bounded_store(m)
                && s@ == #[trigger] spec_snapshot(m)
                implies terms.deep_view() == m.terms
                    && p1 == ser_terms(m.terms).len()
                    && p1 + ser_docs(m.docs).len() <= v@.len()
                    && v@.subrange(p1 as int, p1 + ser_docs(m.docs).len() as int)
                        == ser_docs(m.docs)
                    && bounded_docs(m.docs) by {
                assert(v@ == ser_terms(m.terms) + ser_docs(m.docs));
                assert(v@.subrange(0, v@.len() as int) =~= v@);
                lemma_split(v@, 0, ser_terms(m.terms), ser_docs(m.docs));
            }
        }
        let (docs, p2) = match pd {
            Some(x) => x,
            None => {
                return Err(SearchError::Parse);
            },
        };
        if p2 != total {
            proof {
                assert forall|m: StoreM| wf_store(m) && bounded_store(m)
                    && s@ == #[trigger] spec_snapshot(m)
                    implies false by {
                    assert(v@ == ser_terms(m.terms) + ser_docs(m.docs));
                    assert(v@.subrange(0, v@.len() as int) =~= v@);
                    lemma_split(v@, 0, ser_terms(m.terms), ser_docs(m.docs));
                    assert(p2 == p1 + ser_docs(m.docs).len());
                }
            }
            return Err(SearchError::Parse);
        }
        let ix = Index { index: terms, documents: docs };
        proof {
            assert(ix@.terms == ix.index.deep_view());
            assert(ix@.docs == ix.documents.deep_view());
        }
        if !check_wf(&ix) {
            proof {
                assert forall|m: StoreM| wf_store(m) && bounded_store(m)
                    && s@ == #[trigger] spec_snapshot(m)
                    implies false by {
                    assert(ix@.terms == m.terms && ix@.docs == m.docs);
                    assert(ix@ =~= m);
                    assert(wf_store(ix@));
                }
            }
            return Err(SearchError::Parse);
        }
        proof {
            lemma_join(
                v@,
                0,
                p1 as int,
                p2 as int,
                ser_terms(ix@.terms),
                ser_docs(ix@.docs),
            );
            assert(v@.subrange(0, total as int) =~= v@);
            assert(s@ == spec_snapshot(ix@));
            assert forall|m: StoreM| wf_store(m) && bounded_store(m)
                && s@ == #[trigger] spec_snapshot(m)
                implies ix@ == m by {
                assert(ix@.terms == m.terms && ix@.docs == m.docs);
                assert(ix@ =~= m);
            }
        }
        Ok(ix)
    }
}

} // verus!
