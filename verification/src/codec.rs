//! The message codec: the wire encoding of the two-field request record.
//!
//! A request travels as a self-describing text record with exactly two
//! fields, `message` and `shift_val`, in that order:
//!
//! ```text
//! {"message":"<escaped message>","shift_val":"<escaped shift>"}
//! ```
//!
//! Field content is escaped as in JSON text: `"` becomes `\"`, `\` becomes
//! `\\`, and control bytes below 0x20 become `\u00XX` with two lowercase hex
//! digits. Every other byte stands for itself. `decode_request` accepts
//! exactly the byte strings this grammar produces and rejects everything
//! else as a malformed message.

use vstd::prelude::*;
use crate::errors::ExchangeError;

verus! {

/// A request record: the plaintext to transform and the shift value as
/// decimal text.
pub struct CipherRequest {
    pub message: Vec<u8>,
    pub shift_val: Vec<u8>,
}

/// The lowercase hexadecimal digit for a value below 16.
pub open spec fn hex_digit(n: u8) -> u8
    recommends
        n < 16,
{
    if n < 10 {
        (48 + n) as u8
    } else {
        (87 + n) as u8
    }
}

/// The escaped form of one content byte: `\"` for a quote, `\\` for a
/// backslash, `\u00XX` for a control byte, the byte itself otherwise.
pub open spec fn escape_byte(b: u8) -> Seq<u8> {
    if b == 34 {
        seq![92u8, 34u8]
    } else if b == 92 {
        seq![92u8, 92u8]
    } else if b < 32 {
        seq![92u8, 117u8, 48u8, 48u8, hex_digit(b / 16), hex_digit(b % 16)]
    } else {
        seq![b]
    }
}

/// The escaped form of a whole content sequence.
pub open spec fn escape_seq(s: Seq<u8>) -> Seq<u8>
    decreases s.len(),
{
    if s.len() == 0 {
        Seq::empty()
    } else {
        escape_byte(s[0]) + escape_seq(s.drop_first())
    }
}

/// An escaped field body followed by its closing quote: the shape a string
/// scanner consumes.
pub open spec fn string_code(c: Seq<u8>) -> Seq<u8> {
    escape_seq(c).push(34u8)
}

/// `{"message":"` — the bytes before the first field's content.
pub open spec fn header_bytes() -> Seq<u8> {
    seq![123u8, 34u8, 109u8, 101u8, 115u8, 115u8, 97u8, 103u8, 101u8, 34u8, 58u8, 34u8]
}

/// `,"shift_val":"` — the bytes between the first field's closing quote and
/// the second field's content.
pub open spec fn mid_bytes() -> Seq<u8> {
    seq![44u8, 34u8, 115u8, 104u8, 105u8, 102u8, 116u8, 95u8, 118u8, 97u8, 108u8, 34u8, 58u8, 34u8]
}

/// The complete wire encoding of a request record.
pub open spec fn encoding_of(m: Seq<u8>, sv: Seq<u8>) -> Seq<u8> {
    header_bytes() + string_code(m) + mid_bytes() + string_code(sv) + seq![125u8]
}

/// The pattern `p` occurs in `b` at position `i`.
pub open spec fn matches_at(b: Seq<u8>, i: int, p: Seq<u8>) -> bool {
    0 <= i && i + p.len() <= b.len() && b.subrange(i, i + p.len()) == p
}

/// Escaping a sequence extended by one byte appends that byte's escaped
/// form.
proof fn lemma_escape_seq_push(s: Seq<u8>, b: u8)
    ensures
        escape_seq(s.push(b)) == escape_seq(s) + escape_byte(b),
    decreases s.len(),
{
    if s.len() == 0 {
        assert(s.push(b).drop_first() =~= s);
        assert(escape_seq(s.push(b)) =~= escape_seq(s) + escape_byte(b));
    } else {
        lemma_escape_seq_push(s.drop_first(), b);
        assert(s.push(b).drop_first() =~= s.drop_first().push(b));
        assert(s.push(b)[0] == s[0]);
        assert(escape_byte(s[0]) + (escape_seq(s.drop_first()) + escape_byte(b)) =~= (escape_byte(
            s[0],
        ) + escape_seq(s.drop_first())) + escape_byte(b));
    }
}

/// Escaping distributes over concatenation.
proof fn lemma_escape_seq_concat(a: Seq<u8>, b: Seq<u8>)
    ensures
        escape_seq(a + b) == escape_seq(a) + escape_seq(b),
    decreases a.len(),
{
    if a.len() == 0 {
        assert(a + b =~= b);
        assert(escape_seq(a) + escape_seq(b) =~= escape_seq(b));
    } else {
        lemma_escape_seq_concat(a.drop_first(), b);
        assert((a + b).drop_first() =~= a.drop_first() + b);
        assert((a + b)[0] == a[0]);
        assert(escape_byte(a[0]) + (escape_seq(a.drop_first()) + escape_seq(b)) =~= (escape_byte(
            a[0],
        ) + escape_seq(a.drop_first())) + escape_seq(b));
    }
}

/// The lowercase hexadecimal digit for a value below 16, executably.
fn hex_digit_exec(n: u8) -> (r: u8)
    requires
        n < 16,
    ensures
        r == hex_digit(n),
{
    if n < 10 {
        48 + n
    } else {
        87 + n
    }
}

/// Appends the escaped form of `s` to `out`.
fn append_escaped(out: &mut Vec<u8>, s: &[u8])
    ensures
        final(out)@ == old(out)@ + escape_seq(s@),
{
    let mut i: usize = 0;
    while i < s.len()
        invariant
            i <= s@.len(),
            out@ == old(out)@ + escape_seq(s@.take(i as int)),
        decreases s@.len() - i,
    {
        let b = s[i];
        if b == 34 {
            out.push(92);
            out.push(34);
        } else if b == 92 {
            out.push(92);
            out.push(92);
        } else if b < 32 {
            out.push(92);
            out.push(117);
            out.push(48);
            out.push(48);
            out.push(hex_digit_exec(b / 16));
            out.push(hex_digit_exec(b % 16));
        } else {
            out.push(b);
        }
        proof {
            assert(s@.take(i + 1) =~= s@.take(i as int).push(s@[i as int]));
            lemma_escape_seq_push(s@.take(i as int), s@[i as int]);
            assert(out@ =~= old(out)@ + escape_seq(s@.take(i + 1)));
        }
        i += 1;
    }
    proof {
        assert(s@.take(s@.len() as int) =~= s@);
    }
}

/// Serializes a request record into its wire encoding.
pub fn encode_request(req: &CipherRequest) -> (r: Vec<u8>)
    ensures
        r@ == encoding_of(req.message@, req.shift_val@),
{
    let mut out: Vec<u8> = Vec::new();
    out.push(123);
    out.push(34);
    out.push(109);
    out.push(101);
    out.push(115);
    out.push(115);
    out.push(97);
    out.push(103);
    out.push(101);
    out.push(34);
    out.push(58);
    out.push(34);
    proof {
        assert(out@ =~= header_bytes());
    }
    append_escaped(&mut out, req.message.as_slice());
    out.push(34);
    let ghost after_first: Seq<u8> = out@;
    out.push(44);
    out.push(34);
    out.push(115);
    out.push(104);
    out.push(105);
    out.push(102);
    out.push(116);
    out.push(95);
    out.push(118);
    out.push(97);
    out.push(108);
    out.push(34);
    out.push(58);
    out.push(34);
    proof {
        assert(out@ =~= after_first + mid_bytes());
    }
    append_escaped(&mut out, req.shift_val.as_slice());
    out.push(34);
    out.push(125);
    proof {
        assert(out@ =~= encoding_of(req.message@, req.shift_val@));
    }
    out
}

/// Splitting an occurring string code: when `c` extends `content` and the
/// bytes from `start` to `i` already read back as `escape_seq(content)`, the
/// remainder of `c`'s string code occurs at `i`, beginning with the escaped
/// form of `c`'s next byte (or the closing quote when nothing remains).
proof fn lemma_scan_step(bytes: Seq<u8>, start: int, content: Seq<u8>, i: int, c: Seq<u8>)
    requires
        0 <= start <= i <= bytes.len(),
        bytes.subrange(start, i) == escape_seq(content),
        i == start + escape_seq(content).len(),
        matches_at(bytes, start, string_code(c)),
        c.len() >= content.len(),
        c.take(content.len() as int) == content,
    ensures
        c.len() == content.len() ==> i < bytes.len() && bytes[i] == 34 && c == content,
        c.len() > content.len() ==> ({
            let x = c[content.len() as int];
            &&& i + escape_byte(x).len() < bytes.len()
            &&& bytes.subrange(i, i + escape_byte(x).len()) == escape_byte(x)
            &&& c.take(content.len() as int + 1) == content.push(x)
        }),
{
    let n = content.len() as int;
    let suf = c.skip(n);
    assert(c =~= content + suf);
    lemma_escape_seq_concat(content, suf);
    let q = string_code(suf);
    assert(string_code(c) =~= escape_seq(content) + q);
    let pl = string_code(c).len() as int;
    assert(bytes.subrange(start, start + pl) == string_code(c));
    assert(i + q.len() <= bytes.len());
    assert forall|j: int| 0 <= j < q.len() implies bytes[i + j] == q[j] by {
        assert(bytes.subrange(start, start + pl)[i - start + j] == bytes[i + j]);
        assert((escape_seq(content) + q)[i - start + j] == q[j]);
    }
    if c.len() == n {
        assert(suf.len() == 0);
        assert(q =~= seq![34u8]);
        assert(bytes[i] == q[0]);
        assert(c =~= content);
    } else {
        let x = c[n];
        assert(suf[0] == x);
        let e = escape_byte(x);
        assert(escape_seq(suf) == e + escape_seq(suf.drop_first()));
        assert(q.len() >= e.len() + 1);
        assert forall|j: int| 0 <= j < e.len() implies bytes.subrange(i, i + e.len())[j]
            == e[j] by {
            assert(q[j] == e[j]);
            assert(bytes[i + j] == q[j]);
        }
        assert(bytes.subrange(i, i + e.len()) =~= e);
        assert(c.take(n + 1) =~= content.push(x));
    }
}

/// Scans one escaped field body starting at `start`, up to and including its
/// closing quote. Returns the decoded content and the position after the
/// quote; the scan succeeds exactly when some string code occurs at `start`,
/// and the decoded content is then the only one whose string code does.
#[verifier::rlimit(60)]
fn scan_string(bytes: &[u8], start: usize) -> (r: Option<(Vec<u8>, usize)>)
    requires
        start <= bytes@.len(),
    ensures
        match r {
            Some(p) => ({
                &&& start + escape_seq(p.0@).len() + 1 == p.1
                &&& p.1 <= bytes@.len()
                &&& bytes@.subrange(start as int, p.1 as int) == string_code(p.0@)
                &&& forall|c: Seq<u8>|
                    #[trigger] matches_at(bytes@, start as int, string_code(c)) ==> c == p.0@
            }),
            None => forall|c: Seq<u8>| !(#[trigger] matches_at(bytes@, start as int, string_code(c))),
        },
{
    let mut content: Vec<u8> = Vec::new();
    let mut i: usize = start;
    proof {
        assert(bytes@.subrange(start as int, start as int) =~= escape_seq(content@));
        assert forall|c: Seq<u8>|
            #[trigger] matches_at(bytes@, start as int, string_code(c)) implies c.len()
            >= content@.len() && c.take(content@.len() as int) == content@ by {
            assert(c.take(0) =~= Seq::<u8>::empty());
        }
    }
    loop
        invariant
            start <= i <= bytes@.len(),
            bytes@.subrange(start as int, i as int) == escape_seq(content@),
            i == start + escape_seq(content@).len(),
            forall|c: Seq<u8>|
                #[trigger] matches_at(bytes@, start as int, string_code(c)) ==> c.len()
                    >= content@.len() && c.take(content@.len() as int) == content@,
        decreases bytes@.len() - i,
    {
        if i == bytes.len() {
            proof {
                assert forall|c: Seq<u8>| !(#[trigger] matches_at(
                    bytes@,
                    start as int,
                    string_code(c),
                )) by {
                    if matches_at(bytes@, start as int, string_code(c)) {
                        lemma_scan_step(bytes@, start as int, content@, i as int, c);
                    }
                }
            }
            return None;
        }
        let b = bytes[i];
        if b == 34 {
            proof {
                assert(bytes@.subrange(start as int, i + 1) =~= escape_seq(content@).push(34u8));
                assert forall|c: Seq<u8>|
                    #[trigger] matches_at(bytes@, start as int, string_code(c)) implies c
                    == content@ by {
                    lemma_scan_step(bytes@, start as int, content@, i as int, c);
                    if c.len() > content@.len() {
                        let x = c[content@.len() as int];
                        assert(bytes@.subrange(i as int, i + escape_byte(x).len())[0] == bytes@[i as int]);
                        assert(escape_byte(x)[0] != 34);
                    }
                }
            }
            return Some((content, i + 1));
        } else if b == 92 {
            if bytes.len() - i < 2 {
                proof {
                    assert forall|c: Seq<u8>| !(#[trigger] matches_at(
                        bytes@,
                        start as int,
                        string_code(c),
                    )) by {
                        if matches_at(bytes@, start as int, string_code(c)) {
                            lemma_scan_step(bytes@, start as int, content@, i as int, c);
                            if c.len() > content@.len() {
                                let x = c[content@.len() as int];
                                assert(bytes@.subrange(i as int, i + escape_byte(x).len())[0]
                                    == bytes@[i as int]);
                                assert(escape_byte(x)[0] == 92);
                                assert(escape_byte(x).len() >= 2);
                            }
                        }
                    }
                }
                return None;
            }
            let e2 = bytes[i + 1];
            if e2 == 34 || e2 == 92 {
                let ghost oc = content@;
                let decoded: u8 = if e2 == 34 {
                    34
                } else {
                    92
                };
                content.push(decoded);
                proof {
                    lemma_escape_seq_push(oc, decoded);
                    assert(escape_byte(decoded) =~= seq![92u8, e2]);
                    assert(bytes@.subrange(start as int, i + 2) =~= escape_seq(oc) + seq![
                        92u8,
                        e2,
                    ]);
                    assert forall|c: Seq<u8>|
                        #[trigger] matches_at(bytes@, start as int, string_code(c)) implies c.len()
                        >= oc.len() + 1 && c.take(oc.len() as int + 1) == oc.push(decoded) by {
                        lemma_scan_step(bytes@, start as int, oc, i as int, c);
                        assert(c.len() > oc.len());
                        let x = c[oc.len() as int];
                        let e = escape_byte(x);
                        assert(bytes@.subrange(i as int, i + e.len())[0] == bytes@[i as int]);
                        assert(e[0] == 92);
                        assert(e.len() >= 2);
                        assert(bytes@.subrange(i as int, i + e.len())[1] == bytes@[i + 1]);
                        assert(e[1] == e2);
                        assert(x == decoded);
                    }
                }
                i = i + 2;
            } else if e2 == 117 {
                if bytes.len() - i < 6 {
                    proof {
                        assert forall|c: Seq<u8>| !(#[trigger] matches_at(
                            bytes@,
                            start as int,
                            string_code(c),
                        )) by {
                            if matches_at(bytes@, start as int, string_code(c)) {
                                lemma_scan_step(bytes@, start as int, content@, i as int, c);
                                if c.len() > content@.len() {
                                    let x = c[content@.len() as int];
                                    let e = escape_byte(x);
                                    assert(bytes@.subrange(i as int, i + e.len())[0] == bytes@[i as int]);
                                    assert(e[0] == 92);
                                    assert(bytes@.subrange(i as int, i + e.len())[1] == bytes@[i
                                        + 1]);
                                    assert(e[1] == 117);
                                    assert(x < 32 && e.len() == 6);
                                }
                            }
                        }
                    }
                    return None;
                }
                let z1 = bytes[i + 2];
                let z2 = bytes[i + 3];
                let h1 = bytes[i + 4];
                let h2 = bytes[i + 5];
                let h2_digit: bool = h2 >= 48 && h2 <= 57;
                let h2_hex: bool = h2 >= 97 && h2 <= 102;
                if z1 != 48 || z2 != 48 || (h1 != 48 && h1 != 49) || (!h2_digit && !h2_hex) {
                    proof {
                        assert forall|c: Seq<u8>| !(#[trigger] matches_at(
                            bytes@,
                            start as int,
                            string_code(c),
                        )) by {
                            if matches_at(bytes@, start as int, string_code(c)) {
                                lemma_scan_step(bytes@, start as int, content@, i as int, c);
                                if c.len() > content@.len() {
                                    let x = c[content@.len() as int];
                                    let e = escape_byte(x);
                                    assert(bytes@.subrange(i as int, i + e.len())[0] == bytes@[i as int]);
                                    assert(e[0] == 92);
                                    assert(bytes@.subrange(i as int, i + e.len())[1] == bytes@[i
                                        + 1]);
                                    assert(e[1] == 117);
                                    assert(x < 32 && e.len() == 6);
                                    assert(bytes@.subrange(i as int, i + e.len())[2] == bytes@[i
                                        + 2]);
                                    assert(bytes@.subrange(i as int, i + e.len())[3] == bytes@[i
                                        + 3]);
                                    assert(bytes@.subrange(i as int, i + e.len())[4] == bytes@[i
                                        + 4]);
                                    assert(bytes@.subrange(i as int, i + e.len())[5] == bytes@[i
                                        + 5]);
                                    assert(z1 == 48 && z2 == 48);
                                    assert(h1 == hex_digit(x / 16));
                                    assert(h2 == hex_digit(x % 16));
                                    assert(x / 16 < 2);
                                    assert(h1 == 48 || h1 == 49);
                                    assert((h2 >= 48 && h2 <= 57) || (h2 >= 97 && h2 <= 102));
                                }
                            }
                        }
                    }
                    return None;
                }
                let hv: u8 = if h2_digit {
                    h2 - 48
                } else {
                    h2 - 87
                };
                let x: u8 = (h1 - 48) * 16 + hv;
                let ghost oc = content@;
                content.push(x);
                proof {
                    assert(x < 32);
                    assert(x / 16 == h1 - 48);
                    assert(x % 16 == hv);
                    assert(hex_digit(x / 16) == h1);
                    assert(hex_digit(x % 16) == h2);
                    lemma_escape_seq_push(oc, x);
                    assert(escape_byte(x) =~= seq![92u8, 117u8, 48u8, 48u8, h1, h2]);
                    assert(bytes@.subrange(start as int, i + 6) =~= escape_seq(oc) + seq![
                        92u8,
                        117u8,
                        48u8,
                        48u8,
                        h1,
                        h2,
                    ]);
                    assert forall|c: Seq<u8>|
                        #[trigger] matches_at(bytes@, start as int, string_code(c)) implies c.len()
                        >= oc.len() + 1 && c.take(oc.len() as int + 1) == oc.push(x) by {
                        lemma_scan_step(bytes@, start as int, oc, i as int, c);
                        assert(c.len() > oc.len());
                        let y = c[oc.len() as int];
                        let e = escape_byte(y);
                        assert(bytes@.subrange(i as int, i + e.len())[0] == bytes@[i as int]);
                        assert(e[0] == 92);
                        assert(bytes@.subrange(i as int, i + e.len())[1] == bytes@[i + 1]);
                        assert(e[1] == 117);
                        assert(y < 32 && e.len() == 6);
                        assert(bytes@.subrange(i as int, i + e.len())[4] == bytes@[i + 4]);
                        assert(bytes@.subrange(i as int, i + e.len())[5] == bytes@[i + 5]);
                        assert(hex_digit(y / 16) == h1);
                        assert(hex_digit(y % 16) == h2);
                        assert(y / 16 < 2);
                        assert(y / 16 == h1 - 48);
                        assert(y % 16 == hv);
                        assert(y == 16 * (y / 16) + y % 16);
                        assert(y == x);
                    }
                }
                i = i + 6;
            } else {
                proof {
                    assert forall|c: Seq<u8>| !(#[trigger] matches_at(
                        bytes@,
                        start as int,
                        string_code(c),
                    )) by {
                        if matches_at(bytes@, start as int, string_code(c)) {
                            lemma_scan_step(bytes@, start as int, content@, i as int, c);
                            if c.len() > content@.len() {
                                let x = c[content@.len() as int];
                                let e = escape_byte(x);
                                assert(bytes@.subrange(i as int, i + e.len())[0] == bytes@[i as int]);
                                assert(e[0] == 92);
                                assert(e.len() >= 2);
                                assert(bytes@.subrange(i as int, i + e.len())[1] == bytes@[i + 1]);
                                assert(e[1] == 34 || e[1] == 92 || e[1] == 117);
                            }
                        }
                    }
                }
                return None;
            }
        } else if b < 32 {
            proof {
                assert forall|c: Seq<u8>| !(#[trigger] matches_at(
                    bytes@,
                    start as int,
                    string_code(c),
                )) by {
                    if matches_at(bytes@, start as int, string_code(c)) {
                        lemma_scan_step(bytes@, start as int, content@, i as int, c);
                        if c.len() > content@.len() {
                            let x = c[content@.len() as int];
                            assert(bytes@.subrange(i as int, i + escape_byte(x).len())[0] == bytes@[i as int]);
                        }
                    }
                }
            }
            return None;
        } else {
            let ghost oc = content@;
            content.push(b);
            proof {
                lemma_escape_seq_push(oc, b);
                assert(escape_byte(b) =~= seq![b]);
                assert(bytes@.subrange(start as int, i + 1) =~= escape_seq(oc) + seq![b]);
                assert forall|c: Seq<u8>|
                    #[trigger] matches_at(bytes@, start as int, string_code(c)) implies c.len()
                    >= oc.len() + 1 && c.take(oc.len() as int + 1) == oc.push(b) by {
                    lemma_scan_step(bytes@, start as int, oc, i as int, c);
                    assert(c.len() > oc.len());
                    let x = c[oc.len() as int];
                    let e = escape_byte(x);
                    assert(bytes@.subrange(i as int, i + e.len())[0] == bytes@[i as int]);
                    assert(e[0] == b);
                    assert(x == b);
                }
            }
            i = i + 1;
        }
    }
}

/// Dropping an occurring string code's first escape unit: the rest of the
/// code occurs right after it.
proof fn lemma_tail_match(b: Seq<u8>, i: int, c: Seq<u8>)
    requires
        c.len() > 0,
        matches_at(b, i, string_code(c)),
    ensures
        matches_at(b, i + escape_byte(c[0]).len(), string_code(c.drop_first())),
{
    let e = escape_byte(c[0]);
    let rest = c.drop_first();
    assert(escape_seq(c) == e + escape_seq(rest));
    assert(string_code(c) =~= e + string_code(rest));
    let total = string_code(c).len() as int;
    assert(b.subrange(i, i + total) == e + string_code(rest));
    assert forall|j: int| 0 <= j < string_code(rest).len() implies b.subrange(
        i + e.len(),
        i + total,
    )[j] == string_code(rest)[j] by {
        assert(b.subrange(i, i + total)[e.len() + j] == b[i + e.len() + j]);
        assert((e + string_code(rest))[e.len() + j] == string_code(rest)[j]);
    }
    assert(b.subrange(i + e.len(), i + total) =~= string_code(rest));
}

/// A string code is unambiguous: two contents whose string codes occur at
/// the same position are the same content.
proof fn lemma_string_code_unambiguous(b: Seq<u8>, i: int, c1: Seq<u8>, c2: Seq<u8>)
    requires
        matches_at(b, i, string_code(c1)),
        matches_at(b, i, string_code(c2)),
    ensures
        c1 == c2,
    decreases c1.len(),
{
    let empty = Seq::<u8>::empty();
    assert(b.subrange(i, i) =~= escape_seq(empty));
    assert(c1.take(0) =~= empty);
    assert(c2.take(0) =~= empty);
    lemma_scan_step(b, i, empty, i, c1);
    lemma_scan_step(b, i, empty, i, c2);
    if c1.len() == 0 && c2.len() == 0 {
        assert(c1 =~= c2);
    } else if c1.len() == 0 {
        // the byte at `i` is a closing quote, yet also starts an escape unit
        let x2 = c2[0];
        assert(b.subrange(i, i + escape_byte(x2).len())[0] == b[i]);
        assert(false);
    } else if c2.len() == 0 {
        let x1 = c1[0];
        assert(b.subrange(i, i + escape_byte(x1).len())[0] == b[i]);
        assert(false);
    } else {
        let x1 = c1[0];
        let x2 = c2[0];
        let e1 = escape_byte(x1);
        let e2 = escape_byte(x2);
        assert(b.subrange(i, i + e1.len())[0] == b[i]);
        assert(b.subrange(i, i + e2.len())[0] == b[i]);
        if x1 == 34 || x1 == 92 || x1 < 32 {
            // both units are backslash escapes; the second byte tells them apart
            assert(e1[0] == 92 && e2[0] == 92);
            assert(x2 == 34 || x2 == 92 || x2 < 32);
            assert(b.subrange(i, i + e1.len())[1] == b[i + 1]);
            assert(b.subrange(i, i + e2.len())[1] == b[i + 1]);
            if x1 == 34 {
                assert(x2 == 34);
            } else if x1 == 92 {
                assert(x2 == 92);
            } else {
                assert(e1[1] == 117 && e2[1] == 117);
                assert(x2 < 32);
                // the hex digits pin the control byte down
                assert(b.subrange(i, i + e1.len())[4] == b[i + 4]);
                assert(b.subrange(i, i + e2.len())[4] == b[i + 4]);
                assert(b.subrange(i, i + e1.len())[5] == b[i + 5]);
                assert(b.subrange(i, i + e2.len())[5] == b[i + 5]);
                assert(hex_digit(x1 / 16) == hex_digit(x2 / 16));
                assert(hex_digit(x1 % 16) == hex_digit(x2 % 16));
                assert(x1 / 16 == x2 / 16);
                assert(x1 % 16 == x2 % 16);
                assert(x1 == 16 * (x1 / 16) + x1 % 16);
                assert(x2 == 16 * (x2 / 16) + x2 % 16);
            }
        } else {
            // a literal unit: the other cannot be an escape, which starts 92
            assert(e1[0] == x1);
            assert(e2[0] == x1);
            if x2 == 34 || x2 == 92 || x2 < 32 {
                assert(e2[0] == 92);
                assert(false);
            }
            assert(x2 == x1);
        }
        assert(x1 == x2);
        lemma_tail_match(b, i, c1);
        lemma_tail_match(b, i, c2);
        lemma_string_code_unambiguous(b, i + e1.len(), c1.drop_first(), c2.drop_first());
        assert(c1.len() == c2.len());
        assert forall|j: int| 0 <= j < c1.len() implies c1[j] == c2[j] by {
            if j > 0 {
                assert(c1.drop_first()[j - 1] == c1[j]);
                assert(c2.drop_first()[j - 1] == c2[j]);
            }
        }
        assert(c1 =~= c2);
    }
}

/// The wire grammar is injective: no two request records share an encoding,
/// so a received byte string determines the record it carries.
pub proof fn lemma_encoding_injective(m1: Seq<u8>, sv1: Seq<u8>, m2: Seq<u8>, sv2: Seq<u8>)
    requires
        encoding_of(m1, sv1) == encoding_of(m2, sv2),
    ensures
        m1 == m2,
        sv1 == sv2,
{
    let b = encoding_of(m1, sv1);
    lemma_encoding_parts(m1, sv1);
    lemma_encoding_parts(m2, sv2);
    lemma_string_code_unambiguous(b, 12, m1, m2);
    lemma_string_code_unambiguous(b, 27 + escape_seq(m1).len() as int, sv1, sv2);
}

/// Where each part of an encoding lies: the header, the two string codes,
/// the field separator, and the closing brace, at their fixed offsets.
proof fn lemma_encoding_parts(m: Seq<u8>, sv: Seq<u8>)
    ensures
        encoding_of(m, sv).len() == 29 + escape_seq(m).len() + escape_seq(sv).len(),
        encoding_of(m, sv).subrange(0, 12) == header_bytes(),
        matches_at(encoding_of(m, sv), 12, string_code(m)),
        encoding_of(m, sv).subrange(
            13 + escape_seq(m).len() as int,
            27 + escape_seq(m).len() as int,
        ) == mid_bytes(),
        matches_at(encoding_of(m, sv), 27 + escape_seq(m).len() as int, string_code(sv)),
        encoding_of(m, sv)[28 + escape_seq(m).len() as int + escape_seq(sv).len() as int] == 125,
{
    let enc = encoding_of(m, sv);
    let l1 = escape_seq(m).len() as int;
    let l2 = escape_seq(sv).len() as int;
    assert(enc.len() == 29 + l1 + l2);
    assert(enc.subrange(0, 12) =~= header_bytes());
    assert(enc.subrange(12, 13 + l1) =~= string_code(m));
    assert(enc.subrange(13 + l1, 27 + l1) =~= mid_bytes());
    assert(enc.subrange(27 + l1, 28 + l1 + l2) =~= string_code(sv));
}

/// Parses received bytes as a request record. Succeeds exactly on the
/// well-formed encodings of the wire grammar and returns the encoded record;
/// anything else (truncated, misframed, a stray byte) is a
/// `MalformedMessage`, fatal to the current exchange only.
#[verifier::rlimit(60)]
pub fn decode_request(bytes: &[u8]) -> (r: Result<CipherRequest, ExchangeError>)
    ensures
        match r {
            Ok(req) => bytes@ == encoding_of(req.message@, req.shift_val@),
            Err(e) => ({
                &&& e == ExchangeError::MalformedMessage
                &&& forall|m: Seq<u8>, sv: Seq<u8>| bytes@ != encoding_of(m, sv)
            }),
        },
{
    let n = bytes.len();
    // the shortest encoding, with both fields empty, is 29 bytes
    if n < 29 {
        proof {
            assert forall|m: Seq<u8>, sv: Seq<u8>| bytes@ != encoding_of(m, sv) by {
                lemma_encoding_parts(m, sv);
            }
        }
        return Err(ExchangeError::MalformedMessage);
    }
    if !(bytes[0] == 123 && bytes[1] == 34 && bytes[2] == 109 && bytes[3] == 101 && bytes[4] == 115
        && bytes[5] == 115 && bytes[6] == 97 && bytes[7] == 103 && bytes[8] == 101 && bytes[9] == 34
        && bytes[10] == 58 && bytes[11] == 34) {
        proof {
            assert forall|m: Seq<u8>, sv: Seq<u8>| bytes@ != encoding_of(m, sv) by {
                lemma_encoding_parts(m, sv);
                if bytes@ == encoding_of(m, sv) {
                    assert forall|k: int| 0 <= k < 12 implies bytes@[k] == header_bytes()[k] by {
                        assert(bytes@.subrange(0, 12)[k] == bytes@[k]);
                    }
                }
            }
        }
        return Err(ExchangeError::MalformedMessage);
    }
    proof {
        assert(bytes@.subrange(0, 12) =~= header_bytes());
    }
    let first = scan_string(bytes, 12);
    let (msg, p) = match first {
        Some(pr) => pr,
        None => {
            proof {
                assert forall|m: Seq<u8>, sv: Seq<u8>| bytes@ != encoding_of(m, sv) by {
                    lemma_encoding_parts(m, sv);
                }
            }
            return Err(ExchangeError::MalformedMessage);
        },
    };
    // after the first field's closing quote come the 14 separator bytes
    if n - p < 14 || !(bytes[p] == 44 && bytes[p + 1] == 34 && bytes[p + 2] == 115 && bytes[p + 3]
        == 104 && bytes[p + 4] == 105 && bytes[p + 5] == 102 && bytes[p + 6] == 116 && bytes[p + 7]
        == 95 && bytes[p + 8] == 118 && bytes[p + 9] == 97 && bytes[p + 10] == 108 && bytes[p + 11]
        == 34 && bytes[p + 12] == 58 && bytes[p + 13] == 34) {
        proof {
            assert forall|m: Seq<u8>, sv: Seq<u8>| bytes@ != encoding_of(m, sv) by {
                lemma_encoding_parts(m, sv);
                if bytes@ == encoding_of(m, sv) {
                    assert(m == msg@);
                    let l1 = escape_seq(m).len() as int;
                    assert(p == 13 + l1);
                    assert(n - p == 16 + escape_seq(sv).len());
                    assert forall|k: int| 0 <= k < 14 implies bytes@[p + k] == mid_bytes()[k] by {
                        assert(bytes@.subrange(13 + l1, 27 + l1)[k] == bytes@[p + k]);
                    }
                }
            }
        }
        return Err(ExchangeError::MalformedMessage);
    }
    proof {
        assert(bytes@.subrange(p as int, p + 14) =~= mid_bytes());
    }
    let second = scan_string(bytes, p + 14);
    let (sv, p2) = match second {
        Some(pr) => pr,
        None => {
            proof {
                assert forall|m: Seq<u8>, sv: Seq<u8>| bytes@ != encoding_of(m, sv) by {
                    lemma_encoding_parts(m, sv);
                    if bytes@ == encoding_of(m, sv) {
                        assert(m == msg@);
                        assert(p + 14 == 27 + escape_seq(m).len());
                    }
                }
            }
            return Err(ExchangeError::MalformedMessage);
        },
    };
    // the record ends with the closing brace and nothing after it
    if n - p2 != 1 || bytes[p2] != 125 {
        proof {
            assert forall|m: Seq<u8>, sv_: Seq<u8>| bytes@ != encoding_of(m, sv_) by {
                lemma_encoding_parts(m, sv_);
                if bytes@ == encoding_of(m, sv_) {
                    assert(m == msg@);
                    assert(p + 14 == 27 + escape_seq(m).len());
                    assert(sv_ == sv@);
                    assert(p2 == 28 + escape_seq(m).len() + escape_seq(sv_).len());
                }
            }
        }
        return Err(ExchangeError::MalformedMessage);
    }
    proof {
        let l1 = escape_seq(msg@).len() as int;
        let l2 = escape_seq(sv@).len() as int;
        lemma_encoding_parts(msg@, sv@);
        let enc = encoding_of(msg@, sv@);
        assert(p == 13 + l1);
        assert(p2 == 28 + l1 + l2);
        assert(n == 29 + l1 + l2);
        assert forall|j: int| 0 <= j < n implies bytes@[j] == enc[j] by {
            if j < 12 {
                assert(bytes@.subrange(0, 12)[j] == bytes@[j]);
                assert(enc.subrange(0, 12)[j] == enc[j]);
            } else if j < 13 + l1 {
                assert(bytes@.subrange(12, p as int)[j - 12] == bytes@[j]);
                assert(enc.subrange(12, 13 + l1)[j - 12] == enc[j]);
            } else if j < 27 + l1 {
                assert(bytes@.subrange(p as int, p + 14)[j - p] == bytes@[j]);
                assert(enc.subrange(13 + l1, 27 + l1)[j - (13 + l1)] == enc[j]);
            } else if j < 28 + l1 + l2 {
                assert(bytes@.subrange(p + 14, p2 as int)[j - (p + 14)] == bytes@[j]);
                assert(enc.subrange(27 + l1, 28 + l1 + l2)[j - (27 + l1)] == enc[j]);
            } else {
                assert(j == p2);
            }
        }
        assert(bytes@ =~= enc);
    }
    Ok(CipherRequest { message: msg, shift_val: sv })
}

} // verus!
