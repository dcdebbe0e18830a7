//! A small JSON writer and reader for the ledger's canonical record format.
//!
//! The ledger hashes and stores the canonical serialization of its records,
//! so the serializer and the parser are part of the verified logic: the
//! canonical text of a value is a spec function, the writer provably emits
//! it, and the parser provably recovers the value from it.

use vstd::prelude::*;

verus! {

/// The sixteen hexadecimal digit characters.
pub open spec fn hexdig(n: int) -> char {
    seq!['0', '1', '2', '3', '4', '5', '6', '7', '8', '9', 'a', 'b', 'c', 'd', 'e', 'f'][n]
}

/// A decimal digit character.
pub open spec fn is_digit(c: char) -> bool {
    48 <= c as u32 <= 57
}

/// The numeric value of a decimal digit character.
pub open spec fn digval(c: char) -> int {
    c as u32 - 48
}

/// Characters that are escaped inside a JSON string.
pub open spec fn is_escaped(c: char) -> bool {
    c == '"' || c == '\\' || (c as u32) < 32
}

/// The escape of one character: quotes and backslashes get a backslash,
/// control characters a `\u00..` form, anything else stands as itself.
pub open spec fn esc_char(c: char) -> Seq<char> {
    if c == '"' {
        seq!['\\', '"']
    } else if c == '\\' {
        seq!['\\', '\\']
    } else if (c as u32) < 32 {
        seq!['\\', 'u', '0', '0', hexdig(c as u32 as int / 16), hexdig(c as u32 as int % 16)]
    } else {
        seq![c]
    }
}

/// The escape of a whole string body.
pub open spec fn esc(s: Seq<char>) -> Seq<char>
    decreases s.len(),
{
    if s.len() == 0 {
        Seq::empty()
    } else {
        esc_char(s[0]) + esc(s.drop_first())
    }
}

/// The canonical JSON form of a string: quoted and escaped.
pub open spec fn ser_str(s: Seq<char>) -> Seq<char> {
    seq!['"'] + esc(s) + seq!['"']
}

/// The decimal digits of a natural number, most significant first.
pub open spec fn dec_u64(n: nat) -> Seq<char>
    decreases n,
{
    if n < 10 {
        seq![hexdig(n as int)]
    } else {
        dec_u64(n / 10) + seq![hexdig((n % 10) as int)]
    }
}

/// The decimal form of an integer, with a leading minus when negative.
pub open spec fn dec_i64(t: int) -> Seq<char> {
    if t < 0 {
        seq!['-'] + dec_u64((-t) as nat)
    } else {
        dec_u64(t as nat)
    }
}

/// Appending one character to a string appends its escape to the body.
pub proof fn lemma_esc_snoc(s: Seq<char>, c: char)
    ensures
        esc(s.push(c)) == esc(s) + esc_char(c),
    decreases s.len(),
{
    let t = s.push(c);
    if s.len() == 0 {
        assert(t.len() == 1);
        assert(t[0] == c);
        assert(t.drop_first() =~= Seq::<char>::empty());
        assert(esc(t) == esc_char(c) + esc(t.drop_first()));
        assert(esc(t.drop_first()) == Seq::<char>::empty());
        assert(esc_char(c) + Seq::<char>::empty() =~= esc_char(c));
        assert(esc(s) + esc_char(c) =~= esc_char(c));
    } else {
        assert(t[0] == s[0]);
        assert(t.drop_first() =~= s.drop_first().push(c));
        lemma_esc_snoc(s.drop_first(), c);
        assert(esc(t) == esc_char(s[0]) + esc(s.drop_first().push(c)));
        assert(esc(t) == esc_char(s[0]) + (esc(s.drop_first()) + esc_char(c)));
        assert(esc_char(s[0]) + (esc(s.drop_first()) + esc_char(c)) =~= (esc_char(s[0])
            + esc(s.drop_first())) + esc_char(c));
    }
}

/// The collected characters of a string slice.
pub fn str_chars(s: &str) -> (r: Vec<char>)
    ensures
        r@ == s@,
{
    broadcast use vstd::string::axiom_spec_iter;

    let mut r: Vec<char> = Vec::new();
    for c in it: s.chars()
        invariant
            it.seq() == s@,
            r@ == s@.take(it.index() as int),
    {
        r.push(c);
        proof {
            assert(r@ =~= s@.take(it.index() as int + 1));
        }
    }
    proof {
        assert(s@.take(s@.len() as int) =~= s@);
    }
    r
}

/// Relies on `String: FromIterator<char>`: collecting characters yields the
/// string with exactly those characters.  vstd gives `String` no verified
/// way to append a single character, so this one conversion is trusted.
#[verifier::external_body]
pub fn chars_to_string(v: &Vec<char>) -> (r: String)
    ensures
        r@ == v@,
{
    v.iter().collect()
}

/// The character for a value below sixteen.
pub fn hexdig_pub(d: u8) -> (r: char)
    requires
        d < 16,
    ensures
        r == hexdig(d as int),
{
    match d {
        0 => '0',
        1 => '1',
        2 => '2',
        3 => '3',
        4 => '4',
        5 => '5',
        6 => '6',
        7 => '7',
        8 => '8',
        9 => '9',
        10 => 'a',
        11 => 'b',
        12 => 'c',
        13 => 'd',
        14 => 'e',
        _ => 'f',
    }
}

/// Appends a literal piece of text.
pub fn w_lit(out: &mut Vec<char>, s: &str)
    ensures
        final(out)@ == old(out)@ + s@,
{
    broadcast use vstd::string::axiom_spec_iter;

    let ghost start = out@;
    for c in it: s.chars()
        invariant
            it.seq() == s@,
            out@ == start + s@.take(it.index() as int),
    {
        out.push(c);
        proof {
            assert(out@ =~= start + s@.take(it.index() as int + 1));
        }
    }
    proof {
        assert(start + s@.take(s@.len() as int) =~= start + s@);
    }
}

/// Appends the canonical JSON form of a string.
pub fn w_string(out: &mut Vec<char>, s: &str)
    ensures
        final(out)@ == old(out)@ + ser_str(s@),
{
    let ghost start = out@;
    out.push('"');
    let cs = str_chars(s);
    let n = cs.len();
    for i in 0..n
        invariant
            n == cs@.len(),
            cs@ == s@,
            out@ == start + seq!['"'] + esc(s@.take(i as int)),
    {
        let c = cs[i];
        let code = c as u32;
        if c == '"' {
            out.push('\\');
            out.push('"');
        } else if c == '\\' {
            out.push('\\');
            out.push('\\');
        } else if code < 32 {
            out.push('\\');
            out.push('u');
            out.push('0');
            out.push('0');
            out.push(hexdig_pub((code / 16) as u8));
            out.push(hexdig_pub((code % 16) as u8));
        } else {
            out.push(c);
        }
        proof {
            lemma_esc_snoc(s@.take(i as int), c);
            assert(s@.take(i as int).push(c) =~= s@.take(i as int + 1));
            assert(out@ =~= start + seq!['"'] + esc(s@.take(i as int + 1)));
        }
    }
    out.push('"');
    proof {
        assert(s@.take(n as int) =~= s@);
        assert(out@ =~= start + ser_str(s@));
    }
}

/// Appends the decimal digits of a natural number.
pub fn w_u64(out: &mut Vec<char>, n: u64)
    ensures
        final(out)@ == old(out)@ + dec_u64(n as nat),
    decreases n,
{
    if n < 10 {
        out.push(hexdig_pub(n as u8));
    } else {
        w_u64(out, n / 10);
        out.push(hexdig_pub((n % 10) as u8));
    }
}

/// Appends the decimal form of an integer.
pub fn w_i64(out: &mut Vec<char>, t: i64)
    ensures
        final(out)@ == old(out)@ + dec_i64(t as int),
{
    if t < 0 {
        out.push('-');
        let m: u64 = if t == -0x8000000000000000i64 {
            0x8000000000000000u64
        } else {
            (-t) as u64
        };
        w_u64(out, m);
        proof {
            assert(old(out)@ + seq!['-'] + dec_u64(m as nat) =~= old(out)@ + dec_i64(t as int));
        }
    } else {
        w_u64(out, t as u64);
    }
}


// --- Facts about the canonical forms ---

/// The window of `s` at `i` holds exactly `t`.
pub open spec fn lit_at(s: Seq<char>, i: int, t: Seq<char>) -> bool {
    &&& 0 <= i
    &&& i + t.len() <= s.len()
    &&& s.subrange(i, i + t.len()) == t
}

/// A window holding `x + y` splits into adjacent windows holding `x` and `y`.
pub proof fn lemma_lit_split(s: Seq<char>, i: int, x: Seq<char>, y: Seq<char>)
    requires
        lit_at(s, i, x + y),
    ensures
        lit_at(s, i, x),
        lit_at(s, i + x.len(), y),
{
    let t = x + y;
    assert forall|k: int|
        0 <= k < x.len() implies s.subrange(i, i + x.len() as int)[k] == x[k] by {
        assert(s.subrange(i, i + t.len() as int)[k] == t[k]);
        assert(s.subrange(i, i + t.len() as int)[k] == s[i + k]);
        assert(s.subrange(i, i + x.len() as int)[k] == s[i + k]);
        assert(t[k] == x[k]);
    }
    assert(s.subrange(i, i + x.len() as int) =~= x);
    assert forall|k: int|
        0 <= k < y.len() implies s.subrange(i + x.len(), i + x.len() + y.len())[k] == y[k] by {
        assert(s.subrange(i, i + t.len() as int)[x.len() + k] == t[x.len() + k]);
        assert(s.subrange(i, i + t.len() as int)[x.len() + k] == s[i + (x.len() + k)]);
        assert(s.subrange(i + x.len(), i + x.len() + y.len())[k] == s[(i + x.len()) + k]);
        assert(t[x.len() + k] == y[k]);
    }
    assert(s.subrange(i + x.len(), i + x.len() + y.len()) =~= y);
}

/// Unfolding of the escape of a nonempty string, and the shape of its head.
pub proof fn lemma_esc_first(v: Seq<char>)
    requires
        v.len() > 0,
    ensures
        esc(v) == esc_char(v[0]) + esc(v.drop_first()),
        esc(v).len() == esc_char(v[0]).len() + esc(v.drop_first()).len(),
        esc_char(v[0]).len() >= 1,
        is_escaped(v[0]) ==> esc(v)[0] == '\\' && esc_char(v[0]).len() >= 2,
        !is_escaped(v[0]) ==> esc(v)[0] == v[0] && esc_char(v[0]) == seq![v[0]],
{
    assert(esc(v) == esc_char(v[0]) + esc(v.drop_first()));
}

// --- Reading the canonical forms back ---

/// Consumes the literal `t` at position `i`, or says that it is not there.
pub fn eat_lit(s: &Vec<char>, i: usize, t: &str) -> (r: Option<usize>)
    requires
        i <= s@.len(),
    ensures
        r matches Some(j) ==> j == i + t@.len() && lit_at(s@, i as int, t@),
        r is None ==> !lit_at(s@, i as int, t@),
{
    let cs = str_chars(t);
    let n = cs.len();
    let l = s.len();
    if n > l - i {
        return None;
    }
    for k in 0..n
        invariant
            n == t@.len(),
            cs@ == t@,
            l == s@.len(),
            i + n <= l,
            forall|q: int| 0 <= q < k ==> s@[i + q] == t@[q],
    {
        if s[i + k] != cs[k] {
            proof {
                if lit_at(s@, i as int, t@) {
                    let w = s@.subrange(i as int, i as int + t@.len());
                    assert(w[k as int] == s@[i + k]);
                }
            }
            return None;
        }
    }
    proof {
        assert(s@.subrange(i as int, i as int + t@.len()) =~= t@);
    }
    Some(i + n)
}

/// The value below sixteen whose hexadecimal digit is `c`, if any.
fn hexval(c: char) -> (r: Option<u8>)
    ensures
        r matches Some(d) ==> d < 16 && c == hexdig(d as int),
        r is None ==> forall|d: int| 0 <= d < 16 ==> c != hexdig(d),
{
    match c {
        '0' => Some(0),
        '1' => Some(1),
        '2' => Some(2),
        '3' => Some(3),
        '4' => Some(4),
        '5' => Some(5),
        '6' => Some(6),
        '7' => Some(7),
        '8' => Some(8),
        '9' => Some(9),
        'a' => Some(10),
        'b' => Some(11),
        'c' => Some(12),
        'd' => Some(13),
        'e' => Some(14),
        'f' => Some(15),
        _ => None,
    }
}

/// The shape of the six-character escape: a character whose escape
/// continues with `u` is a control character.
proof fn lemma_u_escape(c: char)
    requires
        is_escaped(c),
        esc_char(c)[1] == 'u',
    ensures
        (c as u32) < 32,
        esc_char(c) == seq![
            '\\',
            'u',
            '0',
            '0',
            hexdig(c as u32 as int / 16),
            hexdig(c as u32 as int % 16),
        ],
        esc_char(c).len() == 6,
        0 <= c as u32 as int / 16 < 2,
        0 <= c as u32 as int % 16 < 16,
{
    if c == '"' {
        assert(esc_char(c)[1] == '"');
    } else if c == '\\' {
        assert(esc_char(c)[1] == '\\');
    }
}

/// A control character is recovered from its two hexadecimal digits.
proof fn lemma_u_recover(c: char, d1: u8, d0: u8)
    requires
        (c as u32) < 32,
        d1 < 16,
        d0 < 16,
        hexdig(c as u32 as int / 16) == hexdig(d1 as int),
        hexdig(c as u32 as int % 16) == hexdig(d0 as int),
    ensures
        16 * (d1 as u32) + (d0 as u32) == c as u32,
        d1 < 2,
{
    let code = c as u32 as int;
    lemma_hexdig_inj(code / 16, d1 as int);
    lemma_hexdig_inj(code % 16, d0 as int);
}

/// The escaped body of a string stands at `i`, closed by a quote.
pub open spec fn strbody_at(s: Seq<char>, i: int, v: Seq<char>) -> bool {
    &&& lit_at(s, i, esc(v))
    &&& i + esc(v).len() + 1 <= s.len()
    &&& s[i + esc(v).len()] == '"'
}

/// Reads an escaped string body up to its closing quote.  Whenever the
/// input from `i` on is the canonical form of some string `v`, the result
/// is exactly `v` and the position after the closing quote.
#[verifier::rlimit(100)]
fn parse_strbody(s: &Vec<char>, i: usize) -> (res: Option<(Vec<char>, usize)>)
    requires
        i <= s@.len(),
    ensures
        res matches Some(p) ==> i < p.1 <= s@.len(),
        forall|v: Seq<char>|
            strbody_at(s@, i as int, v) ==> (res matches Some(p) && p.0@ == v && p.1 == i
                + esc(v).len() + 1),
    decreases s@.len() - i,
{
    if i >= s.len() {
        return None;
    }
    let c = s[i];
    if c == '"' {
        proof {
            assert forall|v: Seq<char>| strbody_at(s@, i as int, v) implies v == Seq::<
                char,
            >::empty() by {
                if v.len() > 0 {
                    lemma_esc_first(v);
                    let w = s@.subrange(i as int, i as int + esc(v).len());
                    assert(w[0] == s@[i as int]);
                    assert(esc(v)[0] == '"');
                }
                assert(v =~= Seq::<char>::empty());
            }
        }
        let out: Vec<char> = Vec::new();
        return Some((out, i + 1));
    }
    if c == '\\' {
        proof {
            assert forall|v: Seq<char>|
                strbody_at(s@, i as int, v) implies v.len() > 0 && is_escaped(v[0]) by {
                if v.len() == 0 {
                    assert(s@[i as int] == '"');
                } else {
                    lemma_esc_first(v);
                    let w = s@.subrange(i as int, i as int + esc(v).len());
                    assert(w[0] == s@[i as int]);
                    if !is_escaped(v[0]) {
                        assert(esc(v)[0] == v[0]);
                        assert(v[0] == '\\');
                        assert(is_escaped(v[0]));
                    }
                }
            }
        }
        if s.len() - i < 2 {
            proof {
                assert forall|v: Seq<char>| !strbody_at(s@, i as int, v) by {
                    if strbody_at(s@, i as int, v) {
                        lemma_esc_first(v);
                    }
                }
            }
            return None;
        }
        let e = s[i + 1];
        proof {
            assert forall|v: Seq<char>|
                strbody_at(s@, i as int, v) implies esc_char(v[0])[1] == e && v.len() > 0 by {
                lemma_esc_first(v);
                let w = s@.subrange(i as int, i as int + esc(v).len());
                assert(w[1] == s@[i + 1]);
                assert(esc(v)[1] == esc_char(v[0])[1]);
            }
        }
        if e == '"' || e == '\\' {
            // a two-character escape of the character `e` itself
            proof {
                assert forall|v: Seq<char>|
                    strbody_at(s@, i as int, v) implies v[0] == e && esc_char(v[0])
                    =~= seq!['\\', e] && strbody_at(s@, i as int + 2, v.drop_first()) by {
                    lemma_esc_first(v);
                    if (v[0] as u32) < 32 && v[0] != '"' && v[0] != '\\' {
                        assert(esc_char(v[0])[1] == 'u');
                    }
                    assert(v[0] == e);
                    lemma_lit_split(s@, i as int, esc_char(v[0]), esc(v.drop_first()));
                }
            }
            match parse_strbody(s, i + 2) {
                Some((tail, j)) => {
                    let mut out = tail;
                    out.insert(0, e);
                    proof {
                        assert forall|v: Seq<char>|
                            strbody_at(s@, i as int, v) implies out@ == v && j == i + esc(
                            v,
                        ).len() + 1 by {
                            lemma_esc_first(v);
                            assert(out@ =~= v);
                        }
                    }
                    return Some((out, j));
                },
                None => {
                    proof {
                        assert forall|v: Seq<char>| !strbody_at(s@, i as int, v) by {
                            if strbody_at(s@, i as int, v) {
                                assert(strbody_at(s@, i as int + 2, v.drop_first()));
                            }
                        }
                    }
                    return None;
                },
            }
        } else if e == 'u' {
            // the six-character escape of a control character
            proof {
                assert forall|v: Seq<char>|
                    strbody_at(s@, i as int, v) implies (v[0] as u32) < 32 && esc_char(v[0])
                    == seq![
                    '\\',
                    'u',
                    '0',
                    '0',
                    hexdig(v[0] as u32 as int / 16),
                    hexdig(v[0] as u32 as int % 16),
                ] && esc(v).len() >= 6 by {
                    lemma_esc_first(v);
                    lemma_u_escape(v[0]);
                }
            }
            if s.len() - i < 6 {
                proof {
                    assert forall|v: Seq<char>| !strbody_at(s@, i as int, v) by {
                        if strbody_at(s@, i as int, v) {
                            lemma_esc_first(v);
                        }
                    }
                }
                return None;
            }
            proof {
                assert forall|v: Seq<char>|
                    strbody_at(s@, i as int, v) implies s@[i + 2] == '0' && s@[i + 3] == '0'
                    && s@[i + 4] == hexdig(v[0] as u32 as int / 16) && s@[i + 5] == hexdig(
                    v[0] as u32 as int % 16,
                ) by {
                    lemma_esc_first(v);
                    lemma_u_escape(v[0]);
                    let w = s@.subrange(i as int, i as int + esc(v).len());
                    assert(w[2] == s@[i + 2]);
                    assert(w[3] == s@[i + 3]);
                    assert(w[4] == s@[i + 4]);
                    assert(w[5] == s@[i + 5]);
                    assert(esc(v)[2] == esc_char(v[0])[2]);
                    assert(esc(v)[3] == esc_char(v[0])[3]);
                    assert(esc(v)[4] == esc_char(v[0])[4]);
                    assert(esc(v)[5] == esc_char(v[0])[5]);
                }
            }
            if s[i + 2] != '0' || s[i + 3] != '0' {
                return None;
            }
            let d1 = match hexval(s[i + 4]) {
                Some(d) => d,
                None => {
                    return None;
                },
            };
            let d0 = match hexval(s[i + 5]) {
                Some(d) => d,
                None => {
                    return None;
                },
            };
            if d1 >= 2 {
                proof {
                    assert forall|v: Seq<char>| !strbody_at(s@, i as int, v) by {
                        if strbody_at(s@, i as int, v) {
                            lemma_u_escape(v[0]);
                            lemma_u_recover(v[0], d1, d0);
                        }
                    }
                }
                return None;
            }
            let cc = ((d1 * 16 + d0) as u8) as char;
            proof {
                assert forall|v: Seq<char>|
                    strbody_at(s@, i as int, v) implies cc == v[0] && strbody_at(
                    s@,
                    i as int + 6,
                    v.drop_first(),
                ) by {
                    lemma_esc_first(v);
                    lemma_u_escape(v[0]);
                    lemma_u_recover(v[0], d1, d0);
                    assert(cc as u32 == v[0] as u32);
                    vstd::utf8::char_u32_cast(cc, cc as u32);
                    vstd::utf8::char_u32_cast(v[0], cc as u32);
                    lemma_lit_split(s@, i as int, esc_char(v[0]), esc(v.drop_first()));
                }
            }
            match parse_strbody(s, i + 6) {
                Some((tail, j)) => {
                    let mut out = tail;
                    out.insert(0, cc);
                    proof {
                        assert forall|v: Seq<char>|
                            strbody_at(s@, i as int, v) implies out@ == v && j == i + esc(
                            v,
                        ).len() + 1 by {
                            lemma_esc_first(v);
                            assert(out@ =~= v);
                        }
                    }
                    return Some((out, j));
                },
                None => {
                    proof {
                        assert forall|v: Seq<char>| !strbody_at(s@, i as int, v) by {
                            if strbody_at(s@, i as int, v) {
                                assert(strbody_at(s@, i as int + 6, v.drop_first()));
                            }
                        }
                    }
                    return None;
                },
            }
        } else {
            // no canonical escape continues with this character
            proof {
                assert forall|v: Seq<char>| !strbody_at(s@, i as int, v) by {
                    if strbody_at(s@, i as int, v) {
                        lemma_esc_first(v);
                        if v[0] == '"' {
                            assert(esc_char(v[0])[1] == '"');
                        } else if v[0] == '\\' {
                            assert(esc_char(v[0])[1] == '\\');
                        } else {
                            assert(esc_char(v[0])[1] == 'u');
                        }
                    }
                }
            }
            return None;
        }
    }
    // a plain character stands for itself
    proof {
        assert forall|v: Seq<char>|
            strbody_at(s@, i as int, v) implies v.len() > 0 && v[0] == c && !is_escaped(v[0])
            && strbody_at(s@, i as int + 1, v.drop_first()) by {
            if v.len() == 0 {
                assert(s@[i as int] == '"');
            } else {
                lemma_esc_first(v);
                let w = s@.subrange(i as int, i as int + esc(v).len());
                assert(w[0] == s@[i as int]);
                if is_escaped(v[0]) {
                    assert(esc(v)[0] == '\\');
                }
                lemma_lit_split(s@, i as int, esc_char(v[0]), esc(v.drop_first()));
            }
        }
    }
    match parse_strbody(s, i + 1) {
        Some((tail, j)) => {
            let mut out = tail;
            out.insert(0, c);
            proof {
                assert forall|v: Seq<char>|
                    strbody_at(s@, i as int, v) implies out@ == v && j == i + esc(v).len()
                    + 1 by {
                    lemma_esc_first(v);
                    assert(out@ =~= v);
                }
            }
            Some((out, j))
        },
        None => {
            proof {
                assert forall|v: Seq<char>| !strbody_at(s@, i as int, v) by {
                    if strbody_at(s@, i as int, v) {
                        assert(strbody_at(s@, i as int + 1, v.drop_first()));
                    }
                }
            }
            None
        },
    }
}

/// The sixteen digit characters, one by one.
pub proof fn lemma_hexdig_vals()
    ensures
        hexdig(0) == '0',
        hexdig(1) == '1',
        hexdig(2) == '2',
        hexdig(3) == '3',
        hexdig(4) == '4',
        hexdig(5) == '5',
        hexdig(6) == '6',
        hexdig(7) == '7',
        hexdig(8) == '8',
        hexdig(9) == '9',
        hexdig(10) == 'a',
        hexdig(11) == 'b',
        hexdig(12) == 'c',
        hexdig(13) == 'd',
        hexdig(14) == 'e',
        hexdig(15) == 'f',
{
}

/// Hexadecimal digit characters are pairwise distinct.
proof fn lemma_hexdig_inj(a: int, b: int)
    requires
        0 <= a < 16,
        0 <= b < 16,
        hexdig(a) == hexdig(b),
    ensures
        a == b,
{
    lemma_hexdig_vals();
}

/// A complete quoted string stands at `i`.
pub open spec fn jstr_at(s: Seq<char>, i: int, v: Seq<char>) -> bool {
    lit_at(s, i, ser_str(v))
}

/// Reads a quoted, escaped string.  Whenever the canonical form of some
/// string `v` stands at `i`, the result is exactly `v`.
pub fn parse_jstring(s: &Vec<char>, i: usize) -> (res: Option<(String, usize)>)
    requires
        i <= s@.len(),
    ensures
        res matches Some(p) ==> i < p.1 <= s@.len(),
        forall|v: Seq<char>|
            jstr_at(s@, i as int, v) ==> (res matches Some(p) && p.0@ == v && p.1 == i
                + ser_str(v).len()),
{
    proof {
        assert forall|v: Seq<char>|
            jstr_at(s@, i as int, v) implies s@[i as int] == '"' && strbody_at(
            s@,
            i as int + 1,
            v,
        ) by {
            assert(ser_str(v) =~= seq!['"'] + (esc(v) + seq!['"']));
            lemma_lit_split(s@, i as int, seq!['"'], esc(v) + seq!['"']);
            lemma_lit_split(s@, i as int + 1, esc(v), seq!['"']);
            let w = s@.subrange(i as int, i as int + 1);
            assert(w[0] == s@[i as int]);
            let e2 = i + 1 + esc(v).len() as int;
            let w2 = s@.subrange(e2, e2 + 1);
            assert(w2[0] == s@[e2]);
        }
    }
    if i >= s.len() || s[i] != '"' {
        return None;
    }
    match parse_strbody(s, i + 1) {
        Some((cs, j)) => {
            let st = chars_to_string(&cs);
            Some((st, j))
        },
        None => None,
    }
}



// --- Reading decimal numbers back ---

/// The value of a sequence of decimal digit characters.
pub open spec fn val10(ds: Seq<char>) -> nat
    decreases ds.len(),
{
    if ds.len() == 0 {
        0
    } else {
        (val10(ds.drop_last()) * 10 + digval(ds.last())) as nat
    }
}

/// Position `e` does not continue a digit run.
pub open spec fn num_end(s: Seq<char>, e: int) -> bool {
    e == s.len() || (e < s.len() && !is_digit(s[e]))
}

/// The first ten digit characters carry their values.
proof fn lemma_digit_codes(d: int)
    requires
        0 <= d < 10,
    ensures
        is_digit(hexdig(d)),
        digval(hexdig(d)) == d,
{
    lemma_hexdig_vals();
    if d == 0 {
    } else if d == 1 {
    } else if d == 2 {
    } else if d == 3 {
    } else if d == 4 {
    } else if d == 5 {
    } else if d == 6 {
    } else if d == 7 {
    } else if d == 8 {
    } else {
    }
}

/// The decimal form of a natural number is a nonempty digit run whose
/// value is the number itself.
pub proof fn lemma_dec_u64_props(n: nat)
    ensures
        dec_u64(n).len() >= 1,
        forall|k: int| 0 <= k < dec_u64(n).len() ==> is_digit(#[trigger] dec_u64(n)[k]),
        val10(dec_u64(n)) == n,
    decreases n,
{
    if n < 10 {
        lemma_digit_codes(n as int);
        let d = dec_u64(n);
        assert(d.drop_last() =~= Seq::<char>::empty());
        assert(d.len() == 1 && d.last() == hexdig(n as int));
        assert(val10(d) == (val10(d.drop_last()) * 10 + digval(d.last())) as nat);
        assert(val10(d.drop_last()) == 0);
        assert(digval(d.last()) == n);
    } else {
        lemma_dec_u64_props(n / 10);
        lemma_digit_codes((n % 10) as int);
        let d = dec_u64(n);
        assert(d.drop_last() =~= dec_u64(n / 10));
        assert(d.last() == hexdig((n % 10) as int));
        assert(val10(d) == (val10(d.drop_last()) * 10 + digval(d.last())) as nat);
        assert(val10(d.drop_last()) == n / 10);
        assert(digval(d.last()) == n % 10);
        assert((n / 10) * 10 + n % 10 == n) by (nonlinear_arith);
    }
}

/// Every prefix of the decimal form has value at most the number.
proof fn lemma_dec_prefix_bound(n: nat, k: int)
    requires
        0 <= k <= dec_u64(n).len(),
    ensures
        val10(dec_u64(n).take(k)) <= n,
    decreases n,
{
    lemma_dec_u64_props(n);
    if n < 10 {
        if k == 0 {
            assert(dec_u64(n).take(0) =~= Seq::<char>::empty());
        } else {
            assert(dec_u64(n).take(k) =~= dec_u64(n));
        }
    } else {
        let head = dec_u64(n / 10);
        lemma_dec_u64_props(n / 10);
        if k <= head.len() {
            assert(dec_u64(n).take(k) =~= head.take(k));
            lemma_dec_prefix_bound(n / 10, k);
        } else {
            assert(dec_u64(n).take(k) =~= dec_u64(n));
        }
    }
}

/// A digit run at `start` that is the decimal form of `m`, followed by a
/// non-digit, is scanned to exactly its own end.
proof fn lemma_num_window(s: Seq<char>, start: int, j: int, m: nat)
    requires
        lit_at(s, start, dec_u64(m)),
        start <= j <= s.len(),
        forall|k: int| start <= k < j ==> is_digit(#[trigger] s[k]),
        j == s.len() || !is_digit(s[j]),
        num_end(s, start + dec_u64(m).len()),
    ensures
        j == start + dec_u64(m).len(),
        s.subrange(start, j) == dec_u64(m),
        forall|k: int| start < k <= j ==> val10(#[trigger] s.subrange(start, k)) <= m,
{
    lemma_dec_u64_props(m);
    let d = dec_u64(m);
    let w = s.subrange(start, start + d.len());
    assert(forall|k: int| 0 <= k < d.len() ==> s[start + k] == w[k]);
    // the scan cannot stop inside the run
    if j < start + d.len() {
        assert(w[j - start] == s[j]);
        assert(is_digit(d[j - start]));
        assert(false);
    }
    // nor go past its end
    if j > start + d.len() {
        assert(is_digit(s[start + d.len()]));
        assert(false);
    }
    assert(s.subrange(start, j) == d);
    assert forall|k: int| start < k <= j implies val10(#[trigger] s.subrange(start, k))
        <= m by {
        assert(s.subrange(start, k) =~= d.take(k - start));
        lemma_dec_prefix_bound(m, k - start);
    }
}

/// The end of the digit run that starts at `i`.
fn scan_digits(s: &Vec<char>, i: usize) -> (j: usize)
    requires
        i <= s@.len(),
    ensures
        i <= j <= s@.len(),
        forall|k: int| i <= k < j ==> is_digit(#[trigger] s@[k]),
        j == s@.len() || !is_digit(s@[j as int]),
{
    let l = s.len();
    let mut j = i;
    while j < l
        invariant
            i <= j <= l,
            l == s@.len(),
            forall|k: int| i <= k < j ==> is_digit(#[trigger] s@[k]),
        decreases l - j,
    {
        let u = s[j] as u32;
        if u < 48 || u > 57 {
            return j;
        }
        j = j + 1;
    }
    j
}

/// The value of the digit run `s[i..j]`, or `None` when it exceeds the
/// 64-bit range.
fn digits_val(s: &Vec<char>, i: usize, j: usize) -> (r: Option<u64>)
    requires
        i <= j <= s@.len(),
        forall|k: int| i <= k < j ==> is_digit(#[trigger] s@[k]),
    ensures
        r matches Some(u) ==> u as nat == val10(s@.subrange(i as int, j as int)),
        r is None ==> exists|k: int|
            i < k <= j && val10(#[trigger] s@.subrange(i as int, k)) > u64::MAX as nat,
{
    let mut acc: u64 = 0;
    let ghost gi = i as int;
    let mut k = i;
    proof {
        assert(s@.subrange(gi, gi) =~= Seq::<char>::empty());
    }
    while k < j
        invariant
            i <= k <= j <= s@.len(),
            forall|q: int| i <= q < j ==> is_digit(#[trigger] s@[q]),
            acc as nat == val10(s@.subrange(i as int, k as int)),
        decreases j - k,
    {
        let c = s[k];
        let d: u64 = (c as u32 - 48) as u64;
        proof {
            assert(s@.subrange(i as int, k as int + 1).drop_last() =~= s@.subrange(
                i as int,
                k as int,
            ));
            assert(s@.subrange(i as int, k as int + 1).last() == s@[k as int]);
            assert(digval(s@[k as int]) == d);
        }
        let q: u64 = (0xffffffffffffffffu64 - d) / 10;
        if acc > q {
            proof {
                let m = 0xffffffffffffffff as int;
                assert((m - d) == 10 * ((m - d) / 10) + (m - d) % 10);
                assert(val10(s@.subrange(i as int, k as int + 1)) > u64::MAX as nat);
            }
            return None;
        }
        proof {
            let m = 0xffffffffffffffff as int;
            assert((m - d) == 10 * ((m - d) / 10) + (m - d) % 10);
            assert(acc * 10 + d <= m);
        }
        acc = acc * 10 + d;
        k = k + 1;
    }
    Some(acc)
}

/// Reads a decimal integer.  Whenever the decimal form of a 64-bit integer
/// `t` stands at `i` and is not followed by another digit, the result is
/// exactly `t` and the position after its digits.
pub fn parse_i64(s: &Vec<char>, i: usize) -> (r: Option<(i64, usize)>)
    requires
        i <= s@.len(),
    ensures
        r matches Some(p) ==> i < p.1 <= s@.len(),
        forall|t: int|
            #![trigger dec_i64(t)]
            (-0x8000000000000000 <= t <= 0x7fffffffffffffff && lit_at(s@, i as int, dec_i64(t))
                && num_end(s@, i + dec_i64(t).len())) ==> (r matches Some(p) && p.0 == t && p.1
                == i + dec_i64(t).len()),
{
    if i >= s.len() {
        proof {
            assert forall|t: int| !lit_at(s@, i as int, dec_i64(t)) by {
                if t < 0 {
                    lemma_dec_u64_props((-t) as nat);
                } else {
                    lemma_dec_u64_props(t as nat);
                }
            }
        }
        return None;
    }
    let neg = s[i] == '-';
    let start = if neg {
        i + 1
    } else {
        i
    };
    proof {
        assert forall|t: int|
            lit_at(s@, i as int, dec_i64(t)) implies (t < 0 <==> s@[i as int] == '-') by {
            if t < 0 {
                lemma_dec_u64_props((-t) as nat);
                let w = s@.subrange(i as int, i + dec_i64(t).len());
                assert(w[0] == s@[i as int]);
                assert(dec_i64(t)[0] == '-');
            } else {
                lemma_dec_u64_props(t as nat);
                let w = s@.subrange(i as int, i + dec_i64(t).len());
                assert(w[0] == s@[i as int]);
                assert(is_digit(dec_i64(t)[0]));
            }
        }
    }
    if start > s.len() {
        return None;
    }
    let j = scan_digits(s, start);
    // relate any matching integer to the scanned digit window
    proof {
        assert forall|t: int|
            (-0x8000000000000000 <= t <= 0x7fffffffffffffff && lit_at(s@, i as int, dec_i64(t))
                && num_end(s@, i + dec_i64(t).len())) implies {
            let m = if t < 0 {
                (-t) as nat
            } else {
                t as nat
            };
            &&& j == start + dec_u64(m).len()
            &&& s@.subrange(start as int, j as int) == dec_u64(m)
            &&& forall|k: int|
                start < k <= j ==> val10(#[trigger] s@.subrange(start as int, k)) <= m
        } by {
            let m = if t < 0 {
                (-t) as nat
            } else {
                t as nat
            };
            if t < 0 {
                assert(dec_i64(t) =~= seq!['-'] + dec_u64(m));
                lemma_lit_split(s@, i as int, seq!['-'], dec_u64(m));
            } else {
                assert(dec_i64(t) == dec_u64(m));
            }
            lemma_num_window(s@, start as int, j as int, m);
        }
    }
    if j == start {
        proof {
            assert forall|t: int|
                !(-0x8000000000000000 <= t <= 0x7fffffffffffffff && lit_at(
                    s@,
                    i as int,
                    dec_i64(t),
                ) && num_end(s@, i + dec_i64(t).len())) by {
                if -0x8000000000000000 <= t <= 0x7fffffffffffffff && lit_at(
                    s@,
                    i as int,
                    dec_i64(t),
                ) && num_end(s@, i + dec_i64(t).len()) {
                    let m = if t < 0 {
                        (-t) as nat
                    } else {
                        t as nat
                    };
                    lemma_dec_u64_props(m);
                }
            }
        }
        return None;
    }
    let u = match digits_val(s, start, j) {
        Some(u) => u,
        None => {
            proof {
                assert forall|t: int|
                    !(-0x8000000000000000 <= t <= 0x7fffffffffffffff && lit_at(
                        s@,
                        i as int,
                        dec_i64(t),
                    ) && num_end(s@, i + dec_i64(t).len())) by {
                    if -0x8000000000000000 <= t <= 0x7fffffffffffffff && lit_at(
                        s@,
                        i as int,
                        dec_i64(t),
                    ) && num_end(s@, i + dec_i64(t).len()) {
                        let m = if t < 0 {
                            (-t) as nat
                        } else {
                            t as nat
                        };
                        assert(m <= 0x8000000000000000);
                    }
                }
            }
            return None;
        },
    };
    proof {
        assert forall|t: int|
            (-0x8000000000000000 <= t <= 0x7fffffffffffffff && lit_at(s@, i as int, dec_i64(t))
                && num_end(s@, i + dec_i64(t).len())) implies {
            let m = if t < 0 {
                (-t) as nat
            } else {
                t as nat
            };
            u as nat == m && j == i + dec_i64(t).len()
        } by {
            let m = if t < 0 {
                (-t) as nat
            } else {
                t as nat
            };
            lemma_dec_u64_props(m);
        }
    }
    if neg {
        if u > 0x8000000000000000u64 {
            return None;
        }
        let val: i64 = if u == 0x8000000000000000u64 {
            -0x7fffffffffffffffi64 - 1
        } else {
            -(u as i64)
        };
        Some((val, j))
    } else {
        if u > 0x7fffffffffffffffu64 {
            return None;
        }
        Some((u as i64, j))
    }
}


} // verus!
