//! The lossless text form of a transition table: a sequence of records
//! `( state pairs )`, each pair a token slot and its count, every token
//! either the sentinel mark or a length-prefixed string.  The encoding is
//! injective, and the decoder accepts exactly the encodings of tables whose
//! counts are positive.
//!
//! The record shape is the external interface's — one record per state,
//! holding its (next, count) pairs, with a null-like mark for the sentinel
//! that stays distinct from any real token.  The concrete syntax is this
//! library's own, chosen deliberately: length-prefixed tokens need no
//! quoting or escape rules, which is what makes the proved round trip
//! tractable.  It is not interchangeable with a general-purpose serializer's
//! JSON text; a deployment holding chains in another syntax must convert
//! them once before this decoder reads them.

use vstd::prelude::*;

use crate::chain::DistV;
use crate::chain::TableV;
use crate::chain::dist_view;
use crate::chain::table_view;
use crate::str_to_chars;
use crate::tok_view;
use vstd::string::StrSliceExecFns;

verus! {

/// Decoding failure: the text is not the encoding of any admissible table.
#[derive(Debug, PartialEq, Eq)]
pub struct DecodeError;

pub open spec fn is_digit(c: char) -> bool {
    48 <= c as u32 <= 57
}

pub open spec fn digit_char(d: nat) -> char {
    ((48 + d) as u8) as char
}

pub open spec fn digit_val(c: char) -> nat {
    (c as u32 - 48) as nat
}

/// The canonical decimal form of a number: no leading zeros, `"0"` for zero.
pub open spec fn dec_of(n: nat) -> Seq<char>
    decreases n,
{
    if n < 10 {
        seq![digit_char(n)]
    } else {
        dec_of(n / 10).push(digit_char(n % 10))
    }
}

/// The number a digit string denotes.
pub open spec fn val_of(d: Seq<char>) -> nat
    decreases d.len(),
{
    if d.len() == 0 {
        0
    } else {
        val_of(d.drop_last()) * 10 + digit_val(d.last())
    }
}

pub open spec fn all_digits(d: Seq<char>) -> bool {
    forall|k: int| 0 <= k < d.len() ==> is_digit(#[trigger] d[k])
}

/// A canonical decimal string: non-empty digits without a leading zero.
pub open spec fn canon(d: Seq<char>) -> bool {
    d.len() >= 1 && all_digits(d) && (d.len() == 1 || d[0] != '0')
}

proof fn lemma_digit_char_val(d: nat)
    requires
        d < 10,
    ensures
        is_digit(digit_char(d)),
        digit_val(digit_char(d)) == d,
        d != 0 ==> digit_char(d) != '0',
        d == 0 ==> digit_char(d) == '0',
{
    assert(digit_char(d) as u32 == 48 + d);
}

proof fn lemma_dec_of_form(n: nat)
    ensures
        dec_of(n).len() >= 1,
        all_digits(dec_of(n)),
        canon(dec_of(n)),
        val_of(dec_of(n)) == n,
        n < 10 <==> dec_of(n).len() == 1,
        n == 0 <==> dec_of(n)[0] == '0',
    decreases n,
{
    if n < 10 {
        lemma_digit_char_val(n);
        assert(dec_of(n) == seq![digit_char(n)]);
        assert(dec_of(n).drop_last() =~= Seq::<char>::empty());
        assert(val_of(Seq::<char>::empty()) == 0);
        assert(val_of(dec_of(n)) == 0 * 10 + digit_val(digit_char(n)));
    } else {
        lemma_dec_of_form(n / 10);
        lemma_digit_char_val(n % 10);
        let d = dec_of(n);
        let p = dec_of(n / 10);
        assert(d == p.push(digit_char(n % 10)));
        assert(d.drop_last() =~= p);
        assert(d.last() == digit_char(n % 10));
        assert(val_of(d) == val_of(p) * 10 + (n % 10));
        assert(val_of(d) == (n / 10) * 10 + (n % 10));
        assert((n / 10) * 10 + (n % 10) == n) by (nonlinear_arith);
        assert(d[0] == p[0]);
        assert forall|k: int| 0 <= k < d.len() implies is_digit(#[trigger] d[k]) by {
            if k < p.len() {
                assert(d[k] == p[k]);
            }
        }
    }
}

/// Canonical digit strings are unique: same value, same string.
proof fn lemma_canon_unique(d: Seq<char>)
    requires
        canon(d),
    ensures
        d == dec_of(val_of(d)),
    decreases d.len(),
{
    let n = val_of(d);
    lemma_digit_char_val(digit_val(d.last()));
    assert(is_digit(d.last()));
    assert(digit_val(d.last()) < 10);
    if d.len() == 1 {
        assert(d.drop_last() =~= Seq::<char>::empty());
        assert(val_of(Seq::<char>::empty()) == 0);
        assert(n == digit_val(d.last()));
        assert(digit_char(digit_val(d.last())) == d.last()) by {
            assert(d.last() as u32 >= 48 && d.last() as u32 <= 57);
            vstd::utf8::char_u32_cast(d.last(), d.last() as u32);
        }
        assert(dec_of(n) =~= d);
    } else {
        let p = d.drop_last();
        assert(p.len() >= 1);
        assert(all_digits(p)) by {
            assert(forall|k: int| 0 <= k < p.len() ==> p[k] == d[k]);
        }
        assert(p[0] == d[0]);
        assert(canon(p)) by {
            if p.len() > 1 {
                assert(d[0] != '0');
            } else {
                if p[0] == '0' {
                    assert(d[0] == '0');
                    assert(false);
                }
            }
        }
        lemma_canon_unique(p);
        let vp = val_of(p);
        assert(n == vp * 10 + digit_val(d.last()));
        assert(vp >= 1) by {
            if vp == 0 {
                lemma_dec_of_form(0);
                lemma_dec_of_form(vp);
                assert(p == dec_of(0));
                assert(p[0] == '0');
                assert(false);
            }
        }
        assert(n / 10 == vp && n % 10 == digit_val(d.last())) by (nonlinear_arith)
            requires
                n == vp * 10 + digit_val(d.last()),
                digit_val(d.last()) < 10,
        ;
        assert(n >= 10) by (nonlinear_arith)
            requires
                n == vp * 10 + digit_val(d.last()),
                vp >= 1,
        ;
        assert(digit_char(digit_val(d.last())) == d.last()) by {
            assert(d.last() as u32 >= 48 && d.last() as u32 <= 57);
            vstd::utf8::char_u32_cast(d.last(), d.last() as u32);
        }
        assert(dec_of(n) == dec_of(n / 10).push(digit_char(n % 10)));
        assert(dec_of(n) =~= d);
    }
}

/// The text form of a token slot: a sentinel mark, or a length-prefixed
/// string.
pub open spec fn enc_tok(t: Option<Seq<char>>) -> Seq<char> {
    match t {
        None => seq!['~'],
        Some(s) => seq!['#'] + dec_of(s.len()) + seq![':'] + s,
    }
}

/// The text form of one distribution entry: token, separator, count.
pub open spec fn enc_pair(p: (Option<Seq<char>>, u64)) -> Seq<char> {
    enc_tok(p.0) + seq![':'] + dec_of(p.1 as nat)
}

pub open spec fn enc_dist(d: DistV) -> Seq<char>
    decreases d.len(),
{
    if d.len() == 0 {
        Seq::empty()
    } else {
        enc_pair(d[0]) + enc_dist(d.drop_first())
    }
}

/// The text form of one record: a parenthesized state and its distribution.
pub open spec fn enc_rec(r: (Option<Seq<char>>, DistV)) -> Seq<char> {
    seq!['('] + enc_tok(r.0) + enc_dist(r.1) + seq![')']
}

/// The text form of a whole table: its records in order.
pub open spec fn enc_table(v: TableV) -> Seq<char>
    decreases v.len(),
{
    if v.len() == 0 {
        Seq::empty()
    } else {
        enc_rec(v[0]) + enc_table(v.drop_first())
    }
}

proof fn lemma_marks_not_digits()
    ensures
        !is_digit('~'),
        !is_digit('#'),
        !is_digit(':'),
        !is_digit('('),
        !is_digit(')'),
        '~' != '#' && '~' != ':' && '~' != '(' && '~' != ')',
        '#' != ':' && '#' != '(' && '#' != ')',
        ':' != '(' && ':' != ')',
        '(' != ')',
{
}

/// Equal concatenations with equally long heads split into equal parts.
proof fn lemma_concat_split(x1: Seq<char>, y1: Seq<char>, x2: Seq<char>, y2: Seq<char>)
    requires
        x1 + y1 == x2 + y2,
        x1.len() == x2.len(),
    ensures
        x1 == x2,
        y1 == y2,
{
    let s = x1 + y1;
    assert forall|k: int| 0 <= k < x1.len() implies x1[k] == x2[k] by {
        assert((x1 + y1)[k] == x1[k]);
        assert((x2 + y2)[k] == x2[k]);
    }
    assert(x1 =~= x2);
    assert((x1 + y1).len() == x1.len() + y1.len());
    assert((x2 + y2).len() == x2.len() + y2.len());
    assert(y1.len() == y2.len());
    assert forall|k: int| 0 <= k < y1.len() implies y1[k] == y2[k] by {
        assert((x1 + y1)[x1.len() + k] == y1[k]);
        assert((x2 + y2)[x2.len() + k] == y2[k]);
    }
    assert(y1 =~= y2);
}

/// A canonical decimal followed by a non-digit reads off uniquely.
proof fn lemma_dec_prefix(m: nat, n: nat, r1: Seq<char>, r2: Seq<char>)
    requires
        dec_of(m) + r1 == dec_of(n) + r2,
        r1.len() == 0 || !is_digit(r1[0]),
        r2.len() == 0 || !is_digit(r2[0]),
    ensures
        m == n,
        r1 == r2,
{
    lemma_dec_of_form(m);
    lemma_dec_of_form(n);
    let a = dec_of(m);
    let b = dec_of(n);
    let s = a + r1;
    if a.len() < b.len() {
        assert(s.len() == b.len() + r2.len());
        assert(r1.len() >= 1);
        assert(s[a.len() as int] == r1[0]);
        assert((b + r2)[a.len() as int] == b[a.len() as int]);
        assert(is_digit(b[a.len() as int]));
        assert(false);
    } else if b.len() < a.len() {
        assert(r2.len() >= 1);
        assert((b + r2)[b.len() as int] == r2[0]);
        assert(s[b.len() as int] == a[b.len() as int]);
        assert(is_digit(a[b.len() as int]));
        assert(false);
    } else {
        lemma_concat_split(a, r1, b, r2);
        assert(val_of(a) == val_of(b));
    }
}

/// A token form followed by anything reads off uniquely.
proof fn lemma_tok_prefix(t1: Option<Seq<char>>, t2: Option<Seq<char>>, r1: Seq<char>, r2: Seq<
    char,
>)
    requires
        enc_tok(t1) + r1 == enc_tok(t2) + r2,
    ensures
        t1 == t2,
        r1 == r2,
{
    lemma_marks_not_digits();
    match (t1, t2) {
        (None, None) => {
            lemma_concat_split(enc_tok(t1), r1, enc_tok(t2), r2);
        },
        (None, Some(s2)) => {
            assert((enc_tok(t1) + r1)[0] == '~');
            assert((enc_tok(t2) + r2)[0] == (seq!['#'] + dec_of(s2.len()) + seq![':'] + s2)[0]);
            assert(false);
        },
        (Some(s1), None) => {
            assert((enc_tok(t1) + r1)[0] == (seq!['#'] + dec_of(s1.len()) + seq![':'] + s1)[0]);
            assert((enc_tok(t2) + r2)[0] == '~');
            assert(false);
        },
        (Some(s1), Some(s2)) => {
            lemma_dec_of_form(s1.len());
            lemma_dec_of_form(s2.len());
            let a1 = dec_of(s1.len()) + (seq![':'] + (s1 + r1));
            let a2 = dec_of(s2.len()) + (seq![':'] + (s2 + r2));
            assert(seq!['#'] + a1 =~= enc_tok(t1) + r1);
            assert(seq!['#'] + a2 =~= enc_tok(t2) + r2);
            lemma_concat_split(seq!['#'], a1, seq!['#'], a2);
            assert((seq![':'] + (s1 + r1))[0] == ':');
            assert((seq![':'] + (s2 + r2))[0] == ':');
            lemma_dec_prefix(s1.len(), s2.len(), seq![':'] + (s1 + r1), seq![':'] + (s2 + r2));
            lemma_concat_split(seq![':'], s1 + r1, seq![':'], s2 + r2);
            lemma_concat_split(s1, r1, s2, r2);
        },
    }
}

/// A pair form followed by a non-digit reads off uniquely.
#[verifier::rlimit(30)]
proof fn lemma_pair_prefix(p1: (Option<Seq<char>>, u64), p2: (Option<Seq<char>>, u64), r1: Seq<
    char,
>, r2: Seq<char>)
    requires
        enc_pair(p1) + r1 == enc_pair(p2) + r2,
        r1.len() == 0 || !is_digit(r1[0]),
        r2.len() == 0 || !is_digit(r2[0]),
    ensures
        p1 == p2,
        r1 == r2,
{
    lemma_marks_not_digits();
    let b1 = seq![':'] + (dec_of(p1.1 as nat) + r1);
    let b2 = seq![':'] + (dec_of(p2.1 as nat) + r2);
    assert(enc_tok(p1.0) + b1 =~= enc_pair(p1) + r1);
    assert(enc_tok(p2.0) + b2 =~= enc_pair(p2) + r2);
    lemma_tok_prefix(p1.0, p2.0, b1, b2);
    lemma_concat_split(seq![':'], dec_of(p1.1 as nat) + r1, seq![':'], dec_of(p2.1 as nat) + r2);
    lemma_dec_prefix(p1.1 as nat, p2.1 as nat, r1, r2);
    assert(p1 == p2);
}

proof fn lemma_enc_pair_first(p: (Option<Seq<char>>, u64))
    ensures
        enc_pair(p).len() >= 1,
        enc_pair(p)[0] == '~' || enc_pair(p)[0] == '#',
{
    lemma_dec_of_form(p.1 as nat);
    match p.0 {
        None => {
            assert(enc_pair(p)[0] == enc_tok(p.0)[0]);
        },
        Some(s) => {
            lemma_dec_of_form(s.len());
            assert(enc_pair(p)[0] == enc_tok(p.0)[0]);
        },
    }
}

/// A distribution form closed by `)` reads off uniquely.
proof fn lemma_dist_prefix(d1: DistV, d2: DistV, r1: Seq<char>, r2: Seq<char>)
    requires
        enc_dist(d1) + (seq![')'] + r1) == enc_dist(d2) + (seq![')'] + r2),
    ensures
        d1 == d2,
        r1 == r2,
    decreases d1.len(),
{
    lemma_marks_not_digits();
    if d1.len() == 0 && d2.len() == 0 {
        lemma_concat_split(enc_dist(d1), seq![')'] + r1, enc_dist(d2), seq![')'] + r2);
        lemma_concat_split(seq![')'], r1, seq![')'], r2);
    } else if d1.len() == 0 {
        lemma_enc_pair_first(d2[0]);
        assert((enc_dist(d1) + (seq![')'] + r1))[0] == ')');
        assert((enc_dist(d2) + (seq![')'] + r2))[0] == enc_pair(d2[0])[0]);
        assert(false);
    } else if d2.len() == 0 {
        lemma_enc_pair_first(d1[0]);
        assert((enc_dist(d2) + (seq![')'] + r2))[0] == ')');
        assert((enc_dist(d1) + (seq![')'] + r1))[0] == enc_pair(d1[0])[0]);
        assert(false);
    } else {
        let t1 = enc_dist(d1.drop_first()) + (seq![')'] + r1);
        let t2 = enc_dist(d2.drop_first()) + (seq![')'] + r2);
        assert(enc_pair(d1[0]) + t1 =~= enc_dist(d1) + (seq![')'] + r1));
        assert(enc_pair(d2[0]) + t2 =~= enc_dist(d2) + (seq![')'] + r2));
        if d1.drop_first().len() == 0 {
            assert(t1[0] == ')');
        } else {
            lemma_enc_pair_first(d1.drop_first()[0]);
            assert(t1[0] == enc_pair(d1.drop_first()[0])[0]);
        }
        if d2.drop_first().len() == 0 {
            assert(t2[0] == ')');
        } else {
            lemma_enc_pair_first(d2.drop_first()[0]);
            assert(t2[0] == enc_pair(d2.drop_first()[0])[0]);
        }
        lemma_pair_prefix(d1[0], d2[0], t1, t2);
        lemma_dist_prefix(d1.drop_first(), d2.drop_first(), r1, r2);
        assert forall|k: int| 0 <= k < d1.len() implies d1[k] == d2[k] by {
            if k > 0 {
                assert(d1[k] == d1.drop_first()[k - 1]);
                assert(d2[k] == d2.drop_first()[k - 1]);
            }
        }
        assert(d1 =~= d2);
    }
}

/// A record form followed by anything reads off uniquely.
proof fn lemma_rec_prefix(e1: (Option<Seq<char>>, DistV), e2: (Option<Seq<char>>, DistV), r1: Seq<
    char,
>, r2: Seq<char>)
    requires
        enc_rec(e1) + r1 == enc_rec(e2) + r2,
    ensures
        e1 == e2,
        r1 == r2,
{
    let b1 = enc_tok(e1.0) + (enc_dist(e1.1) + (seq![')'] + r1));
    let b2 = enc_tok(e2.0) + (enc_dist(e2.1) + (seq![')'] + r2));
    assert(seq!['('] + b1 =~= enc_rec(e1) + r1);
    assert(seq!['('] + b2 =~= enc_rec(e2) + r2);
    lemma_concat_split(seq!['('], b1, seq!['('], b2);
    lemma_tok_prefix(
        e1.0,
        e2.0,
        enc_dist(e1.1) + (seq![')'] + r1),
        enc_dist(e2.1) + (seq![')'] + r2),
    );
    lemma_dist_prefix(e1.1, e2.1, r1, r2);
    assert(e1 == e2);
}

proof fn lemma_enc_rec_len(e: (Option<Seq<char>>, DistV))
    ensures
        enc_rec(e).len() >= 2,
        enc_rec(e)[0] == '(',
{
}

proof fn lemma_enc_dist_snoc(d: DistV, p: (Option<Seq<char>>, u64))
    ensures
        enc_dist(d.push(p)) == enc_dist(d) + enc_pair(p),
    decreases d.len(),
{
    if d.len() == 0 {
        assert(d.push(p)[0] == p);
        assert(d.push(p).drop_first() =~= Seq::<(Option<Seq<char>>, u64)>::empty());
        assert(enc_dist(Seq::<(Option<Seq<char>>, u64)>::empty()) == Seq::<char>::empty());
        assert(enc_dist(d.push(p)) =~= enc_dist(d) + enc_pair(p));
    } else {
        lemma_enc_dist_snoc(d.drop_first(), p);
        assert(d.push(p).drop_first() =~= d.drop_first().push(p));
        assert(enc_dist(d.push(p)) =~= enc_dist(d) + enc_pair(p));
    }
}

proof fn lemma_enc_table_snoc(v: TableV, e: (Option<Seq<char>>, DistV))
    ensures
        enc_table(v.push(e)) == enc_table(v) + enc_rec(e),
    decreases v.len(),
{
    if v.len() == 0 {
        assert(v.push(e)[0] == e);
        assert(v.push(e).drop_first() =~= Seq::<(Option<Seq<char>>, DistV)>::empty());
        assert(enc_table(Seq::<(Option<Seq<char>>, DistV)>::empty()) == Seq::<char>::empty());
        assert(enc_table(v.push(e)) =~= enc_table(v) + enc_rec(e));
    } else {
        lemma_enc_table_snoc(v.drop_first(), e);
        assert(v.push(e).drop_first() =~= v.drop_first().push(e));
        assert(enc_table(v.push(e)) =~= enc_table(v) + enc_rec(e));
    }
}

pub(crate) fn encode_u64(n: u64, out: &mut Vec<char>)
    ensures
        final(out)@ == old(out)@ + dec_of(n as nat),
    decreases n,
{
    if n < 10 {
        let c = (48 + n as u8) as char;
        proof {
            lemma_digit_char_val(n as nat);
            assert(c == digit_char(n as nat));
        }
        out.push(c);
        proof {
            assert(out@ =~= old(out)@ + dec_of(n as nat));
        }
    } else {
        encode_u64(n / 10, out);
        let c = (48 + (n % 10) as u8) as char;
        proof {
            lemma_digit_char_val((n % 10) as nat);
            assert(c == digit_char((n % 10) as nat));
        }
        out.push(c);
        proof {
            assert((n / 10) as nat == n as nat / 10);
            assert((n % 10) as nat == n as nat % 10);
            assert(out@ =~= old(out)@ + dec_of(n as nat));
        }
    }
}

fn encode_tok(t: &Option<String>, out: &mut Vec<char>)
    ensures
        final(out)@ == old(out)@ + enc_tok(tok_view(t)),
{
    match t {
        None => {
            out.push('~');
            proof {
                assert(out@ =~= old(out)@ + enc_tok(tok_view(t)));
            }
        },
        Some(s) => {
            out.push('#');
            let len = s.as_str().unicode_len();
            encode_u64(len as u64, out);
            out.push(':');
            let mut sc = str_to_chars(s.as_str());
            out.append(&mut sc);
            proof {
                assert((len as u64) as nat == s@.len());
                assert(out@ =~= old(out)@ + enc_tok(tok_view(t)));
            }
        },
    }
}

/// Writes the text form of a table, record by record.
pub fn encode_table(t: &Vec<(Option<String>, Vec<(Option<String>, u64)>)>, out: &mut Vec<char>)
    ensures
        final(out)@ == old(out)@ + enc_table(table_view(*t)),
{
    let ghost tv = table_view(*t);
    let mut i: usize = 0;
    proof {
        assert(tv.take(0) =~= Seq::empty());
        assert(out@ =~= old(out)@ + enc_table(tv.take(0)));
    }
    while i < t.len()
        invariant
            i <= t.len(),
            tv == table_view(*t),
            out@ == old(out)@ + enc_table(tv.take(i as int)),
        decreases t.len() - i,
    {
        proof {
            assert(tv[i as int]
                == (tok_view(&t@[i as int].0), dist_view(t@[i as int].1)));
        }
        out.push('(');
        encode_tok(&t[i].0, out);
        let d = &t[i].1;
        let ghost dv = dist_view(*d);
        let mut j: usize = 0;
        proof {
            assert(dv.take(0) =~= Seq::empty());
        }
        let ghost out_rec = out@;
        while j < d.len()
            invariant
                j <= d.len(),
                dv == dist_view(*d),
                out@ == out_rec + enc_dist(dv.take(j as int)),
            decreases d.len() - j,
        {
            proof {
                assert(dv[j as int] == (tok_view(&d@[j as int].0), d@[j as int].1));
            }
            encode_tok(&d[j].0, out);
            out.push(':');
            encode_u64(d[j].1, out);
            proof {
                assert(dv.take(j + 1 as int) =~= dv.take(j as int).push(dv[j as int]));
                lemma_enc_dist_snoc(dv.take(j as int), dv[j as int]);
                assert(enc_pair(dv[j as int]) =~= enc_tok(dv[j as int].0) + seq![':'] + dec_of(
                    dv[j as int].1 as nat,
                ));
                assert(out@ =~= out_rec + enc_dist(dv.take(j + 1 as int)));
            }
            j += 1;
        }
        proof {
            assert(dv.take(d@.len() as int) =~= dv);
        }
        out.push(')');
        proof {
            assert(tv.take(i + 1 as int) =~= tv.take(i as int).push(tv[i as int]));
            lemma_enc_table_snoc(tv.take(i as int), tv[i as int]);
            assert(enc_rec(tv[i as int]) =~= seq!['('] + enc_tok(tv[i as int].0) + enc_dist(
                tv[i as int].1,
            ) + seq![')']);
            assert(out@ =~= old(out)@ + enc_table(tv.take(i + 1 as int)));
        }
        i += 1;
    }
    proof {
        assert(tv.take(t@.len() as int) =~= tv);
    }
}

/// The canonical decimal of `m` sits at `pos`, followed by a non-digit or
/// the end of the text.
pub open spec fn num_at(s: Seq<char>, pos: int, m: nat) -> bool {
    let e = pos + dec_of(m).len();
    &&& 0 <= pos
    &&& e <= s.len()
    &&& s.subrange(pos, e) == dec_of(m)
    &&& (e == s.len() || !is_digit(s[e]))
}

proof fn lemma_val_take_step(d: Seq<char>, k: int)
    requires
        0 <= k < d.len(),
    ensures
        val_of(d.take(k + 1)) == val_of(d.take(k)) * 10 + digit_val(d[k]),
{
    assert(d.take(k + 1).drop_last() =~= d.take(k));
    assert(d.take(k + 1).last() == d[k]);
}

proof fn lemma_val_prefix(d: Seq<char>, k: int)
    requires
        0 <= k <= d.len(),
    ensures
        val_of(d.take(k)) <= val_of(d),
    decreases d.len() - k,
{
    if k == d.len() {
        assert(d.take(k) =~= d);
    } else {
        lemma_val_take_step(d, k);
        assert(val_of(d.take(k)) * 10 >= val_of(d.take(k))) by (nonlinear_arith);
        lemma_val_prefix(d, k + 1);
    }
}

/// A parsed canonical number pins down any number claimed at the same spot.
proof fn lemma_num_unique(s: Seq<char>, pos: int, n: nat, j: int, m: nat)
    requires
        0 <= pos <= j <= s.len(),
        s.subrange(pos, j) == dec_of(n),
        j == s.len() || !is_digit(s[j]),
        num_at(s, pos, m),
    ensures
        m == n,
        pos + dec_of(m).len() == j,
{
    lemma_dec_of_form(n);
    lemma_dec_of_form(m);
    let e = pos + dec_of(m).len() as int;
    if e < j {
        assert(s[e] == s.subrange(pos, j)[e - pos]);
        assert(is_digit(s[e]));
        assert(false);
    } else if j < e {
        assert(s[j] == s.subrange(pos, e)[j - pos]);
        assert(is_digit(s[j]));
        assert(false);
    } else {
        assert(dec_of(m) == dec_of(n));
        assert(val_of(dec_of(m)) == val_of(dec_of(n)));
    }
}

proof fn lemma_mul_overflow(n: u64, d: u64)
    requires
        d < 10,
        n > u64::MAX / 10 || (n == u64::MAX / 10 && d > u64::MAX % 10),
    ensures
        n as nat * 10 + d as nat > u64::MAX,
{
    assert(u64::MAX / 10 == 1844674407370955161u64);
    assert(u64::MAX % 10 == 5u64);
}

fn is_digit_exec(c: char) -> (r: bool)
    ensures
        r == is_digit(c),
{
    let u = c as u32;
    48 <= u && u <= 57
}

/// Reads a canonical decimal number at `pos`: exactly the digit run there,
/// refused when empty, padded with a leading zero, or too large for `u64`.
fn parse_num(cs: &Vec<char>, pos: usize) -> (r: Option<(u64, usize)>)
    requires
        pos <= cs@.len(),
    ensures
        match r {
            Some((n, j)) => pos < j <= cs@.len() && cs@.subrange(pos as int, j as int) == dec_of(
                n as nat,
            ) && (j == cs@.len() || !is_digit(cs@[j as int])),
            None => forall|m: u64| !(#[trigger] num_at(cs@, pos as int, m as nat)),
        },
{
    let len = cs.len();
    if pos >= len || !is_digit_exec(cs[pos]) {
        proof {
            assert forall|m: u64| !(#[trigger] num_at(cs@, pos as int, m as nat)) by {
                if num_at(cs@, pos as int, m as nat) {
                    lemma_dec_of_form(m as nat);
                    assert(cs@[pos as int] == cs@.subrange(
                        pos as int,
                        pos + dec_of(m as nat).len(),
                    )[0]);
                    assert(is_digit(cs@[pos as int]));
                }
            }
        }
        return None;
    }
    if cs[pos] == '0' {
        if pos + 1 < len && is_digit_exec(cs[pos + 1]) {
            proof {
                assert forall|m: u64| !(#[trigger] num_at(cs@, pos as int, m as nat)) by {
                    if num_at(cs@, pos as int, m as nat) {
                        lemma_dec_of_form(m as nat);
                        assert(cs@[pos as int] == cs@.subrange(
                            pos as int,
                            pos + dec_of(m as nat).len(),
                        )[0]);
                        assert(cs@[pos as int] == '0');
                        assert(m as nat == 0);
                        assert(dec_of(0).len() == 1);
                        assert(!is_digit(cs@[pos + 1 as int]));
                    }
                }
            }
            return None;
        }
        proof {
            lemma_dec_of_form(0);
            lemma_digit_char_val(0);
            assert(cs@.subrange(pos as int, pos + 1 as int) =~= dec_of(0));
        }
        return Some((0, pos + 1));
    }
    let mut j = pos + 1;
    let u0 = cs[pos] as u32;
    let mut n: u64 = (u0 - 48) as u64;
    proof {
        assert(cs@.subrange(pos as int, pos + 1 as int) =~= seq![cs@[pos as int]]);
        let d1 = cs@.subrange(pos as int, pos + 1 as int);
        assert(d1.drop_last() =~= Seq::<char>::empty());
        assert(val_of(Seq::<char>::empty()) == 0);
        assert(val_of(d1) == digit_val(cs@[pos as int]));
        assert(canon(d1));
    }
    while j < len && is_digit_exec(cs[j])
        invariant
            pos < j <= len,
            len == cs@.len(),
            pos < len,
            canon(cs@.subrange(pos as int, j as int)),
            n as nat == val_of(cs@.subrange(pos as int, j as int)),
            is_digit(cs@[pos as int]),
            cs@[pos as int] != '0',
        decreases len - j,
    {
        let d = (cs[j] as u32 - 48) as u64;
        proof {
            assert(is_digit(cs@[j as int]));
            assert(d as nat == digit_val(cs@[j as int]));
        }
        if n > u64::MAX / 10 || (n == u64::MAX / 10 && d > u64::MAX % 10) {
            proof {
                lemma_mul_overflow(n, d);
                assert forall|m: u64| !(#[trigger] num_at(cs@, pos as int, m as nat)) by {
                    if num_at(cs@, pos as int, m as nat) {
                        lemma_dec_of_form(m as nat);
                        let dm = dec_of(m as nat);
                        let e = pos + dm.len() as int;
                        assert(e > j) by {
                            if e <= j {
                                assert(cs@[e as int] == cs@.subrange(pos as int, j as int)[e
                                    - pos]);
                                assert(is_digit(cs@[e as int]));
                            }
                        }
                        assert(cs@.subrange(pos as int, j + 1 as int) =~= dm.take(
                            j + 1 - pos as int,
                        )) by {
                            assert(forall|k: int|
                                0 <= k < j + 1 - pos ==> cs@.subrange(pos as int, j + 1 as int)[k]
                                    == #[trigger] dm[k]);
                        }
                        lemma_val_prefix(dm, j + 1 - pos as int);
                        assert(cs@.subrange(pos as int, j + 1 as int).drop_last() =~= cs@.subrange(
                            pos as int,
                            j as int,
                        ));
                        assert(cs@.subrange(pos as int, j + 1 as int).last() == cs@[j as int]);
                        assert(val_of(cs@.subrange(pos as int, j + 1 as int)) == n as nat * 10
                            + d as nat);
                        assert(val_of(dm) == m as nat);
                        assert(m as nat <= u64::MAX);
                        assert(false);
                    }
                }
            }
            return None;
        }
        n = n * 10 + d;
        j += 1;
        proof {
            assert(cs@.subrange(pos as int, j as int).drop_last() =~= cs@.subrange(
                pos as int,
                j - 1 as int,
            ));
            assert(cs@.subrange(pos as int, j as int).last() == cs@[j - 1 as int]);
            assert(cs@.subrange(pos as int, j as int)[0] == cs@[pos as int]);
            assert forall|k: int|
                0 <= k < j - pos implies is_digit(#[trigger] cs@.subrange(pos as int, j as int)[k])
                by {
                if k < j - 1 - pos {
                    assert(cs@.subrange(pos as int, j as int)[k] == cs@.subrange(
                        pos as int,
                        j - 1 as int,
                    )[k]);
                } else {
                    assert(cs@.subrange(pos as int, j as int)[k] == cs@[j - 1 as int]);
                }
            }
        }
    }
    proof {
        lemma_canon_unique(cs@.subrange(pos as int, j as int));
    }
    Some((n, j))
}

/// The form of token `t` sits at `pos`.
pub open spec fn tok_at(s: Seq<char>, pos: int, t: Option<Seq<char>>) -> bool {
    let e = pos + enc_tok(t).len();
    0 <= pos && e <= s.len() && s.subrange(pos, e) == enc_tok(t)
}

/// A parsed token form pins down any token claimed at the same spot.
proof fn lemma_tok_unique(
    s: Seq<char>,
    pos: int,
    t1: Option<Seq<char>>,
    j: int,
    t2: Option<Seq<char>>,
)
    requires
        0 <= pos <= j <= s.len(),
        s.subrange(pos, j) == enc_tok(t1),
        tok_at(s, pos, t2),
    ensures
        t1 == t2,
        pos + enc_tok(t2).len() == j,
{
    let n = s.len() as int;
    let e = pos + enc_tok(t2).len() as int;
    assert(enc_tok(t1) + s.subrange(j, n) =~= s.subrange(pos, n));
    assert(enc_tok(t2) + s.subrange(e, n) =~= s.subrange(pos, n));
    lemma_tok_prefix(t1, t2, s.subrange(j, n), s.subrange(e, n));
}

/// Reads a token form at `pos`: the sentinel mark, or a length-prefixed
/// string.
fn parse_tok(cs: &Vec<char>, pos: usize) -> (r: Option<(Option<String>, usize)>)
    requires
        pos <= cs@.len(),
    ensures
        match r {
            Some((t, j)) => pos < j <= cs@.len() && cs@.subrange(pos as int, j as int) == enc_tok(
                tok_view(&t),
            ),
            None => forall|t: Option<Seq<char>>| !(#[trigger] tok_at(cs@, pos as int, t)),
        },
{
    let len = cs.len();
    proof {
        lemma_marks_not_digits();
    }
    if pos >= len {
        proof {
            assert forall|t: Option<Seq<char>>| !(#[trigger] tok_at(cs@, pos as int, t)) by {
                if tok_at(cs@, pos as int, t) {
                    match t {
                        None => {
                            assert(enc_tok(t).len() == 1);
                        },
                        Some(s2) => {
                            lemma_dec_of_form(s2.len());
                            assert(enc_tok(t).len() >= 1);
                        },
                    }
                }
            }
        }
        return None;
    }
    let c = cs[pos];
    if c == '~' {
        proof {
            assert(cs@.subrange(pos as int, pos + 1 as int) =~= enc_tok(
                tok_view(&None::<String>),
            ));
        }
        return Some((None, pos + 1));
    }
    if c != '#' {
        proof {
            assert forall|t: Option<Seq<char>>| !(#[trigger] tok_at(cs@, pos as int, t)) by {
                if tok_at(cs@, pos as int, t) {
                    let e = pos + enc_tok(t).len() as int;
                    assert(cs@[pos as int] == cs@.subrange(pos as int, e)[0]);
                    match t {
                        None => {
                            assert(enc_tok(t)[0] == '~');
                        },
                        Some(s2) => {
                            lemma_dec_of_form(s2.len());
                            assert(enc_tok(t)[0] == '#');
                        },
                    }
                }
            }
        }
        return None;
    }
    let ghost gt: Option<Seq<char>> = if exists|t: Option<Seq<char>>|
        tok_at(cs@, pos as int, t) {
        choose|t: Option<Seq<char>>| tok_at(cs@, pos as int, t)
    } else {
        None
    };
    proof {
        if tok_at(cs@, pos as int, gt) && gt is Some {
            let s2 = gt->0;
            lemma_dec_of_form(s2.len());
            let e = pos + enc_tok(gt).len() as int;
            let body = cs@.subrange(pos as int, e);
            assert(body =~= seq!['#'] + dec_of(s2.len()) + seq![':'] + s2);
            assert forall|k: int| 0 <= k < dec_of(s2.len()).len() implies cs@.subrange(
                pos + 1 as int,
                pos + 1 + dec_of(s2.len()).len() as int,
            )[k] == dec_of(s2.len())[k] by {
                assert(cs@[pos + 1 + k] == body[1 + k]);
                assert(body[1 + k] == dec_of(s2.len())[k]);
            }
            assert(cs@.subrange(pos + 1 as int, pos + 1 + dec_of(s2.len()).len() as int)
                =~= dec_of(s2.len()));
            assert(cs@[pos + 1 + dec_of(s2.len()).len() as int] == body[1 + dec_of(s2.len()).len() as int]);
            assert(body[1 + dec_of(s2.len()).len() as int] == ':');
            assert(s2.len() <= u64::MAX) by {
                assert(pos + enc_tok(gt).len() <= cs@.len());
                assert(cs@.len() == len as nat);
                assert(len as nat <= u64::MAX);
            }
        }
    }
    match parse_num(cs, pos + 1) {
        None => {
            proof {
                assert forall|t: Option<Seq<char>>| !(#[trigger] tok_at(cs@, pos as int, t)) by {
                    if tok_at(cs@, pos as int, t) {
                        lemma_tok_at_unique_hyp(cs@, pos as int, t, gt);
                        assert(t == gt);
                        assert(gt is Some) by {
                            if gt is None {
                                assert(enc_tok(gt)[0] == '~');
                                assert(cs@[pos as int] == cs@.subrange(
                                    pos as int,
                                    pos + 1 as int,
                                )[0]);
                            }
                        }
                        let s2 = gt->0;
                        assert(s2.len() <= u64::MAX);
                        let m64 = s2.len() as u64;
                        assert(m64 as nat == s2.len());
                        assert(num_at(cs@, pos + 1 as int, m64 as nat));
                        assert(false);
                    }
                }
            }
            return None;
        },
        Some((n, j)) => {
            if j >= len || cs[j] != ':' {
                proof {
                    assert forall|t: Option<Seq<char>>|
                        !(#[trigger] tok_at(cs@, pos as int, t)) by {
                        if tok_at(cs@, pos as int, t) {
                            lemma_tok_at_unique_hyp(cs@, pos as int, t, gt);
                            assert(gt is Some) by {
                                if gt is None {
                                    assert(enc_tok(gt)[0] == '~');
                                    assert(cs@[pos as int] == cs@.subrange(
                                        pos as int,
                                        pos + 1 as int,
                                    )[0]);
                                }
                            }
                            let s2 = gt->0;
                            lemma_num_unique(
                                cs@,
                                pos + 1 as int,
                                n as nat,
                                j as int,
                                s2.len(),
                            );
                            assert(cs@[j as int] == ':');
                            assert(false);
                        }
                    }
                }
                return None;
            }
            let have = len - (j + 1);
            if (have as u64) < n {
                proof {
                    assert forall|t: Option<Seq<char>>|
                        !(#[trigger] tok_at(cs@, pos as int, t)) by {
                        if tok_at(cs@, pos as int, t) {
                            lemma_tok_at_unique_hyp(cs@, pos as int, t, gt);
                            assert(gt is Some) by {
                                if gt is None {
                                    assert(enc_tok(gt)[0] == '~');
                                    assert(cs@[pos as int] == cs@.subrange(
                                        pos as int,
                                        pos + 1 as int,
                                    )[0]);
                                }
                            }
                            let s2 = gt->0;
                            lemma_num_unique(
                                cs@,
                                pos + 1 as int,
                                n as nat,
                                j as int,
                                s2.len(),
                            );
                            assert(pos + enc_tok(gt).len() <= cs@.len());
                            assert(false);
                        }
                    }
                }
                return None;
            }
            let count = n as usize;
            let mut v: Vec<char> = Vec::new();
            let mut k: usize = 0;
            while k < count
                invariant
                    k <= count,
                    count <= cs@.len() - (j + 1),
                    j + 1 + count <= cs@.len(),
                    j + 1 + count <= usize::MAX,
                    v@ == cs@.subrange(j + 1 as int, j + 1 + k as int),
                decreases count - k,
            {
                v.push(cs[j + 1 + k]);
                proof {
                    assert(v@ =~= cs@.subrange(j + 1 as int, j + 1 + (k + 1) as int));
                }
                k += 1;
            }
            let ghost sv = v@;
            let t = crate::chars_to_string(v);
            let end = j + 1 + count;
            proof {
                assert(t@ == sv);
                assert(sv.len() == n as nat);
                assert(cs@.subrange(pos as int, end as int) =~= seq!['#'] + dec_of(n as nat)
                    + seq![':'] + sv) by {
                    assert(cs@.subrange(pos + 1 as int, j as int) == dec_of(n as nat));
                    assert(forall|x: int|
                        pos + 1 <= x < j ==> cs@[x] == #[trigger] dec_of(n as nat)[x - pos - 1]);
                    assert(forall|x: int|
                        j + 1 <= x < end ==> cs@[x] == #[trigger] sv[x - j - 1]);
                }
                assert(enc_tok(tok_view(&Some(t))) == seq!['#'] + dec_of(t@.len()) + seq![':']
                    + t@);
            }
            return Some((Some(t), end));
        },
    }
}

/// Two tokens claimed at the same spot are the same token.
proof fn lemma_tok_at_unique_hyp(
    s: Seq<char>,
    pos: int,
    t1: Option<Seq<char>>,
    gt: Option<Seq<char>>,
)
    requires
        tok_at(s, pos, t1),
        tok_at(s, pos, gt) || gt == (choose|t: Option<Seq<char>>| tok_at(s, pos, t)),
    ensures
        t1 == gt,
        tok_at(s, pos, gt),
{
    let g = if tok_at(s, pos, gt) {
        gt
    } else {
        choose|t: Option<Seq<char>>| tok_at(s, pos, t)
    };
    assert(tok_at(s, pos, g));
    let e1 = pos + enc_tok(t1).len() as int;
    lemma_tok_unique(s, pos, t1, e1, g);
    assert(t1 == g);
    assert(g == gt);
}

/// The form of pair `p` sits at `pos`, followed by a non-digit or the end.
pub open spec fn pair_at(s: Seq<char>, pos: int, p: (Option<Seq<char>>, u64)) -> bool {
    let e = pos + enc_pair(p).len();
    &&& 0 <= pos
    &&& e <= s.len()
    &&& s.subrange(pos, e) == enc_pair(p)
    &&& (e == s.len() || !is_digit(s[e]))
}

/// Reads one distribution entry at `pos`: token, separator, positive count.
fn parse_pair(cs: &Vec<char>, pos: usize) -> (r: Option<((Option<String>, u64), usize)>)
    requires
        pos <= cs@.len(),
    ensures
        match r {
            Some((p, j)) => pos < j <= cs@.len() && cs@.subrange(pos as int, j as int) == enc_pair(
                (tok_view(&p.0), p.1),
            ) && p.1 >= 1 && (j == cs@.len() || !is_digit(cs@[j as int])),
            None => forall|p: (Option<Seq<char>>, u64)|
                p.1 >= 1 ==> !(#[trigger] pair_at(cs@, pos as int, p)),
        },
{
    let len = cs.len();
    proof {
        lemma_marks_not_digits();
    }
    let ghost hyp = exists|p: (Option<Seq<char>>, u64)| pair_at(cs@, pos as int, p);
    let ghost gp: (Option<Seq<char>>, u64) = if hyp {
        choose|p: (Option<Seq<char>>, u64)| pair_at(cs@, pos as int, p)
    } else {
        (None, 0u64)
    };
    proof {
        if hyp {
            let e = pos + enc_pair(gp).len() as int;
            let tl = enc_tok(gp.0).len() as int;
            let dl = dec_of(gp.1 as nat).len() as int;
            assert(e == pos + tl + 1 + dl);
            assert(cs@.subrange(pos as int, e) =~= cs@.subrange(pos as int, pos + tl)
                + cs@.subrange(pos + tl, e));
            assert(enc_pair(gp) =~= enc_tok(gp.0) + (seq![':'] + dec_of(gp.1 as nat)));
            lemma_concat_split(
                cs@.subrange(pos as int, pos + tl),
                cs@.subrange(pos + tl, e),
                enc_tok(gp.0),
                seq![':'] + dec_of(gp.1 as nat),
            );
            assert(tok_at(cs@, pos as int, gp.0));
            assert(cs@.subrange(pos + tl, e) =~= cs@.subrange(pos + tl, pos + tl + 1)
                + cs@.subrange(pos + tl + 1, e));
            lemma_concat_split(
                cs@.subrange(pos + tl, pos + tl + 1),
                cs@.subrange(pos + tl + 1, e),
                seq![':'],
                dec_of(gp.1 as nat),
            );
            assert(cs@[pos + tl] == cs@.subrange(pos + tl, pos + tl + 1)[0]);
            assert(num_at(cs@, pos + tl + 1, gp.1 as nat));
        }
    }
    match parse_tok(cs, pos) {
        None => {
            proof {
                assert forall|p: (Option<Seq<char>>, u64)|
                    p.1 >= 1 implies !(#[trigger] pair_at(cs@, pos as int, p)) by {
                    if pair_at(cs@, pos as int, p) {
                        let e = pos + enc_pair(p).len() as int;
                        let body = cs@.subrange(pos as int, e);
                        assert(body =~= enc_tok(p.0) + seq![':'] + dec_of(p.1 as nat));
                        let tl = enc_tok(p.0).len() as int;
                        assert(cs@.subrange(pos as int, pos + tl) =~= enc_tok(p.0)) by {
                            assert(forall|k: int|
                                0 <= k < tl ==> cs@.subrange(pos as int, pos + tl)[k]
                                    == #[trigger] body[k]);
                            assert(forall|k: int|
                                0 <= k < tl ==> #[trigger] body[k] == enc_tok(p.0)[k]);
                        }
                        assert(tok_at(cs@, pos as int, p.0));
                        assert(false);
                    }
                }
            }
            None
        },
        Some((t, j1)) => {
            proof {
                if hyp {
                    lemma_tok_unique(cs@, pos as int, tok_view(&t), j1 as int, gp.0);
                }
            }
            if j1 >= len || cs[j1] != ':' {
                proof {
                    assert forall|p: (Option<Seq<char>>, u64)|
                        p.1 >= 1 implies !(#[trigger] pair_at(cs@, pos as int, p)) by {
                        if pair_at(cs@, pos as int, p) {
                            lemma_pair_at_unique_pre(cs@, pos as int, p, gp);
                            assert(cs@[j1 as int] == ':');
                            assert(false);
                        }
                    }
                }
                return None;
            }
            match parse_num(cs, j1 + 1) {
                None => {
                    proof {
                        assert forall|p: (Option<Seq<char>>, u64)|
                            p.1 >= 1 implies !(#[trigger] pair_at(cs@, pos as int, p)) by {
                            if pair_at(cs@, pos as int, p) {
                                lemma_pair_at_unique_pre(cs@, pos as int, p, gp);
                                assert(num_at(cs@, j1 + 1 as int, gp.1 as nat));
                                assert(!num_at(cs@, j1 + 1 as int, gp.1 as nat));
                                assert(false);
                            }
                        }
                    }
                    None
                },
                Some((n, j2)) => {
                    if n == 0 {
                        proof {
                            assert forall|p: (Option<Seq<char>>, u64)|
                                p.1 >= 1 implies !(#[trigger] pair_at(cs@, pos as int, p)) by {
                                if pair_at(cs@, pos as int, p) {
                                    lemma_pair_at_unique_pre(cs@, pos as int, p, gp);
                                    lemma_num_unique(
                                        cs@,
                                        j1 + 1 as int,
                                        n as nat,
                                        j2 as int,
                                        gp.1 as nat,
                                    );
                                    assert(gp.1 == 0);
                                    assert(false);
                                }
                            }
                        }
                        return None;
                    }
                    proof {
                        assert(cs@.subrange(pos as int, j2 as int) =~= enc_tok(tok_view(&t))
                            + seq![':'] + dec_of(n as nat)) by {
                            assert(cs@.subrange(pos as int, j1 as int) == enc_tok(tok_view(&t)));
                            assert(cs@.subrange(j1 + 1 as int, j2 as int) == dec_of(n as nat));
                            assert(forall|x: int|
                                pos <= x < j1 ==> cs@[x] == #[trigger] enc_tok(tok_view(&t))[x
                                    - pos]);
                            assert(forall|x: int|
                                j1 + 1 <= x < j2 ==> cs@[x] == #[trigger] dec_of(n as nat)[x - j1
                                    - 1]);
                        }
                    }
                    Some(((t, n), j2))
                },
            }
        },
    }
}

/// Inside `parse_pair`: any pair claimed at `pos` is the chosen one, and the
/// claim's pieces sit where the parser looks.
proof fn lemma_pair_at_unique_pre(
    s: Seq<char>,
    pos: int,
    p: (Option<Seq<char>>, u64),
    gp: (Option<Seq<char>>, u64),
)
    requires
        pair_at(s, pos, p),
        gp == (choose|q: (Option<Seq<char>>, u64)| pair_at(s, pos, q)),
    ensures
        p == gp,
        pair_at(s, pos, gp),
{
    assert(pair_at(s, pos, gp));
    let e1 = pos + enc_pair(p).len() as int;
    let e2 = pos + enc_pair(gp).len() as int;
    let n = s.len() as int;
    assert(enc_pair(p) + s.subrange(e1, n) =~= s.subrange(pos, n));
    assert(enc_pair(gp) + s.subrange(e2, n) =~= s.subrange(pos, n));
    lemma_marks_not_digits();
    let r1 = s.subrange(e1, n);
    let r2 = s.subrange(e2, n);
    assert(r1.len() == 0 || !is_digit(r1[0])) by {
        if e1 < n {
            assert(r1[0] == s[e1]);
        }
    }
    assert(r2.len() == 0 || !is_digit(r2[0])) by {
        if e2 < n {
            assert(r2[0] == s[e2]);
        }
    }
    lemma_pair_prefix(p, gp, r1, r2);
}

/// Every count in the distribution is positive.
pub open spec fn dist_pos(d: DistV) -> bool {
    forall|i: int| 0 <= i < d.len() ==> (#[trigger] d[i]).1 >= 1
}

/// The form of record `e` sits at `pos`.
pub open spec fn rec_at(s: Seq<char>, pos: int, e: (Option<Seq<char>>, DistV)) -> bool {
    let n = pos + enc_rec(e).len();
    0 <= pos && n <= s.len() && s.subrange(pos, n) == enc_rec(e)
}

proof fn lemma_enc_dist_split(d: DistV, k: int)
    requires
        0 <= k <= d.len(),
    ensures
        enc_dist(d) == enc_dist(d.take(k)) + enc_dist(d.skip(k)),
    decreases k,
{
    if k == 0 {
        assert(d.take(0) =~= Seq::empty());
        assert(d.skip(0) =~= d);
        assert(enc_dist(Seq::<(Option<Seq<char>>, u64)>::empty()) == Seq::<char>::empty());
        assert(enc_dist(d) =~= enc_dist(d.take(0)) + enc_dist(d.skip(0)));
    } else {
        lemma_enc_dist_split(d, k - 1);
        assert(d.take(k) =~= d.take(k - 1).push(d[k - 1]));
        lemma_enc_dist_snoc(d.take(k - 1), d[k - 1]);
        assert(d.skip(k - 1)[0] == d[k - 1]);
        assert(d.skip(k - 1).drop_first() =~= d.skip(k));
        assert(enc_dist(d.skip(k - 1)) == enc_pair(d[k - 1]) + enc_dist(d.skip(k)));
        assert(enc_dist(d) =~= enc_dist(d.take(k)) + enc_dist(d.skip(k)));
    }
}

/// Where the pieces of a claimed record sit: the opening mark, the state
/// token, each pair in turn, and the closing mark.
proof fn lemma_rec_shape(s: Seq<char>, pos: int, ev: (Option<Seq<char>>, DistV), k: int)
    requires
        rec_at(s, pos, ev),
        0 <= k <= ev.1.len(),
    ensures
        pos < s.len() && s[pos] == '(',
        tok_at(s, pos + 1, ev.0),
        ({
            let q = pos + 1 + enc_tok(ev.0).len() + enc_dist(ev.1.take(k)).len();
            &&& (k < ev.1.len() ==> pair_at(s, q, ev.1[k]) && q < s.len() && s[q] != ')')
            &&& (k == ev.1.len() ==> q < s.len() && s[q] == ')')
        }),
{
    lemma_marks_not_digits();
    let e = pos + enc_rec(ev).len() as int;
    let tokl = enc_tok(ev.0).len() as int;
    let hd = enc_dist(ev.1.take(k)).len() as int;
    let q = pos + 1 + tokl + hd;
    lemma_enc_dist_split(ev.1, k);
    assert(s.subrange(pos, e) =~= s.subrange(pos, pos + 1) + s.subrange(pos + 1, e));
    assert(enc_rec(ev) =~= seq!['('] + (enc_tok(ev.0) + (enc_dist(ev.1.take(k)) + (enc_dist(
        ev.1.skip(k),
    ) + seq![')']))));
    lemma_concat_split(
        s.subrange(pos, pos + 1),
        s.subrange(pos + 1, e),
        seq!['('],
        enc_tok(ev.0) + (enc_dist(ev.1.take(k)) + (enc_dist(ev.1.skip(k)) + seq![')'])),
    );
    assert(s[pos] == s.subrange(pos, pos + 1)[0]);
    assert(s.subrange(pos + 1, e) =~= s.subrange(pos + 1, pos + 1 + tokl) + s.subrange(
        pos + 1 + tokl,
        e,
    ));
    lemma_concat_split(
        s.subrange(pos + 1, pos + 1 + tokl),
        s.subrange(pos + 1 + tokl, e),
        enc_tok(ev.0),
        enc_dist(ev.1.take(k)) + (enc_dist(ev.1.skip(k)) + seq![')']),
    );
    assert(tok_at(s, pos + 1, ev.0));
    assert(s.subrange(pos + 1 + tokl, e) =~= s.subrange(pos + 1 + tokl, q) + s.subrange(q, e));
    lemma_concat_split(
        s.subrange(pos + 1 + tokl, q),
        s.subrange(q, e),
        enc_dist(ev.1.take(k)),
        enc_dist(ev.1.skip(k)) + seq![')'],
    );
    if k < ev.1.len() {
        assert(ev.1.skip(k)[0] == ev.1[k]);
        assert(ev.1.skip(k).drop_first() =~= ev.1.skip(k + 1));
        assert(enc_dist(ev.1.skip(k)) == enc_pair(ev.1[k]) + enc_dist(ev.1.skip(k + 1)));
        let pl = enc_pair(ev.1[k]).len() as int;
        assert(s.subrange(q, e) =~= s.subrange(q, q + pl) + s.subrange(q + pl, e));
        assert(enc_dist(ev.1.skip(k)) + seq![')'] =~= enc_pair(ev.1[k]) + (enc_dist(
            ev.1.skip(k + 1),
        ) + seq![')']));
        lemma_concat_split(
            s.subrange(q, q + pl),
            s.subrange(q + pl, e),
            enc_pair(ev.1[k]),
            enc_dist(ev.1.skip(k + 1)) + seq![')'],
        );
        lemma_enc_pair_first(ev.1[k]);
        assert(s[q] == s.subrange(q, q + pl)[0]);
        assert(s[q + pl] == s.subrange(q + pl, e)[0]);
        if ev.1.skip(k + 1).len() == 0 {
            assert(enc_dist(ev.1.skip(k + 1)) == Seq::<char>::empty());
            assert((enc_dist(ev.1.skip(k + 1)) + seq![')'])[0] == ')');
        } else {
            lemma_enc_pair_first(ev.1.skip(k + 1)[0]);
            assert(enc_dist(ev.1.skip(k + 1)) == enc_pair(ev.1.skip(k + 1)[0]) + enc_dist(
                ev.1.skip(k + 1).drop_first(),
            ));
            assert((enc_dist(ev.1.skip(k + 1)) + seq![')'])[0] == enc_pair(ev.1.skip(k + 1)[0])[0]);
        }
        assert(pair_at(s, q, ev.1[k]));
    } else {
        assert(ev.1.skip(k).len() == 0);
        assert(enc_dist(ev.1.skip(k)) == Seq::<char>::empty());
        assert(enc_dist(ev.1.skip(k)) + seq![')'] =~= seq![')']);
        assert(s[q] == s.subrange(q, e)[0]);
    }
}

/// A parsed pair form pins down any pair claimed at the same spot.
proof fn lemma_pair_unique(
    s: Seq<char>,
    pos: int,
    p1: (Option<Seq<char>>, u64),
    j: int,
    p2: (Option<Seq<char>>, u64),
)
    requires
        0 <= pos <= j <= s.len(),
        s.subrange(pos, j) == enc_pair(p1),
        j == s.len() || !is_digit(s[j]),
        pair_at(s, pos, p2),
    ensures
        p1 == p2,
        pos + enc_pair(p2).len() == j,
{
    let n = s.len() as int;
    let e2 = pos + enc_pair(p2).len() as int;
    assert(enc_pair(p1) + s.subrange(j, n) =~= s.subrange(pos, n));
    assert(enc_pair(p2) + s.subrange(e2, n) =~= s.subrange(pos, n));
    let r1 = s.subrange(j, n);
    let r2 = s.subrange(e2, n);
    assert(r1.len() == 0 || !is_digit(r1[0])) by {
        if j < n {
            assert(r1[0] == s[j]);
        }
    }
    assert(r2.len() == 0 || !is_digit(r2[0])) by {
        if e2 < n {
            assert(r2[0] == s[e2]);
        }
    }
    lemma_pair_prefix(p1, p2, r1, r2);
}

/// Reads one record at `pos`: an opening mark, the state token, entries
/// until the closing mark.
fn parse_rec(cs: &Vec<char>, pos: usize) -> (r: Option<
    ((Option<String>, Vec<(Option<String>, u64)>), usize),
>)
    requires
        pos <= cs@.len(),
    ensures
        match r {
            Some((e, j)) => pos < j <= cs@.len() && cs@.subrange(pos as int, j as int) == enc_rec(
                (tok_view(&e.0), dist_view(e.1)),
            ) && dist_pos(dist_view(e.1)),
            None => forall|ev: (Option<Seq<char>>, DistV)|
                dist_pos(ev.1) ==> !(#[trigger] rec_at(cs@, pos as int, ev)),
        },
{
    let len = cs.len();
    proof {
        lemma_marks_not_digits();
    }
    let ghost hyp = exists|ev: (Option<Seq<char>>, DistV)|
        dist_pos(ev.1) && #[trigger] rec_at(cs@, pos as int, ev);
    let ghost ge: (Option<Seq<char>>, DistV) = if hyp {
        choose|ev: (Option<Seq<char>>, DistV)| dist_pos(ev.1) && #[trigger] rec_at(
            cs@,
            pos as int,
            ev,
        )
    } else {
        (None, Seq::empty())
    };
    proof {
        if hyp {
            lemma_rec_shape(cs@, pos as int, ge, 0);
        }
    }
    if pos >= len || cs[pos] != '(' {
        proof {
            assert forall|ev: (Option<Seq<char>>, DistV)|
                dist_pos(ev.1) implies !(#[trigger] rec_at(cs@, pos as int, ev)) by {
                if rec_at(cs@, pos as int, ev) {
                    assert(hyp);
                    assert(cs@[pos as int] == '(');
                    assert(false);
                }
            }
        }
        return None;
    }
    let st: Option<String>;
    let j1: usize;
    match parse_tok(cs, pos + 1) {
        None => {
            proof {
                assert forall|ev: (Option<Seq<char>>, DistV)|
                    dist_pos(ev.1) implies !(#[trigger] rec_at(cs@, pos as int, ev)) by {
                    if rec_at(cs@, pos as int, ev) {
                        assert(hyp);
                        assert(tok_at(cs@, pos + 1 as int, ge.0));
                        assert(false);
                    }
                }
            }
            return None;
        },
        Some((t0, j0)) => {
            st = t0;
            j1 = j0;
        },
    }
    proof {
        if hyp {
            lemma_tok_unique(cs@, pos + 1 as int, tok_view(&st), j1 as int, ge.0);
        }
    }
    let mut dvec: Vec<(Option<String>, u64)> = Vec::new();
    let mut j = j1;
    proof {
        assert(enc_dist(dist_view(dvec)) == Seq::<char>::empty()) by {
            assert(dist_view(dvec) =~= Seq::<(Option<Seq<char>>, u64)>::empty());
        }
        assert(cs@.subrange(pos as int, j as int) =~= seq!['('] + enc_tok(tok_view(&st))
            + enc_dist(dist_view(dvec)));
        if hyp {
            assert(dist_view(dvec) =~= ge.1.take(0));
        }
    }
    loop
        invariant
            pos < j <= len,
            len == cs@.len(),
            cs@.subrange(pos as int, j as int) == seq!['('] + enc_tok(tok_view(&st)) + enc_dist(
                dist_view(dvec),
            ),
            dist_pos(dist_view(dvec)),
            hyp ==> {
                &&& dist_pos(ge.1)
                &&& rec_at(cs@, pos as int, ge)
                &&& tok_view(&st) == ge.0
                &&& dvec@.len() <= ge.1.len()
                &&& dist_view(dvec) == ge.1.take(dvec@.len() as int)
                &&& j == pos + 1 + enc_tok(ge.0).len() + enc_dist(ge.1.take(
                    dvec@.len() as int,
                )).len()
            },
            hyp == exists|ev: (Option<Seq<char>>, DistV)|
                dist_pos(ev.1) && #[trigger] rec_at(cs@, pos as int, ev),
            ge == if hyp {
                choose|ev: (Option<Seq<char>>, DistV)| dist_pos(ev.1) && #[trigger] rec_at(
                    cs@,
                    pos as int,
                    ev,
                )
            } else {
                (None::<Seq<char>>, Seq::<(Option<Seq<char>>, u64)>::empty())
            },
        decreases len - j,
    {
        proof {
            if hyp {
                lemma_rec_shape(cs@, pos as int, ge, dvec@.len() as int);
            }
        }
        if j < len && cs[j] == ')' {
            proof {
                if hyp {
                    if dvec@.len() < ge.1.len() {
                        assert(cs@[j as int] != ')');
                        assert(false);
                    }
                    assert(dist_view(dvec) =~= ge.1);
                }
                assert(cs@.subrange(pos as int, j + 1 as int) =~= seq!['('] + enc_tok(
                    tok_view(&st),
                ) + enc_dist(dist_view(dvec)) + seq![')']) by {
                    assert(forall|x: int|
                        pos <= x < j ==> cs@[x] == #[trigger] cs@.subrange(pos as int, j as int)[x
                            - pos]);
                }
            }
            return Some(((st, dvec), j + 1));
        }
        match parse_pair(cs, j) {
            None => {
                proof {
                    assert forall|ev: (Option<Seq<char>>, DistV)|
                        dist_pos(ev.1) implies !(#[trigger] rec_at(cs@, pos as int, ev)) by {
                        if rec_at(cs@, pos as int, ev) {
                            assert(hyp);
                            if dvec@.len() < ge.1.len() {
                                assert(pair_at(
                                    cs@,
                                    j as int,
                                    ge.1[dvec@.len() as int],
                                ));
                                assert(ge.1[dvec@.len() as int].1 >= 1);
                                assert(false);
                            } else {
                                assert(j < len && cs@[j as int] == ')');
                                assert(false);
                            }
                        }
                    }
                }
                return None;
            },
            Some((p, j2)) => {
                proof {
                    if hyp {
                        if dvec@.len() == ge.1.len() {
                            assert(cs@[j as int] == ')');
                            assert(false);
                        }
                        lemma_pair_unique(
                            cs@,
                            j as int,
                            (tok_view(&p.0), p.1),
                            j2 as int,
                            ge.1[dvec@.len() as int],
                        );
                    }
                    lemma_enc_dist_snoc(dist_view(dvec), (tok_view(&p.0), p.1));
                }
                let ghost dv0 = dist_view(dvec);
                dvec.push(p);
                proof {
                    assert(dist_view(dvec) =~= dv0.push((tok_view(&p.0), p.1)));
                    assert(cs@.subrange(pos as int, j2 as int) =~= cs@.subrange(
                        pos as int,
                        j as int,
                    ) + cs@.subrange(j as int, j2 as int));
                    assert(cs@.subrange(pos as int, j2 as int) == (seq!['('] + enc_tok(
                        tok_view(&st),
                    ) + enc_dist(dv0)) + enc_pair((tok_view(&p.0), p.1)));
                    assert(seq!['('] + enc_tok(tok_view(&st)) + enc_dist(dist_view(dvec)) =~= (
                    seq!['('] + enc_tok(tok_view(&st)) + enc_dist(dv0)) + enc_pair(
                        (tok_view(&p.0), p.1),
                    ));
                    if hyp {
                        assert(dist_view(dvec) =~= ge.1.take(dvec@.len() as int));
                    }
                }
                j = j2;
            },
        }
    }
}

/// Every count in every distribution of the table is positive.
pub open spec fn table_counts_pos(v: TableV) -> bool {
    forall|i: int| 0 <= i < v.len() ==> dist_pos((#[trigger] v[i]).1)
}

proof fn lemma_enc_table_split(v: TableV, k: int)
    requires
        0 <= k <= v.len(),
    ensures
        enc_table(v) == enc_table(v.take(k)) + enc_table(v.skip(k)),
    decreases k,
{
    if k == 0 {
        assert(v.take(0) =~= Seq::empty());
        assert(v.skip(0) =~= v);
        assert(enc_table(Seq::<(Option<Seq<char>>, DistV)>::empty()) == Seq::<char>::empty());
        assert(enc_table(v) =~= enc_table(v.take(0)) + enc_table(v.skip(0)));
    } else {
        lemma_enc_table_split(v, k - 1);
        assert(v.take(k) =~= v.take(k - 1).push(v[k - 1]));
        lemma_enc_table_snoc(v.take(k - 1), v[k - 1]);
        assert(v.skip(k - 1)[0] == v[k - 1]);
        assert(v.skip(k - 1).drop_first() =~= v.skip(k));
        assert(enc_table(v.skip(k - 1)) == enc_rec(v[k - 1]) + enc_table(v.skip(k)));
        assert(enc_table(v) =~= enc_table(v.take(k)) + enc_table(v.skip(k)));
    }
}

/// Where record `k` of a whole encoded table sits.
proof fn lemma_table_shape(s: Seq<char>, gv: TableV, k: int)
    requires
        s == enc_table(gv),
        0 <= k <= gv.len(),
    ensures
        ({
            let q = enc_table(gv.take(k)).len();
            &&& (k < gv.len() ==> rec_at(s, q as int, gv[k]))
            &&& (k == gv.len() ==> q == s.len())
        }),
{
    let q = enc_table(gv.take(k)).len() as int;
    lemma_enc_table_split(gv, k);
    if k < gv.len() {
        assert(gv.skip(k)[0] == gv[k]);
        assert(gv.skip(k).drop_first() =~= gv.skip(k + 1));
        assert(enc_table(gv.skip(k)) == enc_rec(gv[k]) + enc_table(gv.skip(k + 1)));
        let rl = enc_rec(gv[k]).len() as int;
        assert(s =~= enc_table(gv.take(k)) + (enc_rec(gv[k]) + enc_table(gv.skip(k + 1))));
        assert(s.subrange(q, q + rl) =~= enc_rec(gv[k])) by {
            assert(forall|x: int|
                0 <= x < rl ==> s.subrange(q, q + rl)[x] == #[trigger] s[q + x]);
            assert(forall|x: int|
                0 <= x < rl ==> #[trigger] (enc_table(gv.take(k)) + (enc_rec(gv[k]) + enc_table(
                    gv.skip(k + 1),
                )))[q + x] == enc_rec(gv[k])[x]);
        }
    } else {
        assert(gv.skip(k).len() == 0);
        assert(enc_table(gv.skip(k)) == Seq::<char>::empty());
    }
}

/// A parsed record form pins down any record claimed at the same spot.
proof fn lemma_rec_unique(
    s: Seq<char>,
    pos: int,
    e1: (Option<Seq<char>>, DistV),
    j: int,
    e2: (Option<Seq<char>>, DistV),
)
    requires
        0 <= pos <= j <= s.len(),
        s.subrange(pos, j) == enc_rec(e1),
        rec_at(s, pos, e2),
    ensures
        e1 == e2,
        pos + enc_rec(e2).len() == j,
{
    let n = s.len() as int;
    let e = pos + enc_rec(e2).len() as int;
    assert(enc_rec(e1) + s.subrange(j, n) =~= s.subrange(pos, n));
    assert(enc_rec(e2) + s.subrange(e, n) =~= s.subrange(pos, n));
    lemma_rec_prefix(e1, e2, s.subrange(j, n), s.subrange(e, n));
}

/// Reads a whole table: records until the end of the text.  Returns exactly
/// the table whose form the text is, if there is one with positive counts.
pub fn decode_table(cs: &Vec<char>) -> (r: Option<
    Vec<(Option<String>, Vec<(Option<String>, u64)>)>,
>)
    ensures
        match r {
            Some(t) => enc_table(table_view(t)) == cs@ && table_counts_pos(table_view(t)),
            None => forall|v: TableV| table_counts_pos(v) ==> cs@ != enc_table(v),
        },
{
    let len = cs.len();
    let ghost hyp = exists|v: TableV| table_counts_pos(v) && cs@ == enc_table(v);
    let ghost gv: TableV = if hyp {
        choose|v: TableV| table_counts_pos(v) && cs@ == enc_table(v)
    } else {
        Seq::empty()
    };
    let mut out: Vec<(Option<String>, Vec<(Option<String>, u64)>)> = Vec::new();
    let mut pos: usize = 0;
    proof {
        assert(table_view(out) =~= Seq::<(Option<Seq<char>>, DistV)>::empty());
        assert(enc_table(table_view(out)) == Seq::<char>::empty());
        assert(cs@.subrange(0, 0) =~= Seq::<char>::empty());
        if hyp {
            assert(table_view(out) =~= gv.take(0));
        }
    }
    while pos < len
        invariant
            pos <= len,
            len == cs@.len(),
            cs@.subrange(0, pos as int) == enc_table(table_view(out)),
            table_counts_pos(table_view(out)),
            hyp ==> {
                &&& table_counts_pos(gv)
                &&& cs@ == enc_table(gv)
                &&& out@.len() <= gv.len()
                &&& table_view(out) == gv.take(out@.len() as int)
                &&& pos == enc_table(gv.take(out@.len() as int)).len()
            },
            hyp == exists|v: TableV| table_counts_pos(v) && cs@ == enc_table(v),
            gv == if hyp {
                choose|v: TableV| table_counts_pos(v) && cs@ == enc_table(v)
            } else {
                Seq::<(Option<Seq<char>>, DistV)>::empty()
            },
        decreases len - pos,
    {
        proof {
            if hyp {
                lemma_table_shape(cs@, gv, out@.len() as int);
                if out@.len() == gv.len() {
                    assert(pos == cs@.len());
                    assert(false);
                }
            }
        }
        match parse_rec(cs, pos) {
            None => {
                proof {
                    assert forall|v: TableV| table_counts_pos(v) implies cs@ != enc_table(v) by {
                        if cs@ == enc_table(v) {
                            assert(hyp);
                            assert(rec_at(cs@, pos as int, gv[out@.len() as int]));
                            assert(dist_pos(gv[out@.len() as int].1));
                            assert(false);
                        }
                    }
                }
                return None;
            },
            Some((e, j)) => {
                proof {
                    if hyp {
                        lemma_rec_unique(
                            cs@,
                            pos as int,
                            (tok_view(&e.0), dist_view(e.1)),
                            j as int,
                            gv[out@.len() as int],
                        );
                    }
                    lemma_enc_table_snoc(table_view(out), (tok_view(&e.0), dist_view(e.1)));
                }
                let ghost tv0 = table_view(out);
                let ghost pos0 = pos;
                out.push(e);
                pos = j;
                proof {
                    assert(table_view(out) =~= tv0.push(
                        (tok_view(&out@[out@.len() - 1].0), dist_view(out@[out@.len() - 1].1)),
                    ));
                    assert(cs@.subrange(0, pos as int) =~= cs@.subrange(0, pos0 as int)
                        + cs@.subrange(pos0 as int, pos as int));
                    assert(cs@.subrange(0, pos as int) == enc_table(tv0) + enc_rec(
                        table_view(out)[out@.len() - 1],
                    ));
                    if hyp {
                        assert(table_view(out) =~= gv.take(out@.len() as int));
                    }
                }
            },
        }
    }
    proof {
        assert(cs@.subrange(0, len as int) =~= cs@);
    }
    Some(out)
}

/// The round-trip law's core: the text form is injective, so a decoder that
/// inverts it on its image restores a saved table exactly, record for record
/// and count for count.
pub proof fn lemma_encode_injective(v1: TableV, v2: TableV)
    requires
        enc_table(v1) == enc_table(v2),
    ensures
        v1 == v2,
    decreases v1.len(),
{
    if v1.len() == 0 && v2.len() == 0 {
        assert(v1 =~= v2);
    } else if v1.len() == 0 {
        lemma_enc_rec_len(v2[0]);
        assert(enc_table(v1).len() == 0);
        assert(enc_table(v2).len() >= enc_rec(v2[0]).len());
        assert(false);
    } else if v2.len() == 0 {
        lemma_enc_rec_len(v1[0]);
        assert(enc_table(v2).len() == 0);
        assert(enc_table(v1).len() >= enc_rec(v1[0]).len());
        assert(false);
    } else {
        lemma_rec_prefix(v1[0], v2[0], enc_table(v1.drop_first()), enc_table(v2.drop_first()));
        lemma_encode_injective(v1.drop_first(), v2.drop_first());
        assert forall|k: int| 0 <= k < v1.len() implies v1[k] == v2[k] by {
            if k > 0 {
                assert(v1[k] == v1.drop_first()[k - 1]);
                assert(v2[k] == v2.drop_first()[k - 1]);
            }
        }
        assert(v1 =~= v2);
    }
}

} // verus!
