//! The durable snapshot format, with a verified encoder and decoder.
//!
//! A snapshot is one line of structured text: the capacity in decimal, `;`,
//! the live entry count in decimal, `;`, then every entry from most- to
//! least-recently-used as `<key length>:<key><value length>:<value>`, the
//! lengths counted in characters. Decoding validates everything a well-formed
//! store needs: a positive capacity, no more entries than the capacity, no
//! repeated key, and no text left over.

use vstd::prelude::*;
use vstd::string::StringExecFns;
use vstd::string::StrSliceExecFns;
use crate::model::{entries_view, keys_unique};

verus! {

/// Rejection of a snapshot text that is not a valid encoding of a store.
#[derive(Clone, Copy, Debug, PartialEq, Eq, Structural)]
pub struct DecodeError;

/// Numeric value of a decimal digit character; 10 marks a non-digit.
pub open spec fn digit_val(c: char) -> nat {
    if c == '0' {
        0
    } else if c == '1' {
        1
    } else if c == '2' {
        2
    } else if c == '3' {
        3
    } else if c == '4' {
        4
    } else if c == '5' {
        5
    } else if c == '6' {
        6
    } else if c == '7' {
        7
    } else if c == '8' {
        8
    } else if c == '9' {
        9
    } else {
        10
    }
}

pub open spec fn is_digit(c: char) -> bool {
    digit_val(c) < 10
}

/// The decimal digit character for a value below ten.
pub open spec fn digit_char(d: nat) -> char {
    if d == 0 {
        '0'
    } else if d == 1 {
        '1'
    } else if d == 2 {
        '2'
    } else if d == 3 {
        '3'
    } else if d == 4 {
        '4'
    } else if d == 5 {
        '5'
    } else if d == 6 {
        '6'
    } else if d == 7 {
        '7'
    } else if d == 8 {
        '8'
    } else {
        '9'
    }
}

/// Decimal notation of `n`, most significant digit first.
pub open spec fn dec_digits(n: nat) -> Seq<char>
    decreases n,
{
    if n < 10 {
        seq![digit_char(n)]
    } else {
        dec_digits(n / 10) + seq![digit_char(n % 10)]
    }
}

/// Value of a sequence of decimal digit characters.
pub open spec fn digits_value(s: Seq<char>) -> nat
    decreases s.len(),
{
    if s.len() == 0 {
        0
    } else {
        digits_value(s.drop_last()) * 10 + digit_val(s.last())
    }
}

/// How many decimal digits stand at position `i` of `s`.
pub open spec fn num_digits_from(s: Seq<char>, i: int) -> nat
    decreases s.len() - i,
{
    if i < 0 || i >= s.len() || !is_digit(s[i]) {
        0
    } else {
        (1 + num_digits_from(s, i + 1)) as nat
    }
}

/// Read the decimal number starting at position `i`: its value and the first
/// position after it. Fails when no digit stands at `i`.
pub open spec fn parse_number(s: Seq<char>, i: int) -> Option<(nat, int)> {
    let d = num_digits_from(s, i);
    if d == 0 {
        None
    } else {
        Some((digits_value(s.subrange(i, i + d)), i + d))
    }
}

/// A length-prefixed text field: `<length>:<text>`.
pub open spec fn encode_str(t: Seq<char>) -> Seq<char> {
    dec_digits(t.len()) + seq![':'] + t
}

/// Read a length-prefixed text field starting at position `i`.
pub open spec fn parse_string(s: Seq<char>, i: int) -> Option<(Seq<char>, int)> {
    match parse_number(s, i) {
        None => None,
        Some((len, j)) => if j >= s.len() || s[j] != ':' || j + 1 + len > s.len() {
            None
        } else {
            Some((s.subrange(j + 1, j + 1 + len), j + 1 + len))
        },
    }
}

/// All entries, most-recently-used first, each as two text fields.
pub open spec fn encode_entries(es: Seq<(Seq<char>, Seq<char>)>) -> Seq<char>
    decreases es.len(),
{
    if es.len() == 0 {
        Seq::empty()
    } else {
        encode_str(es[0].0) + encode_str(es[0].1) + encode_entries(es.drop_first())
    }
}

/// Read `n` entries starting at position `i`.
pub open spec fn parse_entries(s: Seq<char>, i: int, n: nat) -> Option<
    (Seq<(Seq<char>, Seq<char>)>, int),
>
    decreases n,
{
    if n == 0 {
        Some((Seq::empty(), i))
    } else {
        match parse_string(s, i) {
            None => None,
            Some((k, j1)) => match parse_string(s, j1) {
                None => None,
                Some((v, j2)) => match parse_entries(s, j2, (n - 1) as nat) {
                    None => None,
                    Some((rest, j3)) => Some((seq![(k, v)] + rest, j3)),
                },
            },
        }
    }
}

/// The full snapshot text of a store with entries `es` and capacity `cap`.
pub open spec fn spec_encode(es: Seq<(Seq<char>, Seq<char>)>, cap: nat) -> Seq<char> {
    dec_digits(cap) + seq![';'] + dec_digits(es.len()) + seq![';'] + encode_entries(es)
}

/// The store state a snapshot text describes, if it is a valid one.
pub open spec fn spec_decode(s: Seq<char>) -> Option<(Seq<(Seq<char>, Seq<char>)>, nat)> {
    match parse_number(s, 0) {
        None => None,
        Some((cap, i1)) => if cap == 0 || cap > usize::MAX as nat || i1 >= s.len() || s[i1]
            != ';' {
            None
        } else {
            match parse_number(s, i1 + 1) {
                None => None,
                Some((n, i2)) => if n > cap || i2 >= s.len() || s[i2] != ';' {
                    None
                } else {
                    match parse_entries(s, i2 + 1, n) {
                        None => None,
                        Some((es, i3)) => if i3 != s.len() || !keys_unique(es) {
                            None
                        } else {
                            Some((es, cap))
                        },
                    }
                },
            }
        },
    }
}

/// A digit character carries the value it was built from.
proof fn lemma_digit_roundtrip(d: nat)
    requires
        d < 10,
    ensures
        digit_val(digit_char(d)) == d,
        is_digit(digit_char(d)),
{
    if d == 0 {
    } else if d == 1 {
    } else if d == 2 {
    } else if d == 3 {
    } else if d == 4 {
    } else if d == 5 {
    } else if d == 6 {
    } else if d == 7 {
    } else if d == 8 {
    } else {
    }
}

/// Decimal notation is non-empty, all digits, and reads back as its value.
proof fn lemma_dec_digits(n: nat)
    ensures
        dec_digits(n).len() >= 1,
        forall|m: int| 0 <= m < dec_digits(n).len() ==> is_digit(#[trigger] dec_digits(n)[m]),
        digits_value(dec_digits(n)) == n,
    decreases n,
{
    if n < 10 {
        lemma_digit_roundtrip(n);
        let w = dec_digits(n);
        assert(w == seq![digit_char(n)]);
        assert(w.drop_last() =~= Seq::<char>::empty());
        assert(digits_value(w) == digits_value(w.drop_last()) * 10 + digit_val(w.last()));
        assert(digits_value(w.drop_last()) == 0);
        assert(digit_val(w.last()) == n);
    } else {
        lemma_dec_digits(n / 10);
        lemma_digit_roundtrip(n % 10);
        vstd::arithmetic::div_mod::lemma_fundamental_div_mod(n as int, 10);
        let w = dec_digits(n);
        assert(w == dec_digits(n / 10) + seq![digit_char(n % 10)]);
        assert(w.drop_last() =~= dec_digits(n / 10));
        assert(w.last() == digit_char(n % 10));
        assert(w.len() >= 1);
        assert(digits_value(w) == digits_value(w.drop_last()) * 10 + digit_val(w.last()));
        assert(digits_value(w.drop_last()) == n / 10);
        assert(digit_val(w.last()) == n % 10);
        assert((n / 10) * 10 + n % 10 == n);
        assert forall|m: int| 0 <= m < w.len() implies is_digit(w[m]) by {
            if m < dec_digits(n / 10).len() {
                assert(w[m] == dec_digits(n / 10)[m]);
            }
        }
    }
}

/// Appending one entry extends the encoded text at its end.
proof fn lemma_encode_entries_snoc(es: Seq<(Seq<char>, Seq<char>)>, e: (Seq<char>, Seq<char>))
    ensures
        encode_entries(es.push(e)) == encode_entries(es) + encode_str(e.0) + encode_str(e.1),
    decreases es.len(),
{
    let w = es.push(e);
    assert(w.len() == es.len() + 1);
    assert(encode_entries(w) == encode_str(w[0].0) + encode_str(w[0].1) + encode_entries(
        w.drop_first(),
    ));
    if es.len() == 0 {
        assert(w[0] == e);
        assert(w.drop_first() =~= Seq::<(Seq<char>, Seq<char>)>::empty());
        assert(encode_entries(w.drop_first()) == Seq::<char>::empty());
        assert(encode_str(e.0) + encode_str(e.1) + Seq::<char>::empty() =~= encode_entries(es)
            + encode_str(e.0) + encode_str(e.1));
    } else {
        assert(w[0] == es[0]);
        assert(w.drop_first() =~= es.drop_first().push(e));
        lemma_encode_entries_snoc(es.drop_first(), e);
        assert(encode_str(w[0].0) + encode_str(w[0].1) + (encode_entries(es.drop_first())
            + encode_str(e.0) + encode_str(e.1)) =~= encode_entries(es) + encode_str(e.0)
            + encode_str(e.1));
    }
}

/// The decimal digit below ten, as a one-character text.
fn digit_str(d: usize) -> (r: &'static str)
    requires
        d < 10,
    ensures
        r@ == seq![digit_char(d as nat)],
{
    proof {
        reveal_strlit("0");
        reveal_strlit("1");
        reveal_strlit("2");
        reveal_strlit("3");
        reveal_strlit("4");
        reveal_strlit("5");
        reveal_strlit("6");
        reveal_strlit("7");
        reveal_strlit("8");
        reveal_strlit("9");
    }
    let r: &'static str = if d == 0 {
        "0"
    } else if d == 1 {
        "1"
    } else if d == 2 {
        "2"
    } else if d == 3 {
        "3"
    } else if d == 4 {
        "4"
    } else if d == 5 {
        "5"
    } else if d == 6 {
        "6"
    } else if d == 7 {
        "7"
    } else if d == 8 {
        "8"
    } else {
        "9"
    };
    proof {
        assert(r@ =~= seq![digit_char(d as nat)]);
    }
    r
}

/// Append the decimal notation of `n`.
fn push_dec(out: &mut String, n: usize)
    ensures
        final(out)@ == old(out)@ + dec_digits(n as nat),
    decreases n,
{
    if n >= 10 {
        push_dec(out, n / 10);
        out.append(digit_str(n % 10));
        proof {
            assert((n / 10) as nat == (n as nat) / 10);
            assert((n % 10) as nat == (n as nat) % 10);
            assert(old(out)@ + dec_digits((n as nat) / 10) + seq![digit_char((n as nat) % 10)]
                =~= old(out)@ + dec_digits(n as nat));
        }
    } else {
        out.append(digit_str(n));
        proof {
            assert(old(out)@ + seq![digit_char(n as nat)] =~= old(out)@ + dec_digits(n as nat));
        }
    }
}

/// Append one length-prefixed text field.
fn push_field(out: &mut String, t: &String)
    ensures
        final(out)@ == old(out)@ + encode_str(t@),
{
    proof {
        reveal_strlit(":");
    }
    let len = t.as_str().unicode_len();
    push_dec(out, len);
    out.append(":");
    out.append(t.as_str());
    proof {
        assert(old(out)@ + dec_digits(t@.len()) + ":"@ + t@ =~= old(out)@ + encode_str(t@));
    }
}

/// Build the snapshot text of the state `(items, cap)`.
pub fn encode_state(items: &Vec<(String, String)>, cap: usize) -> (r: String)
    ensures
        r@ == spec_encode(entries_view(items@), cap as nat),
{
    proof {
        reveal_strlit(";");
    }
    let ghost es = entries_view(items@);
    let mut out = String::new();
    push_dec(&mut out, cap);
    out.append(";");
    push_dec(&mut out, items.len());
    out.append(";");
    let ghost header = dec_digits(cap as nat) + seq![';'] + dec_digits(es.len()) + seq![';'];
    proof {
        assert(out@ =~= header + encode_entries(es.take(0)));
    }
    let mut idx: usize = 0;
    while idx < items.len()
        invariant
            idx <= items@.len(),
            es == entries_view(items@),
            out@ == header + encode_entries(es.take(idx as int)),
        decreases items@.len() - idx,
    {
        let pair = &items[idx];
        push_field(&mut out, &pair.0);
        push_field(&mut out, &pair.1);
        proof {
            assert(es.take(idx + 1) =~= es.take(idx as int).push(es[idx as int]));
            lemma_encode_entries_snoc(es.take(idx as int), es[idx as int]);
            assert(header + encode_entries(es.take(idx as int)) + encode_str(es[idx as int].0)
                + encode_str(es[idx as int].1) =~= header + encode_entries(es.take(idx + 1)));
        }
        idx += 1;
    }
    proof {
        assert(es.take(es.len() as int) =~= es);
        assert(header + encode_entries(es) =~= spec_encode(es, cap as nat));
    }
    out
}

/// Exactly the digits up to the first non-digit count into the block.
proof fn lemma_num_digits_range(s: Seq<char>, i: int, j: int)
    requires
        0 <= i <= j <= s.len(),
        forall|m: int| i <= m < j ==> is_digit(s[m]),
        j == s.len() || !is_digit(s[j]),
    ensures
        num_digits_from(s, i) == j - i,
    decreases j - i,
{
    if i < j {
        lemma_num_digits_range(s, i + 1, j);
    }
}

/// Digits already seen extend to the full digit block.
proof fn lemma_num_digits_split(s: Seq<char>, i: int, j: int)
    requires
        0 <= i <= j <= s.len(),
        forall|m: int| i <= m < j ==> is_digit(s[m]),
    ensures
        num_digits_from(s, i) == (j - i) + num_digits_from(s, j),
    decreases j - i,
{
    if i < j {
        lemma_num_digits_split(s, i + 1, j);
    }
}

/// A digit block stays inside the text and holds digits only.
proof fn lemma_num_digits_bound(s: Seq<char>, i: int)
    requires
        0 <= i <= s.len(),
    ensures
        i + num_digits_from(s, i) <= s.len(),
        forall|m: int| i <= m < i + num_digits_from(s, i) ==> is_digit(s[m]),
    decreases s.len() - i,
{
    if i < s.len() && is_digit(s[i]) {
        lemma_num_digits_bound(s, i + 1);
    }
}

/// A prefix of a digit text never reads above the whole.
proof fn lemma_digits_value_take(t: Seq<char>, m: int)
    requires
        0 <= m <= t.len(),
    ensures
        digits_value(t.take(m)) <= digits_value(t),
    decreases t.len() - m,
{
    if m < t.len() {
        lemma_digits_value_take(t.drop_last(), m);
        assert(t.drop_last().take(m) =~= t.take(m));
        assert(digits_value(t) == digits_value(t.drop_last()) * 10 + digit_val(t.last()));
    } else {
        assert(t.take(m) =~= t);
    }
}

/// Numeric value of `c` when it is a decimal digit; 10 otherwise.
fn digit_of(c: char) -> (r: usize)
    ensures
        r as nat == digit_val(c),
{
    if c == '0' {
        0
    } else if c == '1' {
        1
    } else if c == '2' {
        2
    } else if c == '3' {
        3
    } else if c == '4' {
        4
    } else if c == '5' {
        5
    } else if c == '6' {
        6
    } else if c == '7' {
        7
    } else if c == '8' {
        8
    } else if c == '9' {
        9
    } else {
        10
    }
}

/// Read the decimal number at position `i`. Misses when no digit stands
/// there; a number too large for `usize` is reported as missing, which every
/// caller turns into rejection of the whole snapshot.
fn parse_number_at(s: &str, n: usize, i: usize) -> (r: Option<(usize, usize)>)
    requires
        n == s@.len(),
        i <= n,
    ensures
        match r {
            Some(p) => parse_number(s@, i as int) == Some((p.0 as nat, p.1 as int)) && i < p.1
                <= n,
            None => parse_number(s@, i as int) is None || (parse_number(s@, i as int) matches Some(
                q,
            ) && q.0 > usize::MAX),
        },
{
    let mut j: usize = i;
    let mut acc: usize = 0;
    loop
        invariant
            n == s@.len(),
            i <= j <= n,
            forall|m: int| i <= m < j ==> is_digit(s@[m]),
            acc as nat == digits_value(s@.subrange(i as int, j as int)),
        ensures
            i <= j <= n,
            forall|m: int| i <= m < j ==> is_digit(s@[m]),
            acc as nat == digits_value(s@.subrange(i as int, j as int)),
            j == n || !is_digit(s@[j as int]),
        decreases n - j,
    {
        if j == n {
            break ;
        }
        let c = s.get_char(j);
        let d = digit_of(c);
        if d >= 10 {
            break ;
        }
        let step = match acc.checked_mul(10) {
            Some(m10) => m10.checked_add(d),
            None => None,
        };
        match step {
            Some(v) => {
                proof {
                    assert(s@.subrange(i as int, j + 1).drop_last() =~= s@.subrange(
                        i as int,
                        j as int,
                    ));
                    assert(s@.subrange(i as int, j + 1).last() == s@[j as int]);
                }
                acc = v;
                j += 1;
            },
            None => {
                proof {
                    let iv = i as int;
                    let jv = j as int;
                    assert(digits_value(s@.subrange(iv, jv + 1)) > usize::MAX) by {
                        assert(s@.subrange(iv, jv + 1).drop_last() =~= s@.subrange(iv, jv));
                        assert(s@.subrange(iv, jv + 1).last() == s@[jv]);
                    }
                    lemma_num_digits_split(s@, iv, jv + 1);
                    lemma_num_digits_bound(s@, iv);
                    let dd = num_digits_from(s@, iv) as int;
                    let t = s@.subrange(iv, iv + dd);
                    lemma_digits_value_take(t, jv + 1 - iv);
                    assert(t.take(jv + 1 - iv) =~= s@.subrange(iv, jv + 1));
                }
                return None;
            },
        }
    }
    if j == i {
        return None;
    }
    proof {
        lemma_num_digits_range(s@, i as int, j as int);
    }
    Some((acc, j))
}

/// Read the length-prefixed text field at position `i`.
fn parse_string_at(s: &str, n: usize, i: usize) -> (r: Option<(String, usize)>)
    requires
        n == s@.len(),
        i <= n,
    ensures
        match r {
            Some(p) => parse_string(s@, i as int) == Some((p.0@, p.1 as int)) && i < p.1 <= n,
            None => parse_string(s@, i as int) is None,
        },
{
    match parse_number_at(s, n, i) {
        None => {
            proof {
                let pn = parse_number(s@, i as int);
                if pn is Some {
                    assert(pn->Some_0.0 > usize::MAX);
                    assert(pn->Some_0.1 + 1 + pn->Some_0.0 > s@.len());
                }
            }
            None
        },
        Some((len, j)) => {
            if j == n {
                return None;
            }
            let c = s.get_char(j);
            if c != ':' {
                return None;
            }
            if len > n - (j + 1) {
                return None;
            }
            let field = s.substring_char(j + 1, j + 1 + len);
            let owned = field.to_owned();
            Some((owned, j + 1 + len))
        },
    }
}

/// Whether no two pairs of the vector share a key.
fn keys_unique_exec(items: &Vec<(String, String)>) -> (r: bool)
    ensures
        r == keys_unique(entries_view(items@)),
{
    let ghost es = entries_view(items@);
    let mut a: usize = 0;
    while a < items.len()
        invariant
            a <= items@.len(),
            es == entries_view(items@),
            forall|i: int, j: int| 0 <= i < j < items@.len() && i < a ==> es[i].0 != es[j].0,
        decreases items@.len() - a,
    {
        let mut b: usize = a + 1;
        while b < items.len()
            invariant
                a < b <= items@.len() || (a + 1 == b && b > items@.len()),
                es == entries_view(items@),
                forall|i: int, j: int| 0 <= i < j < items@.len() && i < a ==> es[i].0 != es[j].0,
                forall|j: int| a < j < b && j < items@.len() ==> es[a as int].0 != es[j].0,
            decreases items@.len() - b,
        {
            if items[a].0 == items[b].0 {
                proof {
                    assert(es[a as int].0 == es[b as int].0);
                }
                return false;
            }
            b += 1;
        }
        a += 1;
    }
    true
}

/// Read `count` entries starting at position `start`.
fn parse_entries_at(s: &str, n: usize, start: usize, count: usize) -> (r: Option<
    (Vec<(String, String)>, usize),
>)
    requires
        n == s@.len(),
        start <= n,
    ensures
        match r {
            Some(p) => parse_entries(s@, start as int, count as nat) == Some(
                (entries_view(p.0@), p.1 as int),
            ) && p.1 <= n,
            None => parse_entries(s@, start as int, count as nat) is None,
        },
{
    let mut acc: Vec<(String, String)> = Vec::new();
    let mut j: usize = start;
    let mut done: usize = 0;
    proof {
        assert(entries_view(acc@) =~= Seq::<(Seq<char>, Seq<char>)>::empty());
    }
    while done < count
        invariant
            n == s@.len(),
            j <= n,
            done <= count,
            acc@.len() == done,
            parse_entries(s@, start as int, count as nat) == (match parse_entries(
                s@,
                j as int,
                (count - done) as nat,
            ) {
                Some(rest) => Some((entries_view(acc@) + rest.0, rest.1)),
                None => None::<(Seq<(Seq<char>, Seq<char>)>, int)>,
            }),
        decreases count - done,
    {
        let key = match parse_string_at(s, n, j) {
            None => {
                return None;
            },
            Some(p) => p,
        };
        let value = match parse_string_at(s, n, key.1) {
            None => {
                return None;
            },
            Some(p) => p,
        };
        proof {
            let rem = (count - done) as nat;
            assert(parse_entries(s@, j as int, rem) == (match parse_entries(
                s@,
                value.1 as int,
                (rem - 1) as nat,
            ) {
                Some(rest) => Some(
                    (seq![(key.0@, value.0@)] + rest.0, rest.1),
                ),
                None => None::<(Seq<(Seq<char>, Seq<char>)>, int)>,
            }));
            assert(entries_view(acc@.push((key.0, value.0))) =~= entries_view(acc@).push(
                (key.0@, value.0@),
            ));
            let pe = parse_entries(s@, value.1 as int, (rem - 1) as nat);
            if pe is Some {
                assert(entries_view(acc@) + (seq![(key.0@, value.0@)] + pe->Some_0.0)
                    =~= entries_view(acc@).push((key.0@, value.0@)) + pe->Some_0.0);
            }
        }
        let next = value.1;
        acc.push((key.0, value.0));
        j = next;
        done += 1;
    }
    proof {
        assert(entries_view(acc@) + Seq::<(Seq<char>, Seq<char>)>::empty() =~= entries_view(acc@));
    }
    Some((acc, j))
}

/// Decode a snapshot text into the state it describes, validating every
/// well-formedness demand; any malformed text is rejected.
pub fn decode_state(s: &str) -> (r: Option<(Vec<(String, String)>, usize)>)
    ensures
        match r {
            Some(p) => spec_decode(s@) == Some((entries_view(p.0@), p.1 as nat)) && p.1 >= 1,
            None => spec_decode(s@) is None,
        },
{
    proof {
        reveal_strlit(";");
    }
    let n = s.unicode_len();
    let (cap, i1) = match parse_number_at(s, n, 0) {
        None => {
            return None;
        },
        Some(p) => p,
    };
    if cap == 0 {
        return None;
    }
    if i1 == n {
        return None;
    }
    if s.get_char(i1) != ';' {
        return None;
    }
    let (cnt, i2) = match parse_number_at(s, n, i1 + 1) {
        None => {
            return None;
        },
        Some(p) => p,
    };
    if cnt > cap {
        return None;
    }
    if i2 == n {
        return None;
    }
    if s.get_char(i2) != ';' {
        return None;
    }
    let (items, i3) = match parse_entries_at(s, n, i2 + 1, cnt) {
        None => {
            return None;
        },
        Some(p) => p,
    };
    if i3 != n {
        return None;
    }
    if !keys_unique_exec(&items) {
        return None;
    }
    Some((items, cap))
}

/// A decimal notation embedded in a longer text parses back to its value.
proof fn lemma_parse_number_exact(s: Seq<char>, i: int, n: nat)
    requires
        0 <= i,
        i + dec_digits(n).len() <= s.len(),
        s.subrange(i, i + dec_digits(n).len()) == dec_digits(n),
        i + dec_digits(n).len() == s.len() || !is_digit(s[i + dec_digits(n).len()]),
    ensures
        parse_number(s, i) == Some((n, i + dec_digits(n).len())),
{
    lemma_dec_digits(n);
    let l = dec_digits(n).len() as int;
    assert forall|m: int| i <= m < i + l implies is_digit(s[m]) by {
        assert(s.subrange(i, i + l)[m - i] == s[m]);
        assert(is_digit(dec_digits(n)[m - i]));
    }
    lemma_num_digits_range(s, i, i + l);
}

/// A length-prefixed field embedded in a longer text parses back to itself.
proof fn lemma_parse_string_exact(s: Seq<char>, i: int, t: Seq<char>)
    requires
        0 <= i,
        i + encode_str(t).len() <= s.len(),
        s.subrange(i, i + encode_str(t).len()) == encode_str(t),
    ensures
        parse_string(s, i) == Some((t, i + encode_str(t).len())),
{
    let e = encode_str(t);
    let d = dec_digits(t.len());
    let dl = d.len() as int;
    let el = e.len() as int;
    let tl = t.len() as int;
    lemma_dec_digits(t.len());
    assert(el == dl + 1 + tl);
    assert forall|m: int| 0 <= m < el implies s[i + m] == e[m] by {
        assert(s.subrange(i, i + el)[m] == s[i + m]);
    }
    assert(e == (d + seq![':']) + t);
    assert forall|m: int| 0 <= m < dl implies e[m] == d[m] by {
        assert((d + seq![':'])[m] == d[m]);
    }
    assert(s.subrange(i, i + dl) =~= d);
    assert(e[dl] == ':') by {
        assert((d + seq![':'])[dl] == ':');
    }
    assert(s[i + dl] == ':');
    assert(!is_digit(':'));
    lemma_parse_number_exact(s, i, t.len());
    assert(s.subrange(i + dl + 1, i + dl + 1 + tl) =~= t) by {
        assert forall|m: int| 0 <= m < tl implies s.subrange(i + dl + 1, i + dl + 1 + tl)[m]
            == t[m] by {
            assert(e[dl + 1 + m] == t[m]);
            assert(s[i + dl + 1 + m] == e[dl + 1 + m]);
        }
    }
}

/// An encoded entry list embedded at `i` parses back to itself.
proof fn lemma_parse_entries_exact(s: Seq<char>, i: int, es: Seq<(Seq<char>, Seq<char>)>)
    requires
        0 <= i,
        i + encode_entries(es).len() <= s.len(),
        s.subrange(i, i + encode_entries(es).len()) == encode_entries(es),
    ensures
        parse_entries(s, i, es.len()) == Some((es, i + encode_entries(es).len())),
    decreases es.len(),
{
    let w = encode_entries(es);
    let wl = w.len() as int;
    assert forall|m: int| 0 <= m < wl implies s[i + m] == w[m] by {
        assert(s.subrange(i, i + wl)[m] == s[i + m]);
    }
    if es.len() == 0 {
        assert(es =~= Seq::<(Seq<char>, Seq<char>)>::empty());
    } else {
        let e0 = encode_str(es[0].0);
        let e1 = encode_str(es[0].1);
        let rest = encode_entries(es.drop_first());
        let l0 = e0.len() as int;
        let l1 = e1.len() as int;
        let lr = rest.len() as int;
        assert(w == (e0 + e1) + rest);
        assert(wl == l0 + l1 + lr);
        assert forall|m: int| 0 <= m < l0 implies w[m] == e0[m] by {
            assert((e0 + e1)[m] == e0[m]);
        }
        assert forall|m: int| 0 <= m < l1 implies w[l0 + m] == e1[m] by {
            assert((e0 + e1)[l0 + m] == e1[m]);
        }
        assert forall|m: int| 0 <= m < lr implies w[l0 + l1 + m] == rest[m] by {}
        assert(s.subrange(i, i + l0) =~= e0) by {
            assert forall|m: int| 0 <= m < l0 implies s.subrange(i, i + l0)[m] == e0[m] by {
                assert(s[i + m] == w[m]);
            }
        }
        lemma_parse_string_exact(s, i, es[0].0);
        assert(s.subrange(i + l0, i + l0 + l1) =~= e1) by {
            assert forall|m: int| 0 <= m < l1 implies s.subrange(i + l0, i + l0 + l1)[m]
                == e1[m] by {
                assert(s[i + l0 + m] == w[l0 + m]);
            }
        }
        lemma_parse_string_exact(s, i + l0, es[0].1);
        assert(s.subrange(i + l0 + l1, i + l0 + l1 + lr) =~= rest) by {
            assert forall|m: int| 0 <= m < lr implies s.subrange(i + l0 + l1, i + l0 + l1 + lr)[m]
                == rest[m] by {
                assert(s[i + l0 + l1 + m] == w[l0 + l1 + m]);
            }
        }
        lemma_parse_entries_exact(s, i + l0 + l1, es.drop_first());
        assert(seq![(es[0].0, es[0].1)] + es.drop_first() =~= es);
    }
}

/// A parsed entry list holds exactly as many entries as were demanded.
proof fn lemma_parse_entries_len(s: Seq<char>, i: int, n: nat)
    ensures
        parse_entries(s, i, n) matches Some(p) ==> p.0.len() == n,
    decreases n,
{
    if n > 0 {
        let ps1 = parse_string(s, i);
        if ps1 is Some {
            let ps2 = parse_string(s, ps1->Some_0.1);
            if ps2 is Some {
                lemma_parse_entries_len(s, ps2->Some_0.1, (n - 1) as nat);
            }
        }
    }
}

/// Round trip: the snapshot of any well-formed state decodes to exactly that
/// state.
pub proof fn lemma_encode_decode(es: Seq<(Seq<char>, Seq<char>)>, cap: nat)
    requires
        keys_unique(es),
        es.len() <= cap,
        1 <= cap <= usize::MAX as nat,
    ensures
        spec_decode(spec_encode(es, cap)) == Some((es, cap)),
{
    let s = spec_encode(es, cap);
    let dc = dec_digits(cap);
    let dn = dec_digits(es.len());
    let ee = encode_entries(es);
    let lc = dc.len() as int;
    let ln = dn.len() as int;
    let le = ee.len() as int;
    lemma_dec_digits(cap);
    lemma_dec_digits(es.len());
    let a1 = dc + seq![';'];
    let a2 = a1 + dn;
    let a3 = a2 + seq![';'];
    assert(s == a3 + ee);
    assert(s.len() == lc + 1 + ln + 1 + le);
    assert forall|m: int| 0 <= m < lc implies s[m] == dc[m] by {
        assert(a1[m] == dc[m]);
        assert(a2[m] == a1[m]);
        assert(a3[m] == a2[m]);
    }
    assert(s[lc] == ';') by {
        assert(a1[lc] == ';');
        assert(a2[lc] == a1[lc]);
        assert(a3[lc] == a2[lc]);
    }
    assert forall|m: int| 0 <= m < ln implies s[lc + 1 + m] == dn[m] by {
        assert(a2[lc + 1 + m] == dn[m]);
        assert(a3[lc + 1 + m] == a2[lc + 1 + m]);
    }
    assert(s[lc + 1 + ln] == ';') by {
        assert(a3[lc + 1 + ln] == ';');
    }
    assert forall|m: int| 0 <= m < le implies s[lc + 1 + ln + 1 + m] == ee[m] by {}
    assert(!is_digit(';'));
    assert(s.subrange(0, lc) =~= dc);
    lemma_parse_number_exact(s, 0, cap);
    assert(s.subrange(lc + 1, lc + 1 + ln) =~= dn);
    lemma_parse_number_exact(s, lc + 1, es.len());
    assert(s.subrange(lc + 1 + ln + 1, lc + 1 + ln + 1 + le) =~= ee);
    lemma_parse_entries_exact(s, lc + 1 + ln + 1, es);
}

/// Every state a snapshot decodes to satisfies the store's invariants.
pub proof fn lemma_decode_valid(s: Seq<char>)
    ensures
        spec_decode(s) matches Some(p) ==> keys_unique(p.0) && p.0.len() <= p.1 && 1 <= p.1
            <= usize::MAX as nat,
{
    if spec_decode(s) is Some {
        let pn1 = parse_number(s, 0);
        let cap = pn1->Some_0.0;
        let i1 = pn1->Some_0.1;
        let pn2 = parse_number(s, i1 + 1);
        let n = pn2->Some_0.0;
        let i2 = pn2->Some_0.1;
        lemma_parse_entries_len(s, i2 + 1, n);
    }
}

} // verus!
