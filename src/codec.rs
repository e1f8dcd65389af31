//! The record format an item is stored in: one JSON object with the item's
//! fields in a fixed order and without whitespace, e.g.
//! `{"id":1,"title":"a","body":"b","important":true,"urgent":false,"created":5,"modified":null,"deleted":null}`.
//!
//! `serialize` writes exactly `encoding(x)`; `deserialize` accepts exactly the
//! strings that `encoding` produces and gives back the item they encode.
use vstd::prelude::*;

use crate::error::RepoError;
use crate::item::{Item, ItemView, Timestamp};
use crate::text::chars_of;

verus! {

// ----------------------------------------------------------------
// The encoding, as a function on values

/// The digit character for `d < 10`.
pub open spec fn digit_char(d: nat) -> char {
    ((48 + d) as u8) as char
}

pub open spec fn is_digit(c: char) -> bool {
    '0' <= c && c <= '9'
}

/// The decimal numeral of `n`, without leading zeros.
pub open spec fn decimal(n: nat) -> Seq<char>
    decreases n,
{
    if n < 10 {
        seq![digit_char(n)]
    } else {
        decimal(n / 10).push(digit_char(n % 10))
    }
}

/// A signed integer: a minus sign before negative values.
pub open spec fn int_text(n: int) -> Seq<char> {
    if n < 0 {
        seq!['-'] + decimal((-n) as nat)
    } else {
        decimal(n as nat)
    }
}

pub open spec fn bool_text(b: bool) -> Seq<char> {
    if b {
        seq!['t', 'r', 'u', 'e']
    } else {
        seq!['f', 'a', 'l', 's', 'e']
    }
}

pub open spec fn null_text() -> Seq<char> {
    seq!['n', 'u', 'l', 'l']
}

/// An optional timestamp: `null` when unset.
pub open spec fn opt_text(t: Option<Timestamp>) -> Seq<char> {
    match t {
        Some(v) => int_text(v as int),
        None => null_text(),
    }
}

/// The lower-case hexadecimal digit for `d < 16`.
pub open spec fn hex_char(d: nat) -> char {
    if d < 10 {
        digit_char(d)
    } else {
        ((87 + d) as u8) as char
    }
}

/// How one character stands inside a quoted string: the quote and the
/// backslash behind a backslash, control characters as `\u00XX`, every other
/// character as itself.
pub open spec fn escape_char(c: char) -> Seq<char> {
    if c == '"' {
        seq!['\\', '"']
    } else if c == '\\' {
        seq!['\\', '\\']
    } else if (c as u32) < 32 {
        seq!['\\', 'u', '0', '0', hex_char((c as u32 / 16) as nat), hex_char((c as u32 % 16) as nat)]
    } else {
        seq![c]
    }
}

pub open spec fn escaped(t: Seq<char>) -> Seq<char>
    decreases t.len(),
{
    if t.len() == 0 {
        Seq::empty()
    } else {
        escaped(t.drop_last()) + escape_char(t.last())
    }
}

pub open spec fn quoted(t: Seq<char>) -> Seq<char> {
    seq!['"'] + escaped(t) + seq!['"']
}

pub open spec fn key_id() -> Seq<char> {
    seq!['{', '"', 'i', 'd', '"', ':']
}

pub open spec fn key_title() -> Seq<char> {
    seq![',', '"', 't', 'i', 't', 'l', 'e', '"', ':']
}

pub open spec fn key_body() -> Seq<char> {
    seq![',', '"', 'b', 'o', 'd', 'y', '"', ':']
}

pub open spec fn key_important() -> Seq<char> {
    seq![',', '"', 'i', 'm', 'p', 'o', 'r', 't', 'a', 'n', 't', '"', ':']
}

pub open spec fn key_urgent() -> Seq<char> {
    seq![',', '"', 'u', 'r', 'g', 'e', 'n', 't', '"', ':']
}

pub open spec fn key_created() -> Seq<char> {
    seq![',', '"', 'c', 'r', 'e', 'a', 't', 'e', 'd', '"', ':']
}

pub open spec fn key_modified() -> Seq<char> {
    seq![',', '"', 'm', 'o', 'd', 'i', 'f', 'i', 'e', 'd', '"', ':']
}

pub open spec fn key_deleted() -> Seq<char> {
    seq![',', '"', 'd', 'e', 'l', 'e', 't', 'e', 'd', '"', ':']
}

pub open spec fn close_brace() -> Seq<char> {
    seq!['}']
}

// The record, written from its last field back to its first, so that each
// step is one field's text in front of the rest.
pub open spec fn enc_deleted(x: ItemView) -> Seq<char> {
    key_deleted() + (opt_text(x.deleted) + close_brace())
}

pub open spec fn enc_modified(x: ItemView) -> Seq<char> {
    key_modified() + (opt_text(x.modified) + enc_deleted(x))
}

pub open spec fn enc_created(x: ItemView) -> Seq<char> {
    key_created() + (int_text(x.created as int) + enc_modified(x))
}

pub open spec fn enc_urgent(x: ItemView) -> Seq<char> {
    key_urgent() + (bool_text(x.urgent) + enc_created(x))
}

pub open spec fn enc_important(x: ItemView) -> Seq<char> {
    key_important() + (bool_text(x.important) + enc_urgent(x))
}

pub open spec fn enc_body(x: ItemView) -> Seq<char> {
    key_body() + (quoted(x.body) + enc_important(x))
}

pub open spec fn enc_title(x: ItemView) -> Seq<char> {
    key_title() + (quoted(x.title) + enc_body(x))
}

/// The stored text of an item.
pub open spec fn encoding(x: ItemView) -> Seq<char> {
    key_id() + (decimal(x.id as nat) + enc_title(x))
}

/// The item a record holds, if it is the encoding of one.
pub open spec fn decoding(s: Seq<char>) -> Option<ItemView> {
    if exists|x: ItemView| encoding(x) == s {
        Some(choose|x: ItemView| encoding(x) == s)
    } else {
        None
    }
}

// ----------------------------------------------------------------
// The encoding is one-to-one

/// The number a string of decimal digits denotes.
pub open spec fn digits_value(ds: Seq<char>) -> nat
    decreases ds.len(),
{
    if ds.len() == 0 {
        0
    } else {
        digits_value(ds.drop_last()) * 10 + ((ds.last() as u32 - 48) as nat)
    }
}

proof fn lemma_cancel(a1: Seq<char>, r1: Seq<char>, a2: Seq<char>, r2: Seq<char>)
    requires
        a1 + r1 == a2 + r2,
        a1.len() == a2.len(),
    ensures
        a1 == a2,
        r1 == r2,
{
    assert(a1 =~= (a1 + r1).subrange(0, a1.len() as int));
    assert(a2 =~= (a2 + r2).subrange(0, a2.len() as int));
    assert(r1 =~= (a1 + r1).subrange(a1.len() as int, (a1 + r1).len() as int));
    assert(r2 =~= (a2 + r2).subrange(a2.len() as int, (a2 + r2).len() as int));
}

proof fn lemma_decimal(n: nat)
    ensures
        decimal(n).len() >= 1,
        forall|i: int| 0 <= i < decimal(n).len() ==> is_digit(#[trigger] decimal(n)[i]),
        digits_value(decimal(n)) == n,
    decreases n,
{
    let d = digit_char(n % 10);
    assert((d as u32) == 48 + n % 10);
    assert(decimal(n).last() == d);
    assert(digits_value(decimal(n)) == digits_value(decimal(n).drop_last()) * 10 + ((d as u32 - 48) as nat));
    if n >= 10 {
        lemma_decimal(n / 10);
        assert(decimal(n).drop_last() =~= decimal(n / 10));
        assert(decimal(n).last() == d);
    } else {
        assert(decimal(n).drop_last() =~= Seq::<char>::empty());
        assert(digits_value(Seq::<char>::empty()) == 0);
    }
}

proof fn lemma_decimal_unique(a: nat, r1: Seq<char>, b: nat, r2: Seq<char>)
    requires
        decimal(a) + r1 == decimal(b) + r2,
        r1.len() > 0 && !is_digit(r1[0]),
        r2.len() > 0 && !is_digit(r2[0]),
    ensures
        a == b,
        r1 == r2,
{
    lemma_decimal(a);
    lemma_decimal(b);
    let la = decimal(a).len();
    let lb = decimal(b).len();
    if la < lb {
        assert((decimal(a) + r1)[la as int] == r1[0]);
        assert((decimal(b) + r2)[la as int] == decimal(b)[la as int]);
    } else if lb < la {
        assert((decimal(b) + r2)[lb as int] == r2[0]);
        assert((decimal(a) + r1)[lb as int] == decimal(a)[lb as int]);
    }
    lemma_cancel(decimal(a), r1, decimal(b), r2);
}

proof fn lemma_int_unique(a: int, r1: Seq<char>, b: int, r2: Seq<char>)
    requires
        int_text(a) + r1 == int_text(b) + r2,
        r1.len() > 0 && !is_digit(r1[0]),
        r2.len() > 0 && !is_digit(r2[0]),
    ensures
        a == b,
        r1 == r2,
{
    lemma_decimal((-a) as nat);
    lemma_decimal((-b) as nat);
    lemma_decimal(a as nat);
    lemma_decimal(b as nat);
    if a < 0 && b < 0 {
        assert(int_text(a) + r1 =~= seq!['-'] + (decimal((-a) as nat) + r1));
        assert(int_text(b) + r2 =~= seq!['-'] + (decimal((-b) as nat) + r2));
        lemma_cancel(seq!['-'], decimal((-a) as nat) + r1, seq!['-'], decimal((-b) as nat) + r2);
        lemma_decimal_unique((-a) as nat, r1, (-b) as nat, r2);
    } else if a < 0 {
        assert((int_text(a) + r1)[0] == '-');
        assert((int_text(b) + r2)[0] == decimal(b as nat)[0]);
    } else if b < 0 {
        assert((int_text(b) + r2)[0] == '-');
        assert((int_text(a) + r1)[0] == decimal(a as nat)[0]);
    } else {
        lemma_decimal_unique(a as nat, r1, b as nat, r2);
    }
}

proof fn lemma_bool_unique(a: bool, r1: Seq<char>, b: bool, r2: Seq<char>)
    requires
        bool_text(a) + r1 == bool_text(b) + r2,
    ensures
        a == b,
        r1 == r2,
{
    assert((bool_text(a) + r1)[0] == bool_text(a)[0]);
    assert((bool_text(b) + r2)[0] == bool_text(b)[0]);
    lemma_cancel(bool_text(a), r1, bool_text(b), r2);
}

proof fn lemma_opt_unique(a: Option<Timestamp>, r1: Seq<char>, b: Option<Timestamp>, r2: Seq<char>)
    requires
        opt_text(a) + r1 == opt_text(b) + r2,
        r1.len() > 0 && !is_digit(r1[0]),
        r2.len() > 0 && !is_digit(r2[0]),
    ensures
        a == b,
        r1 == r2,
{
    match (a, b) {
        (Some(u), Some(v)) => {
            lemma_int_unique(u as int, r1, v as int, r2);
        },
        (None, None) => {
            lemma_cancel(null_text(), r1, null_text(), r2);
        },
        (Some(u), None) => {
            lemma_decimal((-u) as nat);
            lemma_decimal(u as nat);
            assert((opt_text(b) + r2)[0] == 'n');
            assert((opt_text(a) + r1)[0] == int_text(u as int)[0]);
        },
        (None, Some(v)) => {
            lemma_decimal((-v) as nat);
            lemma_decimal(v as nat);
            assert((opt_text(a) + r1)[0] == 'n');
            assert((opt_text(b) + r2)[0] == int_text(v as int)[0]);
        },
    }
}

proof fn lemma_hex_unique(a: nat, b: nat)
    requires
        a < 16,
        b < 16,
        hex_char(a) == hex_char(b),
    ensures
        a == b,
{
}

proof fn lemma_escape_char_unique(a: char, s1: Seq<char>, b: char, s2: Seq<char>)
    requires
        escape_char(a) + s1 == escape_char(b) + s2,
    ensures
        a == b,
        s1 == s2,
{
    let s = escape_char(a) + s1;
    assert(s[0] == escape_char(a)[0]);
    assert(s[0] == escape_char(b)[0]);
    if escape_char(a).len() > 1 {
        assert(s[1] == escape_char(a)[1]);
    }
    if escape_char(b).len() > 1 {
        assert(s[1] == escape_char(b)[1]);
    }
    if (a as u32) < 32 && (b as u32) < 32 && a != '"' && a != '\\' && b != '"' && b != '\\' {
        assert(s[4] == escape_char(a)[4]);
        assert(s[4] == escape_char(b)[4]);
        assert(s[5] == escape_char(a)[5]);
        assert(s[5] == escape_char(b)[5]);
        lemma_hex_unique((a as u32 / 16) as nat, (b as u32 / 16) as nat);
        lemma_hex_unique((a as u32 % 16) as nat, (b as u32 % 16) as nat);
    }
    lemma_cancel(escape_char(a), s1, escape_char(b), s2);
}

proof fn lemma_escaped_concat(a: Seq<char>, b: Seq<char>)
    ensures
        escaped(a + b) == escaped(a) + escaped(b),
    decreases b.len(),
{
    if b.len() == 0 {
        assert(a + b =~= a);
        assert(escaped(a) + escaped(b) =~= escaped(a));
    } else {
        lemma_escaped_concat(a, b.drop_last());
        assert((a + b).drop_last() =~= a + b.drop_last());
        assert((a + b).last() == b.last());
        assert(escaped(a + b) =~= escaped(a) + escaped(b));
    }
}

proof fn lemma_escaped_front(t: Seq<char>)
    requires
        t.len() > 0,
    ensures
        escaped(t) == escape_char(t[0]) + escaped(t.drop_first()),
{
    assert(t =~= seq![t[0]] + t.drop_first());
    lemma_escaped_concat(seq![t[0]], t.drop_first());
    assert(seq![t[0]].drop_last() =~= Seq::<char>::empty());
    assert(escaped(Seq::<char>::empty()) =~= Seq::<char>::empty());
    assert(seq![t[0]].last() == t[0]);
    assert(escaped(seq![t[0]]) =~= escape_char(t[0]));
}

proof fn lemma_escaped_unique(t1: Seq<char>, u1: Seq<char>, t2: Seq<char>, u2: Seq<char>)
    requires
        escaped(t1) + u1 == escaped(t2) + u2,
        u1.len() > 0 && u1[0] == '"',
        u2.len() > 0 && u2[0] == '"',
    ensures
        t1 == t2,
        u1 == u2,
    decreases t1.len(),
{
    if t1.len() == 0 && t2.len() == 0 {
        lemma_cancel(escaped(t1), u1, escaped(t2), u2);
    } else if t1.len() == 0 {
        lemma_escaped_front(t2);
        assert((escaped(t1) + u1)[0] == u1[0]);
        assert((escaped(t2) + u2)[0] == escape_char(t2[0])[0]);
    } else if t2.len() == 0 {
        lemma_escaped_front(t1);
        assert((escaped(t2) + u2)[0] == u2[0]);
        assert((escaped(t1) + u1)[0] == escape_char(t1[0])[0]);
    } else {
        lemma_escaped_front(t1);
        lemma_escaped_front(t2);
        assert(escaped(t1) + u1 =~= escape_char(t1[0]) + (escaped(t1.drop_first()) + u1));
        assert(escaped(t2) + u2 =~= escape_char(t2[0]) + (escaped(t2.drop_first()) + u2));
        lemma_escape_char_unique(t1[0], escaped(t1.drop_first()) + u1, t2[0], escaped(t2.drop_first()) + u2);
        lemma_escaped_unique(t1.drop_first(), u1, t2.drop_first(), u2);
        assert(t1 =~= seq![t1[0]] + t1.drop_first());
        assert(t2 =~= seq![t2[0]] + t2.drop_first());
    }
}

proof fn lemma_quoted_unique(t1: Seq<char>, r1: Seq<char>, t2: Seq<char>, r2: Seq<char>)
    requires
        quoted(t1) + r1 == quoted(t2) + r2,
    ensures
        t1 == t2,
        r1 == r2,
{
    let q = seq!['"'];
    assert(quoted(t1) + r1 =~= q + (escaped(t1) + (q + r1)));
    assert(quoted(t2) + r2 =~= q + (escaped(t2) + (q + r2)));
    lemma_cancel(q, escaped(t1) + (q + r1), q, escaped(t2) + (q + r2));
    lemma_escaped_unique(t1, q + r1, t2, q + r2);
    lemma_cancel(q, r1, q, r2);
}

/// Two items with the same encoding are the same item.
pub proof fn lemma_encoding_injective(x: ItemView, y: ItemView)
    requires
        encoding(x) == encoding(y),
    ensures
        x == y,
{
    lemma_cancel(key_id(), decimal(x.id as nat) + enc_title(x), key_id(), decimal(y.id as nat) + enc_title(y));
    lemma_decimal_unique(x.id as nat, enc_title(x), y.id as nat, enc_title(y));
    lemma_cancel(key_title(), quoted(x.title) + enc_body(x), key_title(), quoted(y.title) + enc_body(y));
    lemma_quoted_unique(x.title, enc_body(x), y.title, enc_body(y));
    lemma_cancel(key_body(), quoted(x.body) + enc_important(x), key_body(), quoted(y.body) + enc_important(y));
    lemma_quoted_unique(x.body, enc_important(x), y.body, enc_important(y));
    lemma_cancel(key_important(), bool_text(x.important) + enc_urgent(x), key_important(), bool_text(y.important) + enc_urgent(y));
    lemma_bool_unique(x.important, enc_urgent(x), y.important, enc_urgent(y));
    lemma_cancel(key_urgent(), bool_text(x.urgent) + enc_created(x), key_urgent(), bool_text(y.urgent) + enc_created(y));
    lemma_bool_unique(x.urgent, enc_created(x), y.urgent, enc_created(y));
    lemma_cancel(key_created(), int_text(x.created as int) + enc_modified(x), key_created(), int_text(y.created as int) + enc_modified(y));
    lemma_int_unique(x.created as int, enc_modified(x), y.created as int, enc_modified(y));
    lemma_cancel(key_modified(), opt_text(x.modified) + enc_deleted(x), key_modified(), opt_text(y.modified) + enc_deleted(y));
    lemma_opt_unique(x.modified, enc_deleted(x), y.modified, enc_deleted(y));
    lemma_cancel(key_deleted(), opt_text(x.deleted) + close_brace(), key_deleted(), opt_text(y.deleted) + close_brace());
    lemma_opt_unique(x.deleted, close_brace(), y.deleted, close_brace());
}

/// Decoding an item's encoding gives back the item, field for field.
pub proof fn lemma_round_trip(x: ItemView)
    ensures
        decoding(encoding(x)) == Some(x),
{
    let y = choose|y: ItemView| encoding(y) == encoding(x);
    lemma_encoding_injective(x, y);
}

// ----------------------------------------------------------------
// Writing

fn digit(d: u64) -> (c: char)
    requires
        d < 10,
    ensures
        c == digit_char(d as nat),
{
    ((48 + d) as u8) as char
}

fn hex_digit(d: u32) -> (c: char)
    requires
        d < 16,
    ensures
        c == hex_char(d as nat),
{
    if d < 10 {
        ((48 + d) as u8) as char
    } else {
        ((87 + d) as u8) as char
    }
}

fn push_decimal(s: &mut String, n: u64)
    ensures
        final(s)@ == old(s)@ + decimal(n as nat),
    decreases n,
{
    if n >= 10 {
        push_decimal(s, n / 10);
    }
    s.push(digit(n % 10));
    assert(final(s)@ =~= old(s)@ + decimal(n as nat));
}

fn push_int(s: &mut String, n: i64)
    ensures
        final(s)@ == old(s)@ + int_text(n as int),
{
    if n < 0 {
        s.push('-');
        let m: u64 = if n == i64::MIN {
            9223372036854775808u64
        } else {
            (-n) as u64
        };
        push_decimal(s, m);
        assert(final(s)@ =~= old(s)@ + int_text(n as int));
    } else {
        push_decimal(s, n as u64);
    }
}

fn push_bool(s: &mut String, b: bool)
    ensures
        final(s)@ == old(s)@ + bool_text(b),
{
    if b {
        s.append("true");
        proof {
            reveal_strlit("true");
        }
    } else {
        s.append("false");
        proof {
            reveal_strlit("false");
        }
    }
    assert(final(s)@ =~= old(s)@ + bool_text(b));
}

fn push_opt(s: &mut String, t: Option<Timestamp>)
    ensures
        final(s)@ == old(s)@ + opt_text(t),
{
    match t {
        Some(v) => push_int(s, v),
        None => {
            s.append("null");
            proof {
                reveal_strlit("null");
            }
            assert(final(s)@ =~= old(s)@ + null_text());
        },
    }
}

fn push_escaped_char(s: &mut String, c: char)
    ensures
        final(s)@ == old(s)@ + escape_char(c),
{
    if c == '"' {
        s.push('\\');
        s.push('"');
    } else if c == '\\' {
        s.push('\\');
        s.push('\\');
    } else if (c as u32) < 32 {
        s.push('\\');
        s.push('u');
        s.push('0');
        s.push('0');
        s.push(hex_digit(c as u32 / 16));
        s.push(hex_digit(c as u32 % 16));
    } else {
        s.push(c);
    }
    assert(final(s)@ =~= old(s)@ + escape_char(c));
}

fn push_quoted(s: &mut String, t: &str)
    ensures
        final(s)@ == old(s)@ + quoted(t@),
{
    let cs = chars_of(t);
    s.push('"');
    let ghost start = s@;
    let mut i: usize = 0;
    while i < cs.len()
        invariant
            cs@ == t@,
            i <= cs.len(),
            s@ == start + escaped(cs@.subrange(0, i as int)),
        decreases cs.len() - i,
    {
        push_escaped_char(s, cs[i]);
        assert(cs@.subrange(0, i + 1).drop_last() =~= cs@.subrange(0, i as int));
        i = i + 1;
    }
    s.push('"');
    assert(cs@.subrange(0, cs.len() as int) =~= cs@);
    assert(final(s)@ =~= old(s)@ + quoted(t@));
}

fn push_enc_deleted(s: &mut String, x: &Item)
    ensures
        final(s)@ == old(s)@ + enc_deleted(x@),
{
    s.append(",\"deleted\":");
    push_opt(s, x.deleted);
    s.append("}");
    proof {
        reveal_strlit(",\"deleted\":");
        reveal_strlit("}");
    }
    assert(final(s)@ =~= old(s)@ + enc_deleted(x@));
}

fn push_enc_modified(s: &mut String, x: &Item)
    ensures
        final(s)@ == old(s)@ + enc_modified(x@),
{
    s.append(",\"modified\":");
    push_opt(s, x.modified);
    push_enc_deleted(s, x);
    proof {
        reveal_strlit(",\"modified\":");
    }
    assert(final(s)@ =~= old(s)@ + enc_modified(x@));
}

fn push_enc_created(s: &mut String, x: &Item)
    ensures
        final(s)@ == old(s)@ + enc_created(x@),
{
    s.append(",\"created\":");
    push_int(s, x.created);
    push_enc_modified(s, x);
    proof {
        reveal_strlit(",\"created\":");
    }
    assert(final(s)@ =~= old(s)@ + enc_created(x@));
}

fn push_enc_urgent(s: &mut String, x: &Item)
    ensures
        final(s)@ == old(s)@ + enc_urgent(x@),
{
    s.append(",\"urgent\":");
    push_bool(s, x.urgent);
    push_enc_created(s, x);
    proof {
        reveal_strlit(",\"urgent\":");
    }
    assert(final(s)@ =~= old(s)@ + enc_urgent(x@));
}

fn push_enc_important(s: &mut String, x: &Item)
    ensures
        final(s)@ == old(s)@ + enc_important(x@),
{
    s.append(",\"important\":");
    push_bool(s, x.important);
    push_enc_urgent(s, x);
    proof {
        reveal_strlit(",\"important\":");
    }
    assert(final(s)@ =~= old(s)@ + enc_important(x@));
}

fn push_enc_body(s: &mut String, x: &Item)
    ensures
        final(s)@ == old(s)@ + enc_body(x@),
{
    s.append(",\"body\":");
    push_quoted(s, x.body.as_str());
    push_enc_important(s, x);
    proof {
        reveal_strlit(",\"body\":");
    }
    assert(final(s)@ =~= old(s)@ + enc_body(x@));
}

fn push_enc_title(s: &mut String, x: &Item)
    ensures
        final(s)@ == old(s)@ + enc_title(x@),
{
    s.append(",\"title\":");
    push_quoted(s, x.title.as_str());
    push_enc_body(s, x);
    proof {
        reveal_strlit(",\"title\":");
    }
    assert(final(s)@ =~= old(s)@ + enc_title(x@));
}

impl Item {
    /// The stored text of the item.
    pub fn serialize(&self) -> (r: String)
        ensures
            r@ == encoding(self@),
    {
        let mut s = String::new();
        s.append("{\"id\":");
        push_decimal(&mut s, self.id as u64);
        push_enc_title(&mut s, self);
        proof {
            reveal_strlit("{\"id\":");
        }
        assert(s@ =~= encoding(self@));
        s
    }
}

// ----------------------------------------------------------------
// Reading
//
// Each reader takes the position to read at, and, as ghost arguments, the
// value and the text after it that a canonical record would hold there. It
// promises to return that value whenever the text really is there; on other
// input it may return anything, which `deserialize` catches by writing the
// value back and comparing.

spec fn tail(cs: Seq<char>, pos: int) -> Seq<char> {
    cs.subrange(pos, cs.len() as int)
}

proof fn lemma_tail_skip(cs: Seq<char>, pos: int, a: Seq<char>, rest: Seq<char>)
    requires
        0 <= pos <= cs.len(),
        tail(cs, pos) == a + rest,
    ensures
        pos + a.len() <= cs.len(),
        tail(cs, pos + a.len()) == rest,
        forall|j: int| 0 <= j < a.len() ==> cs[pos + j] == a[j],
        a.len() > 0 ==> pos < cs.len() && cs[pos] == a[0],
{
    let t = cs.subrange(pos, cs.len() as int);
    assert(t.len() == cs.len() - pos);
    assert(t.len() == a.len() + rest.len());
    assert forall|j: int| 0 <= j < a.len() implies cs[pos + j] == a[j] by {
        assert(t[j] == (a + rest)[j]);
    }
    assert(tail(cs, pos + a.len()) =~= rest) by {
        assert forall|j: int| 0 <= j < rest.len() implies tail(cs, pos + a.len())[j] == rest[j] by {
            assert(t[a.len() + j] == (a + rest)[a.len() + j]);
        }
    }
}

fn expect(cs: &Vec<char>, pos: usize, lit: &str, Ghost(rest): Ghost<Seq<char>>) -> (r: Option<usize>)
    requires
        pos <= cs.len(),
    ensures
        r matches Some(p) ==> p <= cs.len(),
        tail(cs@, pos as int) == lit@ + rest ==> r == Some((pos + lit@.len()) as usize) && tail(
            cs@,
            pos + lit@.len(),
        ) == rest,
{
    let ls = chars_of(lit);
    let ghost good = tail(cs@, pos as int) == lit@ + rest;
    proof {
        if good {
            lemma_tail_skip(cs@, pos as int, lit@, rest);
        }
    }
    let mut j: usize = 0;
    while j < ls.len()
        invariant
            good == (tail(cs@, pos as int) == lit@ + rest),
            ls@ == lit@,
            pos <= cs.len(),
            j <= ls.len(),
            pos + j <= cs.len(),
            good ==> pos + ls.len() <= cs.len() && forall|k: int| 0 <= k < ls.len() ==> cs@[pos + k] == ls@[k],
        decreases ls.len() - j,
    {
        if pos + j >= cs.len() {
            return None;
        }
        let c = cs[pos + j];
        let l = ls[j];
        proof {
            if good {
                assert(cs@[pos + j] == ls@[j as int]);
                assert(c == l);
            }
        }
        if c != l {
            return None;
        }
        j = j + 1;
    }
    Some(pos + j)
}

pub(crate) proof fn lemma_prefix_value(ds: Seq<char>, k: int)
    requires
        0 <= k <= ds.len(),
    ensures
        digits_value(ds.subrange(0, k)) <= digits_value(ds),
    decreases ds.len(),
{
    if k < ds.len() {
        assert(ds.subrange(0, k) =~= ds.drop_last().subrange(0, k));
        lemma_prefix_value(ds.drop_last(), k);
    } else {
        assert(ds.subrange(0, k) =~= ds);
    }
}

fn parse_u64(cs: &Vec<char>, pos: usize, Ghost(n): Ghost<nat>, Ghost(rest): Ghost<Seq<char>>) -> (r: Option<(u64, usize)>)
    requires
        pos <= cs.len(),
    ensures
        r matches Some((_, p)) ==> p <= cs.len(),
        tail(cs@, pos as int) == decimal(n) + rest && n <= u64::MAX && rest.len() > 0 && !is_digit(rest[0])
            ==> (r matches Some((v, p)) && v == n && tail(cs@, p as int) == rest),
{
    let ghost good = tail(cs@, pos as int) == decimal(n) + rest && n <= u64::MAX && rest.len() > 0
        && !is_digit(rest[0]);
    let ghost dn = decimal(n);
    proof {
        if good {
            lemma_decimal(n);
            lemma_tail_skip(cs@, pos as int, dn, rest);
            lemma_tail_skip(cs@, pos + dn.len(), rest, Seq::empty());
            assert(rest + Seq::<char>::empty() =~= rest);
            assert(is_digit(dn[0]));
        }
    }
    if pos >= cs.len() || !('0' <= cs[pos] && cs[pos] <= '9') {
        return None;
    }
    let mut acc: u64 = 0;
    let mut i: usize = pos;
    while i < cs.len() && '0' <= cs[i] && cs[i] <= '9'
        invariant
            good == (tail(cs@, pos as int) == decimal(n) + rest && n <= u64::MAX && rest.len() > 0
                && !is_digit(rest[0])),
            dn == decimal(n),
            pos <= i <= cs.len(),
            good ==> i - pos <= dn.len() && acc == digits_value(dn.subrange(0, i - pos)) && pos + dn.len()
                < cs.len() && (forall|k: int| 0 <= k < dn.len() ==> cs@[pos + k] == dn[k]) && !is_digit(
                cs@[pos + dn.len()],
            ) && (forall|k: int| 0 <= k < dn.len() ==> is_digit(#[trigger] dn[k])) && digits_value(dn) == n,
        decreases cs.len() - i,
    {
        let d = cs[i] as u32 as u64 - 48;
        proof {
            if good {
                let k = i - pos;
                assert(k < dn.len()) by {
                    if k >= dn.len() {
                        assert(k == dn.len());
                    }
                }
                assert(cs@[pos + k] == dn[k]);
                let sub = dn.subrange(0, k + 1);
                assert(sub.drop_last() =~= dn.subrange(0, k));
                assert(sub.last() == cs@[i as int]);
                assert(digits_value(sub) == digits_value(sub.drop_last()) * 10 + ((sub.last() as u32 - 48) as nat));
                lemma_prefix_value(dn, k + 1);
                assert(acc * 10 + d <= u64::MAX);
                assert(acc <= (u64::MAX - d) / 10) by (nonlinear_arith)
                    requires
                        acc * 10 + d <= u64::MAX,
                        d <= 9,
                ;
            }
        }
        if acc > (u64::MAX - d) / 10 {
            return None;
        }
        assert(acc * 10 + d <= u64::MAX) by (nonlinear_arith)
            requires
                acc <= (u64::MAX - d) / 10,
                d <= 9,
        ;
        acc = acc * 10 + d;
        i = i + 1;
    }
    proof {
        if good {
            assert(i - pos == dn.len()) by {
                if i - pos < dn.len() {
                    assert(cs@[pos + (i - pos)] == dn[i - pos]);
                    assert(is_digit(dn[i - pos]));
                }
            }
            assert(dn.subrange(0, dn.len() as int) =~= dn);
        }
    }
    Some((acc, i))
}

fn parse_u32(cs: &Vec<char>, pos: usize, Ghost(n): Ghost<u32>, Ghost(rest): Ghost<Seq<char>>) -> (r: Option<(u32, usize)>)
    requires
        pos <= cs.len(),
    ensures
        r matches Some((_, p)) ==> p <= cs.len(),
        tail(cs@, pos as int) == decimal(n as nat) + rest && rest.len() > 0 && !is_digit(rest[0])
            ==> (r matches Some((v, p)) && v == n && tail(cs@, p as int) == rest),
{
    match parse_u64(cs, pos, Ghost(n as nat), Ghost(rest)) {
        Some((v, p)) => {
            if v <= u32::MAX as u64 {
                Some((v as u32, p))
            } else {
                None
            }
        },
        None => None,
    }
}

fn parse_i64(cs: &Vec<char>, pos: usize, Ghost(n): Ghost<i64>, Ghost(rest): Ghost<Seq<char>>) -> (r: Option<(i64, usize)>)
    requires
        pos <= cs.len(),
    ensures
        r matches Some((_, p)) ==> p <= cs.len(),
        tail(cs@, pos as int) == int_text(n as int) + rest && rest.len() > 0 && !is_digit(rest[0])
            ==> (r matches Some((v, p)) && v == n && tail(cs@, p as int) == rest),
{
    let ghost good = tail(cs@, pos as int) == int_text(n as int) + rest && rest.len() > 0 && !is_digit(
        rest[0],
    );
    proof {
        if good {
            if n < 0 {
                lemma_decimal((-n) as nat);
            } else {
                lemma_decimal(n as nat);
            }
            lemma_tail_skip(cs@, pos as int, int_text(n as int), rest);
        }
    }
    if pos < cs.len() && cs[pos] == '-' {
        proof {
            if good {
                assert(n < 0);
                assert(int_text(n as int) + rest =~= seq!['-'] + (decimal((-n) as nat) + rest));
                lemma_tail_skip(cs@, pos as int, seq!['-'], decimal((-n) as nat) + rest);
            }
        }
        match parse_u64(cs, pos + 1, Ghost((-n) as nat), Ghost(rest)) {
            Some((m, p)) => {
                if m < 9223372036854775808u64 {
                    Some((-(m as i64), p))
                } else if m == 9223372036854775808u64 {
                    Some((i64::MIN, p))
                } else {
                    None
                }
            },
            None => None,
        }
    } else {
        proof {
            if good {
                assert(n >= 0);
            }
        }
        match parse_u64(cs, pos, Ghost(n as nat), Ghost(rest)) {
            Some((m, p)) => {
                if m <= i64::MAX as u64 {
                    Some((m as i64, p))
                } else {
                    None
                }
            },
            None => None,
        }
    }
}

fn parse_bool(cs: &Vec<char>, pos: usize, Ghost(b): Ghost<bool>, Ghost(rest): Ghost<Seq<char>>) -> (r: Option<(bool, usize)>)
    requires
        pos <= cs.len(),
    ensures
        r matches Some((_, p)) ==> p <= cs.len(),
        tail(cs@, pos as int) == bool_text(b) + rest ==> (r matches Some((v, p)) && v == b && tail(cs@, p as int) == rest),
{
    proof {
        reveal_strlit("true");
        reveal_strlit("false");
        assert("true"@ =~= bool_text(true));
        assert("false"@ =~= bool_text(false));
        if tail(cs@, pos as int) == bool_text(b) + rest {
            lemma_tail_skip(cs@, pos as int, bool_text(b), rest);
        }
    }
    if pos < cs.len() && cs[pos] == 't' {
        match expect(cs, pos, "true", Ghost(rest)) {
            Some(p) => Some((true, p)),
            None => None,
        }
    } else {
        match expect(cs, pos, "false", Ghost(rest)) {
            Some(p) => Some((false, p)),
            None => None,
        }
    }
}

fn parse_opt(cs: &Vec<char>, pos: usize, Ghost(t): Ghost<Option<Timestamp>>, Ghost(rest): Ghost<Seq<char>>) -> (r: Option<(Option<Timestamp>, usize)>)
    requires
        pos <= cs.len(),
    ensures
        r matches Some((_, p)) ==> p <= cs.len(),
        tail(cs@, pos as int) == opt_text(t) + rest && rest.len() > 0 && !is_digit(rest[0])
            ==> (r matches Some((v, p)) && v == t && tail(cs@, p as int) == rest),
{
    let ghost good = tail(cs@, pos as int) == opt_text(t) + rest && rest.len() > 0 && !is_digit(rest[0]);
    proof {
        reveal_strlit("null");
        assert("null"@ =~= null_text());
        if good {
            if let Some(v) = t {
                if v < 0 {
                    lemma_decimal((-v) as nat);
                } else {
                    lemma_decimal(v as nat);
                }
            }
            lemma_tail_skip(cs@, pos as int, opt_text(t), rest);
        }
    }
    if pos < cs.len() && cs[pos] == 'n' {
        match expect(cs, pos, "null", Ghost(rest)) {
            Some(p) => Some((None, p)),
            None => None,
        }
    } else {
        let ghost v: i64 = match t {
            Some(v) => v,
            None => 0,
        };
        match parse_i64(cs, pos, Ghost(v), Ghost(rest)) {
            Some((v, p)) => Some((Some(v), p)),
            None => None,
        }
    }
}

proof fn lemma_same_code(a: char, b: char)
    requires
        a as u32 == b as u32,
    ensures
        a == b,
{
}

fn hex_value(c: char) -> (r: Option<u32>)
    ensures
        r matches Some(v) ==> v < 16,
        forall|d: nat| d < 16 && c == #[trigger] hex_char(d) ==> r == Some(d as u32),
{
    if '0' <= c && c <= '9' {
        Some(c as u32 - 48)
    } else if 'a' <= c && c <= 'f' {
        Some(c as u32 - 87)
    } else {
        None
    }
}

fn parse_quoted(cs: &Vec<char>, pos: usize, Ghost(t): Ghost<Seq<char>>, Ghost(rest): Ghost<Seq<char>>) -> (r: Option<(String, usize)>)
    requires
        pos <= cs.len(),
    ensures
        r matches Some((_, p)) ==> p <= cs.len(),
        tail(cs@, pos as int) == quoted(t) + rest ==> (r matches Some((v, p)) && v@ == t && tail(cs@, p as int) == rest),
{
    let ghost good = tail(cs@, pos as int) == quoted(t) + rest;
    let ghost q = seq!['"'];
    proof {
        if good {
            assert(quoted(t) + rest =~= q + (escaped(t) + (q + rest)));
            lemma_tail_skip(cs@, pos as int, q, escaped(t) + (q + rest));
            assert(t.subrange(0, t.len() as int) =~= t);
            assert(t.subrange(0, 0) =~= Seq::<char>::empty());
        }
    }
    if pos >= cs.len() || cs[pos] != '"' {
        return None;
    }
    let mut out = String::new();
    let mut i: usize = pos + 1;
    let ghost mut k: int = 0;
    loop
        invariant
            good == (tail(cs@, pos as int) == quoted(t) + rest),
            q == seq!['"'],
            pos < i <= cs.len(),
            good ==> 0 <= k <= t.len() && out@ == t.subrange(0, k) && tail(cs@, i as int) == escaped(
                t.subrange(k, t.len() as int),
            ) + (q + rest),
        decreases cs.len() - i,
    {
        if i >= cs.len() {
            return None;
        }
        let c = cs[i];
        let ghost u = t.subrange(k, t.len() as int);
        let ghost v = t.subrange(k + 1, t.len() as int);
        proof {
            if good {
                if k < t.len() {
                    lemma_escaped_front(u);
                    assert(u.drop_first() =~= v);
                    assert(u[0] == t[k]);
                    assert(escaped(u) + (q + rest) =~= escape_char(t[k]) + (escaped(v) + (q + rest)));
                    lemma_tail_skip(cs@, i as int, escape_char(t[k]), escaped(v) + (q + rest));
                    assert(cs@[i + 0] == escape_char(t[k])[0]);
                    if escape_char(t[k]).len() > 1 {
                        assert(cs@[i + 1] == escape_char(t[k])[1]);
                    }
                    if escape_char(t[k]).len() > 5 {
                        assert(cs@[i + 2] == escape_char(t[k])[2]);
                        assert(cs@[i + 3] == escape_char(t[k])[3]);
                        assert(cs@[i + 4] == escape_char(t[k])[4]);
                        assert(cs@[i + 5] == escape_char(t[k])[5]);
                    }
                } else {
                    assert(u =~= Seq::<char>::empty());
                    assert(escaped(u) + (q + rest) =~= q + rest);
                    lemma_tail_skip(cs@, i as int, q, rest);
                }
            }
        }
        if c == '"' {
            proof {
                if good {
                    assert(k == t.len());
                    assert(t.subrange(0, k) =~= t);
                }
            }
            return Some((out, i + 1));
        }
        if c == '\\' {
            if i + 1 >= cs.len() {
                return None;
            }
            let e = cs[i + 1];
            if e == '"' || e == '\\' {
                proof {
                    if good {
                        assert(e == t[k]);
                    }
                }
                out.push(e);
                i = i + 2;
            } else if e == 'u' {
                if cs.len() - i <= 5 || cs[i + 2] != '0' || cs[i + 3] != '0' {
                    return None;
                }
                let hi = hex_value(cs[i + 4]);
                let lo = hex_value(cs[i + 5]);
                match (hi, lo) {
                    (Some(h), Some(l)) => {
                        if h >= 2 {
                            return None;
                        }
                        let ch = ((h * 16 + l) as u8) as char;
                        proof {
                            if good {
                                let n = t[k] as u32;
                                assert(h == n / 16);
                                assert(l == n % 16);
                                assert(ch as u32 == n);
                                lemma_same_code(ch, t[k]);
                            }
                        }
                        out.push(ch);
                        i = i + 6;
                    },
                    _ => {
                        return None;
                    },
                }
            } else {
                return None;
            }
        } else {
            proof {
                if good {
                    assert(c == t[k]);
                }
            }
            out.push(c);
            i = i + 1;
        }
        proof {
            if good {
                assert(out@ =~= t.subrange(0, k + 1));
                k = k + 1;
            }
        }
    }
}

#[verifier::rlimit(30)]
fn parse_record(cs: &Vec<char>, Ghost(x): Ghost<ItemView>) -> (r: Option<Item>)
    ensures
        cs@ == encoding(x) ==> (r matches Some(it) && it@ == x),
{
    proof {
        reveal_strlit("{\"id\":");
        reveal_strlit(",\"title\":");
        reveal_strlit(",\"body\":");
        reveal_strlit(",\"important\":");
        reveal_strlit(",\"urgent\":");
        reveal_strlit(",\"created\":");
        reveal_strlit(",\"modified\":");
        reveal_strlit(",\"deleted\":");
        reveal_strlit("}");
        assert("{\"id\":"@ =~= key_id());
        assert(",\"title\":"@ =~= key_title());
        assert(",\"body\":"@ =~= key_body());
        assert(",\"important\":"@ =~= key_important());
        assert(",\"urgent\":"@ =~= key_urgent());
        assert(",\"created\":"@ =~= key_created());
        assert(",\"modified\":"@ =~= key_modified());
        assert(",\"deleted\":"@ =~= key_deleted());
        assert("}"@ =~= close_brace());
        assert(tail(cs@, 0) =~= cs@);
        assert(enc_title(x)[0] == ',');
        assert(enc_body(x)[0] == ',');
        assert(enc_important(x)[0] == ',');
        assert(enc_urgent(x)[0] == ',');
        assert(enc_created(x)[0] == ',');
        assert(enc_modified(x)[0] == ',');
        assert(enc_deleted(x)[0] == ',');
        assert(close_brace()[0] == '}');
        assert(close_brace() + Seq::<char>::empty() =~= close_brace());
    }
    let p = expect(cs, 0, "{\"id\":", Ghost(decimal(x.id as nat) + enc_title(x)))?;
    let (id, p) = parse_u32(cs, p, Ghost(x.id), Ghost(enc_title(x)))?;
    let p = expect(cs, p, ",\"title\":", Ghost(quoted(x.title) + enc_body(x)))?;
    let (title, p) = parse_quoted(cs, p, Ghost(x.title), Ghost(enc_body(x)))?;
    let p = expect(cs, p, ",\"body\":", Ghost(quoted(x.body) + enc_important(x)))?;
    let (body, p) = parse_quoted(cs, p, Ghost(x.body), Ghost(enc_important(x)))?;
    let p = expect(cs, p, ",\"important\":", Ghost(bool_text(x.important) + enc_urgent(x)))?;
    let (important, p) = parse_bool(cs, p, Ghost(x.important), Ghost(enc_urgent(x)))?;
    let p = expect(cs, p, ",\"urgent\":", Ghost(bool_text(x.urgent) + enc_created(x)))?;
    let (urgent, p) = parse_bool(cs, p, Ghost(x.urgent), Ghost(enc_created(x)))?;
    let p = expect(cs, p, ",\"created\":", Ghost(int_text(x.created as int) + enc_modified(x)))?;
    let (created, p) = parse_i64(cs, p, Ghost(x.created), Ghost(enc_modified(x)))?;
    let p = expect(cs, p, ",\"modified\":", Ghost(opt_text(x.modified) + enc_deleted(x)))?;
    let (modified, p) = parse_opt(cs, p, Ghost(x.modified), Ghost(enc_deleted(x)))?;
    let p = expect(cs, p, ",\"deleted\":", Ghost(opt_text(x.deleted) + close_brace()))?;
    let (deleted, p) = parse_opt(cs, p, Ghost(x.deleted), Ghost(close_brace()))?;
    let p = expect(cs, p, "}", Ghost(Seq::empty()))?;
    if p != cs.len() {
        return None;
    }
    Some(Item { id, title, body, important, urgent, created, modified, deleted })
}

impl Item {
    /// The item a stored text holds. Fails with `CorruptRecord`, carrying the
    /// text, exactly when the text is not the encoding of an item.
    pub fn deserialize(s: &str) -> (r: Result<Item, RepoError>)
        ensures
            match r {
                Ok(it) => decoding(s@) == Some(it@),
                Err(e) => decoding(s@) is None && (e matches RepoError::CorruptRecord(raw) && raw@ == s@),
            },
    {
        let cs = chars_of(s);
        let ghost x = choose|x: ItemView| encoding(x) == s@;
        let given = String::from_str(s);
        match parse_record(&cs, Ghost(x)) {
            Some(it) => {
                let back = it.serialize();
                if back == given {
                    proof {
                        lemma_round_trip(it@);
                    }
                    Ok(it)
                } else {
                    Err(RepoError::CorruptRecord(given))
                }
            },
            None => Err(RepoError::CorruptRecord(given)),
        }
    }
}

} // verus!
