//! A JSON-like value tree and its canonical serialization.
//!
//! Signatures in the registration protocol are taken over a deterministic
//! serialization of the registration payload: object members are emitted in
//! sorted key order, with no insignificant whitespace and a fixed scalar
//! representation, so that two structurally equal values always serialize to
//! the same bytes regardless of the key order they were built with.

use vstd::prelude::*;

verus! {

/// One `key: value` member of a JSON object.
pub struct JsonMember {
    pub key: String,
    pub val: JsonValue,
}

/// A JSON value: objects, arrays, strings, integers, booleans, null.
pub enum JsonValue {
    Null,
    Bool(bool),
    Int(i64),
    Str(String),
    Arr(Vec<JsonValue>),
    Obj(Vec<JsonMember>),
}

/// No two members of an object share a key.
pub open spec fn obj_keys_unique(ms: Seq<JsonMember>) -> bool {
    forall|i: int, j: int| 0 <= i < j < ms.len() ==> ms[i].key@ != ms[j].key@
}

impl JsonValue {
    /// Well-formed: every object in the tree has pairwise distinct keys.
    pub open spec fn wf(self) -> bool
        decreases self,
    {
        match self {
            JsonValue::Arr(es) => forall|i: int| #![trigger es@[i]]
                0 <= i < es@.len() ==> es@[i].wf(),
            JsonValue::Obj(ms) => obj_keys_unique(ms@) && forall|i: int| #![trigger ms@[i]]
                0 <= i < ms@.len() ==> ms@[i].val.wf(),
            _ => true,
        }
    }
}

/// Nesting depth of a value; the termination measure for everything that
/// walks members in an order other than the structural one.
pub open spec fn height(v: JsonValue) -> nat
    decreases v,
{
    match v {
        JsonValue::Arr(es) => 1 + elems_height(es@),
        JsonValue::Obj(ms) => 1 + mems_height(ms@),
        _ => 0,
    }
}

/// Greatest height among the values of a sequence.
pub open spec fn elems_height(es: Seq<JsonValue>) -> nat
    decreases es,
{
    if es.len() == 0 {
        0
    } else if height(es[0]) >= elems_height(es.subrange(1, es.len() as int)) {
        height(es[0])
    } else {
        elems_height(es.subrange(1, es.len() as int))
    }
}

/// Greatest height among the member values of a sequence.
pub open spec fn mems_height(ms: Seq<JsonMember>) -> nat
    decreases ms,
{
    if ms.len() == 0 {
        0
    } else if height(ms[0].val) >= mems_height(ms.subrange(1, ms.len() as int)) {
        height(ms[0].val)
    } else {
        mems_height(ms.subrange(1, ms.len() as int))
    }
}

/// Lexicographic order on strings by code point; this is also the order of
/// their UTF-8 encodings, so it matches a byte-wise comparison.
pub open spec fn lex_le(a: Seq<char>, b: Seq<char>) -> bool
    decreases a.len(),
{
    if a.len() == 0 {
        true
    } else if b.len() == 0 {
        false
    } else if a[0] == b[0] {
        lex_le(a.subrange(1, a.len() as int), b.subrange(1, b.len() as int))
    } else {
        (a[0] as int) < (b[0] as int)
    }
}

/// Order of object members in canonical output: by key.
pub open spec fn member_le(x: JsonMember, y: JsonMember) -> bool {
    lex_le(x.key@, y.key@)
}

/// Insert a member into a key-sorted sequence, keeping it sorted.
pub open spec fn insert_sorted(m: JsonMember, ms: Seq<JsonMember>) -> Seq<JsonMember>
    decreases ms.len(),
{
    if ms.len() == 0 {
        seq![m]
    } else if member_le(m, ms[0]) {
        seq![m] + ms
    } else {
        seq![ms[0]] + insert_sorted(m, ms.subrange(1, ms.len() as int))
    }
}

/// The members of an object in canonical order: insertion sort by key.
pub open spec fn sort_members(ms: Seq<JsonMember>) -> Seq<JsonMember>
    decreases ms.len(),
{
    if ms.len() == 0 {
        Seq::empty()
    } else {
        insert_sorted(ms[0], sort_members(ms.subrange(1, ms.len() as int)))
    }
}

/// The sixteen hexadecimal digit characters, lower case.
pub open spec fn hex_digit(n: int) -> char {
    if n == 0 { '0' } else if n == 1 { '1' } else if n == 2 { '2' } else if n == 3 { '3' }
    else if n == 4 { '4' } else if n == 5 { '5' } else if n == 6 { '6' } else if n == 7 { '7' }
    else if n == 8 { '8' } else if n == 9 { '9' } else if n == 10 { 'a' } else if n == 11 { 'b' }
    else if n == 12 { 'c' } else if n == 13 { 'd' } else if n == 14 { 'e' } else { 'f' }
}

/// How one character of a JSON string is emitted: quotes and backslashes are
/// escaped, control characters get their short escape or a `\u00XX` escape,
/// everything else passes through.
pub open spec fn esc_char(c: char) -> Seq<char> {
    if c == '"' {
        seq!['\\', '"']
    } else if c == '\\' {
        seq!['\\', '\\']
    } else if c == '\u{08}' {
        seq!['\\', 'b']
    } else if c == '\u{09}' {
        seq!['\\', 't']
    } else if c == '\u{0A}' {
        seq!['\\', 'n']
    } else if c == '\u{0C}' {
        seq!['\\', 'f']
    } else if c == '\u{0D}' {
        seq!['\\', 'r']
    } else if (c as u32) < 0x20 {
        seq!['\\', 'u', '0', '0', hex_digit((c as u32) as int / 16), hex_digit((c as u32) as int % 16)]
    } else {
        seq![c]
    }
}

/// A whole string escaped, character by character.
pub open spec fn esc_str(s: Seq<char>) -> Seq<char>
    decreases s.len(),
{
    if s.len() == 0 {
        Seq::empty()
    } else {
        esc_char(s[0]) + esc_str(s.subrange(1, s.len() as int))
    }
}

/// Decimal digits of a nonnegative integer, most significant first.
pub open spec fn dec_digits(n: int) -> Seq<char>
    decreases n,
{
    if n < 10 {
        seq![hex_digit(n)]
    } else {
        dec_digits(n / 10) + seq![hex_digit(n % 10)]
    }
}

/// Canonical text of an integer: a minus sign for negatives, no leading
/// zeros.
pub open spec fn dec_int(i: int) -> Seq<char> {
    if i < 0 {
        seq!['-'] + dec_digits(-i)
    } else {
        dec_digits(i)
    }
}

/// Canonical serialization: compact, fixed scalar representation, object
/// members in sorted key order. Two structurally equal values serialize to
/// the same text whatever order their members were built in.
pub open spec fn ser(v: JsonValue) -> Seq<char>
    decreases height(v), 0int,
    via ser_dec
{
    match v {
        JsonValue::Null => seq!['n', 'u', 'l', 'l'],
        JsonValue::Bool(b) => if b {
            seq!['t', 'r', 'u', 'e']
        } else {
            seq!['f', 'a', 'l', 's', 'e']
        },
        JsonValue::Int(i) => dec_int(i as int),
        JsonValue::Str(s) => seq!['"'] + esc_str(s@) + seq!['"'],
        JsonValue::Arr(es) => seq!['['] + ser_elems(es@) + seq![']'],
        JsonValue::Obj(ms) => seq!['{'] + ser_mems(sort_members(ms@)) + seq!['}'],
    }
}

/// Array elements serialized in order, joined by commas.
pub open spec fn ser_elems(es: Seq<JsonValue>) -> Seq<char>
    decreases elems_height(es), es.len(),
    via ser_elems_dec
{
    if es.len() == 0 {
        Seq::empty()
    } else if es.len() == 1 {
        ser(es[0])
    } else {
        ser(es[0]) + seq![','] + ser_elems(es.subrange(1, es.len() as int))
    }
}

/// One `"key":value` member.
pub open spec fn ser_mem(m: JsonMember) -> Seq<char>
    decreases height(m.val), 1int,
    via ser_mem_dec
{
    seq!['"'] + esc_str(m.key@) + seq!['"', ':'] + ser(m.val)
}

/// Members serialized in the order given, joined by commas.
pub open spec fn ser_mems(ms: Seq<JsonMember>) -> Seq<char>
    decreases mems_height(ms), ms.len() + 2,
    via ser_mems_dec
{
    if ms.len() == 0 {
        Seq::empty()
    } else if ms.len() == 1 {
        ser_mem(ms[0])
    } else {
        ser_mem(ms[0]) + seq![','] + ser_mems(ms.subrange(1, ms.len() as int))
    }
}

/// Every element of a sequence stays under its collective height bound.
proof fn lemma_elems_height_bound(es: Seq<JsonValue>, i: int)
    requires
        0 <= i < es.len(),
    ensures
        height(es[i]) <= elems_height(es),
    decreases es.len(),
{
    if i > 0 {
        lemma_elems_height_bound(es.subrange(1, es.len() as int), i - 1);
    }
}

/// Every member value of a sequence stays under its collective height bound.
proof fn lemma_mems_height_bound(ms: Seq<JsonMember>, i: int)
    requires
        0 <= i < ms.len(),
    ensures
        height(ms[i].val) <= mems_height(ms),
    decreases ms.len(),
{
    if i > 0 {
        lemma_mems_height_bound(ms.subrange(1, ms.len() as int), i - 1);
    }
}

/// Inserting a member grows the sequence by one and adds exactly that
/// member: the result's entries are the inserted member and the old entries.
proof fn lemma_insert_sorted_elems(m: JsonMember, ms: Seq<JsonMember>)
    ensures
        insert_sorted(m, ms).len() == ms.len() + 1,
        forall|i: int|
            0 <= i < insert_sorted(m, ms).len() ==> (#[trigger] insert_sorted(m, ms)[i] == m
                || exists|j: int| 0 <= j < ms.len() && ms[j] == insert_sorted(m, ms)[i]),
    decreases ms.len(),
{
    if ms.len() != 0 && !member_le(m, ms[0]) {
        lemma_insert_sorted_elems(m, ms.subrange(1, ms.len() as int));
        assert forall|i: int| 0 <= i < insert_sorted(m, ms).len() implies (
            #[trigger] insert_sorted(m, ms)[i] == m || exists|j: int|
                0 <= j < ms.len() && ms[j] == insert_sorted(m, ms)[i]) by {
            let tail = ms.subrange(1, ms.len() as int);
            if i == 0 {
                assert(ms[0] == insert_sorted(m, ms)[0]);
            } else {
                let x = insert_sorted(m, tail)[i - 1];
                assert(insert_sorted(m, ms)[i] == x);
                if x != m {
                    let j = choose|j: int| 0 <= j < tail.len() && tail[j] == x;
                    assert(ms[j + 1] == x);
                }
            }
        }
    }
}

/// Sorting keeps exactly the members of the input.
proof fn lemma_sort_members_elems(ms: Seq<JsonMember>)
    ensures
        sort_members(ms).len() == ms.len(),
        forall|i: int|
            0 <= i < sort_members(ms).len() ==> exists|j: int|
                0 <= j < ms.len() && ms[j] == #[trigger] sort_members(ms)[i],
    decreases ms.len(),
{
    if ms.len() != 0 {
        let tail = ms.subrange(1, ms.len() as int);
        lemma_sort_members_elems(tail);
        lemma_insert_sorted_elems(ms[0], sort_members(tail));
        assert forall|i: int| 0 <= i < sort_members(ms).len() implies exists|j: int|
            0 <= j < ms.len() && ms[j] == #[trigger] sort_members(ms)[i] by {
            let x = sort_members(ms)[i];
            if x == ms[0] {
                assert(ms[0] == x);
            } else {
                let k = choose|k: int| 0 <= k < sort_members(tail).len() && sort_members(tail)[k] == x;
                let j = choose|j: int| 0 <= j < tail.len() && tail[j] == x;
                assert(ms[j + 1] == x);
            }
        }
    }
}

/// Sorted members stay under the height bound of the unsorted sequence.
proof fn lemma_sort_members_height(ms: Seq<JsonMember>)
    ensures
        forall|i: int|
            0 <= i < sort_members(ms).len() ==> height(#[trigger] sort_members(ms)[i].val)
                <= mems_height(ms),
{
    lemma_sort_members_elems(ms);
    assert forall|i: int| 0 <= i < sort_members(ms).len() implies height(
        #[trigger] sort_members(ms)[i].val) <= mems_height(ms) by {
        let j = choose|j: int| 0 <= j < ms.len() && ms[j] == sort_members(ms)[i];
        lemma_mems_height_bound(ms, j);
    }
}

#[via_fn]
proof fn ser_dec(v: JsonValue) {
    match v {
        JsonValue::Obj(ms) => {
            lemma_sort_members_elems(ms@);
            lemma_sort_members_height(ms@);
            assert forall|i: int| 0 <= i < sort_members(ms@).len() implies height(
                #[trigger] sort_members(ms@)[i].val) < height(v) by {}
            if sort_members(ms@).len() > 0 {
                assert(mems_height(sort_members(ms@)) < height(v)) by {
                    lemma_mems_height_max(sort_members(ms@));
                }
            }
        },
        _ => {},
    }
}

/// A nonempty sequence attains its height bound at some member.
proof fn lemma_mems_height_max(ms: Seq<JsonMember>)
    requires
        ms.len() > 0,
    ensures
        exists|i: int| 0 <= i < ms.len() && height(#[trigger] ms[i].val) == mems_height(ms),
    decreases ms.len(),
{
    let tail = ms.subrange(1, ms.len() as int);
    if ms.len() > 1 && height(ms[0].val) < mems_height(tail) {
        lemma_mems_height_max(tail);
        let i = choose|i: int| 0 <= i < tail.len() && height(#[trigger] tail[i].val) == mems_height(tail);
        assert(ms[i + 1] == tail[i]);
    } else {
        if ms.len() == 1 {
            assert(tail.len() == 0);
            assert(mems_height(tail) == 0);
        }
        assert(height(ms[0].val) >= mems_height(tail));
        assert(height(ms[0].val) == mems_height(ms));
    }
}

#[via_fn]
proof fn ser_elems_dec(es: Seq<JsonValue>) {
    if es.len() > 1 {
        lemma_elems_height_bound(es, 0);
        assert forall|i: int| 0 <= i < es.len() - 1 implies height(
            #[trigger] es.subrange(1, es.len() as int)[i]) <= elems_height(es) by {
            assert(es.subrange(1, es.len() as int)[i] == es[i + 1]);
            lemma_elems_height_bound(es, i + 1);
        }
        lemma_elems_height_le(es.subrange(1, es.len() as int), elems_height(es));
    } else if es.len() == 1 {
        lemma_elems_height_bound(es, 0);
    }
}

/// A sequence whose every element is under a bound has its height under it.
proof fn lemma_elems_height_le(es: Seq<JsonValue>, b: nat)
    requires
        forall|i: int| 0 <= i < es.len() ==> height(#[trigger] es[i]) <= b,
    ensures
        elems_height(es) <= b,
    decreases es.len(),
{
    if es.len() > 0 {
        let tail = es.subrange(1, es.len() as int);
        assert forall|i: int| 0 <= i < tail.len() implies height(#[trigger] tail[i]) <= b by {
            assert(tail[i] == es[i + 1]);
        }
        lemma_elems_height_le(tail, b);
    }
}

/// A member sequence whose every value is under a bound has its height under it.
proof fn lemma_mems_height_le(ms: Seq<JsonMember>, b: nat)
    requires
        forall|i: int| 0 <= i < ms.len() ==> height(#[trigger] ms[i].val) <= b,
    ensures
        mems_height(ms) <= b,
    decreases ms.len(),
{
    if ms.len() > 0 {
        let tail = ms.subrange(1, ms.len() as int);
        assert forall|i: int| 0 <= i < tail.len() implies height(#[trigger] tail[i].val) <= b by {
            assert(tail[i] == ms[i + 1]);
        }
        lemma_mems_height_le(tail, b);
    }
}

#[via_fn]
proof fn ser_mem_dec(m: JsonMember) {
}

#[via_fn]
proof fn ser_mems_dec(ms: Seq<JsonMember>) {
    if ms.len() >= 1 {
        lemma_mems_height_bound(ms, 0);
        if ms.len() > 1 {
            let tail = ms.subrange(1, ms.len() as int);
            assert forall|i: int| 0 <= i < tail.len() implies height(#[trigger] tail[i].val)
                <= mems_height(ms) by {
                assert(tail[i] == ms[i + 1]);
                lemma_mems_height_bound(ms, i + 1);
            }
            lemma_mems_height_le(tail, mems_height(ms));
        }
    }
}

/// Relies on `String::push`: appends exactly the one character.
#[verifier::external_body]
fn push_char(out: &mut String, c: char)
    ensures
        final(out)@ == old(out)@ + seq![c],
{
    out.push(c);
}

/// One hexadecimal digit character, lower case.
fn hex_digit_exec(n: u32) -> (r: char)
    requires
        n < 16,
    ensures
        r == hex_digit(n as int),
{
    if n == 0 { '0' } else if n == 1 { '1' } else if n == 2 { '2' } else if n == 3 { '3' }
    else if n == 4 { '4' } else if n == 5 { '5' } else if n == 6 { '6' } else if n == 7 { '7' }
    else if n == 8 { '8' } else if n == 9 { '9' } else if n == 10 { 'a' } else if n == 11 { 'b' }
    else if n == 12 { 'c' } else if n == 13 { 'd' } else if n == 14 { 'e' } else { 'f' }
}

/// Append the escape sequence of one string character.
fn write_escaped_char(c: char, out: &mut String)
    ensures
        final(out)@ == old(out)@ + esc_char(c),
{
    if c == '"' {
        push_char(out, '\\');
        push_char(out, '"');
    } else if c == '\\' {
        push_char(out, '\\');
        push_char(out, '\\');
    } else if c == '\u{08}' {
        push_char(out, '\\');
        push_char(out, 'b');
    } else if c == '\u{09}' {
        push_char(out, '\\');
        push_char(out, 't');
    } else if c == '\u{0A}' {
        push_char(out, '\\');
        push_char(out, 'n');
    } else if c == '\u{0C}' {
        push_char(out, '\\');
        push_char(out, 'f');
    } else if c == '\u{0D}' {
        push_char(out, '\\');
        push_char(out, 'r');
    } else if (c as u32) < 0x20 {
        push_char(out, '\\');
        push_char(out, 'u');
        push_char(out, '0');
        push_char(out, '0');
        push_char(out, hex_digit_exec((c as u32) / 16));
        push_char(out, hex_digit_exec((c as u32) % 16));
        assert(out@ =~= old(out)@ + esc_char(c));
    } else {
        push_char(out, c);
    }
}

/// Escaping a string one character longer appends that character's escape.
proof fn lemma_esc_snoc(s: Seq<char>, c: char)
    ensures
        esc_str(s.push(c)) == esc_str(s) + esc_char(c),
    decreases s.len(),
{
    let sc = s.push(c);
    if s.len() == 0 {
        assert(sc.subrange(1, sc.len() as int) =~= Seq::<char>::empty());
        assert(esc_str(Seq::<char>::empty()) == Seq::<char>::empty());
        assert(sc[0] == c);
        assert(esc_str(sc) =~= esc_str(s) + esc_char(c));
    } else {
        assert(sc.subrange(1, sc.len() as int) =~= s.subrange(1, s.len() as int).push(c));
        lemma_esc_snoc(s.subrange(1, s.len() as int), c);
        assert(sc[0] == s[0]);
        assert(esc_str(sc) == esc_char(sc[0]) + esc_str(sc.subrange(1, sc.len() as int)));
        assert(esc_str(sc) =~= esc_str(s) + esc_char(c));
    }
}

/// Append the escaped body of a string.
fn write_escaped(s: &str, out: &mut String)
    ensures
        final(out)@ == old(out)@ + esc_str(s@),
{
    let ghost pre = out@;
    let n = s.unicode_len();
    let mut i: usize = 0;
    while i < n
        invariant
            i <= n,
            n == s@.len(),
            out@ == pre + esc_str(s@.subrange(0, i as int)),
        decreases n - i,
    {
        let c = s.get_char(i);
        write_escaped_char(c, out);
        proof {
            assert(s@.subrange(0, i + 1) =~= s@.subrange(0, i as int).push(s@[i as int]));
            lemma_esc_snoc(s@.subrange(0, i as int), s@[i as int]);
            assert(out@ =~= pre + esc_str(s@.subrange(0, i + 1)));
        }
        i = i + 1;
    }
    proof {
        assert(s@.subrange(0, n as int) =~= s@);
    }
}

/// Append the decimal digits of a nonnegative integer.
fn write_u64(n: u64, out: &mut String)
    ensures
        final(out)@ == old(out)@ + dec_digits(n as int),
    decreases n,
{
    if n < 10 {
        push_char(out, hex_digit_exec(n as u32));
    } else {
        write_u64(n / 10, out);
        push_char(out, hex_digit_exec((n % 10) as u32));
        assert(out@ =~= old(out)@ + dec_digits(n as int));
    }
}

/// Append the canonical text of an integer.
fn write_i64(i: i64, out: &mut String)
    ensures
        final(out)@ == old(out)@ + dec_int(i as int),
{
    if i >= 0 {
        write_u64(i as u64, out);
    } else {
        push_char(out, '-');
        let m: u64 = if i == i64::MIN {
            9223372036854775808
        } else {
            (-i) as u64
        };
        write_u64(m, out);
        assert(out@ =~= old(out)@ + dec_int(i as int));
    }
}

/// Whether `a` comes no later than `b` in the canonical key order.
pub fn lex_le_exec(a: &str, b: &str) -> (r: bool)
    ensures
        r == lex_le(a@, b@),
{
    let la = a.unicode_len();
    let lb = b.unicode_len();
    proof {
        assert(a@.subrange(0, la as int) =~= a@);
        assert(b@.subrange(0, lb as int) =~= b@);
    }
    let mut i: usize = 0;
    loop
        invariant
            i <= la,
            i <= lb,
            la == a@.len(),
            lb == b@.len(),
            lex_le(a@, b@) == lex_le(
                a@.subrange(i as int, la as int),
                b@.subrange(i as int, lb as int),
            ),
        decreases la - i,
    {
        if i == la {
            proof {
                assert(a@.subrange(i as int, la as int).len() == 0);
            }
            return true;
        }
        if i == lb {
            proof {
                assert(b@.subrange(i as int, lb as int).len() == 0);
                assert(a@.subrange(i as int, la as int).len() > 0);
            }
            return false;
        }
        let ca = a.get_char(i);
        let cb = b.get_char(i);
        if ca == cb {
            proof {
                let sa = a@.subrange(i as int, la as int);
                let sb = b@.subrange(i as int, lb as int);
                assert(sa[0] == ca && sb[0] == cb);
                assert(sa.subrange(1, sa.len() as int) =~= a@.subrange(i + 1, la as int));
                assert(sb.subrange(1, sb.len() as int) =~= b@.subrange(i + 1, lb as int));
            }
            i = i + 1;
        } else {
            let r = (ca as u32) < (cb as u32);
            proof {
                assert(r == ((ca as int) < (cb as int)));
            }
            return r;
        }
    }
}

/// Inserting at the first position whose key is not below `m`'s matches the
/// specification's insertion.
proof fn lemma_insert_at(m: JsonMember, s: Seq<JsonMember>, p: int)
    requires
        0 <= p <= s.len(),
        forall|j: int| 0 <= j < p ==> !member_le(m, #[trigger] s[j]),
        p == s.len() || member_le(m, s[p]),
    ensures
        insert_sorted(m, s) == s.subrange(0, p) + seq![m] + s.subrange(p, s.len() as int),
    decreases p,
{
    if p == 0 {
        if s.len() == 0 {
            assert(insert_sorted(m, s) =~= s.subrange(0, 0) + seq![m] + s.subrange(0, 0));
        } else {
            assert(insert_sorted(m, s) =~= s.subrange(0, 0) + seq![m] + s.subrange(0, s.len() as int));
        }
    } else {
        let tail = s.subrange(1, s.len() as int);
        assert forall|j: int| 0 <= j < p - 1 implies !member_le(m, #[trigger] tail[j]) by {
            assert(tail[j] == s[j + 1]);
        }
        if p < s.len() {
            assert(tail[p - 1] == s[p]);
        }
        lemma_insert_at(m, tail, p - 1);
        assert(insert_sorted(m, s) =~= s.subrange(0, p) + seq![m] + s.subrange(p, s.len() as int));
    }
}

/// Insert a member into a key-sorted vector at its place.
fn insert_member(m: JsonMember, v: Vec<JsonMember>) -> (r: Vec<JsonMember>)
    ensures
        r@ == insert_sorted(m, v@),
{
    let ghost v0 = v@;
    let mut v = v;
    let mut p: usize = 0;
    loop
        invariant
            p <= v.len(),
            v@ == v0,
            forall|j: int| 0 <= j < p ==> !member_le(m, #[trigger] v@[j]),
        ensures
            p <= v.len(),
            v@ == v0,
            forall|j: int| 0 <= j < p ==> !member_le(m, #[trigger] v@[j]),
            p == v.len() || member_le(m, v@[p as int]),
        decreases v.len() - p,
    {
        if p == v.len() {
            break;
        }
        if lex_le_exec(m.key.as_str(), v[p].key.as_str()) {
            break;
        }
        p = p + 1;
    }
    proof {
        lemma_insert_at(m, v0, p as int);
    }
    v.insert(p, m);
    proof {
        assert(v@ =~= v0.subrange(0, p as int) + seq![m] + v0.subrange(0 + p as int, v0.len() as int));
    }
    v
}

/// Sort an object's members by key, as the canonical order asks.
fn sort_members_vec(ms: Vec<JsonMember>) -> (r: Vec<JsonMember>)
    ensures
        r@ == sort_members(ms@),
{
    let ghost ms0 = ms@;
    let mut v = ms;
    let mut acc: Vec<JsonMember> = Vec::new();
    proof {
        assert(v@ =~= ms0.subrange(0, v@.len() as int));
        assert(ms0.subrange(v@.len() as int, ms0.len() as int).len() == 0);
    }
    while v.len() > 0
        invariant
            v@.len() <= ms0.len(),
            v@ == ms0.subrange(0, v@.len() as int),
            acc@ == sort_members(ms0.subrange(v@.len() as int, ms0.len() as int)),
        decreases v.len(),
    {
        let ghost k = v@.len() as int;
        let ghost prev = v@;
        let m = v.remove(v.len() - 1);
        proof {
            assert(prev == ms0.subrange(0, k));
            assert(ms0.subrange(0, k)[k - 1] == ms0[k - 1]);
            assert(m == ms0[k - 1]);
            assert(v@ =~= ms0.subrange(0, k - 1));
        }
        acc = insert_member(m, acc);
        proof {
            let rest = ms0.subrange(k - 1, ms0.len() as int);
            assert(rest[0] == ms0[k - 1]);
            assert(rest.subrange(1, rest.len() as int) =~= ms0.subrange(k, ms0.len() as int));
            assert(acc@ == sort_members(rest));
        }
    }
    proof {
        assert(ms0.subrange(0, ms0.len() as int) =~= ms0);
    }
    acc
}

/// Append the canonical serialization of a value.
fn write_canon(v: JsonValue, out: &mut String)
    ensures
        final(out)@ == old(out)@ + ser(v),
    decreases height(v),
{
    match v {
        JsonValue::Null => {
            proof {
                reveal_strlit("null");
                assert("null"@ =~= seq!['n', 'u', 'l', 'l']);
            }
            out.append("null");
        },
        JsonValue::Bool(b) => {
            if b {
                proof {
                    reveal_strlit("true");
                    assert("true"@ =~= seq!['t', 'r', 'u', 'e']);
                }
                out.append("true");
            } else {
                proof {
                    reveal_strlit("false");
                    assert("false"@ =~= seq!['f', 'a', 'l', 's', 'e']);
                }
                out.append("false");
            }
        },
        JsonValue::Int(i) => {
            write_i64(i, out);
        },
        JsonValue::Str(s) => {
            push_char(out, '"');
            write_escaped(s.as_str(), out);
            push_char(out, '"');
            assert(out@ =~= old(out)@ + ser(v));
        },
        JsonValue::Arr(es) => {
            let ghost es0 = es@;
            proof {
                assert forall|i: int| 0 <= i < es0.len() implies height(#[trigger] es0[i])
                    < height(v) by {
                    lemma_elems_height_bound(es0, i);
                }
            }
            push_char(out, '[');
            let ghost base = out@;
            let ghost mut delta = Seq::<char>::empty();
            proof {
                assert(ser_elems(es0) =~= delta + ser_elems(es0));
            }
            let mut rem = es;
            while rem.len() > 0
                invariant
                    out@ == base + delta,
                    base == old(out)@ + seq!['['],
                    ser_elems(es0) == delta + ser_elems(rem@),
                    forall|i: int| 0 <= i < rem@.len() ==> height(#[trigger] rem@[i]) < height(v),
                decreases rem.len(),
            {
                let ghost rem0 = rem@;
                let e = rem.remove(0);
                proof {
                    assert(e == rem0[0]);
                    assert(rem@ =~= rem0.subrange(1, rem0.len() as int));
                }
                write_canon(e, out);
                if rem.len() > 0 {
                    push_char(out, ',');
                    proof {
                        assert(ser_elems(rem0) == ser(e) + seq![','] + ser_elems(rem@));
                        delta = delta + ser(e) + seq![','];
                        assert(out@ =~= base + delta);
                        assert(ser_elems(es0) =~= delta + ser_elems(rem@));
                    }
                } else {
                    proof {
                        assert(rem0.len() == 1);
                        assert(ser_elems(rem0) == ser(e));
                        delta = delta + ser(e);
                        assert(out@ =~= base + delta);
                        assert(ser_elems(es0) =~= delta + ser_elems(rem@));
                    }
                }
            }
            push_char(out, ']');
            proof {
                assert(ser_elems(rem@).len() == 0);
                assert(ser_elems(es0) =~= delta);
                assert(out@ =~= old(out)@ + ser(v));
            }
        },
        JsonValue::Obj(ms) => {
            let ghost ms0 = ms@;
            let sorted = sort_members_vec(ms);
            let ghost sm0 = sorted@;
            proof {
                lemma_sort_members_height(ms0);
                assert forall|i: int| 0 <= i < sm0.len() implies height(#[trigger] sm0[i].val)
                    < height(v) by {}
            }
            push_char(out, '{');
            let ghost base = out@;
            let ghost mut delta = Seq::<char>::empty();
            proof {
                assert(ser_mems(sm0) =~= delta + ser_mems(sm0));
            }
            let mut rem = sorted;
            while rem.len() > 0
                invariant
                    out@ == base + delta,
                    base == old(out)@ + seq!['{'],
                    ser_mems(sm0) == delta + ser_mems(rem@),
                    forall|i: int| 0 <= i < rem@.len() ==> height(#[trigger] rem@[i].val)
                        < height(v),
                decreases rem.len(),
            {
                let ghost rem0 = rem@;
                let m = rem.remove(0);
                proof {
                    assert(m == rem0[0]);
                    assert(rem@ =~= rem0.subrange(1, rem0.len() as int));
                }
                push_char(out, '"');
                write_escaped(m.key.as_str(), out);
                push_char(out, '"');
                push_char(out, ':');
                write_canon(m.val, out);
                proof {
                    assert(ser_mem(m) == seq!['"'] + esc_str(m.key@) + seq!['"', ':'] + ser(
                        m.val,
                    ));
                }
                if rem.len() > 0 {
                    push_char(out, ',');
                    proof {
                        assert(ser_mems(rem0) == ser_mem(m) + seq![','] + ser_mems(rem@));
                        delta = delta + ser_mem(m) + seq![','];
                        assert(out@ =~= base + delta);
                        assert(ser_mems(sm0) =~= delta + ser_mems(rem@));
                    }
                } else {
                    proof {
                        assert(rem0.len() == 1);
                        assert(ser_mems(rem0) == ser_mem(m));
                        delta = delta + ser_mem(m);
                        assert(out@ =~= base + delta);
                        assert(ser_mems(sm0) =~= delta + ser_mems(rem@));
                    }
                }
            }
            push_char(out, '}');
            proof {
                assert(ser_mems(rem@).len() == 0);
                assert(ser_mems(sm0) =~= delta);
                assert(out@ =~= old(out)@ + ser(v));
            }
        },
    }
}

/// Canonical JSON text of a value: compact, sorted keys, fixed scalars. This
/// is the signing target of the registration protocol.
pub fn canonical_json_string(v: JsonValue) -> (r: String)
    ensures
        r@ == ser(v),
{
    let mut out = String::new();
    write_canon(v, &mut out);
    proof {
        assert(out@ =~= ser(v));
    }
    out
}

/// Structural equality up to object key order: scalars equal, arrays equal
/// pointwise, objects with the same member count carrying, key for key, the
/// same keys and equivalent values.
pub open spec fn equiv(a: JsonValue, b: JsonValue) -> bool
    decreases a,
{
    match (a, b) {
        (JsonValue::Null, JsonValue::Null) => true,
        (JsonValue::Bool(x), JsonValue::Bool(y)) => x == y,
        (JsonValue::Int(x), JsonValue::Int(y)) => x == y,
        (JsonValue::Str(x), JsonValue::Str(y)) => x@ == y@,
        (JsonValue::Arr(xs), JsonValue::Arr(ys)) => xs@.len() == ys@.len() && (forall|i: int|
            #![trigger xs@[i], ys@[i]]
            0 <= i < xs@.len() ==> equiv(xs@[i], ys@[i])),
        (JsonValue::Obj(xs), JsonValue::Obj(ys)) => xs@.len() == ys@.len() && (forall|i: int|
            #![trigger xs@[i]]
            0 <= i < xs@.len() ==> exists|j: int|
                0 <= j < ys@.len() && ys@[j].key@ == xs@[i].key@ && equiv(
                    xs@[i].val,
                    ys@[j].val,
                )) && (forall|j: int|
            #![trigger ys@[j]]
            0 <= j < ys@.len() ==> exists|i: int|
                0 <= i < xs@.len() && xs@[i].key@ == ys@[j].key@),
        _ => false,
    }
}

/// A member sequence in canonical order: keys never decrease.
pub open spec fn mems_sorted(ms: Seq<JsonMember>) -> bool {
    forall|i: int, j: int| 0 <= i < j < ms.len() ==> lex_le(ms[i].key@, ms[j].key@)
}

/// Some member of the sequence carries this key.
pub open spec fn has_key(ms: Seq<JsonMember>, k: Seq<char>) -> bool {
    exists|i: int| 0 <= i < ms.len() && ms[i].key@ == k
}

/// The key order relates every pair of strings one way or the other.
proof fn lemma_lex_total(a: Seq<char>, b: Seq<char>)
    ensures
        lex_le(a, b) || lex_le(b, a),
    decreases a.len(),
{
    if a.len() == 0 {
    } else if b.len() == 0 {
    } else if a[0] == b[0] {
        lemma_lex_total(a.subrange(1, a.len() as int), b.subrange(1, b.len() as int));
    } else {
        assert((a[0] as int) != (b[0] as int));
    }
}

/// Strings below each other in the key order are equal.
proof fn lemma_lex_antisym(a: Seq<char>, b: Seq<char>)
    requires
        lex_le(a, b),
        lex_le(b, a),
    ensures
        a == b,
    decreases a.len(),
{
    if a.len() == 0 {
        assert(b.len() == 0);
        assert(a =~= b);
    } else {
        assert(b.len() != 0);
        if a[0] == b[0] {
            lemma_lex_antisym(
                a.subrange(1, a.len() as int),
                b.subrange(1, b.len() as int),
            );
            assert(a.subrange(1, a.len() as int) == b.subrange(1, b.len() as int));
            assert(a.subrange(1, a.len() as int).len() == b.subrange(1, b.len() as int).len());
            assert(a.len() == b.len());
            assert forall|i: int| 1 <= i < a.len() implies a[i] == b[i] by {
                assert(a.subrange(1, a.len() as int)[i - 1] == b.subrange(
                    1,
                    b.len() as int,
                )[i - 1]);
            }
            assert(a =~= b);
        } else {
            assert((a[0] as int) < (b[0] as int));
            assert((b[0] as int) < (a[0] as int));
        }
    }
}

/// The key order is transitive.
proof fn lemma_lex_trans(a: Seq<char>, b: Seq<char>, c: Seq<char>)
    requires
        lex_le(a, b),
        lex_le(b, c),
    ensures
        lex_le(a, c),
    decreases a.len(),
{
    if a.len() != 0 {
        assert(b.len() != 0);
        assert(c.len() != 0);
        if a[0] == b[0] && b[0] == c[0] {
            lemma_lex_trans(
                a.subrange(1, a.len() as int),
                b.subrange(1, b.len() as int),
                c.subrange(1, c.len() as int),
            );
        }
    }
}

/// Insertion adds the member and keeps the rest: membership both ways.
proof fn lemma_insert_sorted_members(m: JsonMember, ms: Seq<JsonMember>)
    ensures
        insert_sorted(m, ms).len() == ms.len() + 1,
        exists|i: int| 0 <= i < insert_sorted(m, ms).len() && insert_sorted(m, ms)[i] == m,
        forall|j: int|
            0 <= j < ms.len() ==> exists|i: int|
                0 <= i < insert_sorted(m, ms).len() && insert_sorted(m, ms)[i] == #[trigger] ms[j],
    decreases ms.len(),
{
    if ms.len() != 0 && !member_le(m, ms[0]) {
        let tail = ms.subrange(1, ms.len() as int);
        lemma_insert_sorted_members(m, tail);
        let r = insert_sorted(m, ms);
        let ri = choose|i: int|
            0 <= i < insert_sorted(m, tail).len() && insert_sorted(m, tail)[i] == m;
        assert(r[ri + 1] == m);
        assert forall|j: int| 0 <= j < ms.len() implies exists|i: int|
            0 <= i < r.len() && r[i] == #[trigger] ms[j] by {
            if j == 0 {
                assert(r[0] == ms[0]);
            } else {
                assert(tail[j - 1] == ms[j]);
                let i = choose|i: int|
                    0 <= i < insert_sorted(m, tail).len() && insert_sorted(m, tail)[i] == tail[j
                        - 1];
                assert(r[i + 1] == ms[j]);
            }
        }
    } else if ms.len() != 0 {
        let r = insert_sorted(m, ms);
        assert(r[0] == m);
        assert forall|j: int| 0 <= j < ms.len() implies exists|i: int|
            0 <= i < r.len() && r[i] == #[trigger] ms[j] by {
            assert(r[j + 1] == ms[j]);
        }
    } else {
        assert(insert_sorted(m, ms)[0] == m);
    }
}

/// Sorting keeps every member of the input.
proof fn lemma_sort_members_members(ms: Seq<JsonMember>)
    ensures
        forall|j: int|
            0 <= j < ms.len() ==> exists|i: int|
                0 <= i < sort_members(ms).len() && sort_members(ms)[i] == #[trigger] ms[j],
    decreases ms.len(),
{
    if ms.len() != 0 {
        let tail = ms.subrange(1, ms.len() as int);
        lemma_sort_members_members(tail);
        lemma_insert_sorted_members(ms[0], sort_members(tail));
        let r = sort_members(ms);
        assert forall|j: int| 0 <= j < ms.len() implies exists|i: int|
            0 <= i < r.len() && r[i] == #[trigger] ms[j] by {
            if j == 0 {
                let i = choose|i: int| 0 <= i < r.len() && r[i] == ms[0];
                assert(r[i] == ms[j]);
            } else {
                assert(tail[j - 1] == ms[j]);
                let q = choose|q: int|
                    0 <= q < sort_members(tail).len() && sort_members(tail)[q] == tail[j - 1];
                let i = choose|i: int| 0 <= i < r.len() && r[i] == sort_members(tail)[q];
                assert(r[i] == ms[j]);
            }
        }
    }
}

/// Which keys insertion leaves behind.
proof fn lemma_insert_sorted_keys(m: JsonMember, ms: Seq<JsonMember>)
    ensures
        forall|k: Seq<char>|
            #[trigger] has_key(insert_sorted(m, ms), k) <==> (k == m.key@ || has_key(ms, k)),
    decreases ms.len(),
{
    let r = insert_sorted(m, ms);
    if ms.len() == 0 {
        assert forall|k: Seq<char>| #[trigger] has_key(r, k) <==> (k == m.key@ || has_key(ms, k))
            by {
            if has_key(r, k) {
                let i = choose|i: int| 0 <= i < r.len() && r[i].key@ == k;
                assert(r[i] == m);
            }
            if k == m.key@ {
                assert(r[0].key@ == k);
            }
        }
    } else if member_le(m, ms[0]) {
        assert forall|k: Seq<char>| #[trigger] has_key(r, k) <==> (k == m.key@ || has_key(ms, k))
            by {
            if has_key(r, k) {
                let i = choose|i: int| 0 <= i < r.len() && r[i].key@ == k;
                if i > 0 {
                    assert(ms[i - 1].key@ == k);
                }
            }
            if k == m.key@ {
                assert(r[0].key@ == k);
            }
            if has_key(ms, k) {
                let i = choose|i: int| 0 <= i < ms.len() && ms[i].key@ == k;
                assert(r[i + 1].key@ == k);
            }
        }
    } else {
        let tail = ms.subrange(1, ms.len() as int);
        lemma_insert_sorted_keys(m, tail);
        assert forall|k: Seq<char>| #[trigger] has_key(r, k) <==> (k == m.key@ || has_key(ms, k))
            by {
            if has_key(r, k) {
                let i = choose|i: int| 0 <= i < r.len() && r[i].key@ == k;
                if i == 0 {
                    assert(ms[0].key@ == k);
                } else {
                    assert(insert_sorted(m, tail)[i - 1].key@ == k);
                    assert(has_key(insert_sorted(m, tail), k));
                    if k != m.key@ {
                        let j = choose|j: int| 0 <= j < tail.len() && tail[j].key@ == k;
                        assert(ms[j + 1].key@ == k);
                    }
                }
            }
            if k == m.key@ {
                assert(has_key(insert_sorted(m, tail), k));
                let i = choose|i: int|
                    0 <= i < insert_sorted(m, tail).len() && insert_sorted(m, tail)[i].key@ == k;
                assert(r[i + 1].key@ == k);
            }
            if has_key(ms, k) {
                let i = choose|i: int| 0 <= i < ms.len() && ms[i].key@ == k;
                if i == 0 {
                    assert(r[0].key@ == k);
                } else {
                    assert(tail[i - 1].key@ == k);
                    assert(has_key(insert_sorted(m, tail), k));
                    let q = choose|q: int|
                        0 <= q < insert_sorted(m, tail).len() && insert_sorted(m, tail)[q].key@
                            == k;
                    assert(r[q + 1].key@ == k);
                }
            }
        }
    }
}

/// Inserting a fresh key into a sequence of distinct keys keeps them
/// distinct.
proof fn lemma_insert_sorted_unique(m: JsonMember, ms: Seq<JsonMember>)
    requires
        obj_keys_unique(ms),
        !has_key(ms, m.key@),
    ensures
        obj_keys_unique(insert_sorted(m, ms)),
    decreases ms.len(),
{
    let r = insert_sorted(m, ms);
    if ms.len() == 0 {
    } else if member_le(m, ms[0]) {
        assert forall|i: int, j: int| 0 <= i < j < r.len() implies r[i].key@ != r[j].key@ by {
            if i == 0 {
                assert(r[j] == ms[j - 1]);
                assert(ms[j - 1].key@ != m.key@);
            } else {
                assert(r[i] == ms[i - 1] && r[j] == ms[j - 1]);
            }
        }
    } else {
        let tail = ms.subrange(1, ms.len() as int);
        assert forall|i: int, j: int| 0 <= i < j < tail.len() implies tail[i].key@
            != tail[j].key@ by {
            assert(tail[i] == ms[i + 1] && tail[j] == ms[j + 1]);
        }
        assert(!has_key(tail, m.key@)) by {
            if has_key(tail, m.key@) {
                let i = choose|i: int| 0 <= i < tail.len() && tail[i].key@ == m.key@;
                assert(ms[i + 1].key@ == m.key@);
            }
        }
        lemma_insert_sorted_unique(m, tail);
        lemma_insert_sorted_keys(m, tail);
        assert forall|i: int, j: int| 0 <= i < j < r.len() implies r[i].key@ != r[j].key@ by {
            if i == 0 {
                assert(r[j] == insert_sorted(m, tail)[j - 1]);
                assert(has_key(insert_sorted(m, tail), r[j].key@)) by {
                    assert(insert_sorted(m, tail)[j - 1].key@ == r[j].key@);
                }
                if r[0].key@ == r[j].key@ {
                    assert(r[j].key@ == m.key@ || has_key(tail, r[j].key@));
                    if has_key(tail, r[j].key@) {
                        let q = choose|q: int| 0 <= q < tail.len() && tail[q].key@ == r[j].key@;
                        assert(ms[q + 1].key@ == ms[0].key@);
                    } else {
                        assert(!member_le(m, ms[0]));
                        assert(ms[0].key@ == m.key@);
                        lemma_lex_total(m.key@, ms[0].key@);
                    }
                }
            } else {
                assert(r[i] == insert_sorted(m, tail)[i - 1]);
                assert(r[j] == insert_sorted(m, tail)[j - 1]);
            }
        }
    }
}

/// Sorting distinct-keyed members keeps the keys distinct and keeps the key
/// set.
proof fn lemma_sort_members_unique(ms: Seq<JsonMember>)
    requires
        obj_keys_unique(ms),
    ensures
        obj_keys_unique(sort_members(ms)),
        forall|k: Seq<char>| #[trigger] has_key(sort_members(ms), k) <==> has_key(ms, k),
    decreases ms.len(),
{
    if ms.len() == 0 {
        assert forall|k: Seq<char>| #[trigger] has_key(sort_members(ms), k) <==> has_key(ms, k)
            by {}
    } else {
        let tail = ms.subrange(1, ms.len() as int);
        assert forall|i: int, j: int| 0 <= i < j < tail.len() implies tail[i].key@
            != tail[j].key@ by {
            assert(tail[i] == ms[i + 1] && tail[j] == ms[j + 1]);
        }
        lemma_sort_members_unique(tail);
        lemma_insert_sorted_keys(ms[0], sort_members(tail));
        assert(!has_key(sort_members(tail), ms[0].key@)) by {
            if has_key(tail, ms[0].key@) {
                let i = choose|i: int| 0 <= i < tail.len() && tail[i].key@ == ms[0].key@;
                assert(ms[i + 1].key@ == ms[0].key@);
            }
        }
        lemma_insert_sorted_unique(ms[0], sort_members(tail));
        assert forall|k: Seq<char>| #[trigger] has_key(sort_members(ms), k) <==> has_key(ms, k)
            by {
            assert(has_key(sort_members(ms), k) <==> (k == ms[0].key@ || has_key(
                sort_members(tail),
                k,
            )));
            if has_key(tail, k) {
                let i = choose|i: int| 0 <= i < tail.len() && tail[i].key@ == k;
                assert(ms[i + 1].key@ == k);
            }
            if k == ms[0].key@ {
                assert(ms[0].key@ == k);
            }
            if has_key(ms, k) && k != ms[0].key@ {
                let i = choose|i: int| 0 <= i < ms.len() && ms[i].key@ == k;
                assert(tail[i - 1].key@ == k);
            }
        }
    }
}

/// Inserting into a sorted sequence keeps it sorted.
proof fn lemma_insert_sorted_sorted(m: JsonMember, ms: Seq<JsonMember>)
    requires
        mems_sorted(ms),
    ensures
        mems_sorted(insert_sorted(m, ms)),
    decreases ms.len(),
{
    let r = insert_sorted(m, ms);
    if ms.len() == 0 {
    } else if member_le(m, ms[0]) {
        assert forall|i: int, j: int| 0 <= i < j < r.len() implies lex_le(
            r[i].key@,
            r[j].key@,
        ) by {
            if i == 0 {
                assert(r[j] == ms[j - 1]);
                if j == 1 {
                    assert(lex_le(m.key@, ms[0].key@));
                } else {
                    assert(lex_le(ms[0].key@, ms[j - 1].key@));
                    lemma_lex_trans(m.key@, ms[0].key@, ms[j - 1].key@);
                }
            } else {
                assert(r[i] == ms[i - 1] && r[j] == ms[j - 1]);
                assert(lex_le(ms[i - 1].key@, ms[j - 1].key@));
            }
        }
    } else {
        let tail = ms.subrange(1, ms.len() as int);
        assert forall|i: int, j: int| 0 <= i < j < tail.len() implies lex_le(
            tail[i].key@,
            tail[j].key@,
        ) by {
            assert(tail[i] == ms[i + 1] && tail[j] == ms[j + 1]);
        }
        lemma_insert_sorted_sorted(m, tail);
        lemma_insert_sorted_members(m, tail);
        lemma_lex_total(m.key@, ms[0].key@);
        assert forall|i: int, j: int| 0 <= i < j < r.len() implies lex_le(
            r[i].key@,
            r[j].key@,
        ) by {
            if i == 0 {
                let x = insert_sorted(m, tail)[j - 1];
                assert(r[j] == x);
                if x == m {
                    assert(!lex_le(m.key@, ms[0].key@));
                    assert(lex_le(ms[0].key@, m.key@));
                } else {
                    assert(exists|q: int| 0 <= q < tail.len() && tail[q] == x) by {
                        lemma_insert_sorted_elems(m, tail);
                    }
                    let q = choose|q: int| 0 <= q < tail.len() && tail[q] == x;
                    assert(tail[q] == ms[q + 1]);
                    assert(lex_le(ms[0].key@, ms[q + 1].key@));
                }
            } else {
                assert(r[i] == insert_sorted(m, tail)[i - 1]);
                assert(r[j] == insert_sorted(m, tail)[j - 1]);
                assert(lex_le(insert_sorted(m, tail)[i - 1].key@, insert_sorted(m, tail)[j - 1].key@));
            }
        }
    }
}

/// Sorting sorts.
proof fn lemma_sort_members_sorted(ms: Seq<JsonMember>)
    ensures
        mems_sorted(sort_members(ms)),
    decreases ms.len(),
{
    if ms.len() != 0 {
        lemma_sort_members_sorted(ms.subrange(1, ms.len() as int));
        lemma_insert_sorted_sorted(ms[0], sort_members(ms.subrange(1, ms.len() as int)));
    }
}

/// Two key-sorted, distinct-keyed member sequences that cover the same keys,
/// with equivalent values key for key, line up member for member.
#[verifier::spinoff_prover]
#[verifier::rlimit(60)]
proof fn lemma_aligned(sa: Seq<JsonMember>, sb: Seq<JsonMember>)
    requires
        sa.len() == sb.len(),
        mems_sorted(sa),
        mems_sorted(sb),
        obj_keys_unique(sa),
        obj_keys_unique(sb),
        forall|i: int|
            0 <= i < sa.len() ==> exists|j: int|
                0 <= j < sb.len() && sb[j].key@ == (#[trigger] sa[i]).key@ && equiv(
                    sa[i].val,
                    sb[j].val,
                ),
        forall|j: int|
            0 <= j < sb.len() ==> exists|i: int|
                0 <= i < sa.len() && sa[i].key@ == (#[trigger] sb[j]).key@,
    ensures
        forall|k: int|
            0 <= k < sa.len() ==> (#[trigger] sa[k]).key@ == sb[k].key@ && equiv(
                sa[k].val,
                sb[k].val,
            ),
    decreases sa.len(),
{
    if sa.len() == 0 {
        return;
    }
    let j0 = choose|j: int|
        0 <= j < sb.len() && sb[j].key@ == sa[0].key@ && equiv(sa[0].val, sb[j].val);
    let i0 = choose|i: int| 0 <= i < sa.len() && sa[i].key@ == sb[0].key@;
    if j0 == 0 {
        assert(sa[0].key@ == sb[0].key@);
    } else if i0 == 0 {
        assert(sa[0].key@ == sb[0].key@);
    } else {
        assert(lex_le(sb[0].key@, sb[j0].key@));
        assert(lex_le(sa[0].key@, sa[i0].key@));
        lemma_lex_antisym(sa[0].key@, sb[0].key@);
        assert(sa[0].key@ == sb[0].key@);
    }
    if j0 != 0 {
        assert(sb[0].key@ == sb[j0].key@);
        assert(false);
    }
    assert(equiv(sa[0].val, sb[0].val));
    let ta = sa.subrange(1, sa.len() as int);
    let tb = sb.subrange(1, sb.len() as int);
    assert forall|i: int, j: int| 0 <= i < j < ta.len() implies lex_le(ta[i].key@, ta[j].key@)
        && ta[i].key@ != ta[j].key@ by {
        assert(ta[i] == sa[i + 1] && ta[j] == sa[j + 1]);
        assert(lex_le(sa[i + 1].key@, sa[j + 1].key@));
    }
    assert forall|i: int, j: int| 0 <= i < j < tb.len() implies lex_le(tb[i].key@, tb[j].key@)
        && tb[i].key@ != tb[j].key@ by {
        assert(tb[i] == sb[i + 1] && tb[j] == sb[j + 1]);
        assert(lex_le(sb[i + 1].key@, sb[j + 1].key@));
    }
    assert forall|i: int| 0 <= i < ta.len() implies exists|j: int|
        0 <= j < tb.len() && tb[j].key@ == (#[trigger] ta[i]).key@ && equiv(
            ta[i].val,
            tb[j].val,
        ) by {
        assert(ta[i] == sa[i + 1]);
        let j = choose|j: int|
            0 <= j < sb.len() && sb[j].key@ == sa[i + 1].key@ && equiv(sa[i + 1].val, sb[j].val);
        if j == 0 {
            assert(sb[0].key@ == sa[i + 1].key@);
            assert(sa[0].key@ == sa[i + 1].key@);
            assert(false);
        }
        assert(tb[j - 1] == sb[j]);
        assert(tb[j - 1].key@ == ta[i].key@ && equiv(ta[i].val, tb[j - 1].val));
    }
    assert forall|j: int| 0 <= j < tb.len() implies exists|i: int|
        0 <= i < ta.len() && ta[i].key@ == (#[trigger] tb[j]).key@ by {
        assert(tb[j] == sb[j + 1]);
        let i = choose|i: int| 0 <= i < sa.len() && sa[i].key@ == sb[j + 1].key@;
        if i == 0 {
            assert(sb[0].key@ == sb[j + 1].key@);
            assert(false);
        }
        assert(ta[i - 1] == sa[i]);
        assert(ta[i - 1].key@ == tb[j].key@);
    }
    lemma_aligned(ta, tb);
    assert forall|k: int| 0 <= k < sa.len() implies (#[trigger] sa[k]).key@ == sb[k].key@
        && equiv(sa[k].val, sb[k].val) by {
        if k > 0 {
            assert(ta[k - 1] == sa[k] && tb[k - 1] == sb[k]);
            assert(ta[k - 1].key@ == tb[k - 1].key@ && equiv(ta[k - 1].val, tb[k - 1].val));
        }
    }
}

/// Canonicalization is invariant under object key order: two well-formed
/// values that are structurally equal up to the order of object members have
/// the same canonical serialization.
#[verifier::rlimit(30)]
pub proof fn lemma_canonical_equiv(a: JsonValue, b: JsonValue)
    requires
        a.wf(),
        b.wf(),
        equiv(a, b),
    ensures
        ser(a) == ser(b),
    decreases height(a), 2int,
{
    if a is Arr {
        let xs = a->Arr_0;
        let ys = b->Arr_0;
        assert forall|i: int| #![trigger xs@[i]] 0 <= i < xs@.len() implies xs@[i].wf()
            && ys@[i].wf() && equiv(xs@[i], ys@[i]) by {
            assert(a->Arr_0@[i].wf());
            assert(b->Arr_0@[i].wf());
            assert(equiv(a->Arr_0@[i], b->Arr_0@[i]));
        }
        assert forall|i: int| 0 <= i < xs@.len() implies height(#[trigger] xs@[i])
            <= elems_height(xs@) by {
            lemma_elems_height_bound(xs@, i);
        }
        lemma_ser_elems_equiv(xs@, ys@);
        assert(ser(a) == seq!['['] + ser_elems(xs@) + seq![']']);
        assert(ser(b) == seq!['['] + ser_elems(ys@) + seq![']']);
    } else if a is Obj {
        let xs = a->Obj_0;
        let ys = b->Obj_0;
        let sa = sort_members(xs@);
        let sb = sort_members(ys@);
        assert forall|i: int| 0 <= i < xs@.len() implies (#[trigger] xs@[i]).val.wf() by {
            assert(a->Obj_0@[i].val.wf());
        }
        assert forall|i: int| 0 <= i < ys@.len() implies (#[trigger] ys@[i]).val.wf() by {
            assert(b->Obj_0@[i].val.wf());
        }
        lemma_obj_sorted_aligned(xs@, ys@);
        lemma_sorted_vals_wf(xs@);
        lemma_sorted_vals_wf(ys@);
        lemma_mems_height_le(sa, mems_height(xs@));
        lemma_ser_mems_equiv(sa, sb);
        assert(ser(a) == seq!['{'] + ser_mems(sa) + seq!['}']);
        assert(ser(b) == seq!['{'] + ser_mems(sb) + seq!['}']);
    }
}

/// Every sorted member of a well-formed object is one of its members, keeps
/// its value's well-formedness and stays under the height bound.
proof fn lemma_sorted_vals_wf(xs: Seq<JsonMember>)
    requires
        forall|i: int| 0 <= i < xs.len() ==> (#[trigger] xs[i]).val.wf(),
    ensures
        sort_members(xs).len() == xs.len(),
        forall|k: int|
            0 <= k < sort_members(xs).len() ==> (#[trigger] sort_members(xs)[k]).val.wf()
                && height(sort_members(xs)[k].val) <= mems_height(xs),
{
    lemma_sort_members_elems(xs);
    assert forall|k: int| 0 <= k < sort_members(xs).len() implies (#[trigger] sort_members(
        xs,
    )[k]).val.wf() && height(sort_members(xs)[k].val) <= mems_height(xs) by {
        let p = choose|p: int| 0 <= p < xs.len() && xs[p] == sort_members(xs)[k];
        assert(xs[p].val.wf());
        lemma_mems_height_bound(xs, p);
    }
}

/// Each sorted member of the first object has a same-keyed, equivalent-valued
/// partner among the sorted members of the second.
#[verifier::spinoff_prover]
proof fn lemma_cross_forward(xs: Seq<JsonMember>, ys: Seq<JsonMember>)
    requires
        forall|i: int|
            0 <= i < xs.len() ==> exists|j: int|
                0 <= j < ys.len() && ys[j].key@ == (#[trigger] xs[i]).key@ && equiv(
                    xs[i].val,
                    ys[j].val,
                ),
    ensures
        forall|i: int|
            0 <= i < sort_members(xs).len() ==> exists|j: int|
                0 <= j < sort_members(ys).len() && sort_members(ys)[j].key@
                    == (#[trigger] sort_members(xs)[i]).key@ && equiv(
                    sort_members(xs)[i].val,
                    sort_members(ys)[j].val,
                ),
{
    let sa = sort_members(xs);
    let sb = sort_members(ys);
    lemma_sort_members_elems(xs);
    lemma_sort_members_members(ys);
    assert forall|i: int| 0 <= i < sa.len() implies exists|j: int|
        0 <= j < sb.len() && sb[j].key@ == (#[trigger] sa[i]).key@ && equiv(
            sa[i].val,
            sb[j].val,
        ) by {
        let p = choose|p: int| 0 <= p < xs.len() && xs[p] == sa[i];
        let q = choose|q: int|
            0 <= q < ys.len() && ys[q].key@ == xs[p].key@ && equiv(xs[p].val, ys[q].val);
        let j = choose|j: int| 0 <= j < sb.len() && sb[j] == ys[q];
        assert(sb[j].key@ == sa[i].key@ && equiv(sa[i].val, sb[j].val));
    }
}

/// Each sorted member of the second object finds its key among the sorted
/// members of the first.
#[verifier::spinoff_prover]
proof fn lemma_cross_backward(xs: Seq<JsonMember>, ys: Seq<JsonMember>)
    requires
        forall|j: int|
            0 <= j < ys.len() ==> exists|i: int|
                0 <= i < xs.len() && xs[i].key@ == (#[trigger] ys[j]).key@,
    ensures
        forall|j: int|
            0 <= j < sort_members(ys).len() ==> exists|i: int|
                0 <= i < sort_members(xs).len() && sort_members(xs)[i].key@
                    == (#[trigger] sort_members(ys)[j]).key@,
{
    let sa = sort_members(xs);
    let sb = sort_members(ys);
    lemma_sort_members_elems(ys);
    lemma_sort_members_members(xs);
    assert forall|j: int| 0 <= j < sb.len() implies exists|i: int|
        0 <= i < sa.len() && sa[i].key@ == (#[trigger] sb[j]).key@ by {
        let q = choose|q: int| 0 <= q < ys.len() && ys[q] == sb[j];
        let p = choose|p: int| 0 <= p < xs.len() && xs[p].key@ == ys[q].key@;
        let i = choose|i: int| 0 <= i < sa.len() && sa[i] == xs[p];
        assert(sa[i].key@ == sb[j].key@);
    }
}

/// Sorting two objects that carry the same keys with equivalent values, key
/// for key, aligns them member for member.
#[verifier::spinoff_prover]
proof fn lemma_obj_sorted_aligned(xs: Seq<JsonMember>, ys: Seq<JsonMember>)
    requires
        obj_keys_unique(xs),
        obj_keys_unique(ys),
        xs.len() == ys.len(),
        forall|i: int|
            0 <= i < xs.len() ==> exists|j: int|
                0 <= j < ys.len() && ys[j].key@ == (#[trigger] xs[i]).key@ && equiv(
                    xs[i].val,
                    ys[j].val,
                ),
        forall|j: int|
            0 <= j < ys.len() ==> exists|i: int|
                0 <= i < xs.len() && xs[i].key@ == (#[trigger] ys[j]).key@,
    ensures
        sort_members(xs).len() == xs.len(),
        sort_members(ys).len() == ys.len(),
        forall|k: int|
            0 <= k < sort_members(xs).len() ==> (#[trigger] sort_members(xs)[k]).key@
                == sort_members(ys)[k].key@ && equiv(
                sort_members(xs)[k].val,
                sort_members(ys)[k].val,
            ),
{
    lemma_sort_members_elems(xs);
    lemma_sort_members_elems(ys);
    lemma_sort_members_sorted(xs);
    lemma_sort_members_sorted(ys);
    lemma_sort_members_unique(xs);
    lemma_sort_members_unique(ys);
    lemma_cross_forward(xs, ys);
    lemma_cross_backward(xs, ys);
    lemma_aligned(sort_members(xs), sort_members(ys));
}

/// Arrays of pairwise equivalent values serialize to the same element list.
proof fn lemma_ser_elems_equiv(xs: Seq<JsonValue>, ys: Seq<JsonValue>)
    requires
        xs.len() == ys.len(),
        forall|i: int|
            #![trigger xs[i]]
            0 <= i < xs.len() ==> xs[i].wf() && ys[i].wf() && equiv(xs[i], ys[i]),
    ensures
        ser_elems(xs) == ser_elems(ys),
    decreases elems_height(xs), xs.len() + 4,
{
    lemma_ser_elems_equiv_from(xs, ys, 0);
    assert(xs.subrange(0, xs.len() as int) =~= xs);
    assert(ys.subrange(0, ys.len() as int) =~= ys);
}

/// The elements from position `k` on serialize alike on both sides.
proof fn lemma_ser_elems_equiv_from(xs: Seq<JsonValue>, ys: Seq<JsonValue>, k: int)
    requires
        xs.len() == ys.len(),
        0 <= k <= xs.len(),
        forall|i: int|
            #![trigger xs[i]]
            0 <= i < xs.len() ==> xs[i].wf() && ys[i].wf() && equiv(xs[i], ys[i]),
    ensures
        ser_elems(xs.subrange(k, xs.len() as int)) == ser_elems(
            ys.subrange(k, ys.len() as int),
        ),
    decreases elems_height(xs), xs.len() - k + 3,
{
    let sx = xs.subrange(k, xs.len() as int);
    let sy = ys.subrange(k, ys.len() as int);
    if k == xs.len() {
        assert(sx.len() == 0 && sy.len() == 0);
    } else {
        assert(sx[0] == xs[k] && sy[0] == ys[k]);
        assert(xs[k].wf() && ys[k].wf() && equiv(xs[k], ys[k]));
        lemma_elems_height_bound(xs, k);
        lemma_canonical_equiv(xs[k], ys[k]);
        if k + 1 < xs.len() {
            lemma_ser_elems_equiv_from(xs, ys, k + 1);
            assert(sx.subrange(1, sx.len() as int) =~= xs.subrange(k + 1, xs.len() as int));
            assert(sy.subrange(1, sy.len() as int) =~= ys.subrange(k + 1, ys.len() as int));
            assert(ser_elems(sx) == ser_elems(sy));
        } else {
            assert(sx.len() == 1 && sy.len() == 1);
            assert(ser_elems(sx) == ser(sx[0]) && ser_elems(sy) == ser(sy[0]));
        }
    }
}

/// Aligned member sequences serialize to the same member list.
proof fn lemma_ser_mems_equiv(sa: Seq<JsonMember>, sb: Seq<JsonMember>)
    requires
        sa.len() == sb.len(),
        forall|k: int|
            0 <= k < sa.len() ==> (#[trigger] sa[k]).key@ == sb[k].key@ && equiv(
                sa[k].val,
                sb[k].val,
            ) && sa[k].val.wf() && sb[k].val.wf(),
    ensures
        ser_mems(sa) == ser_mems(sb),
    decreases mems_height(sa), sa.len() + 3,
{
    if sa.len() == 0 {
    } else {
        lemma_mems_height_bound(sa, 0);
        lemma_canonical_equiv(sa[0].val, sb[0].val);
        assert(ser_mem(sa[0]) == ser_mem(sb[0]));
        if sa.len() > 1 {
            let ta = sa.subrange(1, sa.len() as int);
            let tb = sb.subrange(1, sb.len() as int);
            assert forall|k: int| 0 <= k < ta.len() implies (#[trigger] ta[k]).key@ == tb[k].key@
                && equiv(ta[k].val, tb[k].val) && ta[k].val.wf() && tb[k].val.wf() by {
                assert(ta[k] == sa[k + 1] && tb[k] == sb[k + 1]);
            }
            assert forall|k: int| 0 <= k < ta.len() implies height((#[trigger] ta[k]).val)
                <= mems_height(sa) by {
                assert(ta[k] == sa[k + 1]);
                lemma_mems_height_bound(sa, k + 1);
            }
            lemma_mems_height_le(ta, mems_height(sa));
            lemma_ser_mems_equiv(ta, tb);
        }
    }
}

/// The position of the member carrying this key.
pub open spec fn key_idx(ms: Seq<JsonMember>, k: Seq<char>) -> int {
    choose|i: int| 0 <= i < ms.len() && ms[i].key@ == k
}

/// The value stored under a key of an object; nothing for other values or
/// absent keys.
pub open spec fn get_member(v: JsonValue, k: Seq<char>) -> Option<JsonValue> {
    match v {
        JsonValue::Obj(ms) => if has_key(ms@, k) {
            Some(ms@[key_idx(ms@, k)].val)
        } else {
            None
        },
        _ => None,
    }
}

/// The string stored under a key of an object; nothing when the key is
/// absent or its value is not a string.
pub open spec fn get_str(v: JsonValue, k: Seq<char>) -> Option<String> {
    match get_member(v, k) {
        Some(w) => match w {
            JsonValue::Str(s) => Some(s),
            _ => None,
        },
        _ => None,
    }
}

/// Whether two strings hold the same characters.
pub fn str_eq(a: &str, b: &str) -> (r: bool)
    ensures
        r == (a@ == b@),
{
    let la = a.unicode_len();
    let lb = b.unicode_len();
    if la != lb {
        proof {
            assert(a@.len() != b@.len());
        }
        return false;
    }
    let mut i: usize = 0;
    while i < la
        invariant
            i <= la,
            la == a@.len(),
            la == b@.len(),
            forall|j: int| 0 <= j < i ==> a@[j] == b@[j],
        decreases la - i,
    {
        if a.get_char(i) != b.get_char(i) {
            return false;
        }
        i = i + 1;
    }
    proof {
        assert(a@ =~= b@);
    }
    true
}

/// A clone of the string stored under a key, if the object has one there.
pub fn get_str_field(p: &JsonValue, k: &str) -> (r: Option<String>)
    requires
        p.wf(),
    ensures
        r == get_str(*p, k@),
{
    match p {
        JsonValue::Obj(ms) => {
            let mut i: usize = 0;
            while i < ms.len()
                invariant
                    p is Obj && p->Obj_0 == ms,
                    p.wf(),
                    i <= ms@.len(),
                    forall|j: int| 0 <= j < i ==> ms@[j].key@ != k@,
                decreases ms@.len() - i,
            {
                if str_eq(ms[i].key.as_str(), k) {
                    proof {
                        assert(has_key(ms@, k@));
                        let q = key_idx(ms@, k@);
                        assert(ms@[q].key@ == k@);
                        assert(obj_keys_unique(ms@));
                        assert(q == i as int);
                    }
                    match &ms[i].val {
                        JsonValue::Str(s) => {
                            return Some(s.clone());
                        },
                        _ => {
                            return None;
                        },
                    }
                }
                i = i + 1;
            }
            proof {
                if has_key(ms@, k@) {
                    let q = key_idx(ms@, k@);
                    assert(ms@[q].key@ == k@);
                }
            }
            None
        },
        _ => None,
    }
}

/// Canonical JSON text of a value, together with the canonical text of the
/// value stored under the given key when the value is an object that has
/// one. The captured text is exactly what the member contributes between
/// its `"key":` and the following comma or brace.
#[verifier::rlimit(60)]
pub fn canonical_json_with_member(v: JsonValue, key: &str) -> (r: (String, Option<String>))
    requires
        v.wf(),
    ensures
        r.0@ == ser(v),
        match get_member(v, key@) {
            Some(w) => r.1 matches Some(t) && t@ == ser(w),
            None => r.1 is None,
        },
{
    match v {
        JsonValue::Obj(ms) => {
            let ghost ms0 = ms@;
            let sorted = sort_members_vec(ms);
            let ghost sm0 = sorted@;
            proof {
                lemma_sort_members_height(ms0);
                assert forall|i: int| 0 <= i < sm0.len() implies height(#[trigger] sm0[i].val)
                    < height(v) by {}
                lemma_sort_members_elems(ms0);
                lemma_sort_members_members(ms0);
                lemma_sort_members_unique(ms0);
            }
            let mut out = String::new();
            push_char(&mut out, '{');
            let ghost mut delta = Seq::<char>::empty();
            let mut captured: Option<String> = None;
            proof {
                assert(ser_mems(sm0) =~= delta + ser_mems(sm0));
            }
            let mut rem = sorted;
            while rem.len() > 0
                invariant
                    out@ == seq!['{'] + delta,
                    ser_mems(sm0) == delta + ser_mems(rem@),
                    forall|i: int| 0 <= i < rem@.len() ==> height(#[trigger] rem@[i].val)
                        < height(v),
                    rem@.len() <= sm0.len(),
                    forall|i: int|
                        sm0.len() - rem@.len() <= i < sm0.len() ==> #[trigger] sm0[i]
                            == rem@[i - (sm0.len() - rem@.len())],
                    match captured {
                        Some(t) => exists|j: int|
                            0 <= j < sm0.len() - rem@.len() && (#[trigger] sm0[j]).key@ == key@
                                && t@ == ser(sm0[j].val),
                        None => forall|j: int|
                            0 <= j < sm0.len() - rem@.len() ==> (#[trigger] sm0[j]).key@ != key@,
                    },
                decreases rem.len(),
            {
                let ghost rem0 = rem@;
                let m = rem.remove(0);
                proof {
                    assert(m == rem0[0]);
                    assert(rem@ =~= rem0.subrange(1, rem0.len() as int));
                    assert(m == sm0[sm0.len() - rem0.len()]);
                }
                let ghost pos = sm0.len() - rem0.len();
                let hit = str_eq(m.key.as_str(), key);
                push_char(&mut out, '"');
                write_escaped(m.key.as_str(), &mut out);
                push_char(&mut out, '"');
                push_char(&mut out, ':');
                if hit {
                    let mut sub = String::new();
                    let ghost mval = m.val;
                    write_canon(m.val, &mut sub);
                    out.append(sub.as_str());
                    proof {
                        assert(sub@ == ser(mval));
                        assert(sm0[pos as int].key@ == key@ && sub@ == ser(sm0[pos as int].val));
                    }
                    captured = Some(sub);
                } else {
                    write_canon(m.val, &mut out);
                }
                proof {
                    assert(ser_mem(m) == seq!['"'] + esc_str(m.key@) + seq!['"', ':'] + ser(
                        m.val,
                    ));
                }
                if rem.len() > 0 {
                    push_char(&mut out, ',');
                    proof {
                        assert(ser_mems(rem0) == ser_mem(m) + seq![','] + ser_mems(rem@));
                        delta = delta + ser_mem(m) + seq![','];
                        assert(out@ =~= seq!['{'] + delta);
                        assert(ser_mems(sm0) =~= delta + ser_mems(rem@));
                    }
                } else {
                    proof {
                        assert(rem0.len() == 1);
                        assert(ser_mems(rem0) == ser_mem(m));
                        delta = delta + ser_mem(m);
                        assert(out@ =~= seq!['{'] + delta);
                        assert(ser_mems(sm0) =~= delta + ser_mems(rem@));
                    }
                }
            }
            push_char(&mut out, '}');
            proof {
                assert(ser_mems(rem@).len() == 0);
                assert(ser_mems(sm0) =~= delta);
                assert(out@ =~= ser(v));
                match &captured {
                    Some(t) => {
                        let j = choose|j: int|
                            0 <= j < sm0.len() && (#[trigger] sm0[j]).key@ == key@ && t@ == ser(
                                sm0[j].val,
                            );
                        let q = choose|q: int| 0 <= q < ms0.len() && ms0[q] == sm0[j];
                        assert(has_key(ms0, key@)) by {
                            assert(ms0[q].key@ == key@);
                        }
                        let p = key_idx(ms0, key@);
                        assert(ms0[p].key@ == key@);
                        assert(obj_keys_unique(ms0));
                        assert(p == q);
                        assert(get_member(v, key@) == Some(sm0[j].val));
                    },
                    None => {
                        assert forall|q: int| 0 <= q < ms0.len() implies (
                        #[trigger] ms0[q]).key@ != key@ by {
                            let j = choose|j: int| 0 <= j < sm0.len() && sm0[j] == ms0[q];
                            assert(sm0[j].key@ != key@);
                        }
                        if has_key(ms0, key@) {
                            let p = key_idx(ms0, key@);
                            assert(ms0[p].key@ == key@);
                        }
                    },
                }
            }
            (out, captured)
        },
        _ => {
            let mut out = String::new();
            write_canon(v, &mut out);
            proof {
                assert(out@ =~= ser(v));
            }
            (out, None)
        },
    }
}

} // verus!
