use vstd::prelude::*;

verus! {

/// A bencode value as mathematics sees it.
pub enum Bencode {
    Int(int),
    Bytes(Seq<u8>),
    List(Seq<Bencode>),
    Dict(Seq<(Seq<u8>, Bencode)>),
}

/// Whether `c` is an ASCII decimal digit.
pub open spec fn is_digit(c: u8) -> bool {
    0x30 <= c <= 0x39
}

/// The decimal text of `n`, without leading zeros.
pub open spec fn decimal(n: nat) -> Seq<u8>
    decreases n,
{
    if n < 10 {
        seq![(0x30 + n) as u8]
    } else {
        decimal(n / 10).push((0x30 + n % 10) as u8)
    }
}

/// The decimal text of a signed integer.
pub open spec fn int_text(n: int) -> Seq<u8> {
    if n < 0 {
        seq![0x2Du8] + decimal((-n) as nat)
    } else {
        decimal(n as nat)
    }
}

/// The encoding of a byte string: its length, a colon, its bytes.
pub open spec fn encode_bytes(s: Seq<u8>) -> Seq<u8> {
    decimal(s.len()) + seq![0x3Au8] + s
}

/// The canonical encoding of a value.
pub open spec fn encode(v: Bencode) -> Seq<u8>
    decreases v,
{
    match v {
        Bencode::Int(n) => seq![0x69u8] + int_text(n) + seq![0x65u8],
        Bencode::Bytes(s) => encode_bytes(s),
        Bencode::List(items) => seq![0x6Cu8] + encode_items(items) + seq![0x65u8],
        Bencode::Dict(pairs) => seq![0x64u8] + encode_pairs(pairs) + seq![0x65u8],
    }
}

/// The encodings of `items`, one after another.
pub open spec fn encode_items(items: Seq<Bencode>) -> Seq<u8>
    decreases items,
{
    if items.len() == 0 {
        Seq::empty()
    } else {
        encode(items[0]) + encode_items(items.subrange(1, items.len() as int))
    }
}

/// The encodings of the key and value of each pair, one pair after another.
pub open spec fn encode_pairs(pairs: Seq<(Seq<u8>, Bencode)>) -> Seq<u8>
    decreases pairs,
{
    if pairs.len() == 0 {
        Seq::empty()
    } else {
        encode_bytes(pairs[0].0) + encode(pairs[0].1) + encode_pairs(
            pairs.subrange(1, pairs.len() as int),
        )
    }
}

/// Strict lexicographic order on byte strings: `a` differs from `b` first at a
/// smaller byte, or is a proper prefix of it.
pub open spec fn bytes_lt(a: Seq<u8>, b: Seq<u8>) -> bool {
    (exists|i: int|
        0 <= i < a.len() && i < b.len() && #[trigger] a[i] < b[i] && (forall|j: int|
            0 <= j < i ==> a[j] == b[j]))
    || (a.len() < b.len() && (forall|j: int| 0 <= j < a.len() ==> a[j] == b[j]))
}

/// Integers fit in 64 bits, and each dictionary's keys ascend strictly.
pub open spec fn wf(v: Bencode) -> bool
    decreases v,
{
    match v {
        Bencode::Int(n) => i64::MIN <= n <= i64::MAX,
        Bencode::Bytes(s) => s.len() <= i64::MAX,
        Bencode::List(items) => wf_items(items),
        Bencode::Dict(pairs) => wf_pairs(pairs) && keys_ascend(pairs),
    }
}

pub open spec fn wf_items(items: Seq<Bencode>) -> bool
    decreases items,
{
    items.len() > 0 ==> (wf(items[0]) && wf_items(items.subrange(1, items.len() as int)))
}

pub open spec fn wf_pairs(pairs: Seq<(Seq<u8>, Bencode)>) -> bool
    decreases pairs,
{
    pairs.len() > 0 ==> (pairs[0].0.len() <= i64::MAX && wf(pairs[0].1) && wf_pairs(
        pairs.subrange(1, pairs.len() as int),
    ))
}

pub open spec fn keys_ascend(pairs: Seq<(Seq<u8>, Bencode)>) -> bool {
    forall|i: int| 0 <= i < pairs.len() - 1 ==> bytes_lt(#[trigger] pairs[i].0, pairs[i + 1].0)
}

/// A decoded bencode value.
#[derive(Debug)]
pub enum BencodeValue {
    Integer(i64),
    ByteString(Vec<u8>),
    List(Vec<BencodeValue>),
    Dictionary(Vec<(Vec<u8>, BencodeValue)>),
}

pub open spec fn view_value(v: BencodeValue) -> Bencode
    decreases v,
{
    match v {
        BencodeValue::Integer(n) => Bencode::Int(n as int),
        BencodeValue::ByteString(s) => Bencode::Bytes(s@),
        BencodeValue::List(items) => Bencode::List(view_items(items@)),
        BencodeValue::Dictionary(pairs) => Bencode::Dict(view_pairs(pairs@)),
    }
}

pub open spec fn view_items(s: Seq<BencodeValue>) -> Seq<Bencode>
    decreases s,
{
    if s.len() == 0 {
        Seq::empty()
    } else {
        seq![view_value(s[0])] + view_items(s.subrange(1, s.len() as int))
    }
}

pub open spec fn view_pairs(s: Seq<(Vec<u8>, BencodeValue)>) -> Seq<(Seq<u8>, Bencode)>
    decreases s,
{
    if s.len() == 0 {
        Seq::empty()
    } else {
        seq![(s[0].0@, view_value(s[0].1))] + view_pairs(s.subrange(1, s.len() as int))
    }
}

impl View for BencodeValue {
    type V = Bencode;

    open spec fn view(&self) -> Bencode {
        view_value(*self)
    }
}

/// Whether `b` is the canonical encoding of some value.
pub open spec fn is_canonical(b: Seq<u8>) -> bool {
    exists|v: Bencode| wf(v) && encode(v) == b
}

/// The number that a run of decimal digits spells.
pub open spec fn value_of(s: Seq<u8>) -> nat
    decreases s.len(),
{
    if s.len() == 0 {
        0
    } else {
        value_of(s.drop_last()) * 10 + (s.last() - 0x30) as nat
    }
}

/// A run of digits with no leading zero, but for zero itself.
pub open spec fn is_decimal(s: Seq<u8>) -> bool {
    &&& s.len() >= 1
    &&& forall|i: int| 0 <= i < s.len() ==> is_digit(#[trigger] s[i])
    &&& s.len() > 1 ==> s[0] != 0x30
}

proof fn lemma_div10(q: nat, d: nat)
    requires
        d < 10,
    ensures
        (q * 10 + d) / 10 == q,
        (q * 10 + d) % 10 == d,
{
    assert((q * 10 + d) / 10 == q && (q * 10 + d) % 10 == d) by (nonlinear_arith)
        requires
            d < 10,
    ;
}

proof fn lemma_single_digit(c: u8)
    ensures
        value_of(seq![c]) == (c - 0x30) as nat,
{
    assert(seq![c].drop_last() =~= Seq::<u8>::empty());
    assert(value_of(Seq::<u8>::empty()) == 0);
}

proof fn lemma_decimal(n: nat)
    ensures
        is_decimal(decimal(n)),
        value_of(decimal(n)) == n,
    decreases n,
{
    if n < 10 {
        lemma_single_digit((0x30 + n) as u8);
    } else {
        lemma_decimal(n / 10);
        let d = decimal(n / 10);
        let e = decimal(n);
        assert(e == d.push((0x30 + n % 10) as u8));
        assert(e.drop_last() =~= d);
        assert(value_of(e) == value_of(d) * 10 + n % 10);
        assert(n == (n / 10) * 10 + n % 10);
        if d.len() == 1 {
            lemma_single_digit(d[0]);
            assert(d =~= seq![d[0]]);
        }
        assert(e[0] == d[0]);
        assert forall|i: int| 0 <= i < e.len() implies is_digit(#[trigger] e[i]) by {
            if i < d.len() {
                assert(e[i] == d[i]);
            }
        }
    }
}

proof fn lemma_value_positive(s: Seq<u8>)
    requires
        s.len() >= 1,
        forall|i: int| 0 <= i < s.len() ==> is_digit(#[trigger] s[i]),
        s[0] != 0x30,
    ensures
        value_of(s) >= 1,
        s.len() >= 2 ==> value_of(s) >= 10,
    decreases s.len(),
{
    if s.len() >= 2 {
        lemma_value_positive(s.drop_last());
    }
}

proof fn lemma_value_decimal(s: Seq<u8>)
    requires
        is_decimal(s),
    ensures
        decimal(value_of(s)) == s,
    decreases s.len(),
{
    if s.len() == 1 {
        lemma_single_digit(s[0]);
        assert(s =~= seq![s[0]]);
    } else {
        let t = s.drop_last();
        lemma_value_positive(s);
        lemma_value_decimal(t);
        let n = value_of(s);
        lemma_div10(value_of(t), (s.last() - 0x30) as nat);
        assert(n / 10 == value_of(t));
        assert(n % 10 == (s.last() - 0x30) as nat);
        assert(s =~= t.push(s.last()));
        assert forall|i: int| 0 <= i < t.len() implies is_digit(#[trigger] t[i]) by {
            assert(t[i] == s[i]);
        }
        assert(decimal(n) == decimal(n / 10).push((0x30 + n % 10) as u8));
    }
}

proof fn lemma_value_prefix(s: Seq<u8>, k: int)
    requires
        0 <= k <= s.len(),
    ensures
        value_of(s.take(k)) <= value_of(s),
    decreases s.len(),
{
    if k < s.len() {
        lemma_value_prefix(s.drop_last(), k);
        assert(s.drop_last().take(k) =~= s.take(k));
    } else {
        assert(s.take(k) =~= s);
    }
}

proof fn lemma_value_step(s: Seq<u8>, k: int)
    requires
        0 <= k < s.len(),
    ensures
        value_of(s.take(k + 1)) == value_of(s.take(k)) * 10 + (s[k] - 0x30) as nat,
{
    assert(s.take(k + 1).drop_last() =~= s.take(k));
}

pub proof fn lemma_view_items(s: Seq<BencodeValue>)
    ensures
        view_items(s).len() == s.len(),
        forall|i: int| 0 <= i < s.len() ==> #[trigger] view_items(s)[i] == view_value(s[i]),
    decreases s.len(),
{
    if s.len() > 0 {
        let t = s.subrange(1, s.len() as int);
        lemma_view_items(t);
        assert forall|i: int| 0 <= i < s.len() implies #[trigger] view_items(s)[i] == view_value(
            s[i],
        ) by {
            if i > 0 {
                assert(s[i] == t[i - 1]);
            }
        }
    }
}

pub proof fn lemma_view_pairs(s: Seq<(Vec<u8>, BencodeValue)>)
    ensures
        view_pairs(s).len() == s.len(),
        forall|i: int|
            0 <= i < s.len() ==> #[trigger] view_pairs(s)[i] == (s[i].0@, view_value(s[i].1)),
    decreases s.len(),
{
    if s.len() > 0 {
        let t = s.subrange(1, s.len() as int);
        lemma_view_pairs(t);
        assert forall|i: int| 0 <= i < s.len() implies #[trigger] view_pairs(s)[i] == (
        s[i].0@,
        view_value(s[i].1),
        ) by {
            if i > 0 {
                assert(s[i] == t[i - 1]);
            }
        }
    }
}

proof fn lemma_view_items_push(s: Seq<BencodeValue>, x: BencodeValue)
    ensures
        view_items(s.push(x)) == view_items(s).push(view_value(x)),
{
    lemma_view_items(s);
    lemma_view_items(s.push(x));
    assert(view_items(s.push(x)) =~= view_items(s).push(view_value(x)));
}

proof fn lemma_view_pairs_push(s: Seq<(Vec<u8>, BencodeValue)>, x: (Vec<u8>, BencodeValue))
    ensures
        view_pairs(s.push(x)) == view_pairs(s).push((x.0@, view_value(x.1))),
{
    lemma_view_pairs(s);
    lemma_view_pairs(s.push(x));
    assert(view_pairs(s.push(x)) =~= view_pairs(s).push((x.0@, view_value(x.1))));
}

proof fn lemma_encode_items_split(s: Seq<Bencode>, k: int)
    requires
        0 <= k <= s.len(),
    ensures
        encode_items(s) == encode_items(s.take(k)) + encode_items(s.skip(k)),
    decreases k,
{
    if k == 0 {
        assert(s.take(0) =~= Seq::<Bencode>::empty());
        assert(s.skip(0) =~= s);
        assert(encode_items(s.take(0)) =~= Seq::<u8>::empty());
        assert(encode_items(s) =~= Seq::<u8>::empty() + encode_items(s));
    } else {
        let t = s.subrange(1, s.len() as int);
        lemma_encode_items_split(t, k - 1);
        assert(t.take(k - 1) =~= s.take(k).subrange(1, k));
        assert(t.skip(k - 1) =~= s.skip(k));
        assert(s.take(k)[0] == s[0]);
        assert(encode_items(s.take(k)) == encode(s[0]) + encode_items(t.take(k - 1)));
        assert(encode_items(s) =~= encode_items(s.take(k)) + encode_items(s.skip(k)));
    }
}

proof fn lemma_encode_pairs_split(s: Seq<(Seq<u8>, Bencode)>, k: int)
    requires
        0 <= k <= s.len(),
    ensures
        encode_pairs(s) == encode_pairs(s.take(k)) + encode_pairs(s.skip(k)),
    decreases k,
{
    if k == 0 {
        assert(s.take(0) =~= Seq::<(Seq<u8>, Bencode)>::empty());
        assert(s.skip(0) =~= s);
        assert(encode_pairs(s.take(0)) =~= Seq::<u8>::empty());
        assert(encode_pairs(s) =~= Seq::<u8>::empty() + encode_pairs(s));
    } else {
        let t = s.subrange(1, s.len() as int);
        lemma_encode_pairs_split(t, k - 1);
        assert(t.take(k - 1) =~= s.take(k).subrange(1, k));
        assert(t.skip(k - 1) =~= s.skip(k));
        assert(s.take(k)[0] == s[0]);
        assert(encode_pairs(s.take(k)) == encode_bytes(s[0].0) + encode(s[0].1) + encode_pairs(
            t.take(k - 1),
        ));
        assert(encode_pairs(s) =~= encode_pairs(s.take(k)) + encode_pairs(s.skip(k)));
    }
}

proof fn lemma_encode_items_one(x: Bencode)
    ensures
        encode_items(seq![x]) == encode(x),
{
    assert(seq![x].subrange(1, 1) =~= Seq::<Bencode>::empty());
    assert(seq![x][0] == x);
    assert(encode_items(Seq::<Bencode>::empty()) == Seq::<u8>::empty());
    assert(encode_items(seq![x]) =~= encode(x) + Seq::<u8>::empty());
}

proof fn lemma_encode_pairs_one(x: (Seq<u8>, Bencode))
    ensures
        encode_pairs(seq![x]) == encode_bytes(x.0) + encode(x.1),
{
    assert(seq![x].subrange(1, 1) =~= Seq::<(Seq<u8>, Bencode)>::empty());
    assert(seq![x][0] == x);
    assert(encode_pairs(Seq::<(Seq<u8>, Bencode)>::empty()) == Seq::<u8>::empty());
    assert(encode_pairs(seq![x]) =~= encode_bytes(x.0) + encode(x.1) + Seq::<u8>::empty());
}

/// Appending an item appends its encoding.
proof fn lemma_encode_items_push(s: Seq<Bencode>, x: Bencode)
    ensures
        encode_items(s.push(x)) == encode_items(s) + encode(x),
{
    let t = s.push(x);
    lemma_encode_items_split(t, s.len() as int);
    assert(t.take(s.len() as int) =~= s);
    assert(t.skip(s.len() as int) =~= seq![x]);
    lemma_encode_items_one(x);
}

proof fn lemma_encode_pairs_push(s: Seq<(Seq<u8>, Bencode)>, x: (Seq<u8>, Bencode))
    ensures
        encode_pairs(s.push(x)) == encode_pairs(s) + encode_bytes(x.0) + encode(x.1),
{
    let t = s.push(x);
    lemma_encode_pairs_split(t, s.len() as int);
    assert(t.take(s.len() as int) =~= s);
    assert(t.skip(s.len() as int) =~= seq![x]);
    lemma_encode_pairs_one(x);
    assert(encode_pairs(t) =~= encode_pairs(s) + encode_bytes(x.0) + encode(x.1));
}

proof fn lemma_wf_items(s: Seq<Bencode>)
    ensures
        wf_items(s) <==> forall|i: int| 0 <= i < s.len() ==> wf(#[trigger] s[i]),
    decreases s.len(),
{
    if s.len() > 0 {
        let t = s.subrange(1, s.len() as int);
        lemma_wf_items(t);
        assert forall|i: int| 0 < i < s.len() implies s[i] == t[i - 1] by {}
        if forall|i: int| 0 <= i < s.len() ==> wf(#[trigger] s[i]) {
            assert forall|i: int| 0 <= i < t.len() implies wf(#[trigger] t[i]) by {
                assert(t[i] == s[i + 1]);
            }
        }
    }
}

proof fn lemma_wf_pairs(s: Seq<(Seq<u8>, Bencode)>)
    ensures
        wf_pairs(s) <==> forall|i: int|
            0 <= i < s.len() ==> (#[trigger] s[i]).0.len() <= i64::MAX && wf(s[i].1),
    decreases s.len(),
{
    if s.len() > 0 {
        let t = s.subrange(1, s.len() as int);
        lemma_wf_pairs(t);
        assert forall|i: int| 0 < i < s.len() implies s[i] == t[i - 1] by {}
        if forall|i: int| 0 <= i < s.len() ==> (#[trigger] s[i]).0.len() <= i64::MAX && wf(s[i].1) {
            assert forall|i: int| 0 <= i < t.len() implies (#[trigger] t[i]).0.len() <= i64::MAX
                && wf(t[i].1) by {
                assert(t[i] == s[i + 1]);
            }
        }
    }
}

/// An encoding is never empty, and its first byte tells its kind.
proof fn lemma_encode_head(v: Bencode)
    ensures
        encode(v).len() >= 1,
        encode(v)[0] != 0x65,
        encode(v)[0] == 0x69 <==> v is Int,
        encode(v)[0] == 0x6C <==> v is List,
        encode(v)[0] == 0x64 <==> v is Dict,
        is_digit(encode(v)[0]) <==> v is Bytes,
{
    match v {
        Bencode::Bytes(s) => {
            lemma_decimal(s.len());
            assert(encode(v)[0] == decimal(s.len())[0]);
        },
        _ => {},
    }
}

/// The bytes of `b` from `pos` on are those of `e`.
pub open spec fn bytes_at(b: Seq<u8>, pos: int, e: Seq<u8>) -> bool {
    0 <= pos && pos + e.len() <= b.len() && b.subrange(pos, pos + e.len()) == e
}

/// `b` holds the encoding of the well-formed value `w` at `pos`.
pub open spec fn encodes_at(b: Seq<u8>, pos: int, w: Bencode) -> bool {
    wf(w) && bytes_at(b, pos, encode(w))
}

proof fn lemma_bytes_at(b: Seq<u8>, pos: int, e: Seq<u8>)
    requires
        bytes_at(b, pos, e),
    ensures
        forall|i: int| 0 <= i < e.len() ==> b[pos + i] == #[trigger] e[i],
{
    assert forall|i: int| 0 <= i < e.len() implies b[pos + i] == #[trigger] e[i] by {
        assert(b.subrange(pos, pos + e.len())[i] == b[pos + i]);
    }
}

proof fn lemma_bytes_at_split(b: Seq<u8>, pos: int, e1: Seq<u8>, e2: Seq<u8>)
    requires
        bytes_at(b, pos, e1 + e2),
    ensures
        bytes_at(b, pos, e1),
        bytes_at(b, pos + e1.len(), e2),
{
    lemma_bytes_at(b, pos, e1 + e2);
    assert(b.subrange(pos, pos + e1.len()) =~= e1) by {
        assert forall|i: int| 0 <= i < e1.len() implies b.subrange(pos, pos + e1.len())[i] == e1[i] by {
            assert((e1 + e2)[i] == e1[i]);
        }
    }
    assert(b.subrange(pos + e1.len(), pos + e1.len() + e2.len()) =~= e2) by {
        assert forall|i: int| 0 <= i < e2.len() implies b.subrange(pos + e1.len(), pos + e1.len() + e2.len())[i] == e2[i] by {
            assert((e1 + e2)[e1.len() + i] == e2[i]);
        }
    }
}

#[derive(Debug, PartialEq, Eq)]
pub enum BencodeError {
    UnconsumedContents { num_remaining: usize },
    InsufficientContents,
    UnknownType { pos: usize, value: u8 },
    IntegerWithLeadingZeros { pos: usize },
    EmptyInteger { pos: usize },
    IllegalInteger { pos: usize },
    UnterminatedValue { pos: usize },
    IllegalStringLength { pos: usize },
    StringMissingSeparator { pos: usize },
    IllegalDictionaryKeyType { value: Vec<u8> },
    DuplicateDictionaryKey { name: Vec<u8> },
    DictionaryKeysOutOfOrder,
}

/// The first index at or after `start` that holds no decimal digit.
pub open spec fn run_end(b: Seq<u8>, start: int) -> int
    decreases b.len() - start,
{
    if start < 0 || start >= b.len() || !is_digit(b[start]) {
        start
    } else {
        run_end(b, start + 1)
    }
}

proof fn lemma_run_end(b: Seq<u8>, start: int, end: int)
    requires
        0 <= start <= end <= b.len(),
        forall|i: int| start <= i < end ==> is_digit(#[trigger] b[i]),
        end == b.len() || !is_digit(b[end]),
    ensures
        run_end(b, start) == end,
    decreases end - start,
{
    if start < end {
        lemma_run_end(b, start + 1, end);
    }
}

/// The error that reading an integer at `pos` (its `i` marker) meets first:
/// running out of input, no digits, a leading zero, a value outside 64 bits,
/// a negative zero, or a missing end marker.
pub open spec fn integer_error(b: Seq<u8>, pos: int) -> Option<BencodeError> {
    if pos + 1 >= b.len() {
        Some(BencodeError::InsufficientContents)
    } else {
        let neg = b[pos + 1] == 0x2D;
        let start = if neg { pos + 2 } else { pos + 1 };
        let end = run_end(b, start);
        let limit: int = if neg { 0x8000_0000_0000_0000 } else { 0x7FFF_FFFF_FFFF_FFFF };
        if end >= b.len() {
            Some(BencodeError::InsufficientContents)
        } else if end == start {
            Some(BencodeError::EmptyInteger { pos: start as usize })
        } else if b[start] == 0x30 && end > start + 1 {
            Some(BencodeError::IntegerWithLeadingZeros { pos: start as usize })
        } else if value_of(b.subrange(start, end)) > limit {
            Some(BencodeError::IllegalInteger { pos: start as usize })
        } else if neg && value_of(b.subrange(start, end)) == 0 {
            Some(BencodeError::IllegalInteger { pos: end as usize })
        } else if b[end] != 0x65 {
            Some(BencodeError::UnterminatedValue { pos: end as usize })
        } else {
            None
        }
    }
}

/// The error that reading a byte string at `pos` (its length) meets first:
/// running out of input, no digits, a leading zero, a length outside 64 bits,
/// no colon, or fewer bytes left than the length.
pub open spec fn string_error(b: Seq<u8>, pos: int) -> Option<BencodeError> {
    let end = run_end(b, pos);
    if end >= b.len() {
        Some(BencodeError::InsufficientContents)
    } else if end == pos {
        Some(BencodeError::EmptyInteger { pos: pos as usize })
    } else if b[pos] == 0x30 && end > pos + 1 {
        Some(BencodeError::IntegerWithLeadingZeros { pos: pos as usize })
    } else if value_of(b.subrange(pos, end)) > 0x7FFF_FFFF_FFFF_FFFF {
        Some(BencodeError::IllegalInteger { pos: pos as usize })
    } else if b[end] != 0x3A {
        Some(BencodeError::StringMissingSeparator { pos: end as usize })
    } else if value_of(b.subrange(pos, end)) > b.len() - (end + 1) {
        Some(BencodeError::InsufficientContents)
    } else {
        None
    }
}

/// The end of the run of digits that starts at `start`.
fn scan_digits(b: &[u8], start: usize) -> (r: Result<usize, BencodeError>)
    requires
        start <= b@.len(),
    ensures
        match r {
            Ok(end) => {
                &&& start <= end < b@.len()
                &&& forall|i: int| start <= i < end ==> is_digit(#[trigger] b@[i])
                &&& !is_digit(b@[end as int])
                &&& end == run_end(b@, start as int)
            },
            Err(e) => {
                &&& e == BencodeError::InsufficientContents
                &&& forall|i: int| start <= i < b@.len() ==> is_digit(#[trigger] b@[i])
                &&& run_end(b@, start as int) >= b@.len()
            },
        },
{
    let mut p = start;
    while p < b.len() && b[p] >= 0x30 && b[p] <= 0x39
        invariant
            start <= p <= b@.len(),
            forall|i: int| start <= i < p ==> is_digit(#[trigger] b@[i]),
        decreases b@.len() - p,
    {
        p = p + 1;
    }
    proof {
        lemma_run_end(b@, start as int, p as int);
    }
    if p >= b.len() {
        Err(BencodeError::InsufficientContents)
    } else {
        Ok(p)
    }
}

/// The number spelled by the digits `b[start..end]`, if it is at most `limit`.
fn read_number(b: &[u8], start: usize, end: usize, limit: u64) -> (r: Option<u64>)
    requires
        start <= end <= b@.len(),
        forall|i: int| start <= i < end ==> is_digit(#[trigger] b@[i]),
    ensures
        match r {
            Some(n) => n == value_of(b@.subrange(start as int, end as int)) && n <= limit,
            None => value_of(b@.subrange(start as int, end as int)) > limit,
        },
{
    let ghost run = b@.subrange(start as int, end as int);
    let mut acc: u64 = 0;
    let mut p = start;
    proof {
        assert(run.take(0) =~= Seq::<u8>::empty());
    }
    while p < end
        invariant
            start <= p <= end <= b@.len(),
            run == b@.subrange(start as int, end as int),
            forall|i: int| start <= i < end ==> is_digit(#[trigger] b@[i]),
            acc == value_of(run.take(p - start)),
            acc <= limit,
        decreases end - p,
    {
        let d: u64 = (b[p] - 0x30) as u64;
        proof {
            lemma_value_step(run, p - start);
            assert(run[p - start] == b@[p as int]);
        }
        if d > limit {
            proof {
                lemma_value_prefix(run, p - start + 1);
            }
            return None;
        }
        if acc > (limit - d) / 10 {
            proof {
                lemma_value_prefix(run, p - start + 1);
                assert(acc * 10 + d > limit) by (nonlinear_arith)
                    requires
                        acc > (limit - d) / 10,
                        d <= limit,
                ;
            }
            return None;
        }
        proof {
            assert(acc * 10 + d <= limit) by (nonlinear_arith)
                requires
                    acc <= (limit - d) / 10,
                    d <= limit,
            ;
        }
        acc = acc * 10 + d;
        p = p + 1;
    }
    proof {
        assert(run.take(end - start) =~= run);
    }
    Some(acc)
}

/// A parse of one value that starts at `pos`: on success the value is well
/// formed and the bytes up to the returned end are its encoding.
pub open spec fn sound_at(b: Seq<u8>, pos: int, r: Result<(BencodeValue, usize), BencodeError>) -> bool {
    r is Ok ==> {
        &&& pos < r->Ok_0.1 <= b.len()
        &&& wf(r->Ok_0.0@)
        &&& b.subrange(pos, r->Ok_0.1 as int) == encode(r->Ok_0.0@)
    }
}

/// A parse at `pos` that finds every value whose encoding stands there.
pub open spec fn complete_at(b: Seq<u8>, pos: int, r: Result<(BencodeValue, usize), BencodeError>) -> bool {
    forall|w: Bencode|
        #[trigger] encodes_at(b, pos, w) ==> {
            &&& r is Ok
            &&& r->Ok_0.0@ == w
            &&& r->Ok_0.1 == pos + encode(w).len()
        }
}

/// Where the parts of an integer's encoding stand.
proof fn lemma_int_layout(b: Seq<u8>, pos: int, n: int)
    requires
        encodes_at(b, pos, Bencode::Int(n)),
    ensures
        ({
            let m: nat = if n < 0 { (-n) as nat } else { n as nat };
            let st = if n < 0 { pos + 2 } else { pos + 1 };
            &&& (b[pos + 1] == 0x2D) == (n < 0)
            &&& bytes_at(b, st, decimal(m))
            &&& st + decimal(m).len() < b.len()
            &&& b[st + decimal(m).len()] == 0x65
        }),
{
    let m: nat = if n < 0 { (-n) as nat } else { n as nat };
    lemma_decimal(m);
    let d = decimal(m);
    let e = encode(Bencode::Int(n));
    if n < 0 {
        let head = seq![0x69u8, 0x2Du8];
        assert(e =~= head + d + seq![0x65u8]);
        lemma_bytes_at_split(b, pos, head + d, seq![0x65u8]);
        lemma_bytes_at_split(b, pos, head, d);
        lemma_bytes_at(b, pos, head);
        assert(head[1] == 0x2Du8);
        lemma_bytes_at(b, pos + 2 + d.len(), seq![0x65u8]);
        assert(seq![0x65u8][0] == 0x65u8);
    } else {
        let head = seq![0x69u8];
        assert(e =~= head + d + seq![0x65u8]);
        lemma_bytes_at_split(b, pos, head + d, seq![0x65u8]);
        lemma_bytes_at_split(b, pos, head, d);
        lemma_bytes_at(b, pos + 1, d);
        assert(is_digit(d[0]));
        assert(b[pos + 1] == d[0]);
        lemma_bytes_at(b, pos + 1 + d.len(), seq![0x65u8]);
        assert(seq![0x65u8][0] == 0x65u8);
    }
}

fn parse_integer(b: &[u8], pos: usize) -> (r: Result<(BencodeValue, usize), BencodeError>)
    requires
        pos < b@.len(),
        b@[pos as int] == 0x69,
    ensures
        sound_at(b@, pos as int, r),
        r is Err <==> integer_error(b@, pos as int) is Some,
        r is Err ==> integer_error(b@, pos as int) == Some(r->Err_0),
        forall|n: int|
            #[trigger] encodes_at(b@, pos as int, Bencode::Int(n)) ==> {
                &&& r is Ok
                &&& r->Ok_0.0@ == Bencode::Int(n)
                &&& r->Ok_0.1 == pos + encode(Bencode::Int(n)).len()
            },
{
    let len = b.len();
    let p0 = pos + 1;
    if p0 >= len {
        proof {
            assert forall|n: int| !encodes_at(b@, pos as int, Bencode::Int(n)) by {
                if encodes_at(b@, pos as int, Bencode::Int(n)) {
                    lemma_decimal(if n < 0 { (-n) as nat } else { n as nat });
                }
            }
        }
        return Err(BencodeError::InsufficientContents);
    }
    let neg = b[p0] == 0x2D;
    let start = if neg { p0 + 1 } else { p0 };
    proof {
        assert forall|n: int| #[trigger] encodes_at(b@, pos as int, Bencode::Int(n)) implies {
            let m: nat = if n < 0 { (-n) as nat } else { n as nat };
            &&& neg == (n < 0)
            &&& bytes_at(b@, start as int, decimal(m))
            &&& start + decimal(m).len() < b@.len()
            &&& b@[start + decimal(m).len()] == 0x65
        } by {
            lemma_int_layout(b@, pos as int, n);
        }
    }
    let end = match scan_digits(b, start) {
        Ok(end) => end,
        Err(e) => {
            proof {
                assert forall|n: int| !encodes_at(b@, pos as int, Bencode::Int(n)) by {
                    if encodes_at(b@, pos as int, Bencode::Int(n)) {
                        let m: nat = if n < 0 { (-n) as nat } else { n as nat };
                        assert(!is_digit(b@[start + decimal(m).len()]));
                    }
                }
            }
            return Err(e);
        },
    };
    proof {
        assert forall|n: int| #[trigger] encodes_at(b@, pos as int, Bencode::Int(n)) implies {
            let m: nat = if n < 0 { (-n) as nat } else { n as nat };
            &&& end == start + decimal(m).len()
            &&& b@.subrange(start as int, end as int) == decimal(m)
        } by {
            let m: nat = if n < 0 { (-n) as nat } else { n as nat };
            lemma_decimal(m);
            lemma_bytes_at(b@, start as int, decimal(m));
            if end < start + decimal(m).len() {
                assert(is_digit(decimal(m)[end - start]));
            }
            if end > start + decimal(m).len() {
                assert(is_digit(b@[start + decimal(m).len()]));
            }
        }
    }
    if end == start {
        proof {
            assert forall|n: int| !encodes_at(b@, pos as int, Bencode::Int(n)) by {
                if encodes_at(b@, pos as int, Bencode::Int(n)) {
                    lemma_decimal(if n < 0 { (-n) as nat } else { n as nat });
                }
            }
        }
        return Err(BencodeError::EmptyInteger { pos: start });
    }
    if b[start] == 0x30 && end > start + 1 {
        proof {
            assert forall|n: int| !encodes_at(b@, pos as int, Bencode::Int(n)) by {
                if encodes_at(b@, pos as int, Bencode::Int(n)) {
                    let m: nat = if n < 0 { (-n) as nat } else { n as nat };
                    lemma_decimal(m);
                    assert(b@[start as int] == decimal(m)[0]);
                }
            }
        }
        return Err(BencodeError::IntegerWithLeadingZeros { pos: start });
    }
    let ghost run = b@.subrange(start as int, end as int);
    proof {
        assert forall|i: int| 0 <= i < run.len() implies is_digit(#[trigger] run[i]) by {
            assert(run[i] == b@[start + i]);
        }
        assert(is_decimal(run));
        lemma_value_decimal(run);
    }
    let limit: u64 = if neg { 0x8000_0000_0000_0000 } else { 0x7FFF_FFFF_FFFF_FFFF };
    let m = match read_number(b, start, end, limit) {
        Some(m) => m,
        None => {
            proof {
                assert forall|n: int| !encodes_at(b@, pos as int, Bencode::Int(n)) by {
                    if encodes_at(b@, pos as int, Bencode::Int(n)) {
                        let m: nat = if n < 0 { (-n) as nat } else { n as nat };
                        lemma_decimal(m);
                    }
                }
            }
            return Err(BencodeError::IllegalInteger { pos: start });
        },
    };
    if neg && m == 0 {
        proof {
            assert forall|n: int| !encodes_at(b@, pos as int, Bencode::Int(n)) by {
                if encodes_at(b@, pos as int, Bencode::Int(n)) {
                    let mm: nat = if n < 0 { (-n) as nat } else { n as nat };
                    lemma_decimal(mm);
                }
            }
        }
        return Err(BencodeError::IllegalInteger { pos: end });
    }
    if b[end] != 0x65 {
        return Err(BencodeError::UnterminatedValue { pos: end });
    }
    let n: i64 = if neg {
        if m == 0x8000_0000_0000_0000 {
            i64::MIN
        } else {
            -(m as i64)
        }
    } else {
        m as i64
    };
    proof {
        let e = encode(Bencode::Int(n as int));
        if neg {
            assert(b@.subrange(pos as int, end + 1) =~= seq![0x69u8] + seq![0x2Du8] + run + seq![0x65u8]);
            assert(e =~= seq![0x69u8] + seq![0x2Du8] + decimal(m as nat) + seq![0x65u8]);
        } else {
            assert(b@.subrange(pos as int, end + 1) =~= seq![0x69u8] + run + seq![0x65u8]);
            assert(e =~= seq![0x69u8] + decimal(m as nat) + seq![0x65u8]);
        }
        assert forall|k: int| #[trigger] encodes_at(b@, pos as int, Bencode::Int(k)) implies k == n by {
            let mk: nat = if k < 0 { (-k) as nat } else { k as nat };
            lemma_decimal(mk);
        }
    }
    Ok((BencodeValue::Integer(n), end + 1))
}

/// Where the parts of a byte string's encoding stand.
proof fn lemma_bytes_layout(b: Seq<u8>, pos: int, t: Seq<u8>)
    requires
        bytes_at(b, pos, encode_bytes(t)),
    ensures
        is_decimal(decimal(t.len())),
        value_of(decimal(t.len())) == t.len(),
        bytes_at(b, pos, decimal(t.len())),
        b[pos + decimal(t.len()).len()] == 0x3A,
        bytes_at(b, pos + decimal(t.len()).len() + 1, t),
{
    let d = decimal(t.len());
    lemma_decimal(t.len());
    lemma_bytes_at_split(b, pos, d + seq![0x3Au8], t);
    lemma_bytes_at_split(b, pos, d, seq![0x3Au8]);
    lemma_bytes_at(b, pos + d.len(), seq![0x3Au8]);
    assert(seq![0x3Au8][0] == 0x3Au8);
}

/// Reads a byte string whose length starts at `pos`.
fn parse_string(b: &[u8], pos: usize) -> (r: Result<(Vec<u8>, usize), BencodeError>)
    requires
        pos <= b@.len(),
    ensures
        r is Err <==> string_error(b@, pos as int) is Some,
        r is Err ==> string_error(b@, pos as int) == Some(r->Err_0),
        r is Ok ==> {
            &&& pos < r->Ok_0.1 <= b@.len()
            &&& r->Ok_0.0@.len() <= i64::MAX
            &&& b@.subrange(pos as int, r->Ok_0.1 as int) == encode_bytes(r->Ok_0.0@)
        },
        forall|t: Seq<u8>|
            t.len() <= i64::MAX && #[trigger] bytes_at(b@, pos as int, encode_bytes(t)) ==> {
                &&& r is Ok
                &&& r->Ok_0.0@ == t
                &&& r->Ok_0.1 == pos + encode_bytes(t).len()
            },
{
    let len = b.len();
    let end = match scan_digits(b, pos) {
        Ok(end) => end,
        Err(e) => {
            proof {
                assert forall|t: Seq<u8>| !bytes_at(b@, pos as int, encode_bytes(t)) by {
                    if bytes_at(b@, pos as int, encode_bytes(t)) {
                        lemma_bytes_layout(b@, pos as int, t);
                    }
                }
            }
            return Err(e);
        },
    };
    proof {
        assert forall|t: Seq<u8>| #[trigger] bytes_at(b@, pos as int, encode_bytes(t)) implies {
            &&& end == pos + decimal(t.len()).len()
            &&& b@.subrange(pos as int, end as int) == decimal(t.len())
        } by {
            lemma_bytes_layout(b@, pos as int, t);
            let d = decimal(t.len());
            lemma_bytes_at(b@, pos as int, d);
            if end < pos + d.len() {
                assert(is_digit(d[end - pos]));
            }
            if end > pos + d.len() {
                assert(is_digit(b@[pos + d.len()]));
            }
        }
    }
    if end == pos {
        proof {
            assert forall|t: Seq<u8>| !bytes_at(b@, pos as int, encode_bytes(t)) by {
                if bytes_at(b@, pos as int, encode_bytes(t)) {
                    lemma_bytes_layout(b@, pos as int, t);
                }
            }
        }
        return Err(BencodeError::EmptyInteger { pos });
    }
    if b[pos] == 0x30 && end > pos + 1 {
        proof {
            assert forall|t: Seq<u8>| !bytes_at(b@, pos as int, encode_bytes(t)) by {
                if bytes_at(b@, pos as int, encode_bytes(t)) {
                    lemma_bytes_layout(b@, pos as int, t);
                    assert(b@[pos as int] == decimal(t.len())[0]);
                }
            }
        }
        return Err(BencodeError::IntegerWithLeadingZeros { pos });
    }
    let ghost run = b@.subrange(pos as int, end as int);
    proof {
        assert forall|i: int| 0 <= i < run.len() implies is_digit(#[trigger] run[i]) by {
            assert(run[i] == b@[pos + i]);
        }
        assert(is_decimal(run));
        lemma_value_decimal(run);
    }
    let n = match read_number(b, pos, end, 0x7FFF_FFFF_FFFF_FFFF) {
        Some(n) => n,
        None => {
            proof {
                assert forall|t: Seq<u8>|
                    t.len() <= i64::MAX implies !#[trigger] bytes_at(b@, pos as int, encode_bytes(t)) by {
                    if bytes_at(b@, pos as int, encode_bytes(t)) {
                        lemma_bytes_layout(b@, pos as int, t);
                    }
                }
            }
            return Err(BencodeError::IllegalInteger { pos });
        },
    };
    if b[end] != 0x3A {
        proof {
            assert forall|t: Seq<u8>| !bytes_at(b@, pos as int, encode_bytes(t)) by {
                if bytes_at(b@, pos as int, encode_bytes(t)) {
                    lemma_bytes_layout(b@, pos as int, t);
                }
            }
        }
        return Err(BencodeError::StringMissingSeparator { pos: end });
    }
    let start = end + 1;
    if n > (len - start) as u64 {
        proof {
            assert forall|t: Seq<u8>| !bytes_at(b@, pos as int, encode_bytes(t)) by {
                if bytes_at(b@, pos as int, encode_bytes(t)) {
                    lemma_bytes_layout(b@, pos as int, t);
                }
            }
        }
        return Err(BencodeError::InsufficientContents);
    }
    let count = n as usize;
    let mut v: Vec<u8> = Vec::new();
    let mut i = start;
    let stop = start + count;
    while i < stop
        invariant
            stop == start + count,
            start <= i <= stop <= b@.len(),
            v@ == b@.subrange(start as int, i as int),
        decreases stop - i,
    {
        v.push(b[i]);
        proof {
            assert(v@ =~= b@.subrange(start as int, i + 1));
        }
        i = i + 1;
    }
    proof {
        assert(b@.subrange(pos as int, (start + count) as int) =~= run + seq![0x3Au8] + v@);
        assert forall|t: Seq<u8>| #[trigger] bytes_at(b@, pos as int, encode_bytes(t)) implies t
            == v@ by {
            lemma_bytes_layout(b@, pos as int, t);
            assert(t.len() == count);
            lemma_bytes_at(b@, start as int, t);
            assert(t =~= v@);
        }
    }
    Ok((v, stop))
}

/// Compares two byte strings: negative, zero or positive as `a` orders before,
/// equal to or after `b`.
pub fn compare_keys(a: &Vec<u8>, b: &Vec<u8>) -> (r: i8)
    ensures
        r == 0 <==> a@ == b@,
        r < 0 <==> bytes_lt(a@, b@),
        r > 0 <==> bytes_lt(b@, a@),
{
    let n = if a.len() < b.len() { a.len() } else { b.len() };
    let mut i: usize = 0;
    while i < n
        invariant
            i <= n,
            n <= a@.len(),
            n <= b@.len(),
            n == a@.len() || n == b@.len(),
            forall|j: int| 0 <= j < i ==> a@[j] == b@[j],
        decreases n - i,
    {
        if a[i] != b[i] {
            proof {
                let ii = i as int;
                if a@[ii] < b@[ii] {
                    assert(bytes_lt(a@, b@));
                    assert(!bytes_lt(b@, a@)) by {
                        if exists|k: int|
                            0 <= k < b@.len() && k < a@.len() && #[trigger] b@[k] < a@[k] && (
                            forall|j: int| 0 <= j < k ==> b@[j] == a@[j]) {
                            let k = choose|k: int|
                                0 <= k < b@.len() && k < a@.len() && #[trigger] b@[k] < a@[k] && (
                                forall|j: int| 0 <= j < k ==> b@[j] == a@[j]);
                            if k > ii {
                                assert(b@[ii] == a@[ii]);
                            }
                        }
                    }
                } else {
                    assert(bytes_lt(b@, a@));
                    assert(!bytes_lt(a@, b@)) by {
                        if exists|k: int|
                            0 <= k < a@.len() && k < b@.len() && #[trigger] a@[k] < b@[k] && (
                            forall|j: int| 0 <= j < k ==> a@[j] == b@[j]) {
                            let k = choose|k: int|
                                0 <= k < a@.len() && k < b@.len() && #[trigger] a@[k] < b@[k] && (
                                forall|j: int| 0 <= j < k ==> a@[j] == b@[j]);
                            if k > ii {
                                assert(a@[ii] == b@[ii]);
                            }
                        }
                    }
                }
                assert(a@[ii] != b@[ii]);
            }
            if a[i] < b[i] {
                return -1;
            } else {
                return 1;
            }
        }
        i = i + 1;
    }
    if a.len() < b.len() {
        proof {
            assert(bytes_lt(a@, b@));
            assert(a@ != b@);
        }
        -1
    } else if a.len() > b.len() {
        proof {
            assert(bytes_lt(b@, a@));
            assert(a@ != b@);
        }
        1
    } else {
        proof {
            assert(a@ =~= b@);
        }
        0
    }
}

/// Where the next item of a list encoding stands, or its end marker.
proof fn lemma_list_step(b: Seq<u8>, pos: int, ws: Seq<Bencode>, k: int)
    requires
        encodes_at(b, pos, Bencode::List(ws)),
        0 <= k <= ws.len(),
    ensures
        ({
            let p = pos + 1 + encode_items(ws.take(k)).len();
            &&& p < b.len()
            &&& k < ws.len() ==> encodes_at(b, p, ws[k]) && b[p] != 0x65
            &&& k == ws.len() ==> b[p] == 0x65 && p + 1 == pos + encode(Bencode::List(ws)).len()
        }),
{
    let p = pos + 1 + encode_items(ws.take(k)).len();
    lemma_encode_items_split(ws, k);
    lemma_wf_items(ws);
    let rest = encode_items(ws.skip(k));
    assert(encode(Bencode::List(ws)) =~= seq![0x6Cu8] + encode_items(ws.take(k)) + rest + seq![
        0x65u8,
    ]);
    lemma_bytes_at_split(b, pos, seq![0x6Cu8] + encode_items(ws.take(k)) + rest, seq![0x65u8]);
    lemma_bytes_at_split(b, pos, seq![0x6Cu8] + encode_items(ws.take(k)), rest);
    lemma_bytes_at(b, p + rest.len(), seq![0x65u8]);
    assert(seq![0x65u8][0] == 0x65u8);
    if k < ws.len() {
        let t = ws.skip(k);
        assert(t[0] == ws[k]);
        assert(rest == encode(ws[k]) + encode_items(t.subrange(1, t.len() as int)));
        lemma_bytes_at_split(b, p, encode(ws[k]), encode_items(t.subrange(1, t.len() as int)));
        lemma_encode_head(ws[k]);
        lemma_bytes_at(b, p, encode(ws[k]));
    } else {
        assert(ws.skip(k) =~= Seq::<Bencode>::empty());
        assert(rest =~= Seq::<u8>::empty());
    }
}

/// Where the next pair of a dictionary encoding stands, or its end marker.
proof fn lemma_dict_step(b: Seq<u8>, pos: int, ps: Seq<(Seq<u8>, Bencode)>, k: int)
    requires
        encodes_at(b, pos, Bencode::Dict(ps)),
        0 <= k <= ps.len(),
    ensures
        ({
            let p = pos + 1 + encode_pairs(ps.take(k)).len();
            &&& p < b.len()
            &&& k < ps.len() ==> {
                &&& bytes_at(b, p, encode_bytes(ps[k].0))
                &&& ps[k].0.len() <= i64::MAX
                &&& encodes_at(b, p + encode_bytes(ps[k].0).len(), ps[k].1)
                &&& b[p] != 0x65
            }
            &&& k == ps.len() ==> b[p] == 0x65 && p + 1 == pos + encode(Bencode::Dict(ps)).len()
        }),
{
    let p = pos + 1 + encode_pairs(ps.take(k)).len();
    lemma_encode_pairs_split(ps, k);
    lemma_wf_pairs(ps);
    let rest = encode_pairs(ps.skip(k));
    assert(encode(Bencode::Dict(ps)) =~= seq![0x64u8] + encode_pairs(ps.take(k)) + rest + seq![
        0x65u8,
    ]);
    lemma_bytes_at_split(b, pos, seq![0x64u8] + encode_pairs(ps.take(k)) + rest, seq![0x65u8]);
    lemma_bytes_at_split(b, pos, seq![0x64u8] + encode_pairs(ps.take(k)), rest);
    lemma_bytes_at(b, p + rest.len(), seq![0x65u8]);
    assert(seq![0x65u8][0] == 0x65u8);
    if k < ps.len() {
        let t = ps.skip(k);
        assert(t[0] == ps[k]);
        let kb = encode_bytes(ps[k].0);
        let tail = encode_pairs(t.subrange(1, t.len() as int));
        assert(rest == kb + encode(ps[k].1) + tail);
        lemma_bytes_at_split(b, p, kb + encode(ps[k].1), tail);
        lemma_bytes_at_split(b, p, kb, encode(ps[k].1));
        lemma_decimal(ps[k].0.len());
        lemma_bytes_at(b, p, kb);
        assert(kb[0] == decimal(ps[k].0.len())[0]);
    } else {
        assert(ps.skip(k) =~= Seq::<(Seq<u8>, Bencode)>::empty());
        assert(rest =~= Seq::<u8>::empty());
    }
}

/// The error kind of a value that starts at `pos`, where its first byte
/// decides it: running out of input, an unknown type byte, or the first failed
/// check of an integer or a byte string.
pub open spec fn first_error(b: Seq<u8>, pos: int, r: Result<(BencodeValue, usize), BencodeError>) -> bool {
    &&& pos >= b.len() ==> r == Err::<(BencodeValue, usize), BencodeError>(BencodeError::InsufficientContents)
    &&& pos < b.len() && b[pos] == 0x69 ==> {
        &&& (r is Err <==> integer_error(b, pos) is Some)
        &&& r is Err ==> integer_error(b, pos) == Some(r->Err_0)
    }
    &&& pos < b.len() && is_digit(b[pos]) ==> {
        &&& (r is Err <==> string_error(b, pos) is Some)
        &&& r is Err ==> string_error(b, pos) == Some(r->Err_0)
    }
    &&& pos < b.len() && !is_digit(b[pos]) && b[pos] != 0x69 && b[pos] != 0x6C && b[pos] != 0x64 ==> r
        == Err::<(BencodeValue, usize), BencodeError>(
        BencodeError::UnknownType { pos: pos as usize, value: b[pos] },
    )
}

/// A dictionary whose well-formed entries `ps` are followed by a key `t` that
/// does not come after the last of them.
pub open spec fn key_clash(b: Seq<u8>, pos: int, ps: Seq<(Seq<u8>, Bencode)>, t: Seq<u8>) -> bool {
    &&& ps.len() > 0
    &&& wf_pairs(ps)
    &&& keys_ascend(ps)
    &&& t.len() <= i64::MAX
    &&& !bytes_lt(ps.last().0, t)
    &&& bytes_at(b, pos, seq![0x64u8] + encode_pairs(ps) + encode_bytes(t))
}

pub open spec fn dup_name(e: BencodeError) -> Seq<u8> {
    match e {
        BencodeError::DuplicateDictionaryKey { name } => name@,
        _ => Seq::empty(),
    }
}

/// The error for a key that repeats the previous one or orders before it.
pub open spec fn clash_error(r: Result<(BencodeValue, usize), BencodeError>, ps: Seq<(Seq<u8>, Bencode)>, t: Seq<u8>) -> bool {
    &&& r is Err
    &&& t == ps.last().0 ==> (r->Err_0 is DuplicateDictionaryKey && dup_name(r->Err_0) == t)
    &&& t != ps.last().0 ==> r->Err_0 == BencodeError::DictionaryKeysOutOfOrder
}

/// Where the entries before a clashing key stand, and the key itself.
proof fn lemma_clash_step(b: Seq<u8>, pos: int, ps: Seq<(Seq<u8>, Bencode)>, t: Seq<u8>, k: int)
    requires
        key_clash(b, pos, ps, t),
        0 <= k <= ps.len(),
    ensures
        ({
            let p = pos + 1 + encode_pairs(ps.take(k)).len();
            &&& p < b.len()
            &&& b[p] != 0x65
            &&& k < ps.len() ==> {
                &&& bytes_at(b, p, encode_bytes(ps[k].0))
                &&& ps[k].0.len() <= i64::MAX
                &&& encodes_at(b, p + encode_bytes(ps[k].0).len(), ps[k].1)
            }
            &&& k == ps.len() ==> bytes_at(b, p, encode_bytes(t))
        }),
{
    let p = pos + 1 + encode_pairs(ps.take(k)).len();
    lemma_encode_pairs_split(ps, k);
    lemma_wf_pairs(ps);
    let rest = encode_pairs(ps.skip(k));
    let tb = encode_bytes(t);
    lemma_decimal(t.len());
    assert(tb[0] == decimal(t.len())[0]);
    assert(seq![0x64u8] + encode_pairs(ps) + tb =~= seq![0x64u8] + encode_pairs(ps.take(k)) + (rest + tb));
    lemma_bytes_at_split(b, pos, seq![0x64u8] + encode_pairs(ps.take(k)), rest + tb);
    if k < ps.len() {
        let s = ps.skip(k);
        assert(s[0] == ps[k]);
        let kb = encode_bytes(ps[k].0);
        let tail = encode_pairs(s.subrange(1, s.len() as int));
        assert(rest == kb + encode(ps[k].1) + tail);
        assert(rest + tb =~= kb + encode(ps[k].1) + (tail + tb));
        lemma_bytes_at_split(b, p, kb + encode(ps[k].1), tail + tb);
        lemma_bytes_at_split(b, p, kb, encode(ps[k].1));
        lemma_decimal(ps[k].0.len());
        lemma_bytes_at(b, p, kb);
        assert(kb[0] == decimal(ps[k].0.len())[0]);
    } else {
        assert(ps.skip(k) =~= Seq::<(Seq<u8>, Bencode)>::empty());
        assert(rest =~= Seq::<u8>::empty());
        assert(rest + tb =~= tb);
        lemma_bytes_at(b, p, tb);
    }
}

fn parse_value(b: &[u8], pos: usize) -> (r: Result<(BencodeValue, usize), BencodeError>)
    requires
        pos <= b@.len(),
    ensures
        sound_at(b@, pos as int, r),
        complete_at(b@, pos as int, r),
        first_error(b@, pos as int, r),
        forall|ps: Seq<(Seq<u8>, Bencode)>, t: Seq<u8>|
            #[trigger] key_clash(b@, pos as int, ps, t) ==> clash_error(r, ps, t),
    decreases b@.len() - pos, 1int,
{
    if pos >= b.len() {
        proof {
            assert forall|w: Bencode| !encodes_at(b@, pos as int, w) by {
                lemma_encode_head(w);
            }
        }
        return Err(BencodeError::InsufficientContents);
    }
    let first = b[pos];
    proof {
        assert forall|ps: Seq<(Seq<u8>, Bencode)>, t: Seq<u8>| #[trigger]
            key_clash(b@, pos as int, ps, t) implies first == 0x64 by {
            let e = seq![0x64u8] + encode_pairs(ps) + encode_bytes(t);
            lemma_bytes_at(b@, pos as int, e);
            assert(e[0] == 0x64u8);
            assert(b@[pos + 0] == e[0]);
        }
        assert forall|w: Bencode| #[trigger] encodes_at(b@, pos as int, w) implies b@[pos as int]
            == encode(w)[0] by {
            lemma_encode_head(w);
            lemma_bytes_at(b@, pos as int, encode(w));
        }
    }
    if first == 0x69 {
        proof {
            assert forall|w: Bencode| #[trigger] encodes_at(b@, pos as int, w) implies w is Int by {
                lemma_encode_head(w);
            }
        }
        parse_integer(b, pos)
    } else if first == 0x6C {
        proof {
            assert forall|w: Bencode| #[trigger] encodes_at(b@, pos as int, w) implies w is List by {
                lemma_encode_head(w);
            }
        }
        parse_list(b, pos)
    } else if first == 0x64 {
        proof {
            assert forall|w: Bencode| #[trigger] encodes_at(b@, pos as int, w) implies w is Dict by {
                lemma_encode_head(w);
            }
        }
        parse_dict(b, pos)
    } else if 0x30 <= first && first <= 0x39 {
        proof {
            assert forall|w: Bencode| #[trigger] encodes_at(b@, pos as int, w) implies w is Bytes by {
                lemma_encode_head(w);
            }
        }
        let (s, end) = parse_string(b, pos)?;
        Ok((BencodeValue::ByteString(s), end))
    } else {
        proof {
            assert forall|w: Bencode| !encodes_at(b@, pos as int, w) by {
                lemma_encode_head(w);
            }
        }
        Err(BencodeError::UnknownType { pos, value: first })
    }
}

fn parse_list(b: &[u8], pos: usize) -> (r: Result<(BencodeValue, usize), BencodeError>)
    requires
        pos < b@.len(),
        b@[pos as int] == 0x6C,
    ensures
        sound_at(b@, pos as int, r),
        forall|ws: Seq<Bencode>|
            #[trigger] encodes_at(b@, pos as int, Bencode::List(ws)) ==> {
                &&& r is Ok
                &&& r->Ok_0.0@ == Bencode::List(ws)
                &&& r->Ok_0.1 == pos + encode(Bencode::List(ws)).len()
            },
    decreases b@.len() - pos, 0int,
{
    let len = b.len();
    let mut items: Vec<BencodeValue> = Vec::new();
    let mut p = pos + 1;
    proof {
        assert(b@.subrange(pos as int, p as int) =~= seq![0x6Cu8] + encode_items(
            view_items(items@),
        ));
    }
    loop
        invariant
            pos < p <= len,
            len == b@.len(),
            b@.subrange(pos as int, p as int) == seq![0x6Cu8] + encode_items(view_items(items@)),
            wf_items(view_items(items@)),
            forall|ws: Seq<Bencode>|
                #[trigger] encodes_at(b@, pos as int, Bencode::List(ws)) ==> {
                    &&& items@.len() <= ws.len()
                    &&& view_items(items@) == ws.take(items@.len() as int)
                },
        ensures
            p < len,
            b@[p as int] == 0x65,
            forall|ws: Seq<Bencode>|
                #[trigger] encodes_at(b@, pos as int, Bencode::List(ws)) ==> items@.len() == ws.len(),
        decreases len - p,
    {
        let ghost view = view_items(items@);
        proof {
            lemma_view_items(items@);
            assert forall|ws: Seq<Bencode>| #[trigger]
                encodes_at(b@, pos as int, Bencode::List(ws)) implies p == pos + 1 + encode_items(
                ws.take(items@.len() as int),
            ).len() by {
                assert(b@.subrange(pos as int, p as int).len() == p - pos);
            }
        }
        if p >= len {
            proof {
                assert forall|ws: Seq<Bencode>| !encodes_at(b@, pos as int, Bencode::List(ws)) by {
                    if encodes_at(b@, pos as int, Bencode::List(ws)) {
                        lemma_list_step(b@, pos as int, ws, items@.len() as int);
                    }
                }
            }
            return Err(BencodeError::InsufficientContents);
        }
        if b[p] == 0x65 {
            proof {
                assert forall|ws: Seq<Bencode>| #[trigger]
                    encodes_at(b@, pos as int, Bencode::List(ws)) implies items@.len() == ws.len() by {
                    lemma_list_step(b@, pos as int, ws, items@.len() as int);
                }
            }
            break ;
        }
        let ghost before = items@;
        let (v, e) = match parse_value(b, p) {
            Ok(x) => x,
            Err(err) => {
                proof {
                    assert forall|ws: Seq<Bencode>| !encodes_at(b@, pos as int, Bencode::List(ws)) by {
                        if encodes_at(b@, pos as int, Bencode::List(ws)) {
                            lemma_list_step(b@, pos as int, ws, items@.len() as int);
                        }
                    }
                }
                return Err(err);
            },
        };
        proof {
            assert forall|ws: Seq<Bencode>| #[trigger]
                encodes_at(b@, pos as int, Bencode::List(ws)) implies v@ == ws[before.len() as int]
                && before.len() < ws.len() by {
                lemma_list_step(b@, pos as int, ws, before.len() as int);
            }
        }
        items.push(v);
        proof {
            lemma_view_items_push(before, v);
            lemma_encode_items_push(view, v@);
            assert(b@.subrange(pos as int, e as int) =~= b@.subrange(pos as int, p as int)
                + b@.subrange(p as int, e as int));
            lemma_wf_items(view);
            lemma_wf_items(view.push(v@));
            assert forall|ws: Seq<Bencode>| #[trigger]
                encodes_at(b@, pos as int, Bencode::List(ws)) implies view_items(items@) == ws.take(
                items@.len() as int,
            ) by {
                assert(ws.take(items@.len() as int) =~= ws.take(before.len() as int).push(
                    ws[before.len() as int],
                ));
            }
        }
        p = e;
    }
    let ghost view = view_items(items@);
    let r = BencodeValue::List(items);
    proof {
        lemma_view_items(items@);
        assert(b@.subrange(pos as int, p + 1) =~= b@.subrange(pos as int, p as int) + seq![0x65u8]);
        assert forall|ws: Seq<Bencode>| #[trigger]
            encodes_at(b@, pos as int, Bencode::List(ws)) implies view == ws by {
            assert(ws.take(ws.len() as int) =~= ws);
            lemma_list_step(b@, pos as int, ws, ws.len() as int);
        }
    }
    Ok((r, p + 1))
}

fn parse_dict(b: &[u8], pos: usize) -> (r: Result<(BencodeValue, usize), BencodeError>)
    requires
        pos < b@.len(),
        b@[pos as int] == 0x64,
    ensures
        sound_at(b@, pos as int, r),
        forall|ps: Seq<(Seq<u8>, Bencode)>|
            #[trigger] encodes_at(b@, pos as int, Bencode::Dict(ps)) ==> {
                &&& r is Ok
                &&& r->Ok_0.0@ == Bencode::Dict(ps)
                &&& r->Ok_0.1 == pos + encode(Bencode::Dict(ps)).len()
            },
        forall|ps: Seq<(Seq<u8>, Bencode)>, t: Seq<u8>|
            #[trigger] key_clash(b@, pos as int, ps, t) ==> clash_error(r, ps, t),
    decreases b@.len() - pos, 0int,
{
    let len = b.len();
    let mut pairs: Vec<(Vec<u8>, BencodeValue)> = Vec::new();
    let mut p = pos + 1;
    proof {
        assert(b@.subrange(pos as int, p as int) =~= seq![0x64u8] + encode_pairs(
            view_pairs(pairs@),
        ));
    }
    loop
        invariant
            pos < p <= len,
            len == b@.len(),
            b@.subrange(pos as int, p as int) == seq![0x64u8] + encode_pairs(view_pairs(pairs@)),
            wf_pairs(view_pairs(pairs@)),
            keys_ascend(view_pairs(pairs@)),
            forall|ps: Seq<(Seq<u8>, Bencode)>|
                #[trigger] encodes_at(b@, pos as int, Bencode::Dict(ps)) ==> {
                    &&& pairs@.len() <= ps.len()
                    &&& view_pairs(pairs@) == ps.take(pairs@.len() as int)
                },
            forall|ps: Seq<(Seq<u8>, Bencode)>, t: Seq<u8>|
                #[trigger] key_clash(b@, pos as int, ps, t) ==> {
                    &&& pairs@.len() <= ps.len()
                    &&& view_pairs(pairs@) == ps.take(pairs@.len() as int)
                },
        ensures
            p < len,
            b@[p as int] == 0x65,
            forall|ps: Seq<(Seq<u8>, Bencode)>|
                #[trigger] encodes_at(b@, pos as int, Bencode::Dict(ps)) ==> pairs@.len() == ps.len(),
            forall|ps: Seq<(Seq<u8>, Bencode)>, t: Seq<u8>| !#[trigger] key_clash(b@, pos as int, ps, t),
        decreases len - p,
    {
        let ghost view = view_pairs(pairs@);
        let ghost k = pairs@.len() as int;
        proof {
            lemma_view_pairs(pairs@);
            assert forall|ps: Seq<(Seq<u8>, Bencode)>| #[trigger]
                encodes_at(b@, pos as int, Bencode::Dict(ps)) implies p == pos + 1 + encode_pairs(
                ps.take(k),
            ).len() by {
                assert(b@.subrange(pos as int, p as int).len() == p - pos);
            }
            assert forall|ps: Seq<(Seq<u8>, Bencode)>, t: Seq<u8>| #[trigger]
                key_clash(b@, pos as int, ps, t) implies p == pos + 1 + encode_pairs(
                ps.take(k),
            ).len() by {
                assert(b@.subrange(pos as int, p as int).len() == p - pos);
            }
        }
        if p >= len {
            proof {
                assert forall|ps: Seq<(Seq<u8>, Bencode)>| !encodes_at(b@, pos as int, Bencode::Dict(ps)) by {
                    if encodes_at(b@, pos as int, Bencode::Dict(ps)) {
                        lemma_dict_step(b@, pos as int, ps, k);
                    }
                }
                assert forall|ps: Seq<(Seq<u8>, Bencode)>, t: Seq<u8>| !key_clash(b@, pos as int, ps, t) by {
                    if key_clash(b@, pos as int, ps, t) {
                        lemma_clash_step(b@, pos as int, ps, t, k);
                    }
                }
            }
            return Err(BencodeError::InsufficientContents);
        }
        if b[p] == 0x65 {
            proof {
                assert forall|ps: Seq<(Seq<u8>, Bencode)>, t: Seq<u8>| !key_clash(b@, pos as int, ps, t) by {
                    if key_clash(b@, pos as int, ps, t) {
                        lemma_clash_step(b@, pos as int, ps, t, k);
                    }
                }
                assert forall|ps: Seq<(Seq<u8>, Bencode)>| #[trigger]
                    encodes_at(b@, pos as int, Bencode::Dict(ps)) implies k == ps.len() by {
                    lemma_dict_step(b@, pos as int, ps, k);
                }
            }
            break ;
        }
        let (key, ke) = match parse_string(b, p) {
            Ok(x) => x,
            Err(err) => {
                proof {
                    assert forall|ps: Seq<(Seq<u8>, Bencode)>| !encodes_at(b@, pos as int, Bencode::Dict(ps)) by {
                        if encodes_at(b@, pos as int, Bencode::Dict(ps)) {
                            lemma_dict_step(b@, pos as int, ps, k);
                        }
                    }
                    assert forall|ps: Seq<(Seq<u8>, Bencode)>, t: Seq<u8>| !key_clash(b@, pos as int, ps, t) by {
                        if key_clash(b@, pos as int, ps, t) {
                            lemma_clash_step(b@, pos as int, ps, t, k);
                        }
                    }
                }
                return Err(err);
            },
        };
        proof {
            assert forall|ps: Seq<(Seq<u8>, Bencode)>| #[trigger]
                encodes_at(b@, pos as int, Bencode::Dict(ps)) implies key@ == ps[k].0 && k < ps.len()
                && ke == p + encode_bytes(ps[k].0).len() by {
                lemma_dict_step(b@, pos as int, ps, k);
            }
            assert forall|ps: Seq<(Seq<u8>, Bencode)>, t: Seq<u8>| #[trigger]
                key_clash(b@, pos as int, ps, t) implies (k < ps.len() ==> key@ == ps[k].0 && ke == p
                + encode_bytes(ps[k].0).len()) && (k == ps.len() ==> key@ == t) by {
                lemma_clash_step(b@, pos as int, ps, t, k);
            }
        }
        let np = pairs.len();
        if np > 0 {
            let c = compare_keys(&key, &pairs[np - 1].0);
            proof {
                assert(view[k - 1].0 == pairs@[k - 1].0@);
                assert forall|ps: Seq<(Seq<u8>, Bencode)>| #[trigger]
                    encodes_at(b@, pos as int, Bencode::Dict(ps)) implies c > 0 by {
                    lemma_dict_step(b@, pos as int, ps, k);
                    assert(ps.take(k)[k - 1] == ps[k - 1]);
                    assert(bytes_lt(ps[k - 1].0, ps[k].0));
                }
                assert forall|ps: Seq<(Seq<u8>, Bencode)>, t: Seq<u8>| #[trigger]
                    key_clash(b@, pos as int, ps, t) implies (k < ps.len() ==> c > 0) && (k == ps.len()
                    ==> c <= 0 && view[k - 1].0 == ps.last().0) by {
                    lemma_clash_step(b@, pos as int, ps, t, k);
                    assert(ps.take(k)[k - 1] == ps[k - 1]);
                    if k < ps.len() {
                        assert(bytes_lt(ps[k - 1].0, ps[k].0));
                    }
                }
            }
            if c == 0 {
                return Err(BencodeError::DuplicateDictionaryKey { name: key });
            }
            if c < 0 {
                return Err(BencodeError::DictionaryKeysOutOfOrder);
            }
        }
        proof {
            assert forall|ps: Seq<(Seq<u8>, Bencode)>, t: Seq<u8>| #[trigger]
                key_clash(b@, pos as int, ps, t) implies k < ps.len() by {
                lemma_clash_step(b@, pos as int, ps, t, k);
            }
        }
        let (v, e) = match parse_value(b, ke) {
            Ok(x) => x,
            Err(err) => {
                proof {
                    assert forall|ps: Seq<(Seq<u8>, Bencode)>| !encodes_at(b@, pos as int, Bencode::Dict(ps)) by {
                        if encodes_at(b@, pos as int, Bencode::Dict(ps)) {
                            lemma_dict_step(b@, pos as int, ps, k);
                        }
                    }
                    assert forall|ps: Seq<(Seq<u8>, Bencode)>, t: Seq<u8>| !key_clash(b@, pos as int, ps, t) by {
                        if key_clash(b@, pos as int, ps, t) {
                            lemma_clash_step(b@, pos as int, ps, t, k);
                        }
                    }
                }
                return Err(err);
            },
        };
        proof {
            assert forall|ps: Seq<(Seq<u8>, Bencode)>| #[trigger]
                encodes_at(b@, pos as int, Bencode::Dict(ps)) implies v@ == ps[k].1 by {
                lemma_dict_step(b@, pos as int, ps, k);
            }
            assert forall|ps: Seq<(Seq<u8>, Bencode)>, t: Seq<u8>| #[trigger]
                key_clash(b@, pos as int, ps, t) implies v@ == ps[k].1 by {
                lemma_clash_step(b@, pos as int, ps, t, k);
            }
        }
        let ghost kv = key@;
        let ghost before = pairs@;
        let ghost entry = (key, v);
        pairs.push((key, v));
        proof {
            lemma_view_pairs_push(before, entry);
            lemma_encode_pairs_push(view, (kv, entry.1@));
            assert(b@.subrange(pos as int, e as int) =~= b@.subrange(pos as int, p as int)
                + b@.subrange(p as int, ke as int) + b@.subrange(ke as int, e as int));
            lemma_wf_pairs(view);
            lemma_wf_pairs(view.push((kv, entry.1@)));
            lemma_view_pairs(pairs@);
            assert forall|i: int| 0 <= i < pairs@.len() - 1 implies bytes_lt(
                #[trigger] view_pairs(pairs@)[i].0,
                view_pairs(pairs@)[i + 1].0,
            ) by {
                if i < k - 1 {
                    assert(view[i] == view_pairs(pairs@)[i]);
                    assert(view[i + 1] == view_pairs(pairs@)[i + 1]);
                }
            }
            assert forall|ps: Seq<(Seq<u8>, Bencode)>| #[trigger]
                encodes_at(b@, pos as int, Bencode::Dict(ps)) implies view_pairs(pairs@) == ps.take(
                k + 1,
            ) by {
                assert(ps.take(k + 1) =~= ps.take(k).push(ps[k]));
            }
            assert forall|ps: Seq<(Seq<u8>, Bencode)>, t: Seq<u8>| #[trigger]
                key_clash(b@, pos as int, ps, t) implies view_pairs(pairs@) == ps.take(k + 1) by {
                assert(ps.take(k + 1) =~= ps.take(k).push(ps[k]));
            }
        }
        p = e;
    }
    let ghost view = view_pairs(pairs@);
    let r = BencodeValue::Dictionary(pairs);
    proof {
        lemma_view_pairs(pairs@);
        assert(b@.subrange(pos as int, p + 1) =~= b@.subrange(pos as int, p as int) + seq![0x65u8]);
        assert forall|ps: Seq<(Seq<u8>, Bencode)>| #[trigger]
            encodes_at(b@, pos as int, Bencode::Dict(ps)) implies view == ps by {
            assert(ps.take(ps.len() as int) =~= ps);
            lemma_dict_step(b@, pos as int, ps, ps.len() as int);
        }
    }
    Ok((r, p + 1))
}

/// Decodes one value that spans the whole input.
///
/// Succeeds exactly on canonical encodings, and then the value re-encodes to the
/// input byte for byte; every well-formed value is recovered from its encoding.
pub fn decode(bytes: &[u8]) -> (r: Result<BencodeValue, BencodeError>)
    ensures
        r is Ok ==> wf(r->Ok_0@) && encode(r->Ok_0@) == bytes@,
        r is Err <==> !is_canonical(bytes@),
        forall|w: Bencode| wf(w) && #[trigger] encode(w) == bytes@ ==> (r is Ok && r->Ok_0@ == w),
        forall|w: Bencode|
            wf(w) && encode(w).len() < bytes@.len() && #[trigger] encode(w) == bytes@.take(
                encode(w).len() as int,
            ) ==> r == Err::<BencodeValue, BencodeError>(
                BencodeError::UnconsumedContents {
                    num_remaining: (bytes@.len() - encode(w).len()) as usize,
                },
            ),
        bytes@.len() == 0 ==> r == Err::<BencodeValue, BencodeError>(BencodeError::InsufficientContents),
        bytes@.len() > 0 && bytes@[0] == 0x69 && integer_error(bytes@, 0) is Some ==> r == Err::<
            BencodeValue,
            BencodeError,
        >(integer_error(bytes@, 0)->Some_0),
        bytes@.len() > 0 && is_digit(bytes@[0]) && string_error(bytes@, 0) is Some ==> r == Err::<
            BencodeValue,
            BencodeError,
        >(string_error(bytes@, 0)->Some_0),
        forall|ps: Seq<(Seq<u8>, Bencode)>, t: Seq<u8>|
            #[trigger] key_clash(bytes@, 0, ps, t) ==> {
                &&& r is Err
                &&& t == ps.last().0 ==> (r->Err_0 is DuplicateDictionaryKey && dup_name(r->Err_0) == t)
                &&& t != ps.last().0 ==> r->Err_0 == BencodeError::DictionaryKeysOutOfOrder
            },
{
    let (value, end) = match parse_value(bytes, 0) {
        Ok(x) => x,
        Err(e) => {
            proof {
                assert forall|w: Bencode| wf(w) && #[trigger] encode(w) == bytes@ implies false by {
                    assert(bytes@.subrange(0, bytes@.len() as int) =~= bytes@);
                    assert(encodes_at(bytes@, 0, w));
                }
                assert forall|w: Bencode|
                    wf(w) && encode(w).len() < bytes@.len() && #[trigger] encode(w) == bytes@.take(
                        encode(w).len() as int,
                    ) implies false by {
                    assert(encodes_at(bytes@, 0, w));
                }
            }
            return Err(e);
        },
    };
    proof {
        assert forall|w: Bencode|
            wf(w) && encode(w).len() <= bytes@.len() && #[trigger] encode(w) == bytes@.take(
                encode(w).len() as int,
            ) implies value@ == w && end == encode(w).len() by {
            assert(encodes_at(bytes@, 0, w));
        }
        assert forall|w: Bencode| wf(w) && #[trigger] encode(w) == bytes@ implies value@ == w
            && end == bytes@.len() by {
            assert(bytes@.take(bytes@.len() as int) =~= bytes@);
            assert(encodes_at(bytes@, 0, w));
        }
    }
    if end == bytes.len() {
        proof {
            assert(bytes@.subrange(0, end as int) =~= bytes@);
        }
        Ok(value)
    } else {
        proof {
            assert forall|w: Bencode| !(wf(w) && #[trigger] encode(w) == bytes@) by {
                if wf(w) && encode(w) == bytes@ {
                    assert(bytes@.take(bytes@.len() as int) =~= bytes@);
                    assert(encodes_at(bytes@, 0, w));
                }
            }
        }
        Err(BencodeError::UnconsumedContents { num_remaining: bytes.len() - end })
    }
}

/// Holds the bytes to decode.
#[derive(Debug)]
pub struct BencodeParser {
    contents: Vec<u8>,
}

impl BencodeParser {
    pub fn new(contents: &[u8]) -> (r: Self)
        ensures
            r.contents() == contents@,
    {
        let mut v: Vec<u8> = Vec::new();
        let mut i: usize = 0;
        while i < contents.len()
            invariant
                i <= contents@.len(),
                v@ == contents@.take(i as int),
            decreases contents@.len() - i,
        {
            v.push(contents[i]);
            proof {
                assert(v@ =~= contents@.take(i + 1));
            }
            i = i + 1;
        }
        proof {
            assert(v@ =~= contents@);
        }
        BencodeParser { contents: v }
    }

    pub closed spec fn contents(&self) -> Seq<u8> {
        self.contents@
    }

    /// Decodes the contents as one value; see [`decode`].
    pub fn deserialize(&self) -> (r: Result<BencodeValue, BencodeError>)
        ensures
            r is Ok ==> wf(r->Ok_0@) && encode(r->Ok_0@) == self.contents(),
            r is Err <==> !is_canonical(self.contents()),
            forall|w: Bencode|
                wf(w) && #[trigger] encode(w) == self.contents() ==> (r is Ok && r->Ok_0@ == w),
            self.contents().len() > 0 && self.contents()[0] == 0x69 && integer_error(self.contents(), 0)
                is Some ==> r == Err::<BencodeValue, BencodeError>(integer_error(self.contents(), 0)->Some_0),
            self.contents().len() > 0 && is_digit(self.contents()[0]) && string_error(self.contents(), 0)
                is Some ==> r == Err::<BencodeValue, BencodeError>(string_error(self.contents(), 0)->Some_0),
            forall|ps: Seq<(Seq<u8>, Bencode)>, t: Seq<u8>|
                #[trigger] key_clash(self.contents(), 0, ps, t) ==> {
                    &&& r is Err
                    &&& t == ps.last().0 ==> (r->Err_0 is DuplicateDictionaryKey && dup_name(r->Err_0) == t)
                    &&& t != ps.last().0 ==> r->Err_0 == BencodeError::DictionaryKeysOutOfOrder
                },
    {
        decode(self.contents.as_slice())
    }
}

/// Appends the decimal text of `n`.
pub fn write_decimal(n: u64, out: &mut Vec<u8>)
    ensures
        final(out)@ == old(out)@ + decimal(n as nat),
    decreases n,
{
    if n >= 10 {
        write_decimal(n / 10, out);
    }
    out.push(0x30 + (n % 10) as u8);
    proof {
        if n >= 10 {
            assert(final(out)@ =~= old(out)@ + decimal(n as nat));
        } else {
            assert(final(out)@ =~= old(out)@ + decimal(n as nat));
        }
    }
}

fn write_bytes(s: &Vec<u8>, out: &mut Vec<u8>)
    ensures
        final(out)@ == old(out)@ + encode_bytes(s@),
{
    write_decimal(s.len() as u64, out);
    out.push(0x3A);
    let mut i: usize = 0;
    let ghost start = out@;
    while i < s.len()
        invariant
            i <= s@.len(),
            out@ == start + s@.take(i as int),
        decreases s@.len() - i,
    {
        out.push(s[i]);
        proof {
            assert(out@ =~= start + s@.take(i + 1));
        }
        i = i + 1;
    }
    proof {
        assert(s@.take(s@.len() as int) =~= s@);
        assert(final(out)@ =~= old(out)@ + encode_bytes(s@));
    }
}

fn write_value(v: &BencodeValue, out: &mut Vec<u8>)
    ensures
        final(out)@ == old(out)@ + encode(v@),
    decreases v,
{
    match v {
        BencodeValue::Integer(n) => {
            out.push(0x69);
            if *n < 0 {
                out.push(0x2D);
                let m: u64 = if *n == i64::MIN {
                    0x8000_0000_0000_0000
                } else {
                    (-*n) as u64
                };
                write_decimal(m, out);
            } else {
                write_decimal(*n as u64, out);
            }
            out.push(0x65);
            proof {
                assert(final(out)@ =~= old(out)@ + encode(v@));
            }
        },
        BencodeValue::ByteString(s) => {
            write_bytes(s, out);
        },
        BencodeValue::List(items) => {
            out.push(0x6C);
            write_items(items, out);
            out.push(0x65);
            proof {
                assert(final(out)@ =~= old(out)@ + encode(v@));
            }
        },
        BencodeValue::Dictionary(pairs) => {
            out.push(0x64);
            write_pairs(pairs, out);
            out.push(0x65);
            proof {
                assert(final(out)@ =~= old(out)@ + encode(v@));
            }
        },
    }
}

fn write_items(items: &Vec<BencodeValue>, out: &mut Vec<u8>)
    ensures
        final(out)@ == old(out)@ + encode_items(view_items(items@)),
    decreases items,
{
    let ghost start = out@;
    let ghost view = view_items(items@);
    proof {
        lemma_view_items(items@);
        assert(view.take(0) =~= Seq::<Bencode>::empty());
        assert(out@ =~= start + encode_items(view.take(0)));
    }
    let mut i: usize = 0;
    while i < items.len()
        invariant
            i <= items@.len(),
            view == view_items(items@),
            view.len() == items@.len(),
            forall|j: int| 0 <= j < items@.len() ==> #[trigger] view[j] == items@[j]@,
            out@ == start + encode_items(view.take(i as int)),
        decreases items@.len() - i,
    {
        proof {
            vstd::std_specs::vec::axiom_vec_index_decreases(*items, i as int);
        }
        write_value(&items[i], out);
        proof {
            lemma_encode_items_push(view.take(i as int), view[i as int]);
            assert(view.take(i + 1) =~= view.take(i as int).push(view[i as int]));
            assert(out@ =~= start + encode_items(view.take(i + 1)));
        }
        i = i + 1;
    }
    proof {
        assert(view.take(i as int) =~= view);
    }
}

fn write_pairs(pairs: &Vec<(Vec<u8>, BencodeValue)>, out: &mut Vec<u8>)
    ensures
        final(out)@ == old(out)@ + encode_pairs(view_pairs(pairs@)),
    decreases pairs,
{
    let ghost start = out@;
    let ghost view = view_pairs(pairs@);
    proof {
        lemma_view_pairs(pairs@);
        assert(view.take(0) =~= Seq::<(Seq<u8>, Bencode)>::empty());
        assert(out@ =~= start + encode_pairs(view.take(0)));
    }
    let mut i: usize = 0;
    while i < pairs.len()
        invariant
            i <= pairs@.len(),
            view == view_pairs(pairs@),
            view.len() == pairs@.len(),
            forall|j: int| 0 <= j < pairs@.len() ==> #[trigger] view[j] == (pairs@[j].0@, pairs@[j].1@),
            out@ == start + encode_pairs(view.take(i as int)),
        decreases pairs@.len() - i,
    {
        proof {
            vstd::std_specs::vec::axiom_vec_index_decreases(*pairs, i as int);
            assert(decreases_to!(pairs[i as int] => pairs[i as int].1));
        }
        write_bytes(&pairs[i].0, out);
        write_value(&pairs[i].1, out);
        proof {
            lemma_encode_pairs_push(view.take(i as int), view[i as int]);
            assert(view.take(i + 1) =~= view.take(i as int).push(view[i as int]));
            assert(out@ =~= start + encode_pairs(view.take(i + 1)));
        }
        i = i + 1;
    }
    proof {
        assert(view.take(i as int) =~= view);
    }
}

impl BencodeValue {
    /// The canonical encoding of this value.
    pub fn to_bytes(&self) -> (r: Vec<u8>)
        ensures
            r@ == encode(self@),
    {
        let mut out: Vec<u8> = Vec::new();
        write_value(self, &mut out);
        proof {
            assert(out@ =~= encode(self@));
        }
        out
    }
}

} // verus!
