use vstd::prelude::*;
use crate::error::BranchyError;

verus! {

/// The index-tag encoding of a (state, flags) pair: the state, a single
/// `'-'` separator, then the flags. The parts are not escaped, so a state
/// that itself contains `'-'` mis-splits on decode; states must not contain
/// the separator.
pub open spec fn spec_encode_state_tag(state: Seq<char>, flags: Seq<char>) -> Seq<char> {
    state + seq!['-'] + flags
}

/// Splitting an index tag at its first `'-'`: the part before it and the
/// part after it, or nothing when the tag holds no separator at all.
pub open spec fn spec_decode_state_tag(t: Seq<char>) -> Option<(Seq<char>, Seq<char>)>
    decreases t.len(),
{
    if t.len() == 0 {
        None
    } else if t[0] == '-' {
        Some((Seq::empty(), t.skip(1)))
    } else {
        match spec_decode_state_tag(t.skip(1)) {
            None => None,
            Some(p) => Some((seq![t[0]] + p.0, p.1)),
        }
    }
}

/// Encodes a (state, flags) pair as an index-link tag.
pub fn encode_state_tag(state: &str, flags: &str) -> (r: String)
    ensures
        r@ == spec_encode_state_tag(state@, flags@),
{
    let mut r = String::from_str(state);
    r.append("-");
    r.append(flags);
    proof {
        reveal_strlit("-");
        assert("-"@ =~= seq!['-']);
    }
    r
}

/// Decodes an index-link tag into its (state, flags) pair, splitting on the
/// first `'-'`; fails with `BadLinkTag` when the tag holds no separator.
pub fn convert_tag(tag: &str) -> (r: Result<(String, String), BranchyError>)
    ensures
        match r {
            Ok(p) => spec_decode_state_tag(tag@) == Some((p.0@, p.1@)),
            Err(e) => e == BranchyError::BadLinkTag && spec_decode_state_tag(tag@) is None,
        },
{
    let n = tag.unicode_len();
    let mut i: usize = 0;
    while i < n
        invariant
            i <= n,
            n == tag@.len(),
            forall|k: int| 0 <= k < i ==> tag@[k] != '-',
        decreases n - i,
    {
        if tag.get_char(i) == '-' {
            let state = String::from_str(tag.substring_char(0, i));
            let flags = String::from_str(tag.substring_char(i + 1, n));
            proof {
                lemma_decode_at_first_dash(tag@, i as int);
                assert(tag@.subrange(0, i as int) =~= tag@.take(i as int));
                assert(tag@.subrange(i as int + 1, n as int) =~= tag@.skip(i as int + 1));
            }
            return Ok((state, flags));
        }
        i = i + 1;
    }
    proof {
        lemma_decode_no_dash(tag@);
    }
    Err(BranchyError::BadLinkTag)
}

/// When the first `'-'` of a tag stands at position `i`, decoding splits the
/// tag exactly there.
pub proof fn lemma_decode_at_first_dash(t: Seq<char>, i: int)
    requires
        0 <= i < t.len(),
        t[i] == '-',
        forall|k: int| 0 <= k < i ==> t[k] != '-',
    ensures
        spec_decode_state_tag(t) == Some((t.take(i), t.skip(i + 1))),
    decreases i,
{
    if i == 0 {
        assert(t.take(0) =~= Seq::<char>::empty());
    } else {
        let t1 = t.skip(1);
        assert(forall|k: int| 0 <= k < i - 1 ==> t1[k] == t[k + 1] && t1[k] != '-');
        assert(t1[i - 1] == '-');
        lemma_decode_at_first_dash(t1, i - 1);
        assert(seq![t[0]] + t1.take(i - 1) =~= t.take(i));
        assert(t1.skip(i) =~= t.skip(i + 1));
    }
}

/// A tag that holds a `'-'` anywhere decodes into some pair.
pub proof fn lemma_decode_some_when_dash(t: Seq<char>)
    requires
        t.contains('-'),
    ensures
        spec_decode_state_tag(t) is Some,
    decreases t.len(),
{
    if t.len() > 0 && t[0] != '-' {
        let k = choose|k: int| 0 <= k < t.len() && t[k] == '-';
        assert(t.skip(1)[k - 1] == '-');
        assert(t.skip(1).contains('-'));
        lemma_decode_some_when_dash(t.skip(1));
    }
}

/// A tag without any `'-'` does not decode.
pub proof fn lemma_decode_no_dash(t: Seq<char>)
    requires
        forall|k: int| 0 <= k < t.len() ==> t[k] != '-',
    ensures
        spec_decode_state_tag(t) is None,
    decreases t.len(),
{
    if t.len() > 0 {
        let t1 = t.skip(1);
        assert(forall|k: int| 0 <= k < t1.len() ==> t1[k] == t[k + 1] && t1[k] != '-');
        lemma_decode_no_dash(t1);
    }
}

/// Encoding then decoding a (state, flags) pair returns the pair unchanged
/// whenever the state holds no separator — in particular whenever neither
/// part does. A state that holds `'-'` mis-splits instead, deterministically.
pub proof fn lemma_state_tag_round_trip(state: Seq<char>, flags: Seq<char>)
    requires
        !state.contains('-'),
    ensures
        spec_decode_state_tag(spec_encode_state_tag(state, flags)) == Some((state, flags)),
{
    let t = spec_encode_state_tag(state, flags);
    let i = state.len() as int;
    assert(t[i] == '-');
    assert(forall|k: int| 0 <= k < i ==> t[k] == state[k] && t[k] != '-');
    lemma_decode_at_first_dash(t, i);
    assert(t.take(i) =~= state);
    assert(t.skip(i + 1) =~= flags);
}

/// A two-part external resource locator.
pub type HrlB64 = (String, String);

/// An external reference attached to a unit: a locator plus optional context.
#[derive(Debug, PartialEq, Eq)]
pub struct HrlB64WithContext {
    pub hrl: HrlB64,
    pub context: Option<String>,
}

/// The decimal digit character for a value below ten.
pub open spec fn spec_digit(d: nat) -> char {
    if d == 0 {
        '0'
    } else if d == 1 {
        '1'
    } else if d == 2 {
        '2'
    } else if d == 3 {
        '3'
    } else if d == 4 {
        '4'
    } else if d == 5 {
        '5'
    } else if d == 6 {
        '6'
    } else if d == 7 {
        '7'
    } else if d == 8 {
        '8'
    } else {
        '9'
    }
}

/// The value of a decimal digit character, or nothing for any other
/// character.
pub open spec fn spec_digit_val(c: char) -> Option<nat> {
    if c == '0' {
        Some(0)
    } else if c == '1' {
        Some(1)
    } else if c == '2' {
        Some(2)
    } else if c == '3' {
        Some(3)
    } else if c == '4' {
        Some(4)
    } else if c == '5' {
        Some(5)
    } else if c == '6' {
        Some(6)
    } else if c == '7' {
        Some(7)
    } else if c == '8' {
        Some(8)
    } else if c == '9' {
        Some(9)
    } else {
        None
    }
}

/// A length below one hundred million, written as exactly eight decimal
/// digits, highest first.
pub open spec fn spec_digits8(n: nat) -> Seq<char> {
    seq![
        spec_digit((n / 10000000) % 10),
        spec_digit((n / 1000000) % 10),
        spec_digit((n / 100000) % 10),
        spec_digit((n / 10000) % 10),
        spec_digit((n / 1000) % 10),
        spec_digit((n / 100) % 10),
        spec_digit((n / 10) % 10),
        spec_digit(n % 10),
    ]
}

/// The value of a digit string read left to right into an accumulator.
pub open spec fn spec_val_front(s: Seq<char>, acc: nat) -> nat
    decreases s.len(),
{
    if s.len() == 0 {
        acc
    } else {
        spec_val_front(s.skip(1), acc * 10 + (spec_digit_val(s[0])->Some_0))
    }
}

/// Reading exactly eight characters as a zero-padded decimal length: some
/// value below one hundred million, or nothing when a character is not a
/// digit.
pub open spec fn spec_parse8(s: Seq<char>) -> Option<nat> {
    if s.len() == 8 && (forall|k: int| 0 <= k < 8 ==> spec_digit_val(#[trigger] s[k]) is Some) {
        Some(spec_val_front(s, 0))
    } else {
        None
    }
}

/// The attachment-tag encoding of an external reference: each locator part
/// length-prefixed with eight decimal digits, then a context marker — `'n'`
/// for no context, `'s'` followed by the context text.
pub open spec fn spec_attach_encode(
    h0: Seq<char>,
    h1: Seq<char>,
    ctx: Option<Seq<char>>,
) -> Seq<char> {
    spec_digits8(h0.len()) + h0 + spec_digits8(h1.len()) + h1 + (match ctx {
        Option::None => seq!['n'],
        Option::Some(c) => seq!['s'] + c,
    })
}

/// The exact inverse reading of an attachment tag: nothing on any byte
/// string that no encoding produced in this layout's length fields and
/// marker.
pub open spec fn spec_attach_decode(t: Seq<char>) -> Option<
    (Seq<char>, Seq<char>, Option<Seq<char>>),
> {
    if t.len() < 8 {
        None
    } else {
        match spec_parse8(t.take(8)) {
            None => None,
            Some(n0) => {
                if 8 + n0 > t.len() {
                    None
                } else {
                    let h0 = t.subrange(8, 8 + n0 as int);
                    let t1 = t.skip(8 + n0 as int);
                    if t1.len() < 8 {
                        None
                    } else {
                        match spec_parse8(t1.take(8)) {
                            None => None,
                            Some(n1) => {
                                if 8 + n1 > t1.len() {
                                    None
                                } else {
                                    let h1 = t1.subrange(8, 8 + n1 as int);
                                    let t2 = t1.skip(8 + n1 as int);
                                    if t2.len() == 1 && t2[0] == 'n' {
                                        Some((h0, h1, Option::None))
                                    } else if t2.len() >= 1 && t2[0] == 's' {
                                        Some((h0, h1, Option::Some(t2.skip(1))))
                                    } else {
                                        None
                                    }
                                }
                            },
                        }
                    }
                }
            },
        }
    }
}

/// The string holding one decimal digit character.
fn digit_str(d: usize) -> (r: &'static str)
    requires
        d < 10,
    ensures
        r@ == seq![spec_digit(d as nat)],
{
    proof {
        reveal_strlit("0");
        reveal_strlit("1");
        reveal_strlit("2");
        reveal_strlit("3");
        reveal_strlit("4");
        reveal_strlit("5");
        reveal_strlit("6");
        reveal_strlit("7");
        reveal_strlit("8");
        reveal_strlit("9");
    }
    match d {
        0 => "0",
        1 => "1",
        2 => "2",
        3 => "3",
        4 => "4",
        5 => "5",
        6 => "6",
        7 => "7",
        8 => "8",
        _ => "9",
    }
}

/// Appends a length as eight zero-padded decimal digits.
fn push_digits8(out: &mut String, n: usize)
    requires
        n < 100000000,
    ensures
        final(out)@ == old(out)@ + spec_digits8(n as nat),
{
    out.append(digit_str((n / 10000000) % 10));
    out.append(digit_str((n / 1000000) % 10));
    out.append(digit_str((n / 100000) % 10));
    out.append(digit_str((n / 10000) % 10));
    out.append(digit_str((n / 1000) % 10));
    out.append(digit_str((n / 100) % 10));
    out.append(digit_str((n / 10) % 10));
    out.append(digit_str(n % 10));
    proof {
        assert(final(out)@ =~= old(out)@ + spec_digits8(n as nat));
    }
}

/// Encodes an external reference as an attachment tag. Fails with
/// `Malformed` exactly when a locator part is too long for the eight-digit
/// length field.
pub fn encode_attachment_tag(att: &HrlB64WithContext) -> (r: Result<String, BranchyError>)
    ensures
        match r {
            Ok(s) => s@ == spec_attach_encode(att.hrl.0@, att.hrl.1@, att.context.deep_view())
                && att.hrl.0@.len() < 100000000 && att.hrl.1@.len() < 100000000,
            Err(e) => e == BranchyError::Malformed && (att.hrl.0@.len() >= 100000000
                || att.hrl.1@.len() >= 100000000),
        },
{
    let n0 = att.hrl.0.as_str().unicode_len();
    let n1 = att.hrl.1.as_str().unicode_len();
    if n0 >= 100000000 || n1 >= 100000000 {
        return Err(BranchyError::Malformed);
    }
    let mut out = String::new();
    push_digits8(&mut out, n0);
    out.append(att.hrl.0.as_str());
    push_digits8(&mut out, n1);
    out.append(att.hrl.1.as_str());
    match &att.context {
        Option::None => {
            out.append("n");
            proof {
                reveal_strlit("n");
                assert("n"@ =~= seq!['n']);
                assert(out@ =~= spec_attach_encode(
                    att.hrl.0@,
                    att.hrl.1@,
                    att.context.deep_view(),
                ));
            }
        },
        Option::Some(c) => {
            out.append("s");
            out.append(c.as_str());
            proof {
                reveal_strlit("s");
                assert("s"@ =~= seq!['s']);
                assert(out@ =~= spec_attach_encode(
                    att.hrl.0@,
                    att.hrl.1@,
                    att.context.deep_view(),
                ));
            }
        },
    }
    Ok(out)
}

/// Reads the eight-digit length field standing at position `p`.
fn parse8_at(tag: &str, p: usize) -> (r: Result<usize, BranchyError>)
    requires
        p + 8 <= tag@.len(),
        tag@.len() <= usize::MAX,
    ensures
        match r {
            Ok(v) => spec_parse8(tag@.subrange(p as int, p as int + 8)) == Some(v as nat) && v
                < 100000000,
            Err(e) => e == BranchyError::BadLinkTag && spec_parse8(
                tag@.subrange(p as int, p as int + 8),
            ) is None,
        },
{
    let ghost s = tag@.subrange(p as int, p as int + 8);
    let mut acc: usize = 0;
    let mut k: usize = 0;
    proof {
        assert(s.skip(0) =~= s);
    }
    while k < 8
        invariant
            k <= 8,
            p + 8 <= tag@.len(),
            tag@.len() <= usize::MAX,
            s == tag@.subrange(p as int, p as int + 8),
            forall|j: int| 0 <= j < k ==> spec_digit_val(#[trigger] s[j]) is Some,
            spec_val_front(s, 0) == spec_val_front(s.skip(k as int), acc as nat),
            acc < spec_pow10(k as nat),
        decreases 8 - k,
    {
        let c = tag.get_char(p + k);
        proof {
            assert(s[k as int] == tag@[p + k as int]);
            assert(s.skip(k as int)[0] == s[k as int]);
            assert(s.skip(k as int).skip(1) =~= s.skip(k as int + 1));
        }
        let d: usize = if c == '0' {
            0
        } else if c == '1' {
            1
        } else if c == '2' {
            2
        } else if c == '3' {
            3
        } else if c == '4' {
            4
        } else if c == '5' {
            5
        } else if c == '6' {
            6
        } else if c == '7' {
            7
        } else if c == '8' {
            8
        } else if c == '9' {
            9
        } else {
            return Err(BranchyError::BadLinkTag);
        };
        proof {
            assert(spec_digit_val(s[k as int]) == Some(d as nat));
            assert(acc < 10000000);
        }
        acc = acc * 10 + d;
        k = k + 1;
    }
    proof {
        assert(s.skip(8) =~= Seq::<char>::empty());
    }
    Ok(acc)
}

/// Ten to a power no greater than eight; the sizes the length fields span.
pub open spec fn spec_pow10(k: nat) -> nat {
    if k == 0 {
        1
    } else if k == 1 {
        10
    } else if k == 2 {
        100
    } else if k == 3 {
        1000
    } else if k == 4 {
        10000
    } else if k == 5 {
        100000
    } else if k == 6 {
        1000000
    } else if k == 7 {
        10000000
    } else {
        100000000
    }
}

/// Decodes an attachment tag back into the external reference it encodes;
/// fails with `BadLinkTag` on any byte string this layout did not produce.
pub fn convert_attachment_tag(tag: &str) -> (r: Result<HrlB64WithContext, BranchyError>)
    ensures
        match r {
            Ok(v) => spec_attach_decode(tag@) == Some((v.hrl.0@, v.hrl.1@, v.context.deep_view())),
            Err(e) => e == BranchyError::BadLinkTag && spec_attach_decode(tag@) is None,
        },
{
    let n = tag.unicode_len();
    if n < 8 {
        return Err(BranchyError::BadLinkTag);
    }
    proof {
        assert(tag@.subrange(0, 8) =~= tag@.take(8));
    }
    let n0 = match parse8_at(tag, 0) {
        Ok(v) => v,
        Err(e) => {
            return Err(e);
        },
    };
    if n - 8 < n0 {
        return Err(BranchyError::BadLinkTag);
    }
    let h0 = String::from_str(tag.substring_char(8, 8 + n0));
    let p = 8 + n0;
    let ghost t1 = tag@.skip(p as int);
    proof {
        assert(tag@.subrange(8, 8 + n0 as int) =~= tag@.take(8 + n0 as int).skip(8));
        assert(h0@ == tag@.subrange(8, 8 + n0 as int));
    }
    if n - p < 8 {
        return Err(BranchyError::BadLinkTag);
    }
    proof {
        assert(t1.take(8) =~= tag@.subrange(p as int, p as int + 8));
    }
    let n1 = match parse8_at(tag, p) {
        Ok(v) => v,
        Err(e) => {
            return Err(e);
        },
    };
    if n - p - 8 < n1 {
        return Err(BranchyError::BadLinkTag);
    }
    let h1 = String::from_str(tag.substring_char(p + 8, p + 8 + n1));
    proof {
        assert(t1.subrange(8, 8 + n1 as int) =~= tag@.subrange(
            p as int + 8,
            p as int + 8 + n1 as int,
        ));
    }
    let p2 = p + 8 + n1;
    let ghost t2 = t1.skip(8 + n1 as int);
    proof {
        assert(t2 =~= tag@.skip(p2 as int));
    }
    if p2 >= n {
        return Err(BranchyError::BadLinkTag);
    }
    let c = tag.get_char(p2);
    proof {
        assert(t2[0] == tag@[p2 as int]);
    }
    if c == 'n' {
        if p2 + 1 != n {
            return Err(BranchyError::BadLinkTag);
        }
        Ok(HrlB64WithContext { hrl: (h0, h1), context: Option::None })
    } else if c == 's' {
        let ctx = String::from_str(tag.substring_char(p2 + 1, n));
        proof {
            assert(t2.skip(1) =~= tag@.subrange(p2 as int + 1, n as int));
        }
        Ok(HrlB64WithContext { hrl: (h0, h1), context: Option::Some(ctx) })
    } else {
        Err(BranchyError::BadLinkTag)
    }
}

/// Eight zero-padded digits read back left to right give the length they
/// were written from.
pub proof fn lemma_parse8_digits8(n: nat)
    requires
        n < 100000000,
    ensures
        spec_parse8(spec_digits8(n)) == Some(n),
{
    let s = spec_digits8(n);
    assert(s.len() == 8);
    assert(forall|k: int| 0 <= k < 8 ==> spec_digit_val(#[trigger] s[k]) is Some);
    vstd::arithmetic::div_mod::lemma_div_is_ordered(n as int, 99999999, 10000000);
    assert(n / 10000000 < 10);
    vstd::arithmetic::div_mod::lemma_small_mod((n / 10000000) as nat, 10);
    let a7 = (n / 10000000) % 10;
    assert(a7 == n / 10000000);
    assert(s.skip(1) =~= s.subrange(1, 8));
    assert(s.skip(1).skip(1) =~= s.subrange(2, 8));
    assert(s.subrange(1, 8).skip(1) =~= s.subrange(2, 8));
    assert(s.subrange(2, 8).skip(1) =~= s.subrange(3, 8));
    assert(s.subrange(3, 8).skip(1) =~= s.subrange(4, 8));
    assert(s.subrange(4, 8).skip(1) =~= s.subrange(5, 8));
    assert(s.subrange(5, 8).skip(1) =~= s.subrange(6, 8));
    assert(s.subrange(6, 8).skip(1) =~= s.subrange(7, 8));
    assert(s.subrange(7, 8).skip(1) =~= Seq::<char>::empty());
    lemma_step(n, 10000000, 1000000);
    lemma_step(n, 1000000, 100000);
    lemma_step(n, 100000, 10000);
    lemma_step(n, 10000, 1000);
    lemma_step(n, 1000, 100);
    lemma_step(n, 100, 10);
    lemma_step(n, 10, 1);
    assert(spec_val_front(s, 0) == spec_val_front(s.subrange(1, 8), n / 10000000));
    assert(spec_val_front(s.subrange(1, 8), n / 10000000) == spec_val_front(
        s.subrange(2, 8),
        n / 1000000,
    ));
    assert(spec_val_front(s.subrange(2, 8), n / 1000000) == spec_val_front(
        s.subrange(3, 8),
        n / 100000,
    ));
    assert(spec_val_front(s.subrange(3, 8), n / 100000) == spec_val_front(
        s.subrange(4, 8),
        n / 10000,
    ));
    assert(spec_val_front(s.subrange(4, 8), n / 10000) == spec_val_front(
        s.subrange(5, 8),
        n / 1000,
    ));
    assert(spec_val_front(s.subrange(5, 8), n / 1000) == spec_val_front(s.subrange(6, 8), n / 100));
    assert(spec_val_front(s.subrange(6, 8), n / 100) == spec_val_front(s.subrange(7, 8), n / 10));
    assert(spec_val_front(s.subrange(7, 8), n / 10) == spec_val_front(
        Seq::<char>::empty(),
        n / 1,
    ));
    assert(n / 1 == n);
}

/// One step of reading a zero-padded length: consuming the next digit
/// turns the quotient by `hi` into the quotient by `lo`, where `hi` is ten
/// times `lo`.
proof fn lemma_step(n: nat, hi: nat, lo: nat)
    requires
        lo >= 1,
        hi == lo * 10,
    ensures
        (n / hi) * 10 + (n / lo) % 10 == n / lo,
{
    vstd::arithmetic::div_mod::lemma_div_denominator(n as int, lo as int, 10);
    assert(n / hi == (n / lo) / 10);
    vstd::arithmetic::div_mod::lemma_fundamental_div_mod((n / lo) as int, 10);
}

/// Encoding then decoding an attachment returns it unchanged, for every
/// locator whose parts fit the eight-digit length fields.
pub proof fn lemma_attach_round_trip(h0: Seq<char>, h1: Seq<char>, ctx: Option<Seq<char>>)
    requires
        h0.len() < 100000000,
        h1.len() < 100000000,
    ensures
        spec_attach_decode(spec_attach_encode(h0, h1, ctx)) == Some((h0, h1, ctx)),
{
    let t = spec_attach_encode(h0, h1, ctx);
    let tail = match ctx {
        Option::None => seq!['n'],
        Option::Some(c) => seq!['s'] + c,
    };
    assert(tail.len() >= 1);
    assert(t.len() == 8 + h0.len() + 8 + h1.len() + tail.len());
    assert(t.take(8) =~= spec_digits8(h0.len()));
    lemma_parse8_digits8(h0.len());
    assert(t.subrange(8, 8 + h0.len() as int) =~= h0);
    let t1 = t.skip(8 + h0.len() as int);
    assert(t1 =~= spec_digits8(h1.len()) + h1 + tail);
    assert(t1.take(8) =~= spec_digits8(h1.len()));
    lemma_parse8_digits8(h1.len());
    assert(t1.subrange(8, 8 + h1.len() as int) =~= h1);
    let t2 = t1.skip(8 + h1.len() as int);
    assert(t2 =~= tail);
    match ctx {
        Option::None => {
            assert(t2.len() == 1 && t2[0] == 'n');
        },
        Option::Some(c) => {
            assert(t2[0] == 's');
            assert(t2.skip(1) =~= c);
        },
    }
}

} // verus!
